//! Attacks of whole sides, checks and pins.

use core::ops::Not;

use crate::attacks::{between, between_squares, clear, knight_reach, pawn_reach, reach};
use crate::board::Board;
use crate::board::position::{
    attacker, checker, holds, king_sq, occupied, owned, piece_of, pinned, pins, slides_along,
    threatened,
};
use crate::types::bitboard::BitBoard;
use crate::types::bits::{file_of, group_bits, is_square, lemma_bit_regions, lemma_lowest_bit};
use crate::types::constants::{A, H, AB, HG};
use crate::types::pieces::Piece;
use crate::types::sides::Side;
use crate::types::squares::Square;
use vstd::prelude::*;

verus! {

/// Some piece of the given kind and side attacks `t` when the squares in `occ` are taken.
pub open spec fn kind_attacks(
    mb: Seq<Option<(Side, Piece)>>,
    side: Side,
    piece: Piece,
    t: int,
    occ: Set<int>,
) -> bool {
    exists|a: int| #[trigger] holds(mb, a, side, piece) && reach(piece, side, a, t, occ)
}

impl Board {
    /// The squares that the pawns of `side` attack.
    pub fn pawn_attacks_setwise(&self, side: Side) -> (res: BitBoard)
        requires
            self.state.consistent(),
        ensures
            forall|t: int| #[trigger]
                res.has(t) <==> exists|a: int| #[trigger]
                    holds(self.state.mb(), a, side, Piece::Pawn) && pawn_reach(side, a, t),
    {
        broadcast use group_bits;

        let pawns = self.get_piece_bb(side, Piece::Pawn);
        let (top_left, top_right): (i8, i8) = match side {
            Side::White => (7, 9),
            Side::Black => (-9, -7),
        };
        let left = BitBoard(A).not() & pawns;
        let right = BitBoard(H).not() & pawns;
        let res = left.shift(top_left) | right.shift(top_right);
        proof {
            let mb = self.state.mb();
            assert forall|t: int| #[trigger] res.has(t) <==> exists|a: int| #[trigger]
                holds(mb, a, side, Piece::Pawn) && pawn_reach(side, a, t) by {
                let l = t - top_left;
                let r = t - top_right;
                lemma_bit_regions(A, l);
                lemma_bit_regions(H, r);
                if res.has(t) {
                    if left.has(l) {
                        assert(holds(mb, l, side, Piece::Pawn));
                        assert(pawn_reach(side, l, t));
                    } else {
                        assert(holds(mb, r, side, Piece::Pawn));
                        assert(pawn_reach(side, r, t));
                    }
                }
                if exists|a: int| #[trigger]
                    holds(mb, a, side, Piece::Pawn) && pawn_reach(side, a, t) {
                    let a = choose|a: int| #[trigger]
                        holds(mb, a, side, Piece::Pawn) && pawn_reach(side, a, t);
                    assert(a == l || a == r);
                    if a == l {
                        assert(left.has(l));
                    } else {
                        assert(right.has(r));
                    }
                }
            }
        }
        res
    }

    /// The squares that the knights of `side` attack.
    pub fn knight_attacks_setwise(&self, side: Side) -> (res: BitBoard)
        requires
            self.state.consistent(),
        ensures
            forall|t: int| #[trigger]
                res.has(t) <==> exists|a: int| #[trigger]
                    holds(self.state.mb(), a, side, Piece::Knight) && knight_reach(a, t),
    {
        let knights = self.get_piece_bb(side, Piece::Knight);
        let not_a = knights & BitBoard(A).not();
        let not_ab = knights & BitBoard(AB).not();
        let not_h = knights & BitBoard(H).not();
        let not_hg = knights & BitBoard(HG).not();
        let res = not_a.shift(15) | not_ab.shift(6) | not_a.shift(-17) | not_ab.shift(-10)
            | not_h.shift(17) | not_hg.shift(10) | not_h.shift(-15) | not_hg.shift(-6);
        proof {
            let mb = self.state.mb();
            assert forall|t: int| #[trigger] res.has(t) <==> exists|a: int| #[trigger]
                holds(mb, a, side, Piece::Knight) && knight_reach(a, t) by {
                broadcast use group_bits;

                assert(res.has(t) <==> is_square(t) && (not_a.has(t - 15) || not_ab.has(t - 6)
                    || not_a.has(t + 17) || not_ab.has(t + 10) || not_h.has(t - 17) || not_hg.has(
                    t - 10,
                ) || not_h.has(t + 15) || not_hg.has(t + 6)));
                assert forall|a: int| #![trigger knights.has(a)]
                    (not_a.has(a) <==> knights.has(a) && file_of(a) != 0) && (not_ab.has(a)
                        <==> knights.has(a) && file_of(a) > 1) && (not_h.has(a) <==> knights.has(a)
                        && file_of(a) != 7) && (not_hg.has(a) <==> knights.has(a) && file_of(a)
                        < 6) by {
                    lemma_bit_regions(A, a);
                    lemma_bit_regions(AB, a);
                    lemma_bit_regions(H, a);
                    lemma_bit_regions(HG, a);
                }
                if exists|a: int| #[trigger]
                    holds(mb, a, side, Piece::Knight) && knight_reach(a, t) {
                    let a = choose|a: int| #[trigger]
                        holds(mb, a, side, Piece::Knight) && knight_reach(a, t);
                    assert(knights.has(a));
                    assert(res.has(t));
                }
                if res.has(t) {
                    let a = if not_a.has(t - 15) {
                        t - 15
                    } else if not_ab.has(t - 6) {
                        t - 6
                    } else if not_a.has(t + 17) {
                        t + 17
                    } else if not_ab.has(t + 10) {
                        t + 10
                    } else if not_h.has(t - 17) {
                        t - 17
                    } else if not_hg.has(t - 10) {
                        t - 10
                    } else if not_h.has(t + 15) {
                        t + 15
                    } else {
                        t + 6
                    };
                    assert(knights.has(a));
                    assert(holds(mb, a, side, Piece::Knight));
                    assert(knight_reach(a, t));
                }
            }
        }
        res
    }

    /// The squares that the pieces of one sliding kind attack when the squares of `occ_bb`
    /// are taken.
    fn slider_attacks_setwise(&self, side: Side, piece: Piece, occ_bb: BitBoard) -> (res: BitBoard)
        requires
            self.state.consistent(),
            piece == Piece::Bishop || piece == Piece::Rook || piece == Piece::Queen,
        ensures
            forall|t: int| #[trigger]
                res.has(t) <==> kind_attacks(self.state.mb(), side, piece, t, occ_bb.squares()),
    {
        broadcast use group_bits;

        let sliders = self.get_piece_bb(side, piece);
        let ghost occ = occ_bb.squares();
        let ghost mb = self.state.mb();
        let mut rest = sliders;
        let mut attacks = BitBoard(0);
        while rest.0 != 0
            invariant
                occ == occ_bb.squares(),
                mb == self.state.mb(),
                piece == Piece::Bishop || piece == Piece::Rook || piece == Piece::Queen,
                forall|i: int| #[trigger] sliders.has(i) <==> holds(mb, i, side, piece),
                forall|i: int| #[trigger] rest.has(i) ==> sliders.has(i),
                forall|t: int, a: int|
                    sliders.has(a) && !rest.has(a) && #[trigger] reach(piece, side, a, t, occ)
                        ==> attacks.has(t),
                forall|t: int| #[trigger]
                    attacks.has(t) ==> kind_attacks(mb, side, piece, t, occ),
            decreases rest.0,
        {
            let ghost before = rest;
            let ghost sofar = attacks;
            if let Some(square) = rest.pop_lsb() {
                let more = match piece {
                    Piece::Bishop => self.get_bishop_attacks(square, occ_bb),
                    Piece::Rook => self.get_rook_attacks(square, occ_bb),
                    _ => self.get_queen_attacks(square, occ_bb),
                };
                attacks = attacks | more;
                proof {
                    broadcast use group_bits;

                    let s = square.idx();
                    assert(holds(mb, s, side, piece));
                    assert forall|t: int| #[trigger] attacks.has(t) implies kind_attacks(
                        mb,
                        side,
                        piece,
                        t,
                        occ,
                    ) by {
                        if sofar.has(t) {
                        } else {
                            assert(more.has(t));
                            assert(reach(piece, side, s, t, occ));
                        }
                    }
                    assert forall|t: int, a: int|
                        sliders.has(a) && !rest.has(a) && #[trigger] reach(
                            piece,
                            side,
                            a,
                            t,
                            occ,
                        ) implies attacks.has(t) by {
                        if a == s {
                            assert(more.has(t));
                        } else {
                            assert(!before.has(a));
                            assert(sofar.has(t));
                        }
                    }
                }
            }
        }
        proof {
            lemma_lowest_bit(rest.0);
        }
        attacks
    }

    /// The squares that the bishops of `side` attack when the squares of `occ_bb` are taken.
    pub fn bishop_attacks_setwise(&self, side: Side, occ_bb: BitBoard) -> (res: BitBoard)
        requires
            self.state.consistent(),
        ensures
            forall|t: int| #[trigger]
                res.has(t) <==> kind_attacks(
                    self.state.mb(),
                    side,
                    Piece::Bishop,
                    t,
                    occ_bb.squares(),
                ),
    {
        self.slider_attacks_setwise(side, Piece::Bishop, occ_bb)
    }

    /// The squares that the rooks of `side` attack when the squares of `occ_bb` are taken.
    pub fn rook_attacks_setwise(&self, side: Side, occ_bb: BitBoard) -> (res: BitBoard)
        requires
            self.state.consistent(),
        ensures
            forall|t: int| #[trigger]
                res.has(t) <==> kind_attacks(
                    self.state.mb(),
                    side,
                    Piece::Rook,
                    t,
                    occ_bb.squares(),
                ),
    {
        self.slider_attacks_setwise(side, Piece::Rook, occ_bb)
    }

    /// The squares that the queens of `side` attack when the squares of `occ_bb` are taken.
    pub fn queen_attacks_setwise(&self, side: Side, occ_bb: BitBoard) -> (res: BitBoard)
        requires
            self.state.consistent(),
        ensures
            forall|t: int| #[trigger]
                res.has(t) <==> kind_attacks(
                    self.state.mb(),
                    side,
                    Piece::Queen,
                    t,
                    occ_bb.squares(),
                ),
    {
        self.slider_attacks_setwise(side, Piece::Queen, occ_bb)
    }

    /// The sliders of the opponent that look at the king of `side` along a line, whatever
    /// stands between.
    fn line_up(&self, side: Side, king_square: Square) -> (res: BitBoard)
        requires
            self.state.consistent(),
        ensures
            forall|a: int| #[trigger]
                res.has(a) <==> owned(self.state.mb(), side.other(), a) && slides_along(
                    piece_of(self.state.mb()[a]),
                    a,
                    king_square.idx(),
                ),
    {
        broadcast use group_bits;

        let none = BitBoard(0);
        let queens = self.get_piece_bb(side.other(), Piece::Queen);
        let bishops = self.get_piece_bb(side.other(), Piece::Bishop);
        let rooks = self.get_piece_bb(side.other(), Piece::Rook);
        let diagonals = self.get_bishop_attacks(king_square, none);
        let lines = self.get_rook_attacks(king_square, none);
        let res = (diagonals & (bishops | queens)) | (lines & (rooks | queens));
        proof {
            let k = king_square.idx();
            let mb = self.state.mb();
            assert forall|a: int| #[trigger] res.has(a) <==> owned(mb, side.other(), a)
                && slides_along(piece_of(mb[a]), a, k) by {
                assert(clear(k, a, none.squares()));
                assert(queens.has(a) <==> holds(mb, a, side.other(), Piece::Queen));
                assert(bishops.has(a) <==> holds(mb, a, side.other(), Piece::Bishop));
                assert(rooks.has(a) <==> holds(mb, a, side.other(), Piece::Rook));
            }
        }
        res
    }

    /// Brings threats, checks and pins against the side to move up to date.
    pub fn update_all_threats(&mut self)
        requires
            old(self).state.consistent(),
            old(self).state.kings(),
        ensures
            final(self).same_past(*old(self)),
            final(self).state.same_but_threats(old(self).state),
            final(self).state.pinned_bb(old(self).state.side_to_move.other()) == old(
                self,
            ).state.pinned_bb(old(self).state.side_to_move.other()),
            final(self).state.threats_current(),
    {
        let stm = self.state.side_to_move;
        let king_square = self.get_king_square(stm);
        let threats = self.all_attacks(stm, king_square);
        let (checkers, pins) = self.checks_and_pins(stm, king_square);
        self.state.threats = threats;
        self.state.checkers = checkers;
        self.state.pinned[stm as usize] = pins;
    }

    /// The squares that the opponent of `stm` attacks with the king of `stm` off the board.
    fn all_attacks(&self, stm: Side, king_square: Square) -> (res: BitBoard)
        requires
            self.state.consistent(),
            self.state.kings(),
            king_square.idx() == king_sq(self.state.mb(), stm),
        ensures
            forall|t: int| #[trigger] res.has(t) <==> threatened(self.state.mb(), stm.other(), t),
    {
        let side = stm.other();
        let all = self.get_all_occupancy();
        let mut occ_bb = all;
        occ_bb.clear_bit(king_square);
        let pawns = self.pawn_attacks_setwise(side);
        let knights = self.knight_attacks_setwise(side);
        let bishops = self.bishop_attacks_setwise(side, occ_bb);
        let rooks = self.rook_attacks_setwise(side, occ_bb);
        let queens = self.queen_attacks_setwise(side, occ_bb);
        let other_king = self.get_king_square(side);
        let king = self.get_king_attacks(other_king);
        let res = pawns | knights | bishops | rooks | queens | king;
        proof {
            let mb = self.state.mb();
            let occ = occupied(mb).remove(king_square.idx());
            assert(occ_bb.squares() =~= occ) by {
                assert forall|i: int| occ_bb.squares().contains(i) <==> occ.contains(i) by {
                    assert(occ_bb.has(i) <==> all.has(i) && i != king_square.idx());
                    assert(all.has(i) <==> is_square(i) && mb[i] is Some);
                }
            }
            assert forall|t: int| #[trigger] res.has(t) <==> threatened(mb, side, t) by {
                broadcast use group_bits;

                assert(stm == side.other());
                if res.has(t) {
                    let a = if pawns.has(t) {
                        choose|a: int| #[trigger]
                            holds(mb, a, side, Piece::Pawn) && pawn_reach(side, a, t)
                    } else if knights.has(t) {
                        choose|a: int| #[trigger]
                            holds(mb, a, side, Piece::Knight) && knight_reach(a, t)
                    } else if bishops.has(t) {
                        choose|a: int| #[trigger]
                            holds(mb, a, side, Piece::Bishop) && reach(Piece::Bishop, side, a, t, occ)
                    } else if rooks.has(t) {
                        choose|a: int| #[trigger]
                            holds(mb, a, side, Piece::Rook) && reach(Piece::Rook, side, a, t, occ)
                    } else if queens.has(t) {
                        choose|a: int| #[trigger]
                            holds(mb, a, side, Piece::Queen) && reach(Piece::Queen, side, a, t, occ)
                    } else {
                        other_king.idx()
                    };
                    assert(attacker(mb, side, a, t, occ));
                }
                if threatened(mb, side, t) {
                    let a = choose|a: int| #[trigger] attacker(mb, side, a, t, occ);
                    let p = piece_of(mb[a]);
                    assert(holds(mb, a, side, p));
                    match p {
                        Piece::Pawn => assert(pawns.has(t)),
                        Piece::Knight => assert(knights.has(t)),
                        Piece::Bishop => assert(bishops.has(t)),
                        Piece::Rook => assert(rooks.has(t)),
                        Piece::Queen => assert(queens.has(t)),
                        Piece::King => assert(king.has(t)),
                    }
                }
            }
        }
        res
    }

    /// The pieces that give check to `stm`, and the pieces of `stm` that are pinned.
    fn checks_and_pins(&self, stm: Side, king_square: Square) -> (res: (BitBoard, BitBoard))
        requires
            self.state.consistent(),
            self.state.kings(),
            king_square.idx() == king_sq(self.state.mb(), stm),
        ensures
            forall|a: int| #[trigger] res.0.has(a) <==> checker(self.state.mb(), stm, a),
            forall|b: int| #[trigger] res.1.has(b) <==> pinned(self.state.mb(), stm, b),
    {
        let ghost mb = self.state.mb();
        let ghost k = king_square.idx();
        let enemy_pawns = self.get_piece_bb(stm.other(), Piece::Pawn);
        let enemy_knights = self.get_piece_bb(stm.other(), Piece::Knight);
        let contact = (self.get_pawn_attacks(king_square, stm) & enemy_pawns) | (
        self.get_knight_attacks(king_square) & enemy_knights);
        proof {
            assert forall|a: int| #[trigger] contact.has(a) <==> (holds(
                mb,
                a,
                stm.other(),
                Piece::Pawn,
            ) && pawn_reach(stm.other(), a, k)) || (holds(mb, a, stm.other(), Piece::Knight)
                && knight_reach(a, k)) by {
                broadcast use group_bits;

                assert(enemy_pawns.has(a) <==> holds(mb, a, stm.other(), Piece::Pawn));
                assert(enemy_knights.has(a) <==> holds(mb, a, stm.other(), Piece::Knight));
            }
        }
        let mut checkers = contact;
        let mut pins_bb = BitBoard(0);
        let occupied_bb = self.get_all_occupancy();
        let own = self.state.occupancies[stm as usize];
        let sliders = self.line_up(stm, king_square);
        let mut rest = sliders;
        proof {
            broadcast use group_bits;

            assert(own == self.state.side_bb(stm));
        }
        while rest.0 != 0
            invariant
                mb == self.state.mb(),
                k == king_square.idx(),
                k == king_sq(mb, stm),
                forall|i: int| #[trigger] own.has(i) <==> owned(mb, stm, i),
                forall|i: int| #[trigger] occupied_bb.has(i) <==> is_square(i) && mb[i] is Some,
                forall|a: int| #[trigger]
                    sliders.has(a) <==> owned(mb, stm.other(), a) && slides_along(
                        piece_of(mb[a]),
                        a,
                        k,
                    ),
                forall|i: int| #[trigger] rest.has(i) ==> sliders.has(i),
                forall|a: int| #[trigger]
                    checkers.has(a) <==> contact.has(a) || (sliders.has(a) && !rest.has(a)
                        && clear(a, k, occupied(mb))),
                forall|b: int| #[trigger] pins_bb.has(b) ==> pinned(mb, stm, b),
                forall|a: int, b: int| #[trigger]
                    pins(mb, stm, a, b) && !rest.has(a) ==> pins_bb.has(b),
            decreases rest.0,
        {
            let ghost before = rest;
            let ghost pins_before = pins_bb;
            let ghost checkers_before = checkers;
            if let Some(square) = rest.pop_lsb() {
                let path = between_squares(square, king_square);
                let blockers = path & occupied_bb;
                let ghost s = square.idx();
                proof {
                    broadcast use group_bits;

                    lemma_lowest_bit(blockers.0);
                    assert forall|x: int| #[trigger] blockers.has(x) <==> between(s, k, x)
                        && mb[x] is Some by {
                        assert(path.has(x) <==> between(s, k, x));
                        assert(occupied_bb.has(x) <==> is_square(x) && mb[x] is Some);
                    }
                }
                match blockers.least_sig_bit() {
                    None => {
                        checkers.set_bit(square);
                        proof {
                            assert(clear(s, k, occupied(mb))) by {
                                assert forall|x: int| #[trigger] between(s, k, x) implies !occupied(
                                    mb,
                                ).contains(x) by {
                                    assert(!blockers.has(x));
                                }
                            }
                            assert forall|b: int| !pins(mb, stm, s, b) by {
                                assert(!blockers.has(b));
                            }
                        }
                    },
                    Some(blocker) => {
                        let mut others = blockers;
                        others.clear_bit(blocker);
                        let ghost w = blocker.idx();
                        proof {
                            assert(between(s, k, w) && occupied(mb).contains(w));
                            assert(!clear(s, k, occupied(mb)));
                        }
                        if others.is_empty() && own.contains(blocker) {
                            pins_bb.set_bit(blocker);
                            proof {
                                assert forall|x: int| #[trigger] between(s, k, x) && x
                                    != w implies mb[x] is None by {
                                    assert(!others.has(x));
                                    assert(!blockers.has(x));
                                }
                                assert(pins(mb, stm, s, w));
                                assert forall|b: int| #[trigger] pins(mb, stm, s, b) implies b
                                    == w by {
                                    assert(blockers.has(b));
                                }
                            }
                        } else {
                            assert forall|b: int| !pins(mb, stm, s, b) by {
                                if pins(mb, stm, s, b) {
                                    assert(blockers.has(b));
                                    assert(w == b) by {
                                        assert(between(s, k, w));
                                    }
                                    assert forall|x: int| !others.has(x) by {
                                        if others.has(x) {
                                            assert(blockers.has(x));
                                            assert(between(s, k, x));
                                        }
                                    }
                                }
                            }
                        }
                    },
                }
                proof {
                    assert forall|a: int, b: int| #[trigger]
                        pins(mb, stm, a, b) && !rest.has(a) implies pins_bb.has(b) by {
                        if a != s {
                            assert(!before.has(a));
                            assert(pins_before.has(b));
                        }
                    }
                    assert forall|b: int| #[trigger] pins_bb.has(b) implies pinned(mb, stm, b) by {
                        if pins_before.has(b) {
                        }
                    }
                    assert forall|a: int| #[trigger] checkers.has(a) <==> contact.has(a) || (
                    sliders.has(a) && !rest.has(a) && clear(a, k, occupied(mb))) by {
                        assert(checkers_before.has(a) <==> contact.has(a) || (sliders.has(a)
                            && !before.has(a) && clear(a, k, occupied(mb))));
                    }
                }
            }
        }
        proof {
            lemma_lowest_bit(rest.0);
            assert forall|a: int| #[trigger] checkers.has(a) <==> checker(mb, stm, a) by {
                assert(contact.has(a) <==> (holds(mb, a, stm.other(), Piece::Pawn) && pawn_reach(
                    stm.other(),
                    a,
                    k,
                )) || (holds(mb, a, stm.other(), Piece::Knight) && knight_reach(a, k)));
                assert(sliders.has(a) <==> owned(mb, stm.other(), a) && slides_along(
                    piece_of(mb[a]),
                    a,
                    k,
                ));
                assert(is_square(k));
            }
        }
        (checkers, pins_bb)
    }
}

} // verus!
