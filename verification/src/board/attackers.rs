//! Questions about single squares and about pawns.

use core::ops::Not;

use crate::attacks::{king_reach, knight_reach, pawn_reach, reach};
use crate::board::Board;
use crate::board::legality::fair;
use crate::board::makemove::{forward, pawn_home};
use crate::board::position::{
    attacked, attacker, checker, holds, king_sq, lemma_king_exists, occupied, owned, piece_of,
    single_king, slides_along,
};
use crate::types::bitboard::BitBoard;
use crate::types::bits::{group_bits, is_square, lemma_bit_regions, lemma_lowest_bit, rank_of};
use crate::types::constants::{NORTH, RANK_4, RANK_5, SOUTH};
use crate::types::pieces::Piece;
use crate::types::sides::Side;
use crate::types::squares::{partner, Square};
use vstd::prelude::*;

verus! {

/// Some piece of `side` reaches `t`, any of its kings included.
pub open spec fn reached_by(mb: Seq<Option<(Side, Piece)>>, side: Side, t: int) -> bool {
    exists|a: int| #[trigger]
        owned(mb, side, a) && reach(piece_of(mb[a]), side, a, t, occupied(mb))
}

impl Board {
    /// The pieces of `side` that reach a square.
    fn attackers_of(&self, square: Square, side: Side) -> (res: BitBoard)
        requires
            self.state.consistent(),
        ensures
            forall|a: int| #[trigger]
                res.has(a) <==> owned(self.state.mb(), side, a) && reach(
                    piece_of(self.state.mb()[a]),
                    side,
                    a,
                    square.idx(),
                    occupied(self.state.mb()),
                ),
    {
        let all = self.get_all_occupancy();
        let pawns = self.get_piece_bb(side, Piece::Pawn);
        let knights = self.get_piece_bb(side, Piece::Knight);
        let kings = self.get_piece_bb(side, Piece::King);
        let bishops = self.get_piece_bb(side, Piece::Bishop);
        let rooks = self.get_piece_bb(side, Piece::Rook);
        let queens = self.get_piece_bb(side, Piece::Queen);
        let res = (pawns & self.get_pawn_attacks(square, side.other())) | (knights
            & self.get_knight_attacks(square)) | (kings & self.get_king_attacks(square)) | ((bishops
            | queens) & self.get_bishop_attacks(square, all)) | ((rooks | queens)
            & self.get_rook_attacks(square, all));
        proof {
            let mb = self.state.mb();
            let t = square.idx();
            let occ = occupied(mb);
            assert forall|a: int| #[trigger] res.has(a) <==> owned(mb, side, a) && reach(
                piece_of(mb[a]),
                side,
                a,
                t,
                occ,
            ) by {
                broadcast use group_bits;

                assert(pawns.has(a) <==> holds(mb, a, side, Piece::Pawn));
                assert(knights.has(a) <==> holds(mb, a, side, Piece::Knight));
                assert(kings.has(a) <==> holds(mb, a, side, Piece::King));
                assert(bishops.has(a) <==> holds(mb, a, side, Piece::Bishop));
                assert(rooks.has(a) <==> holds(mb, a, side, Piece::Rook));
                assert(queens.has(a) <==> holds(mb, a, side, Piece::Queen));
                if is_square(a) {
                    lemma_reach_back(a, t, occ);
                }
            }
        }
        res
    }

    /// Whether `side` attacks a square.
    pub fn is_attacked_at_by(&self, square: Square, side: Side) -> (res: bool)
        requires
            self.state.consistent(),
        ensures
            res == reached_by(self.state.mb(), side, square.idx()),
    {
        let attackers = self.attackers_of(square, side);
        proof {
            let mb = self.state.mb();
            let t = square.idx();
            lemma_lowest_bit(attackers.0);
            if attackers.0 != 0 {
                let a = vstd::std_specs::bits::u64_trailing_zeros(attackers.0) as int;
                assert(attackers.has(a));
                assert(owned(mb, side, a) && reach(piece_of(mb[a]), side, a, t, occupied(mb)));
            }
            if reached_by(mb, side, t) {
                let a = choose|a: int| #[trigger]
                    owned(mb, side, a) && reach(piece_of(mb[a]), side, a, t, occupied(mb));
                assert(attackers.has(a));
            }
        }
        attackers.0 != 0
    }

    /// The pawns of `side` with a free square in front.
    pub fn pawns_with_pushes(&self, side: Side) -> (res: BitBoard)
        requires
            self.state.consistent(),
        ensures
            forall|i: int| #[trigger]
                res.has(i) <==> holds(self.state.mb(), i, side, Piece::Pawn) && is_square(
                    i + forward(side),
                ) && self.state.mb()[i + forward(side)] is None,
    {
        let all = self.get_all_occupancy();
        let empty = all.not();
        let pawns = self.get_piece_bb(side, Piece::Pawn);
        let offset: i8 = match side {
            Side::White => SOUTH,
            Side::Black => NORTH,
        };
        let res = empty.shift(offset) & pawns;
        proof {
            let mb = self.state.mb();
            assert forall|i: int| #[trigger] res.has(i) <==> holds(mb, i, side, Piece::Pawn)
                && is_square(i + forward(side)) && mb[i + forward(side)] is None by {
                broadcast use group_bits;

                assert(pawns.has(i) <==> holds(mb, i, side, Piece::Pawn));
                assert(all.has(i + forward(side)) <==> is_square(i + forward(side)) && mb[i
                    + forward(side)] is Some);
            }
        }
        res
    }

    /// The pawns of `side` that can advance two ranks to the middle of the board.
    pub fn pawns_with_double_pushes(&self, side: Side) -> (res: BitBoard)
        requires
            self.state.consistent(),
        ensures
            forall|i: int| #[trigger]
                res.has(i) <==> holds(self.state.mb(), i, side, Piece::Pawn) && rank_of(i)
                    == pawn_home(side) && self.state.mb()[i + forward(side)] is None
                    && self.state.mb()[i + 2 * forward(side)] is None,
    {
        let all = self.get_all_occupancy();
        let empty = all.not();
        let pawns = self.get_piece_bb(side, Piece::Pawn);
        let offset: i8 = match side {
            Side::White => SOUTH,
            Side::Black => NORTH,
        };
        let landing = match side {
            Side::White => empty & BitBoard(RANK_4),
            Side::Black => empty & BitBoard(RANK_5),
        };
        let passing = empty & landing.shift(offset);
        let res = passing.shift(offset) & pawns;
        proof {
            let mb = self.state.mb();
            assert forall|i: int| #[trigger] res.has(i) <==> holds(mb, i, side, Piece::Pawn)
                && rank_of(i) == pawn_home(side) && mb[i + forward(side)] is None && mb[i + 2
                * forward(side)] is None by {
                broadcast use group_bits;

                let f = forward(side);
                assert(pawns.has(i) <==> holds(mb, i, side, Piece::Pawn));
                assert(all.has(i + f) <==> is_square(i + f) && mb[i + f] is Some);
                assert(all.has(i + 2 * f) <==> is_square(i + 2 * f) && mb[i + 2 * f] is Some);
                lemma_bit_regions(RANK_4, i + 2 * f);
                lemma_bit_regions(RANK_5, i + 2 * f);
                assert(passing.has(i + f) <==> empty.has(i + f) && landing.has(i + f + f));
            }
        }
        res
    }

    /// Whether the position can arise in a game, so that the moves of its continuation stay
    /// within the rules.
    pub fn is_fair(&self) -> (res: bool)
        requires
            self.wf(),
        ensures
            res == fair(self.state),
    {
        let stm = self.state.side_to_move;
        let ghost mb = self.state.mb();
        if !self.one_king(Side::White) || !self.one_king(Side::Black) {
            return false;
        }
        let king_square = self.get_king_square(stm);
        let other_king = self.get_king_square(stm.other());
        proof {
            lemma_reached_attacked(mb, stm, king_sq(mb, stm.other()));
        }
        if self.is_attacked_at_by(other_king, stm) {
            return false;
        }
        match self.state.enpassant {
            None => true,
            Some(enpassant) => {
                let pawns = self.get_pawn_attacks(king_square, stm);
                let knights = self.get_knight_attacks(king_square);
                let mut contact = self.state.checkers & (pawns | knights) & self.contact_pieces();
                contact.clear_bit(enpassant.across());
                proof {
                    broadcast use group_bits;

                    let e = enpassant.idx();
                    let k = king_square.idx();
                    assert forall|c: int| #[trigger] contact.has(c) <==> checker(mb, stm, c) && c
                        != partner(e) && !slides_along(piece_of(mb[c]), c, k) by {
                        assert(self.state.checkers.has(c) <==> checker(mb, stm, c));
                        if is_square(c) {
                            lemma_reach_back(c, k, occupied(mb));
                        }
                    }
                    lemma_lowest_bit(contact.0);
                    if contact.0 != 0 {
                        let c = vstd::std_specs::bits::u64_trailing_zeros(contact.0) as int;
                        assert(contact.has(c));
                        assert(checker(mb, stm, c));
                    } else {
                        assert forall|c: int| #[trigger] checker(mb, stm, c) implies c == partner(
                            e,
                        ) || slides_along(piece_of(mb[c]), c, k) by {
                            assert(!contact.has(c));
                        }
                    }
                }
                contact.is_empty()
            },
        }
    }

    /// The pawns and knights of both sides.
    fn contact_pieces(&self) -> (res: BitBoard)
        requires
            self.state.consistent(),
        ensures
            forall|i: int| #[trigger]
                res.has(i) <==> is_square(i) && self.state.mb()[i] is Some && (piece_of(
                    self.state.mb()[i],
                ) == Piece::Pawn || piece_of(self.state.mb()[i]) == Piece::Knight),
    {
        let pawns = self.state.pieces[Piece::Pawn as usize];
        let knights = self.state.pieces[Piece::Knight as usize];
        let res = pawns | knights;
        proof {
            broadcast use group_bits;

            let st = self.state;
            assert forall|i: int| #[trigger] res.has(i) <==> is_square(i) && st.mb()[i] is Some && (
            piece_of(st.mb()[i]) == Piece::Pawn || piece_of(st.mb()[i]) == Piece::Knight) by {
                assert(st.kind_bb(Piece::Pawn).has(i) <==> crate::board::position::of_kind(
                    st.mb(),
                    Piece::Pawn,
                    i,
                ));
                assert(st.kind_bb(Piece::Knight).has(i) <==> crate::board::position::of_kind(
                    st.mb(),
                    Piece::Knight,
                    i,
                ));
            }
        }
        res
    }

    /// Whether a side that has a king has one king only.
    fn one_king(&self, side: Side) -> (res: bool)
        requires
            self.state.consistent(),
            self.state.kings(),
        ensures
            res == single_king(self.state.mb(), side),
    {
        let mut kings = self.get_piece_bb(side, Piece::King);
        let ghost all = kings;
        let ghost mb = self.state.mb();
        let first = kings.pop_lsb();
        proof {
            lemma_king_exists(mb, side);
            assert(all.has(king_sq(mb, side)));
            let k = first->0.idx();
            assert(holds(mb, k, side, Piece::King));
            lemma_lowest_bit(kings.0);
            if kings.0 != 0 {
                let j = vstd::std_specs::bits::u64_trailing_zeros(kings.0) as int;
                assert(kings.has(j));
                assert(all.has(j));
                assert(holds(mb, j, side, Piece::King));
            } else {
                assert forall|i: int| #[trigger] holds(mb, i, side, Piece::King) implies i == k by {
                    assert(all.has(i));
                    assert(!kings.has(i));
                }
            }
        }
        kings.is_empty()
    }
}

/// Lines, jumps and steps can be gone back.
proof fn lemma_reach_back(a: int, t: int, occ: Set<int>)
    requires
        is_square(a),
        is_square(t),
    ensures
        crate::attacks::bishop_reach(a, t, occ) == crate::attacks::bishop_reach(t, a, occ),
        crate::attacks::rook_reach(a, t, occ) == crate::attacks::rook_reach(t, a, occ),
        knight_reach(a, t) == knight_reach(t, a),
        king_reach(a, t) == king_reach(t, a),
        pawn_reach(Side::White, a, t) == pawn_reach(Side::Black, t, a),
        pawn_reach(Side::Black, a, t) == pawn_reach(Side::White, t, a),
{
    assert forall|x: int| crate::attacks::between(a, t, x) == crate::attacks::between(t, a, x) by {}
    assert(crate::attacks::clear(a, t, occ) == crate::attacks::clear(t, a, occ)) by {
        if crate::attacks::clear(a, t, occ) {
            assert forall|x: int| #[trigger] crate::attacks::between(
                t,
                a,
                x,
            ) implies !occ.contains(x) by {
                assert(crate::attacks::between(a, t, x));
            }
        }
        if crate::attacks::clear(t, a, occ) {
            assert forall|x: int| #[trigger] crate::attacks::between(
                a,
                t,
                x,
            ) implies !occ.contains(x) by {
                assert(crate::attacks::between(t, a, x));
            }
        }
    }
}

/// With one king the two ways to count attackers agree.
proof fn lemma_reached_attacked(mb: Seq<Option<(Side, Piece)>>, side: Side, t: int)
    requires
        single_king(mb, side),
        crate::board::position::has_king(mb, side),
    ensures
        reached_by(mb, side, t) == attacked(mb, side, t, occupied(mb)),
{
    lemma_king_exists(mb, side);
    let occ = occupied(mb);
    if reached_by(mb, side, t) {
        let a = choose|a: int| #[trigger]
            owned(mb, side, a) && reach(piece_of(mb[a]), side, a, t, occ);
        if piece_of(mb[a]) == Piece::King {
            assert(holds(mb, a, side, Piece::King));
            assert(holds(mb, king_sq(mb, side), side, Piece::King));
        }
        assert(attacker(mb, side, a, t, occ));
    }
    if attacked(mb, side, t, occ) {
        let a = choose|a: int| #[trigger] attacker(mb, side, a, t, occ);
        assert(owned(mb, side, a) && reach(piece_of(mb[a]), side, a, t, occ));
    }
}

} // verus!
