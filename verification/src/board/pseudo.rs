//! The moves of the pieces, whether or not they leave the own king in check.

use core::ops::Not;

use crate::attacks::{pawn_reach, reach};
use crate::board::{Board, BoardState};
use crate::board::legality::{
    fair, in_check, king_moves, law_generated_legal, officer_moves, pawn_moves,
};
use crate::board::makemove::{applied, forward, passant_live, pawn_home};
use crate::board::movegen::{by_place, castling_step, generated, last_rank};
use crate::board::position::{holds, occupied, owned, Placement};
use crate::types::bitboard::BitBoard;
use crate::types::bits::{group_bits, is_square, lemma_lowest_bit, rank_of};
use crate::types::constants::{NORTH, SOUTH};
use crate::types::moves::{
    added, ascending, by_squares, by_target, extends, lemma_added_join, lemma_added_none,
    lemma_added_push, lemma_ascending_join, lemma_ascending_push, lemma_ascending_shift, Move,
    MoveKind, MoveList, Step,
};
use crate::types::pieces::Piece;
use crate::types::sides::Side;
use crate::types::squares::Square;
use vstd::prelude::*;

verus! {

/// A piece moves as it does, checks against its own king aside, or the king castles.
pub open spec fn pseudo_legal(st: BoardState, s: Step) -> bool {
    let mb = st.mb();
    let stm = st.side_to_move;
    ||| officer_moves(mb, stm, s)
    ||| king_moves(mb, stm, s)
    ||| pawn_moves(mb, stm, st.ep(), s)
    ||| castling_step(mb, stm, st.castling_rights, s)
}

/// The legal moves are those of these moves that castle or do not leave the own king in
/// check.
pub proof fn law_pseudo_legal(st: BoardState, s: Step)
    requires
        st.kings(),
        fair(st),
        st.ep() matches Some(e) ==> passant_live(st.mb(), st.side_to_move, e),
    ensures
        generated(st, s) <==> pseudo_legal(st, s) && (castling_step(
            st.mb(),
            st.side_to_move,
            st.castling_rights,
            s,
        ) || !in_check(applied(st.mb(), s), st.side_to_move)),
{
    law_generated_legal(st, s);
}

/// A piece of the given kind goes where it attacks, to take or to a free square.
pub open spec fn piece_goes(st: BoardState, piece: Piece, s: Step) -> bool {
    let mb = st.mb();
    let stm = st.side_to_move;
    &&& holds(mb, s.from, stm, piece)
    &&& reach(piece, stm, s.from, s.to, occupied(mb))
    &&& is_square(s.to)
    &&& {
        ||| s.kind is Capture && owned(mb, stm.other(), s.to)
        ||| s.kind is QuietMove && mb[s.to] is None
    }
}

/// The kinds of a pawn's move to a square it may go to: plain, or a promotion on the last
/// rank.
pub open spec fn target_kind(stm: Side, to: int, capture: bool, kind: MoveKind) -> bool {
    if rank_of(to) == last_rank(stm) {
        if capture {
            kind is NPromCapture || kind is BPromCapture || kind is RPromCapture
                || kind is QPromCapture
        } else {
            kind is NPromotion || kind is BPromotion || kind is RPromotion || kind is QPromotion
        }
    } else {
        if capture {
            kind is Capture
        } else {
            kind is QuietMove
        }
    }
}

/// The order in which the pieces move.
pub open spec fn piece_order(piece: Piece) -> int {
    match piece {
        Piece::Pawn => 0,
        Piece::Knight => 1,
        Piece::Bishop => 2,
        Piece::Rook => 3,
        Piece::Queen => 4,
        Piece::King => 5,
    }
}

/// The order of the moves of a pawn: two squares forward, one, captures, captures in passing.
pub open spec fn pawn_turn(kind: MoveKind) -> int {
    match kind {
        MoveKind::DoublePawn => 0,
        MoveKind::EnPassant => 3,
        _ => if kind.capturing() {
            2
        } else {
            1
        },
    }
}

/// The order of the promotions to a square: the knight comes first.
pub open spec fn promotion_turn(kind: MoveKind) -> int {
    match kind.promoted() {
        Some(Piece::Bishop) => 1,
        Some(Piece::Rook) => 2,
        Some(Piece::Queen) => 3,
        _ => 0,
    }
}

/// Where a move stands in the list: by the kind of its piece, castling at the end, then by its
/// start, and then by its target.
pub open spec fn pseudo_place(mb: Placement, s: Step) -> int {
    let castling: int = match s.kind {
        MoveKind::KingCastle => 1,
        MoveKind::QueenCastle => 2,
        _ => 0,
    };
    match mb[s.from] {
        Some((_, piece)) => 131072 * (piece_order(piece) + castling) + 2048 * s.from + if piece
            is Pawn {
            512 * pawn_turn(s.kind) + 4 * s.to + promotion_turn(s.kind)
        } else {
            s.to
        },
        None => 0,
    }
}

pub open spec fn by_pseudo_place(mb: Placement) -> spec_fn(Step) -> int {
    |s: Step| pseudo_place(mb, s)
}

/// Appends the moves of a pawn to the given squares.
fn push_pawn_targets(
    move_list: &mut MoveList,
    stm: Side,
    source: Square,
    targets: BitBoard,
    capture: bool,
    Ghost(mb): Ghost<Placement>,
)
    requires
        holds(mb, source.idx(), stm, Piece::Pawn),
    ensures
        extends(old(move_list)@, final(move_list)@),
        added(old(move_list)@, final(move_list)@).no_duplicates(),
        forall|s: Step| #[trigger]
            added(old(move_list)@, final(move_list)@).contains(s) <==> s.from == source.idx()
                && targets.has(s.to) && target_kind(stm, s.to, capture, s.kind),
        ascending(added(old(move_list)@, final(move_list)@), by_pseudo_place(mb)),
{
    let last: usize = match stm {
        Side::White => 7,
        Side::Black => 0,
    };
    let (plain, knight, bishop, rook, queen) = if capture {
        (
            MoveKind::Capture,
            MoveKind::NPromCapture,
            MoveKind::BPromCapture,
            MoveKind::RPromCapture,
            MoveKind::QPromCapture,
        )
    } else {
        (
            MoveKind::QuietMove,
            MoveKind::NPromotion,
            MoveKind::BPromotion,
            MoveKind::RPromotion,
            MoveKind::QPromotion,
        )
    };
    let ghost base = move_list@;
    let ghost key = by_pseudo_place(mb);
    let mut rest = targets;
    proof {
        lemma_added_none(base);
    }
    while rest.0 != 0
        invariant
            base == old(move_list)@,
            key == by_pseudo_place(mb),
            holds(mb, source.idx(), stm, Piece::Pawn),
            last == last_rank(stm),
            (plain, knight, bishop, rook, queen) == if capture {
                (
                    MoveKind::Capture,
                    MoveKind::NPromCapture,
                    MoveKind::BPromCapture,
                    MoveKind::RPromCapture,
                    MoveKind::QPromCapture,
                )
            } else {
                (
                    MoveKind::QuietMove,
                    MoveKind::NPromotion,
                    MoveKind::BPromotion,
                    MoveKind::RPromotion,
                    MoveKind::QPromotion,
                )
            },
            extends(base, move_list@),
            added(base, move_list@).no_duplicates(),
            forall|i: int| #[trigger] rest.has(i) ==> targets.has(i),
            forall|s: Step| #[trigger]
                added(base, move_list@).contains(s) <==> s.from == source.idx() && targets.has(s.to)
                    && !rest.has(s.to) && target_kind(stm, s.to, capture, s.kind),
            ascending(added(base, move_list@), key),
            forall|s: Step, i: int| #[trigger]
                added(base, move_list@).contains(s) && #[trigger] rest.has(i) ==> s.to < i,
        decreases rest.0,
    {
        if let Some(to) = rest.pop_lsb() {
            if to.to_rank() == last {
                let n = Move::new(source, to, knight);
                proof {
                    lemma_ascending_push(base, move_list@, n@, key);
                    lemma_added_push(base, move_list@, n@);
                }
                move_list.push(n);
                let b = Move::new(source, to, bishop);
                proof {
                    lemma_ascending_push(base, move_list@, b@, key);
                    lemma_added_push(base, move_list@, b@);
                }
                move_list.push(b);
                let r = Move::new(source, to, rook);
                proof {
                    lemma_ascending_push(base, move_list@, r@, key);
                    lemma_added_push(base, move_list@, r@);
                }
                move_list.push(r);
                let q = Move::new(source, to, queen);
                proof {
                    lemma_ascending_push(base, move_list@, q@, key);
                    lemma_added_push(base, move_list@, q@);
                }
                move_list.push(q);
            } else {
                let m = Move::new(source, to, plain);
                proof {
                    lemma_ascending_push(base, move_list@, m@, key);
                    lemma_added_push(base, move_list@, m@);
                }
                move_list.push(m);
            }
        }
    }
    proof {
        lemma_lowest_bit(rest.0);
    }
}

/// A pawn takes, on its way or in passing.
pub open spec fn pawn_takes(mb: Placement, stm: Side, ep: Option<int>, s: Step) -> bool {
    &&& holds(mb, s.from, stm, Piece::Pawn)
    &&& pawn_reach(stm, s.from, s.to)
    &&& {
        ||| owned(mb, stm.other(), s.to) && target_kind(stm, s.to, true, s.kind)
        ||| s.kind is EnPassant && ep == Some(s.to)
    }
}

/// A pawn goes forward.
pub open spec fn pawn_pushes(mb: Placement, stm: Side, s: Step) -> bool {
    &&& holds(mb, s.from, stm, Piece::Pawn)
    &&& is_square(s.to)
    &&& mb[s.to] is None
    &&& {
        ||| s.to == s.from + forward(stm) && target_kind(stm, s.to, false, s.kind)
        ||| s.kind is DoublePawn && s.to == s.from + 2 * forward(stm) && rank_of(s.from)
            == pawn_home(stm) && mb[s.from + forward(stm)] is None
    }
}

/// A move stands in a part of the list.
spec fn in_group(mb: Placement, s: Step, low: int, high: int) -> bool {
    131072 * low <= pseudo_place(mb, s) < 131072 * high
}

/// The moves of one kind of piece stand together.
proof fn lemma_group(mb: Placement, side: Side, piece: Piece, s: Step)
    requires
        is_square(s.from),
        is_square(s.to),
        mb[s.from] == Some((side, piece)),
    ensures
        !(s.kind is KingCastle) && !(s.kind is QueenCastle) ==> in_group(
            mb,
            s,
            piece_order(piece),
            piece_order(piece) + 1,
        ),
        piece is King && (s.kind is KingCastle || s.kind is QueenCastle) ==> in_group(
            mb,
            s,
            6,
            8,
        ),
{
}

/// The moves of one more kind of piece follow those of the earlier ones.
proof fn lemma_next_group(
    st: BoardState,
    piece: Piece,
    a: Seq<Step>,
    b: Seq<Step>,
    c: Seq<Step>,
)
    requires
        extends(a, b),
        extends(b, c),
        added(a, b).no_duplicates(),
        added(b, c).no_duplicates(),
        ascending(added(a, b), by_pseudo_place(st.mb())),
        ascending(added(b, c), by_pseudo_place(st.mb())),
        forall|s: Step| #[trigger]
            added(a, b).contains(s) ==> in_group(st.mb(), s, 0, piece_order(piece)),
        forall|s: Step| #[trigger] added(b, c).contains(s) <==> piece_goes(st, piece, s),
    ensures
        extends(a, c),
        added(a, c).no_duplicates(),
        ascending(added(a, c), by_pseudo_place(st.mb())),
        forall|s: Step| #[trigger]
            added(a, c).contains(s) ==> in_group(st.mb(), s, 0, piece_order(piece) + 1),
        forall|s: Step| #[trigger]
            added(a, c).contains(s) <==> added(a, b).contains(s) || piece_goes(st, piece, s),
{
    let key = by_pseudo_place(st.mb());
    assert forall|s: Step| #[trigger] added(b, c).contains(s) implies in_group(
        st.mb(),
        s,
        piece_order(piece),
        piece_order(piece) + 1,
    ) by {
        lemma_group(st.mb(), st.side_to_move, piece, s);
    }
    assert forall|s: Step, t: Step| #[trigger]
        added(a, b).contains(s) && #[trigger] added(b, c).contains(t) implies key(s) < key(t) by {
        assert(in_group(st.mb(), s, 0, piece_order(piece)));
        assert(in_group(st.mb(), t, piece_order(piece), piece_order(piece) + 1));
    }
    lemma_ascending_join(a, b, c, key);
    lemma_added_join(a, b, c);
}

impl Board {
    /// Appends the moves of one piece other than pawns to the given squares.
    fn pseudo_moves_from(
        &self,
        move_list: &mut MoveList,
        source: Square,
        targets: BitBoard,
        opponents: BitBoard,
    )
        ensures
            extends(old(move_list)@, final(move_list)@),
            added(old(move_list)@, final(move_list)@).no_duplicates(),
            forall|s: Step| #[trigger]
                added(old(move_list)@, final(move_list)@).contains(s) <==> s.from == source.idx()
                    && targets.has(s.to) && s.kind == if opponents.has(s.to) {
                    MoveKind::Capture
                } else {
                    MoveKind::QuietMove
                },
            ascending(added(old(move_list)@, final(move_list)@), by_squares()),
    {
        let ghost base = move_list@;
        let mut rest = targets;
        proof {
            lemma_added_none(base);
        }
        while rest.0 != 0
            invariant
                base == old(move_list)@,
                extends(base, move_list@),
                added(base, move_list@).no_duplicates(),
                forall|i: int| #[trigger] rest.has(i) ==> targets.has(i),
                forall|s: Step| #[trigger]
                    added(base, move_list@).contains(s) <==> s.from == source.idx() && targets.has(
                        s.to,
                    ) && !rest.has(s.to) && s.kind == if opponents.has(s.to) {
                        MoveKind::Capture
                    } else {
                        MoveKind::QuietMove
                    },
                ascending(added(base, move_list@), by_squares()),
                forall|s: Step, i: int| #[trigger]
                    added(base, move_list@).contains(s) && #[trigger] rest.has(i) ==> s.to < i,
            decreases rest.0,
        {
            if let Some(to) = rest.pop_lsb() {
                let kind = if opponents.contains(to) {
                    MoveKind::Capture
                } else {
                    MoveKind::QuietMove
                };
                let m = Move::new(source, to, kind);
                proof {
                    lemma_ascending_push(base, move_list@, m@, by_squares());
                    lemma_added_push(base, move_list@, m@);
                }
                move_list.push(m);
            }
        }
        proof {
            lemma_lowest_bit(rest.0);
        }
    }

    /// Appends the moves of one kind of piece other than pawns.
    fn pseudo_piece_moves(&self, move_list: &mut MoveList, piece: Piece)
        requires
            self.state.consistent(),
            piece !is Pawn,
        ensures
            extends(old(move_list)@, final(move_list)@),
            added(old(move_list)@, final(move_list)@).no_duplicates(),
            forall|s: Step| #[trigger]
                added(old(move_list)@, final(move_list)@).contains(s) <==> piece_goes(
                    self.state,
                    piece,
                    s,
                ),
            ascending(
                added(old(move_list)@, final(move_list)@),
                by_pseudo_place(self.state.mb()),
            ),
    {
        let stm = self.state.side_to_move;
        let ghost mb = self.state.mb();
        let ghost key = by_pseudo_place(mb);
        let pieces = self.get_piece_bb(stm, piece);
        let friends = self.state.occupancies[stm as usize];
        let opponents = self.state.occupancies[stm.other() as usize];
        let ghost base = move_list@;
        let mut rest = pieces;
        proof {
            lemma_added_none(base);
            assert(friends == self.state.side_bb(stm));
            assert(opponents == self.state.side_bb(stm.other()));
            assert forall|t: int| #[trigger] opponents.has(t) <==> owned(mb, stm.other(), t) by {
                assert(self.state.side_bb(stm.other()).has(t) <==> owned(mb, stm.other(), t));
            }
            assert forall|t: int| #[trigger] friends.has(t) <==> owned(mb, stm, t) by {
                assert(self.state.side_bb(stm).has(t) <==> owned(mb, stm, t));
            }
        }
        while rest.0 != 0
            invariant
                base == old(move_list)@,
                mb == self.state.mb(),
                key == by_pseudo_place(mb),
                stm == self.state.side_to_move,
                piece !is Pawn,
                self.state.consistent(),
                extends(base, move_list@),
                added(base, move_list@).no_duplicates(),
                forall|t: int| #[trigger] opponents.has(t) <==> owned(mb, stm.other(), t),
                forall|t: int| #[trigger] friends.has(t) <==> owned(mb, stm, t),
                forall|i: int| #[trigger] pieces.has(i) <==> holds(mb, i, stm, piece),
                forall|i: int| #[trigger] rest.has(i) ==> pieces.has(i),
                forall|s: Step| #[trigger]
                    added(base, move_list@).contains(s) <==> piece_goes(self.state, piece, s)
                        && !rest.has(s.from),
                ascending(added(base, move_list@), key),
                forall|s: Step, i: int| #[trigger]
                    added(base, move_list@).contains(s) && #[trigger] rest.has(i) ==> s.from < i,
            decreases rest.0,
        {
            let ghost list = move_list@;
            if let Some(source) = rest.pop_lsb() {
                assert(pieces.has(source.idx()));
                let attacks = self.get_piece_attack(stm, source, piece);
                let targets = attacks & friends.not();
                self.pseudo_moves_from(move_list, source, targets, opponents);
                proof {
                    broadcast use group_bits;

                    let f = source.idx();
                    assert forall|t: int| #[trigger] targets.has(t) <==> reach(
                        piece,
                        stm,
                        f,
                        t,
                        occupied(mb),
                    ) && is_square(t) && !owned(mb, stm, t) by {
                        assert(attacks.has(t) <==> reach(piece, stm, f, t, occupied(mb)));
                    }
                    assert forall|s: Step| #[trigger]
                        added(list, move_list@).contains(s) <==> s.from == f && piece_goes(
                            self.state,
                            piece,
                            s,
                        ) by {
                        assert(opponents.has(s.to) <==> owned(mb, stm.other(), s.to));
                    }
                    assert forall|s: Step| #[trigger] added(list, move_list@).contains(s) implies key(
                        s,
                    ) == 131072 * piece_order(piece) + 1984 * f + by_squares()(s) by {}
                    lemma_ascending_shift(
                        added(list, move_list@),
                        by_squares(),
                        key,
                        131072 * piece_order(piece) + 1984 * f,
                    );
                    lemma_ascending_join(base, list, move_list@, key);
                    lemma_added_join(base, list, move_list@);
                }
            }
        }
        proof {
            lemma_lowest_bit(rest.0);
        }
    }

    /// Appends the pushes of one pawn.
    fn pseudo_pawn_pushes(&self, move_list: &mut MoveList, source: Square)
        requires
            self.state.consistent(),
            holds(self.state.mb(), source.idx(), self.state.side_to_move, Piece::Pawn),
        ensures
            extends(old(move_list)@, final(move_list)@),
            added(old(move_list)@, final(move_list)@).no_duplicates(),
            forall|s: Step| #[trigger]
                added(old(move_list)@, final(move_list)@).contains(s) <==> s.from == source.idx()
                    && pawn_pushes(self.state.mb(), self.state.side_to_move, s),
            ascending(
                added(old(move_list)@, final(move_list)@),
                by_pseudo_place(self.state.mb()),
            ),
    {
        let stm = self.state.side_to_move;
        let ghost mb = self.state.mb();
        let ghost f = source.idx();
        let offset: i8 = match stm {
            Side::White => NORTH,
            Side::Black => SOUTH,
        };
        let single_source = self.pawns_with_pushes(stm);
        let double_source = self.pawns_with_double_pushes(stm);
        let mut single = BitBoard(0);
        if single_source.contains(source) {
            if let Some(target) = source.shift(offset) {
                single.set_bit(target);
            }
        }
        let mut double = BitBoard(0);
        if double_source.contains(source) {
            if let Some(target) = source.shift(2 * offset) {
                double.set_bit(target);
            }
        }
        let ghost l0 = move_list@;
        move_list.push_setwise(source, double, MoveKind::DoublePawn);
        let ghost l1 = move_list@;
        push_pawn_targets(move_list, stm, source, single, false, Ghost(mb));
        proof {
            let key = by_pseudo_place(mb);
            assert forall|t: int| #[trigger] single.has(t) implies is_square(t) by {
                broadcast use group_bits;

            }
            assert forall|t: int| #[trigger] double.has(t) implies is_square(t) by {
                broadcast use group_bits;

            }
            assert forall|s: Step| #[trigger] added(l0, l1).contains(s) implies key(s) == 2048 * f
                + by_target()(s) by {}
            lemma_ascending_shift(added(l0, l1), by_target(), key, 2048 * f);
            lemma_ascending_join(l0, l1, move_list@, key);
            lemma_added_join(l0, l1, move_list@);
            assert forall|s: Step| #[trigger]
                added(l0, move_list@).contains(s) <==> s.from == f && pawn_pushes(mb, stm, s) by {
                broadcast use group_bits;

                let t = s.to;
                assert(single.has(t) <==> is_square(t) && t == f + forward(stm) && mb[t] is None);
                assert(double.has(t) <==> rank_of(f) == pawn_home(stm) && t == f + 2 * forward(stm)
                    && mb[f + forward(stm)] is None && mb[t] is None);
            }
        }
    }

    /// Appends the captures of one pawn.
    fn pseudo_pawn_takes(&self, move_list: &mut MoveList, source: Square)
        requires
            self.state.consistent(),
            holds(self.state.mb(), source.idx(), self.state.side_to_move, Piece::Pawn),
        ensures
            extends(old(move_list)@, final(move_list)@),
            added(old(move_list)@, final(move_list)@).no_duplicates(),
            forall|s: Step| #[trigger]
                added(old(move_list)@, final(move_list)@).contains(s) <==> s.from == source.idx()
                    && pawn_takes(
                    self.state.mb(),
                    self.state.side_to_move,
                    self.state.ep(),
                    s,
                ),
            ascending(
                added(old(move_list)@, final(move_list)@),
                by_pseudo_place(self.state.mb()),
            ),
    {
        let stm = self.state.side_to_move;
        let ghost mb = self.state.mb();
        let ghost f = source.idx();
        let attacks = self.get_pawn_attacks(source, stm);
        let opponents = self.state.occupancies[stm.other() as usize];
        let takes = attacks & opponents;
        let mut passing = BitBoard(0);
        if let Some(target) = self.state.enpassant {
            if attacks.contains(target) {
                passing.set_bit(target);
            }
        }
        let ghost l0 = move_list@;
        push_pawn_targets(move_list, stm, source, takes, true, Ghost(mb));
        let ghost l1 = move_list@;
        move_list.push_setwise(source, passing, MoveKind::EnPassant);
        proof {
            let key = by_pseudo_place(mb);
            assert forall|t: int| #[trigger] takes.has(t) implies is_square(t) by {
                broadcast use group_bits;

            }
            assert forall|t: int| #[trigger] passing.has(t) implies is_square(t) by {
                broadcast use group_bits;

            }
            assert forall|s: Step| #[trigger] added(l1, move_list@).contains(s) implies key(s)
                == 2048 * f + 1536 + by_target()(s) by {}
            lemma_ascending_shift(added(l1, move_list@), by_target(), key, 2048 * f + 1536);
            lemma_ascending_join(l0, l1, move_list@, key);
            lemma_added_join(l0, l1, move_list@);
            assert forall|s: Step| #[trigger]
                added(l0, move_list@).contains(s) <==> s.from == f && pawn_takes(
                    mb,
                    stm,
                    self.state.ep(),
                    s,
                ) by {
                broadcast use group_bits;

                let t = s.to;
                assert(attacks.has(t) <==> pawn_reach(stm, f, t));
                assert(opponents == self.state.side_bb(stm.other()));
                assert(self.state.side_bb(stm.other()).has(t) <==> owned(mb, stm.other(), t));
                assert(takes.has(t) <==> pawn_reach(stm, f, t) && owned(mb, stm.other(), t));
                assert(passing.has(t) <==> pawn_reach(stm, f, t) && self.state.ep() == Some(t));
            }
        }
    }

    /// Appends the moves of the pawns.
    fn pseudo_pawn_moves(&self, move_list: &mut MoveList)
        requires
            self.state.consistent(),
        ensures
            extends(old(move_list)@, final(move_list)@),
            added(old(move_list)@, final(move_list)@).no_duplicates(),
            forall|s: Step| #[trigger]
                added(old(move_list)@, final(move_list)@).contains(s) <==> pawn_moves(
                    self.state.mb(),
                    self.state.side_to_move,
                    self.state.ep(),
                    s,
                ),
            ascending(
                added(old(move_list)@, final(move_list)@),
                by_pseudo_place(self.state.mb()),
            ),
    {
        let stm = self.state.side_to_move;
        let ghost mb = self.state.mb();
        let ghost key = by_pseudo_place(mb);
        let ghost base = move_list@;
        let pawns = self.get_piece_bb(stm, Piece::Pawn);
        let mut rest = pawns;
        proof {
            lemma_added_none(base);
        }
        while rest.0 != 0
            invariant
                base == old(move_list)@,
                mb == self.state.mb(),
                stm == self.state.side_to_move,
                self.state.consistent(),
                extends(base, move_list@),
                added(base, move_list@).no_duplicates(),
                forall|i: int| #[trigger] pawns.has(i) <==> holds(mb, i, stm, Piece::Pawn),
                forall|i: int| #[trigger] rest.has(i) ==> pawns.has(i),
                forall|s: Step| #[trigger]
                    added(base, move_list@).contains(s) <==> pawn_moves(
                        mb,
                        stm,
                        self.state.ep(),
                        s,
                    ) && !rest.has(s.from),
                key == by_pseudo_place(mb),
                ascending(added(base, move_list@), key),
                forall|s: Step, i: int| #[trigger]
                    added(base, move_list@).contains(s) && #[trigger] rest.has(i) ==> s.from < i,
            decreases rest.0,
        {
            if let Some(source) = rest.pop_lsb() {
                let ghost l0 = move_list@;
                assert(pawns.has(source.idx()));
                self.pseudo_pawn_pushes(move_list, source);
                let ghost l1 = move_list@;
                self.pseudo_pawn_takes(move_list, source);
                proof {
                    lemma_ascending_join(l0, l1, move_list@, key);
                    lemma_added_join(l0, l1, move_list@);
                    lemma_ascending_join(base, l0, move_list@, key);
                    lemma_added_join(base, l0, move_list@);
                }
            }
        }
        proof {
            lemma_lowest_bit(rest.0);
        }
    }

    /// All moves of the pieces, whether or not they leave the own king in check.
    pub fn generate_all_moves(&self) -> (res: MoveList)
        requires
            self.state.consistent(),
            self.state.kings(),
            self.state.threats_current(),
        ensures
            res@.no_duplicates(),
            forall|s: Step| #[trigger] res@.contains(s) <==> pseudo_legal(self.state, s),
            ascending(res@, by_pseudo_place(self.state.mb())),
    {
        let mut move_list = MoveList::new();
        let ghost l0 = move_list@;
        self.pseudo_pawn_moves(&mut move_list);
        let ghost l1 = move_list@;
        self.pseudo_piece_moves(&mut move_list, Piece::Knight);
        let ghost l2 = move_list@;
        self.pseudo_piece_moves(&mut move_list, Piece::Bishop);
        let ghost l3 = move_list@;
        self.pseudo_piece_moves(&mut move_list, Piece::Rook);
        let ghost l4 = move_list@;
        self.pseudo_piece_moves(&mut move_list, Piece::Queen);
        let ghost l5 = move_list@;
        self.pseudo_piece_moves(&mut move_list, Piece::King);
        let ghost l6 = move_list@;
        self.gen_castling_moves(&mut move_list);
        proof {
            let mb = self.state.mb();
            let stm = self.state.side_to_move;
            let rights = self.state.castling_rights;
            let key = by_pseudo_place(mb);
            crate::board::position::lemma_king_exists(mb, stm);
            let castlings = added(l6, move_list@);
            assert forall|i: int, j: int|
                #![trigger castlings[i], castlings[j]]
                0 <= i < j < castlings.len() implies key(castlings[i]) < key(castlings[j]) by {
                let (x, y) = (castlings[i], castlings[j]);
                assert(castlings.contains(x) && castlings.contains(y));
                assert(castling_step(mb, stm, rights, x) && castling_step(mb, stm, rights, y));
                assert(by_place(mb, stm)(x) < by_place(mb, stm)(y));
            }
            assert forall|s: Step| #[trigger] added(l0, l1).contains(s) implies in_group(
                mb,
                s,
                0,
                1,
            ) by {
                lemma_group(mb, stm, Piece::Pawn, s);
            }
            lemma_next_group(self.state, Piece::Knight, l0, l1, l2);
            lemma_next_group(self.state, Piece::Bishop, l0, l2, l3);
            lemma_next_group(self.state, Piece::Rook, l0, l3, l4);
            lemma_next_group(self.state, Piece::Queen, l0, l4, l5);
            lemma_next_group(self.state, Piece::King, l0, l5, l6);
            assert forall|s: Step| #[trigger] castlings.contains(s) implies in_group(
                mb,
                s,
                6,
                8,
            ) by {
                lemma_group(mb, stm, Piece::King, s);
            }
            lemma_ascending_join(l0, l6, move_list@, key);
            lemma_added_join(l0, l6, move_list@);
            assert(added(l0, move_list@) =~= move_list@);
        }
        move_list
    }
}

} // verus!
