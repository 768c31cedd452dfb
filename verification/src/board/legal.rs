//! A test whether a move of unknown origin fits the position.

use core::ops::Not;

use crate::attacks::{between, between_squares, king_reach, line_through, pawn_reach, reach};
use crate::board::{Board, BoardState};
use crate::board::legality::{fair, in_check, law_generated_legal, law_generated_movable};
use crate::board::makemove::{
    applied, forward, king_home, king_rook_home, passant_live, pawn_home, queen_rook_home,
    slider_check,
};
use crate::board::movegen::{
    castling_step, evades, generated, keeps_pin, king_step, last_rank, lemma_pinned_off_king,
    lemma_several, one_check, piece_step,
};
use crate::board::position::{
    attacker, checker, holds, king_sq, lemma_king_exists, occupied, owned, piece_of, pinned,
    threatened,
};
use crate::types::bitboard::BitBoard;
use crate::types::bits::{group_bits, is_square, lemma_bit_regions, lemma_lowest_bit, rank_of};
use crate::types::constants::{B_FILE, NORTH, SOUTH, WK_SIDE, WQ_SIDE};
use crate::types::moves::{added, Move, MoveKind, MoveList, Step};
use crate::types::pieces::Piece;
use crate::types::sides::{Castling, Side};
use crate::types::squares::partner;
use vstd::prelude::*;

verus! {

/// The squares taken once a pawn has gone from `from` to `to` en passant, where each of the
/// three squares concerned changes from taken to free or back.
pub open spec fn toggled(mb: Seq<Option<(Side, Piece)>>, from: int, to: int) -> Set<int> {
    Set::new(
        |i: int|
            is_square(i) && (mb[i] is Some) != (i == from || i == to || i == partner(to)),
    )
}

/// The king may take the given castling path: the squares of the path are free, and neither
/// the king nor a square of `safe` is attacked.
pub open spec fn path_open(st: BoardState, path: Set<int>, safe: Set<int>) -> bool {
    &&& forall|i: int| #[trigger] path.contains(i) ==> st.mb()[i] is None
    &&& forall|i: int| #[trigger]
        safe.contains(i) ==> !threatened(st.mb(), st.side_to_move.other(), i)
    &&& forall|i: int| #[trigger]
        holds(st.mb(), i, st.side_to_move, Piece::King) ==> !threatened(
            st.mb(),
            st.side_to_move.other(),
            i,
        )
}

/// The test accepts a move of the king. On the queen side Black is held to the squares of
/// the king side; the squares that the move names do not matter for castling.
pub open spec fn king_accepted(st: BoardState, s: Step) -> bool {
    let mb = st.mb();
    let stm = st.side_to_move;
    let h = king_home(stm);
    match s.kind {
        MoveKind::KingCastle => {
            &&& st.castling_rights.holds(Castling::king_side(stm))
            &&& path_open(st, set![h + 1, h + 2], set![h + 1, h + 2])
        },
        MoveKind::QueenCastle => {
            &&& st.castling_rights.holds(Castling::queen_side(stm))
            &&& if stm == Side::White {
                path_open(st, set![h - 1, h - 2, h - 3], set![h - 1, h - 2])
            } else {
                path_open(st, set![h + 1, h + 2], set![h + 1, h + 2])
            }
        },
        MoveKind::Capture => owned(mb, stm.other(), s.to) && king_reach(s.from, s.to)
            && !threatened(mb, stm.other(), s.to),
        MoveKind::QuietMove => mb[s.to] is None && king_reach(s.from, s.to) && !threatened(
            mb,
            stm.other(),
            s.to,
        ),
        _ => false,
    }
}

/// The test accepts a move of a pawn that answers checks and keeps its pin.
pub open spec fn pawn_accepted(st: BoardState, s: Step) -> bool {
    let mb = st.mb();
    let stm = st.side_to_move;
    match s.kind {
        MoveKind::EnPassant => {
            &&& st.ep() == Some(s.to)
            &&& pawn_reach(stm, s.from, s.to)
            &&& forall|a: int| !#[trigger] slider_check(mb, stm, a, toggled(mb, s.from, s.to))
        },
        MoveKind::DoublePawn => {
            &&& rank_of(s.from) == pawn_home(stm)
            &&& s.to == s.from + 2 * forward(stm)
            &&& mb[s.from + forward(stm)] is None
            &&& mb[s.to] is None
        },
        MoveKind::KingCastle | MoveKind::QueenCastle => false,
        _ => {
            &&& s.kind.promoted() is Some ==> rank_of(s.to) == last_rank(stm)
            &&& if s.kind.capturing() {
                pawn_reach(stm, s.from, s.to) && owned(mb, stm.other(), s.to)
            } else {
                s.to == s.from + forward(stm) && mb[s.to] is None
            }
        },
    }
}

/// The test accepts a move.
pub open spec fn accepted(st: BoardState, s: Step) -> bool {
    let mb = st.mb();
    let stm = st.side_to_move;
    let piece = piece_of(mb[s.from]);
    &&& owned(mb, stm, s.from)
    &&& if piece == Piece::King {
        king_accepted(st, s)
    } else {
        &&& !owned(mb, stm, s.to)
        &&& keeps_pin(mb, stm, s)
        &&& one_check(mb, stm)
        &&& s.kind is EnPassant || evades(mb, stm, s.to)
        &&& if piece == Piece::Pawn {
            pawn_accepted(st, s)
        } else {
            &&& reach(piece, stm, s.from, s.to, occupied(mb))
            &&& {
                ||| s.kind is Capture && owned(mb, stm.other(), s.to)
                ||| s.kind is QuietMove && mb[s.to] is None
            }
        }
    }
}

impl Board {
    fn castling_path_free(&self, path: BitBoard, safe: BitBoard) -> (res: bool)
        requires
            self.wf(),
        ensures
            res == path_open(self.state, path.squares(), safe.squares()),
    {
        let stm = self.state.side_to_move;
        let kings = self.get_piece_bb(stm, Piece::King);
        let all = self.get_all_occupancy();
        let crossed = path & all;
        let attacked_squares = (safe | kings) & self.state.threats;
        proof {
            broadcast use group_bits;

            let mb = self.state.mb();
            let other = stm.other();
            lemma_lowest_bit(crossed.0);
            lemma_lowest_bit(attacked_squares.0);
            let x = vstd::std_specs::bits::u64_trailing_zeros(crossed.0) as int;
            let y = vstd::std_specs::bits::u64_trailing_zeros(attacked_squares.0) as int;
            if crossed.0 != 0 {
                assert(all.has(x));
                assert(path.squares().contains(x));
            } else {
                assert forall|i: int| #[trigger] path.squares().contains(i) implies mb[i] is None by {
                    assert(!crossed.has(i));
                    assert(!all.has(i));
                }
            }
            if attacked_squares.0 != 0 {
                assert(self.state.threats.has(y));
                assert(threatened(mb, other, y));
                if safe.has(y) {
                    assert(safe.squares().contains(y));
                } else {
                    assert(kings.has(y));
                    assert(holds(mb, y, stm, Piece::King));
                }
            } else {
                assert forall|i: int| #[trigger] safe.squares().contains(i) implies !threatened(
                    mb,
                    other,
                    i,
                ) by {
                    assert(!attacked_squares.has(i));
                    assert(!self.state.threats.has(i));
                }
                assert forall|i: int| #[trigger]
                    holds(mb, i, stm, Piece::King) implies !threatened(mb, other, i) by {
                    assert(kings.has(i));
                    assert(!attacked_squares.has(i));
                    assert(!self.state.threats.has(i));
                }
            }
        }
        crossed.is_empty() && attacked_squares.is_empty()
    }

    fn is_legal_king_move(&self, m: Move) -> (res: bool)
        requires
            self.wf(),
        ensures
            res == king_accepted(self.state, m@),
    {
        let stm = self.state.side_to_move;
        let from = m.get_from();
        let to = m.get_to();
        let ghost mb = self.state.mb();
        let ghost h = king_home(stm);
        let king_side_path = match stm {
            Side::White => BitBoard(WK_SIDE),
            Side::Black => BitBoard(WK_SIDE).shift(NORTH * 7),
        };
        let queen_side_path = match stm {
            Side::White => BitBoard(WQ_SIDE),
            Side::Black => BitBoard(WK_SIDE).shift(NORTH * 7),
        };
        let need_to_be_safe = (queen_side_path ^ BitBoard(B_FILE)) & queen_side_path;
        proof {
            broadcast use group_bits;

            assert forall|i: int| king_side_path.squares().contains(i) <==> set![
                h + 1,
                h + 2,
            ].contains(i) by {
                lemma_bit_regions(WK_SIDE, i);
                lemma_bit_regions(WK_SIDE, i - 56);
            }
            assert(king_side_path.squares() =~= set![h + 1, h + 2]);
            if stm == Side::White {
                assert forall|i: int| queen_side_path.squares().contains(i) <==> set![
                    h - 1,
                    h - 2,
                    h - 3,
                ].contains(i) by {
                    lemma_bit_regions(WQ_SIDE, i);
                }
                assert(queen_side_path.squares() =~= set![h - 1, h - 2, h - 3]);
                assert forall|i: int| need_to_be_safe.squares().contains(i) <==> set![
                    h - 1,
                    h - 2,
                ].contains(i) by {
                    lemma_bit_regions(WQ_SIDE, i);
                    lemma_bit_regions(B_FILE, i);
                }
                assert(need_to_be_safe.squares() =~= set![h - 1, h - 2]);
            } else {
                assert(queen_side_path.squares() =~= set![h + 1, h + 2]);
                assert forall|i: int| need_to_be_safe.squares().contains(i) <==> set![
                    h + 1,
                    h + 2,
                ].contains(i) by {
                    assert(queen_side_path.has(i) <==> set![h + 1, h + 2].contains(i)) by {
                        assert(queen_side_path.squares().contains(i) <==> queen_side_path.has(i));
                    }
                    lemma_bit_regions(B_FILE, i);
                }
                assert(need_to_be_safe.squares() =~= set![h + 1, h + 2]);
            }
        }
        match m.get_kind() {
            MoveKind::KingCastle => self.state.castling_rights.can_king_side(stm)
                && self.castling_path_free(king_side_path, king_side_path),
            MoveKind::QueenCastle => self.state.castling_rights.can_queen_side(stm)
                && self.castling_path_free(queen_side_path, need_to_be_safe),
            MoveKind::Capture | MoveKind::QuietMove => {
                let own = self.state.occupancies[stm as usize];
                let enemies = self.state.occupancies[stm.other() as usize];
                let reached = self.get_king_attacks(from) & self.state.threats.not();
                proof {
                    broadcast use group_bits;

                    m.lemma_squares();
                    assert(own == self.state.side_bb(stm));
                    assert(enemies == self.state.side_bb(stm.other()));
                    assert(self.state.side_bb(stm).has(m@.to) <==> owned(mb, stm, m@.to));
                    assert(self.state.side_bb(stm.other()).has(m@.to) <==> owned(
                        mb,
                        stm.other(),
                        m@.to,
                    ));
                    assert(self.state.threats.has(m@.to) <==> threatened(mb, stm.other(), m@.to));
                }
                !own.contains(to) && m.is_capture() == enemies.contains(to) && reached.contains(to)
            },
            _ => false,
        }
    }

    fn is_legal_en_passant(&self, m: Move) -> (res: bool)
        requires
            self.wf(),
            m@.kind is EnPassant,
            holds(self.state.mb(), m@.from, self.state.side_to_move, Piece::Pawn),
        ensures
            res == pawn_accepted(self.state, m@),
    {
        let stm = self.state.side_to_move;
        let from = m.get_from();
        let to = m.get_to();
        let king_square = self.get_king_square(stm);
        match self.state.enpassant {
            None => false,
            Some(ep_square) => {
                let all = self.get_all_occupancy();
                let a = from.to_bb();
                let b = to.to_bb();
                let c = to.across().to_bb();
                let occupancies = all ^ a ^ b ^ c;
                let attacks = self.get_pawn_attacks(from, stm);
                let matches_ep: bool = to as usize == ep_square as usize;
                if !matches_ep || !attacks.contains(to) {
                    return false;
                }
                proof {
                    broadcast use group_bits;

                    assert(occupancies.squares() =~= toggled(self.state.mb(), m@.from, m@.to)) by {
                        assert forall|i: int| occupancies.squares().contains(i) <==> toggled(
                            self.state.mb(),
                            m@.from,
                            m@.to,
                        ).contains(i) by {
                            assert(all.has(i) <==> is_square(i) && self.state.mb()[i] is Some);
                            assert(m@.from != m@.to && m@.from != partner(m@.to) && m@.to
                                != partner(m@.to));
                        }
                    }
                }
                !self.slider_checks(stm, king_square, occupancies)
            },
        }
    }

    fn is_legal_pawn_move(&self, m: Move) -> (res: bool)
        requires
            self.wf(),
            holds(self.state.mb(), m@.from, self.state.side_to_move, Piece::Pawn),
            !owned(self.state.mb(), self.state.side_to_move, m@.to),
        ensures
            res == pawn_accepted(self.state, m@),
    {
        let stm = self.state.side_to_move;
        let from = m.get_from();
        let to = m.get_to();
        let ghost mb = self.state.mb();
        if m.is_en_passant() {
            return self.is_legal_en_passant(m);
        }
        let promotion_rank: usize = match stm {
            Side::White => 7,
            Side::Black => 0,
        };
        if m.is_promotion() && to.to_rank() != promotion_rank {
            return false;
        }
        let taken: bool = match self.get_piece_at_square(to) {
            Some(_) => true,
            None => false,
        };
        if m.is_capture() {
            let attacks = self.get_pawn_attacks(from, stm);
            return attacks.contains(to) && taken;
        }
        let offset: i8 = match stm {
            Side::White => NORTH,
            Side::Black => SOUTH,
        };
        match from.shift(offset) {
            None => false,
            Some(next_square) => {
                if let MoveKind::DoublePawn = m.get_kind() {
                    let home_rank: usize = match stm {
                        Side::White => 1,
                        Side::Black => 6,
                    };
                    let two_on: bool = match from.shift(2 * offset) {
                        Some(square) => square as usize == to as usize,
                        None => false,
                    };
                    let passed_taken: bool = match self.get_piece_at_square(next_square) {
                        Some(_) => true,
                        None => false,
                    };
                    return from.to_rank() == home_rank && two_on && !passed_taken && !taken;
                }
                !m.is_castling() && next_square as usize == to as usize && !taken
            },
        }
    }

    /// Whether a move of unknown origin fits the position.
    pub fn is_legal(&self, m: Move) -> (res: bool)
        requires
            self.wf(),
        ensures
            res == accepted(self.state, m@),
    {
        let stm = self.state.side_to_move;
        let from = m.get_from();
        let to = m.get_to();
        let king_square = self.get_king_square(stm);
        let ghost mb = self.state.mb();
        proof {
            m.lemma_squares();
            lemma_several(self.state);
        }
        match self.get_piece_at_square(from) {
            None => false,
            Some((moving_piece_side, moving_piece)) => {
                if moving_piece_side != stm {
                    return false;
                }
                if moving_piece == Piece::King {
                    return self.is_legal_king_move(m);
                }
                let own: bool = match self.get_piece_at_square(to) {
                    Some((s, _)) => s == stm,
                    None => false,
                };
                if own {
                    return false;
                }
                let pinned_bb = self.state.pinned[stm as usize];
                let line = line_through(from, king_square);
                proof {
                    assert(pinned_bb == self.state.pinned_bb(stm));
                    assert(self.state.pinned_bb(stm).has(m@.from) <==> pinned(mb, stm, m@.from));
                    if pinned(mb, stm, m@.from) {
                        lemma_pinned_off_king(mb, stm, m@.from);
                    }
                }
                if pinned_bb.contains(from) && !line.contains(to) {
                    return false;
                }
                if self.state.checkers.count_bits() > 1 {
                    return false;
                }
                match self.state.checkers.least_sig_bit() {
                    Some(checking_piece_square) => {
                        let path = between_squares(king_square, checking_piece_square);
                        let answered: bool = self.state.checkers.contains(to) || path.contains(to);
                        proof {
                            let c = checking_piece_square.idx();
                            assert(self.state.checkers.has(c));
                            assert(checker(mb, stm, c));
                            assert(self.state.checkers.has(m@.to) <==> checker(mb, stm, m@.to));
                            assert(answered <==> evades(mb, stm, m@.to));
                        }
                        if !m.is_en_passant() && !answered {
                            return false;
                        }
                    },
                    None => {
                        assert forall|c: int| !checker(mb, stm, c) by {
                            assert(!self.state.checkers.has(c));
                        }
                        assert(evades(mb, stm, m@.to));
                    },
                }
                if moving_piece == Piece::Pawn {
                    return self.is_legal_pawn_move(m);
                }
                let attacks = self.get_piece_attack(stm, from, moving_piece);
                let taken: bool = match self.get_piece_at_square(to) {
                    Some(_) => true,
                    None => false,
                };
                matches!(m.get_kind(), MoveKind::Capture | MoveKind::QuietMove) && m.is_capture()
                    == taken && attacks.contains(to)
            },
        }
    }
}

/// The step has the shape that move generation gives to moves: castling names the squares
/// of the king and finds the rook at home, and pawns promote on the last rank and only
/// there.
pub open spec fn shaped(mb: Seq<Option<(Side, Piece)>>, stm: Side, s: Step) -> bool {
    let h = king_home(stm);
    &&& s.kind is KingCastle ==> s.from == h && s.to == h + 2 && holds(
        mb,
        king_rook_home(stm),
        stm,
        Piece::Rook,
    )
    &&& s.kind is QueenCastle ==> s.from == h && s.to == h - 2 && holds(
        mb,
        queen_rook_home(stm),
        stm,
        Piece::Rook,
    )
    &&& holds(mb, s.from, stm, Piece::Pawn) && s.kind !is EnPassant && s.kind !is DoublePawn ==> (
    s.kind.promoted() is Some <==> rank_of(s.to) == last_rank(stm))
}

/// The squares that count for castling to the queen side: those between king and rook have
/// to be free, and the king must not cross an attacked one.
pub open spec fn queen_side_open(st: BoardState) -> bool {
    let h = king_home(st.side_to_move);
    path_open(st, set![h - 1, h - 2, h - 3], set![h - 1, h - 2])
}

pub open spec fn king_side_open(st: BoardState) -> bool {
    let h = king_home(st.side_to_move);
    path_open(st, set![h + 1, h + 2], set![h + 1, h + 2])
}

/// Black castles to the queen side where the squares of the two sides do not count the same.
pub open spec fn misjudged(st: BoardState, s: Step) -> bool {
    &&& s.kind is QueenCastle && st.side_to_move == Side::Black
    &&& st.castling_rights.holds(Castling::queen_side(Side::Black))
    &&& king_side_open(st) != queen_side_open(st)
}

/// After a legal capture en passant no slider looks at the king.
proof fn lemma_passant_clear(st: BoardState, s: Step)
    requires
        st.kings(),
        fair(st),
        st.ep() matches Some(e) ==> passant_live(st.mb(), st.side_to_move, e),
        s.kind is EnPassant,
        generated(st, s),
    ensures
        forall|a: int|
            !#[trigger] slider_check(
                st.mb(),
                st.side_to_move,
                a,
                toggled(st.mb(), s.from, s.to),
            ),
{
    let mb = st.mb();
    let stm = st.side_to_move;
    let after = applied(mb, s);
    let occ = toggled(mb, s.from, s.to);
    let k = king_sq(mb, stm);
    law_generated_legal(st, s);
    law_generated_movable(st, s);
    crate::board::legality::lemma_kings_after(mb, stm, s);
    assert(occupied(after) =~= occ);
    assert forall|a: int| !#[trigger] slider_check(mb, stm, a, occ) by {
        if slider_check(mb, stm, a, occ) {
            assert(after[a] == mb[a]);
            assert forall|x: int| between(a, k, x) == between(k, a, x) by {}
            assert(attacker(after, stm.other(), a, k, occ));
            assert(in_check(after, stm));
        }
    }
}

/// For moves of the right shape the test is exact: in a fair position it accepts the
/// generated moves and no others, but for Black's castling to the queen side, which is judged
/// by the squares of the king side.
pub proof fn law_is_legal(st: BoardState, s: Step)
    requires
        st.kings(),
        fair(st),
        st.ep() matches Some(e) ==> passant_live(st.mb(), st.side_to_move, e),
        is_square(s.from),
        is_square(s.to),
        shaped(st.mb(), st.side_to_move, s),
        !misjudged(st, s),
    ensures
        accepted(st, s) <==> generated(st, s),
{
    let mb = st.mb();
    let stm = st.side_to_move;
    let h = king_home(stm);
    lemma_king_exists(mb, stm);
    if holds(mb, s.from, stm, Piece::King) {
        assert(s.from == king_sq(mb, stm));
    }
    if generated(st, s) {
        law_generated_movable(st, s);
        if s.kind is EnPassant {
            lemma_passant_clear(st, s);
        }
        if king_step(mb, stm, s) {
        } else if castling_step(mb, stm, st.castling_rights, s) {
            assert forall|i: int| #[trigger] holds(mb, i, stm, Piece::King) implies i == h by {}
            assert(s.kind is QueenCastle ==> queen_side_open(st));
        }
    }
    if accepted(st, s) {
        if s.kind is KingCastle && piece_of(mb[s.from]) == Piece::King {
            assert(set![h + 1, h + 2].contains(h + 1) && set![h + 1, h + 2].contains(h + 2));
            lemma_castle_one_check(st);
        }
        if s.kind is QueenCastle && piece_of(mb[s.from]) == Piece::King {
            assert(queen_side_open(st));
            assert(set![h - 1, h - 2, h - 3].contains(h - 1) && set![h - 1, h - 2, h - 3].contains(
                h - 2,
            ) && set![h - 1, h - 2, h - 3].contains(h - 3));
            assert(set![h - 1, h - 2].contains(h - 1) && set![h - 1, h - 2].contains(h - 2));
            lemma_castle_one_check(st);
        }
        if piece_of(mb[s.from]) != Piece::King && piece_of(mb[s.from]) != Piece::Pawn {
            assert(piece_step(mb, stm, piece_of(mb[s.from]), s));
        }
    }
}

/// A king that is not attacked is not in check.
proof fn lemma_castle_one_check(st: BoardState)
    requires
        st.kings(),
        fair(st),
        !threatened(st.mb(), st.side_to_move.other(), king_sq(st.mb(), st.side_to_move)),
    ensures
        one_check(st.mb(), st.side_to_move),
{
    lemma_king_exists(st.mb(), st.side_to_move);
    crate::board::legality::lemma_unchecked(st.mb(), st.side_to_move);
}

impl Board {
    /// Whether a move of unknown origin is one of the moves of the position.
    pub fn is_playable(&self, m: Move) -> (res: bool)
        requires
            self.wf(),
            fair(self.state),
        ensures
            res == generated(self.state, m@),
    {
        let stm = self.state.side_to_move;
        let ghost mb = self.state.mb();
        let ghost s = m@;
        proof {
            m.lemma_squares();
            lemma_king_exists(mb, stm);
        }
        if m.is_castling() {
            let mut castlings = MoveList::new();
            let ghost before = castlings@;
            self.gen_castling_moves(&mut castlings);
            proof {
                assert(added(before, castlings@) =~= castlings@);
                if castling_step(mb, stm, self.state.castling_rights, s) {
                    lemma_castle_one_check(self.state);
                }
                assert(generated(self.state, s) <==> castlings@.contains(s));
            }
            return castlings.holds_move(m);
        }
        let pawn: bool = match self.get_piece_at_square(m.get_from()) {
            Some((side, piece)) => side == stm && piece == Piece::Pawn,
            None => false,
        };
        let last: usize = if stm == Side::White { 7 } else { 0 };
        let promotes: bool = m.get_to().to_rank() == last;
        let straight: bool = !matches!(m.get_kind(), MoveKind::EnPassant | MoveKind::DoublePawn);
        if pawn && straight && m.is_promotion() != promotes {
            proof {
                if holds(mb, s.from, stm, Piece::King) {
                    assert(s.from == king_sq(mb, stm));
                }
            }
            return false;
        }
        proof {
            assert(holds(mb, s.from, stm, Piece::Pawn) <==> pawn);
            law_is_legal(self.state, s);
        }
        self.is_legal(m)
    }
}

} // verus!
