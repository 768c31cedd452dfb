//! Making and unmaking moves.

use crate::attacks::{bishop_reach, pawn_reach, rook_reach};
use crate::board::{lemma_same_but_threats, Board, BoardState};
use crate::board::position::{
    features_key, has_king, holds, king_sq, lemma_material_bound, lemma_xor, material, occupied,
    of_kind, owned, piece_of, pieces_key, position_key, side_of, Position,
};
use crate::types::bitboard::BitBoard;
use crate::types::bits::{file_of, group_bits, is_square, lemma_lowest_bit, rank_of};
use crate::types::moves::{Move, MoveKind, Step};
use crate::types::pieces::Piece;
use crate::types::sides::{law_rights_extensional, Castling, CastlingRights, Side};
use crate::types::squares::{lemma_square_injective, partner, Square};
use crate::zobrist::Zobrist;
use vstd::prelude::*;

verus! {

/// The square on which the king of a side starts.
pub open spec fn king_home(side: Side) -> int {
    match side {
        Side::White => 4,
        Side::Black => 60,
    }
}

/// The square on which the king-side rook of a side starts.
pub open spec fn king_rook_home(side: Side) -> int {
    king_home(side) + 3
}

/// The square on which the queen-side rook of a side starts.
pub open spec fn queen_rook_home(side: Side) -> int {
    king_home(side) - 4
}

/// The direction in which the pawns of a side move, in square numbers.
pub open spec fn forward(side: Side) -> int {
    match side {
        Side::White => 8,
        Side::Black => -8,
    }
}

/// The rank on which the pawns of a side start.
pub open spec fn pawn_home(side: Side) -> int {
    match side {
        Side::White => 1,
        Side::Black => 6,
    }
}

/// The step makes sense on the board: what it moves, takes and passes over is there.
pub open spec fn movable(mb: Seq<Option<(Side, Piece)>>, side: Side, s: Step) -> bool {
    let piece = piece_of(mb[s.from]);
    let takes = owned(mb, side.other(), s.to) && piece_of(mb[s.to]) != Piece::King;
    &&& owned(mb, side, s.from)
    &&& is_square(s.to)
    &&& s.from != s.to
    &&& match s.kind {
        MoveKind::QuietMove => mb[s.to] is None,
        MoveKind::DoublePawn => {
            &&& piece == Piece::Pawn
            &&& rank_of(s.from) == pawn_home(side)
            &&& s.to == s.from + 2 * forward(side)
            &&& mb[s.from + forward(side)] is None
            &&& mb[s.to] is None
        },
        MoveKind::KingCastle => {
            &&& piece == Piece::King
            &&& s.from == king_home(side)
            &&& s.to == s.from + 2
            &&& mb[s.from + 1] is None
            &&& mb[s.to] is None
            &&& holds(mb, king_rook_home(side), side, Piece::Rook)
        },
        MoveKind::QueenCastle => {
            &&& piece == Piece::King
            &&& s.from == king_home(side)
            &&& s.to == s.from - 2
            &&& mb[s.from - 1] is None
            &&& mb[s.to] is None
            &&& holds(mb, queen_rook_home(side), side, Piece::Rook)
        },
        MoveKind::Capture => takes,
        MoveKind::EnPassant => {
            &&& piece == Piece::Pawn
            &&& mb[s.to] is None
            &&& holds(mb, partner(s.to), side.other(), Piece::Pawn)
        },
        MoveKind::NPromotion
        | MoveKind::BPromotion
        | MoveKind::RPromotion
        | MoveKind::QPromotion => piece == Piece::Pawn && mb[s.to] is None,
        MoveKind::NPromCapture
        | MoveKind::BPromCapture
        | MoveKind::RPromCapture
        | MoveKind::QPromCapture => piece == Piece::Pawn && takes,
    }
}

/// The board after the step.
pub open spec fn applied(mb: Seq<Option<(Side, Piece)>>, s: Step) -> Seq<Option<(Side, Piece)>> {
    let side = side_of(mb[s.from]);
    match s.kind {
        MoveKind::KingCastle => mb.update(s.from, None).update(king_rook_home(side), None).update(
            s.to,
            Some((side, Piece::King)),
        ).update(s.from + 1, Some((side, Piece::Rook))),
        MoveKind::QueenCastle => mb.update(s.from, None).update(
            queen_rook_home(side),
            None,
        ).update(s.to, Some((side, Piece::King))).update(s.from - 1, Some((side, Piece::Rook))),
        MoveKind::EnPassant => mb.update(partner(s.to), None).update(s.from, None).update(
            s.to,
            mb[s.from],
        ),
        _ => mb.update(s.from, None).update(
            s.to,
            match s.kind.promoted() {
                Some(piece) => Some((side, piece)),
                None => mb[s.from],
            },
        ),
    }
}

/// The step forfeits the castling right `c`: the king moves, the rook leaves its corner,
/// or the rook is taken there.
pub open spec fn forfeits(mb: Seq<Option<(Side, Piece)>>, s: Step, c: Castling) -> bool {
    let side = side_of(mb[s.from]);
    let piece = piece_of(mb[s.from]);
    let taken = if s.kind.quiet() {
        None
    } else {
        mb[s.to]
    };
    ||| piece == Piece::King && (c == Castling::king_side(side) || c == Castling::queen_side(side))
    ||| piece == Piece::Rook && s.from == king_rook_home(side) && c == Castling::king_side(side)
    ||| piece == Piece::Rook && s.from == queen_rook_home(side) && c == Castling::queen_side(side)
    ||| taken is Some && piece_of(taken) == Piece::Rook && s.to == king_rook_home(side.other()) && c
        == Castling::king_side(side_of(taken))
    ||| taken is Some && piece_of(taken) == Piece::Rook && s.to == queen_rook_home(side.other())
        && c == Castling::queen_side(side_of(taken))
}

/// A pawn of the opponent of `stm` has just passed the empty square `e`.
pub open spec fn passed(mb: Seq<Option<(Side, Piece)>>, stm: Side, e: int) -> bool {
    &&& is_square(e)
    &&& rank_of(e) == match stm {
        Side::White => 5int,
        Side::Black => 2int,
    }
    &&& mb[e] is None
    &&& holds(mb, partner(e), stm.other(), Piece::Pawn)
}

/// The squares taken once the pawn on `t` has captured at `e`.
pub open spec fn after_passant(mb: Seq<Option<(Side, Piece)>>, e: int, t: int) -> Set<int> {
    occupied(mb).remove(partner(e)).remove(t).insert(e)
}

/// The pawn on `t` can capture at `e` without a slider then giving check.
pub open spec fn passant_taker(
    mb: Seq<Option<(Side, Piece)>>,
    stm: Side,
    e: int,
    t: int,
) -> bool {
    &&& holds(mb, t, stm, Piece::Pawn)
    &&& pawn_reach(stm, t, e)
    &&& forall|a: int| !#[trigger] slider_check(mb, stm, a, after_passant(mb, e, t))
}

/// The slider on `a` looks at the king of `stm` when the squares in `occ` are taken.
pub open spec fn slider_check(
    mb: Seq<Option<(Side, Piece)>>,
    stm: Side,
    a: int,
    occ: Set<int>,
) -> bool {
    let k = king_sq(mb, stm);
    &&& owned(mb, stm.other(), a)
    &&& {
        ||| (piece_of(mb[a]) == Piece::Bishop || piece_of(mb[a]) == Piece::Queen) && bishop_reach(
            k,
            a,
            occ,
        )
        ||| (piece_of(mb[a]) == Piece::Rook || piece_of(mb[a]) == Piece::Queen) && rook_reach(
            k,
            a,
            occ,
        )
    }
}

/// En passant at `e` is possible.
pub open spec fn passant_live(mb: Seq<Option<(Side, Piece)>>, stm: Side, e: int) -> bool {
    passed(mb, stm, e) && exists|t: int| #[trigger] passant_taker(mb, stm, e, t)
}

impl BoardState {
    /// Everything that is kept about the position is up to date.
    pub open spec fn wf(self, z: Zobrist) -> bool {
        &&& self.consistent()
        &&& self.kings()
        &&& self.castling_rights.valid()
        &&& self.hash == self.key(z)
        &&& self.threats_current()
        &&& self.ep() matches Some(e) ==> passant_live(self.mb(), self.side_to_move, e)
    }
}

/// A move has been made: the position is the next one, the state before it is on the stack and
/// a key in the history, and of the pins only those against the side to move are new.
pub open spec fn made(a: Board, s: Step, b: Board) -> bool {
    let stm = a.state.side_to_move;
    &&& b.zobrist == a.zobrist
    &&& b.state_stack@ == a.state_stack@.push(a.state)
    &&& b.state.position() == next_position(a.state.position(), s)
    &&& forall|c: Castling| #[trigger]
        b.state.castling_rights.holds(c) <==> a.state.castling_rights.holds(c) && !forfeits(
            a.state.mb(),
            s,
            c,
        )
    &&& b.state.half_move_clock == clock_after(a.state.mb(), s, a.state.half_move_clock as int)
    &&& b.state.full_move == a.state.full_move + (if stm == Side::White {
        1int
    } else {
        0
    })
    &&& b.game_history@ == a.game_history@.push(
        position_key(
            a.zobrist,
            b.state.mb(),
            b.state.side_to_move,
            b.state.castling_rights,
            passing(s),
        ),
    )
    &&& b.state.pinned_bb(stm) == a.state.pinned_bb(stm)
}

/// The board is as it was.
pub open spec fn restored(before: Board, after: Board) -> bool {
    &&& after.state == before.state
    &&& after.same_past(before)
}

/// What was done last on a board is taken back.
pub open spec fn taken_back(a: Board, b: Board) -> bool {
    &&& b.zobrist == a.zobrist
    &&& b.state == a.state_stack@.last()
    &&& b.state_stack@ == a.state_stack@.drop_last()
    &&& b.game_history@ == a.game_history@.drop_last()
}

/// A move or a null move puts the state on the stack and a key into the history. Taking it
/// back restores the board.
pub proof fn law_unmake_move(before: Board, made: Board, after: Board, key: u64)
    requires
        made.zobrist == before.zobrist,
        made.state_stack@ == before.state_stack@.push(before.state),
        made.game_history@ == before.game_history@.push(key),
        taken_back(made, after),
    ensures
        restored(before, after),
{
    assert(made.state_stack@.drop_last() =~= before.state_stack@);
    assert(made.game_history@.drop_last() =~= before.game_history@);
}

impl Board {
    /// The position and all positions before it are well formed.
    pub open spec fn wf(self) -> bool {
        &&& self.state.wf(self.zobrist)
        &&& forall|i: int|
            0 <= i < self.state_stack@.len() ==> (#[trigger] self.state_stack@[i]).wf(self.zobrist)
    }

    /// The step can be made now.
    pub open spec fn can_make(self, s: Step) -> bool {
        &&& movable(self.state.mb(), self.state.side_to_move, s)
        &&& self.state.half_move_clock < 255
        &&& self.state.full_move < usize::MAX
    }

    /// Remembers the current position.
    pub fn copy_state(&mut self)
        ensures
            final(self).state == old(self).state,
            final(self).state_stack@ == old(self).state_stack@.push(old(self).state),
            final(self).game_history@ == old(self).game_history@,
            final(self).zobrist == old(self).zobrist,
    {
        self.state_stack.push(self.state);
    }

    /// Goes back to the position before the last move.
    pub fn unmake_move(&mut self)
        ensures
            old(self).state_stack@.len() > 0 && old(self).game_history@.len() > 0 ==> taken_back(
                *old(self),
                *final(self),
            ),
            final(self).zobrist == old(self).zobrist,
            old(self).state_stack@.len() > 0 ==> {
                &&& final(self).state == old(self).state_stack@.last()
                &&& final(self).state_stack@ == old(self).state_stack@.drop_last()
            },
            old(self).state_stack@.len() == 0 ==> {
                &&& final(self).state == old(self).state
                &&& final(self).state_stack@ == old(self).state_stack@
            },
            final(self).game_history@ == if old(self).game_history@.len() > 0 {
                old(self).game_history@.drop_last()
            } else {
                old(self).game_history@
            },
            old(self).wf() ==> final(self).wf(),
    {
        if let Some(prev_state) = self.state_stack.pop() {
            self.state = prev_state;
        }
        let _ = self.game_history.pop();
    }

    /// Moves the pieces of a step, and nothing else.
    fn move_pieces(&mut self, m: Move)
        requires
            old(self).state.consistent(),
            movable(old(self).state.mb(), side_of(old(self).state.mb()[m@.from]), m@),
        ensures
            final(self).same_features(*old(self)),
            final(self).state.consistent(),
            final(self).state.mb() == applied(old(self).state.mb(), m@),
            final(self).state.key_rest(old(self).zobrist) == old(self).state.key_rest(
                old(self).zobrist,
            ),
    {
        let from = m.get_from();
        let to = m.get_to();
        let kind = m.get_kind();
        let ghost mb = self.state.mb();
        proof {
            assert(holds(mb, m@.from, side_of(mb[m@.from]), piece_of(mb[m@.from])));
            lemma_material_room(self.state);
        }
        if let Some((side, piece)) = self.get_piece_at_square(from) {
            match kind {
                MoveKind::KingCastle => {
                    let rook = if side == Side::White { Square::H1 } else { Square::H8 };
                    let beside = if side == Side::White { Square::F1 } else { Square::F8 };
                    self.remove_piece(side, piece, from);
                    proof {
                        lemma_material_room(self.state);
                    }
                    self.remove_piece(side, Piece::Rook, rook);
                    proof {
                        lemma_material_room(self.state);
                    }
                    self.place_piece(side, piece, to);
                    proof {
                        lemma_material_room(self.state);
                    }
                    self.place_piece(side, Piece::Rook, beside);
                },
                MoveKind::QueenCastle => {
                    let rook = if side == Side::White { Square::A1 } else { Square::A8 };
                    let beside = if side == Side::White { Square::D1 } else { Square::D8 };
                    self.remove_piece(side, piece, from);
                    proof {
                        lemma_material_room(self.state);
                    }
                    self.remove_piece(side, Piece::Rook, rook);
                    proof {
                        lemma_material_room(self.state);
                    }
                    self.place_piece(side, piece, to);
                    proof {
                        lemma_material_room(self.state);
                    }
                    self.place_piece(side, Piece::Rook, beside);
                },
                _ => {
                    let victim = m.get_capture_square();
                    if kind.is_capture() {
                        if let Some((other_side, captured_piece)) = self.get_piece_at_square(
                            victim,
                        ) {
                            self.remove_piece(other_side, captured_piece, victim);
                            proof {
                                lemma_material_room(self.state);
                            }
                        }
                    }
                    self.remove_piece(side, piece, from);
                    proof {
                        lemma_material_room(self.state);
                    }
                    let arriving = match m.get_promoted_piece() {
                        Some(promoted) => promoted,
                        None => piece,
                    };
                    self.place_piece(side, arriving, to);
                    assert(self.state.mb() =~= applied(mb, m@));
                },
            }
        }
    }
}

/// The material counts are far from the limits of their type.
proof fn lemma_material_room(state: BoardState)
    requires
        state.consistent(),
    ensures
        forall|s: Side| 0 <= #[trigger] state.material_of(s) <= 57600,
{
    assert forall|s: Side| 0 <= #[trigger] state.material_of(s) <= 57600 by {
        lemma_material_bound(state.mb(), s, 64);
        assert(state.material_of(s) == material(state.mb(), s));
    }
}

impl Board {
    /// The castling rights that are left after the step.
    fn rights_after(&self, m: Move) -> (res: CastlingRights)
        requires
            self.state.mb()[m@.from] is Some,
            self.state.castling_rights.valid(),
        ensures
            res.valid(),
            forall|c: Castling| #[trigger]
                res.holds(c) <==> self.state.castling_rights.holds(c) && !forfeits(
                    self.state.mb(),
                    m@,
                    c,
                ),
    {
        let from = m.get_from();
        let to = m.get_to();
        let mut rights = self.state.castling_rights;
        if let Some((side, piece)) = self.get_piece_at_square(from) {
            let (king_rook_square, queen_rook_square) = match side {
                Side::White => (Square::H1, Square::A1),
                Side::Black => (Square::H8, Square::A8),
            };
            let (opp_king_rook_square, opp_queen_rook_square) = match side {
                Side::White => (Square::H8, Square::A8),
                Side::Black => (Square::H1, Square::A1),
            };
            proof {
                if from.idx() == king_rook_square.idx() {
                    lemma_square_injective(from, king_rook_square);
                }
                if from.idx() == queen_rook_square.idx() {
                    lemma_square_injective(from, queen_rook_square);
                }
                if to.idx() == opp_king_rook_square.idx() {
                    lemma_square_injective(to, opp_king_rook_square);
                }
                if to.idx() == opp_queen_rook_square.idx() {
                    lemma_square_injective(to, opp_queen_rook_square);
                }
            }
            if piece == Piece::King {
                rights.clear_king_side(side);
                rights.clear_queen_side(side);
            }
            if piece == Piece::Rook {
                if from == king_rook_square {
                    rights.clear_king_side(side);
                }
                if from == queen_rook_square {
                    rights.clear_queen_side(side);
                }
            }
            if !m.get_kind().is_quiet() {
                if let Some((other_side, captured_piece)) = self.get_piece_at_square(to) {
                    if captured_piece == Piece::Rook {
                        if to == opp_king_rook_square {
                            rights.clear_king_side(other_side);
                        }
                        if to == opp_queen_rook_square {
                            rights.clear_queen_side(other_side);
                        }
                    }
                }
            }
        }
        rights
    }

    /// Whether a slider of the opponent looks at the king of `stm` when the squares of
    /// `occ` are taken.
    pub fn slider_checks(&self, stm: Side, king_square: Square, occ: BitBoard) -> (res: bool)
        requires
            self.state.consistent(),
            king_square.idx() == king_sq(self.state.mb(), stm),
        ensures
            res <==> exists|a: int| #[trigger]
                slider_check(self.state.mb(), stm, a, occ.squares()),
    {
        broadcast use group_bits;

        let queens = self.get_piece_bb(stm.other(), Piece::Queen);
        let bishops = self.get_piece_bb(stm.other(), Piece::Bishop);
        let rooks = self.get_piece_bb(stm.other(), Piece::Rook);
        let diagonal = self.get_bishop_attacks(king_square, occ) & (bishops | queens);
        let orthogonal = self.get_rook_attacks(king_square, occ) & (rooks | queens);
        let checkers = diagonal | orthogonal;
        proof {
            let mb = self.state.mb();
            assert forall|a: int| #[trigger] checkers.has(a) <==> slider_check(
                mb,
                stm,
                a,
                occ.squares(),
            ) by {
                assert(queens.has(a) <==> holds(mb, a, stm.other(), Piece::Queen));
                assert(bishops.has(a) <==> holds(mb, a, stm.other(), Piece::Bishop));
                assert(rooks.has(a) <==> holds(mb, a, stm.other(), Piece::Rook));
            }
            lemma_lowest_bit(checkers.0);
            if checkers.0 != 0 {
                let a = vstd::std_specs::bits::u64_trailing_zeros(checkers.0) as int;
                assert(checkers.has(a));
                assert(slider_check(mb, stm, a, occ.squares()));
            }
            if exists|a: int| #[trigger] slider_check(mb, stm, a, occ.squares()) {
                let a = choose|a: int| #[trigger] slider_check(mb, stm, a, occ.squares());
                assert(checkers.has(a));
            }
        }
        !checkers.is_empty()
    }

    /// Whether a pawn of the opponent has just passed the square.
    fn is_passed(&self, enpassant: Square) -> (res: bool)
        ensures
            res == passed(self.state.mb(), self.state.side_to_move, enpassant.idx()),
    {
        let stm = self.state.side_to_move;
        let rank: usize = match stm {
            Side::White => 5,
            Side::Black => 2,
        };
        let empty: bool = match self.get_piece_at_square(enpassant) {
            Some(_) => false,
            None => true,
        };
        let pawn: bool = match self.get_piece_at_square(enpassant.across()) {
            Some((s, p)) => s == stm.other() && p == Piece::Pawn,
            None => false,
        };
        enpassant.to_rank() == rank && empty && pawn
    }

    /// Whether some pawn can capture at the passed square without exposing its king to a
    /// slider.
    fn passant_possible(&self, enpassant: Square) -> (res: bool)
        requires
            self.state.consistent(),
            self.state.kings(),
            passed(self.state.mb(), self.state.side_to_move, enpassant.idx()),
        ensures
            res == passant_live(self.state.mb(), self.state.side_to_move, enpassant.idx()),
    {
        let stm = self.state.side_to_move;
        let king_square = self.get_king_square(stm);
        let pawn_square = enpassant.across();
        let ghost mb = self.state.mb();
        let ghost e = enpassant.idx();
        let mut occupancies = self.get_all_occupancy();
        let ghost all = occupancies;
        occupancies.set_bit(enpassant);
        occupancies.clear_bit(pawn_square);
        let pawns = self.get_piece_bb(stm, Piece::Pawn);
        let reached = self.get_pawn_attacks(enpassant, stm.other());
        let takers = reached & pawns;
        proof {
            broadcast use group_bits;

            assert forall|t: int| #[trigger] takers.has(t) <==> holds(mb, t, stm, Piece::Pawn)
                && pawn_reach(stm, t, e) by {
                assert(pawns.has(t) <==> holds(mb, t, stm, Piece::Pawn));
                assert(reached.has(t) <==> pawn_reach(stm.other(), e, t));
            }
        }
        let mut rest = takers;
        while rest.0 != 0
            invariant
                self.state.consistent(),
                mb == self.state.mb(),
                e == enpassant.idx(),
                stm == self.state.side_to_move,
                king_square.idx() == king_sq(mb, stm),
                passed(mb, stm, e),
                forall|t: int| #[trigger]
                    takers.has(t) <==> holds(mb, t, stm, Piece::Pawn) && pawn_reach(stm, t, e),
                forall|t: int| #[trigger] rest.has(t) ==> takers.has(t),
                forall|i: int| #[trigger]
                    occupancies.has(i) <==> (is_square(i) && mb[i] is Some || i == e) && i
                        != partner(e),
                forall|t: int| #[trigger] passant_taker(mb, stm, e, t) ==> rest.has(t),
            decreases rest.0,
        {
            let ghost before = rest;
            if let Some(taker) = rest.pop_lsb() {
                let mut new_occ = occupancies;
                new_occ.clear_bit(taker);
                let ghost t = taker.idx();
                proof {
                    assert(takers.has(t));
                    assert(new_occ.squares() =~= after_passant(mb, e, t)) by {
                        assert forall|i: int| new_occ.squares().contains(i) <==> after_passant(
                            mb,
                            e,
                            t,
                        ).contains(i) by {
                            assert(new_occ.has(i) <==> occupancies.has(i) && i != t);
                        }
                    }
                }
                if !self.slider_checks(stm, king_square, new_occ) {
                    assert(passant_taker(mb, stm, e, t));
                    return true;
                }
                proof {
                    assert(!passant_taker(mb, stm, e, t)) by {
                        let a = choose|a: int| #[trigger] slider_check(
                            mb,
                            stm,
                            a,
                            new_occ.squares(),
                        );
                        assert(slider_check(mb, stm, a, after_passant(mb, e, t)));
                    }
                    assert forall|q: int| #[trigger] passant_taker(
                        mb,
                        stm,
                        e,
                        q,
                    ) implies rest.has(q) by {
                        assert(before.has(q));
                    }
                }
            }
        }
        proof {
            lemma_lowest_bit(rest.0);
        }
        false
    }

    /// Drops the en passant square where no capture there is possible.
    pub fn update_en_passant(&mut self)
        requires
            old(self).state.consistent(),
            old(self).state.kings(),
        ensures
            final(self).same_past(*old(self)),
            match old(self).state.ep() {
                Some(e) => if passant_live(old(self).state.mb(), old(self).state.side_to_move, e) {
                    final(self).state == old(self).state
                } else {
                    final(self).state == (BoardState {
                        enpassant: None,
                        hash: old(self).state.hash ^ old(self).zobrist.enpassant@[file_of(e)],
                        ..old(self).state
                    })
                },
                None => final(self).state == old(self).state,
            },
    {
        if let Some(enpassant) = self.state.enpassant {
            if self.is_passed(enpassant) && self.passant_possible(enpassant) {
                return;
            }
            let toggle = self.zobrist.get_enpassant_num(enpassant);
            self.state.hash = self.state.hash ^ toggle;
            self.state.enpassant = None;
        }
    }
}

/// How the key changes with everything but the pieces.
proof fn lemma_features_step(
    z: Zobrist,
    stm: Side,
    r0: CastlingRights,
    e0: Option<int>,
    r1: CastlingRights,
    e1: Option<int>,
)
    ensures
        features_key(z, stm, r0, e0) ^ z.castling@[r0.0 as int] ^ passant_key(z, e0) ^ z.side
            ^ passant_key(z, e1) ^ z.castling@[r1.0 as int] == features_key(
            z,
            stm.other(),
            r1,
            e1,
        ),
{
    let side = z.side;
    let c0 = z.castling@[r0.0 as int];
    let c1 = z.castling@[r1.0 as int];
    let p0 = passant_key(z, e0);
    let p1 = passant_key(z, e1);
    assert((0 ^ c0 ^ p0) ^ c0 ^ p0 ^ side ^ p1 ^ c1 == side ^ c1 ^ p1) by (bit_vector);
    assert((side ^ c0 ^ p0) ^ c0 ^ p0 ^ side ^ p1 ^ c1 == 0 ^ c1 ^ p1) by (bit_vector);
}

/// The number for an en passant square, zero for none.
pub open spec fn passant_key(z: Zobrist, ep: Option<int>) -> u64 {
    match ep {
        Some(i) => z.enpassant@[file_of(i)],
        None => 0,
    }
}

/// The square that a step lets a pawn pass.
pub open spec fn passing(s: Step) -> Option<int> {
    if s.kind is DoublePawn {
        Some(partner(s.to))
    } else {
        None
    }
}

/// The castling rights that are left after the step.
pub open spec fn remaining(
    mb: Seq<Option<(Side, Piece)>>,
    s: Step,
    rights: CastlingRights,
) -> CastlingRights {
    choose|r: CastlingRights|
        r.valid() && forall|c: Castling| #[trigger]
            r.holds(c) <==> rights.holds(c) && !forfeits(mb, s, c)
}

proof fn lemma_remaining(
    mb: Seq<Option<(Side, Piece)>>,
    s: Step,
    rights: CastlingRights,
    r: CastlingRights,
)
    requires
        r.valid(),
        forall|c: Castling| #[trigger]
            r.holds(c) <==> rights.holds(c) && !forfeits(mb, s, c),
    ensures
        r == remaining(mb, s, rights),
{
    let q = remaining(mb, s, rights);
    assert(q.valid() && forall|c: Castling| #[trigger]
        q.holds(c) <==> rights.holds(c) && !forfeits(mb, s, c));
    law_rights_extensional(r, q);
}

/// The position after a step.
pub open spec fn next_position(pos: Position, s: Step) -> Position {
    let mb = applied(pos.mb, s);
    let stm = pos.stm.other();
    Position {
        mb,
        stm,
        rights: remaining(pos.mb, s, pos.rights),
        ep: match passing(s) {
            Some(e) => if passant_live(mb, stm, e) {
                Some(e)
            } else {
                None
            },
            None => None,
        },
    }
}

/// The clock of moves without a capture or a pawn move.
pub open spec fn clock_after(mb: Seq<Option<(Side, Piece)>>, s: Step, clock: int) -> int {
    if s.kind.capturing() || piece_of(mb[s.from]) == Piece::Pawn {
        0
    } else {
        clock + 1
    }
}

/// A step keeps a king on the board for both sides.
pub proof fn lemma_kings_stay(mb: Seq<Option<(Side, Piece)>>, side: Side, s: Step, of: Side)
    requires
        mb.len() == 64,
        movable(mb, side, s),
        has_king(mb, of),
    ensures
        has_king(applied(mb, s), of),
{
    let k = choose|k: int| #[trigger] holds(mb, k, of, Piece::King);
    let after = applied(mb, s);
    if s.from == k {
        assert(holds(after, s.to, of, Piece::King));
    } else {
        assert(holds(after, k, of, Piece::King));
    }
}

impl Board {
    /// Makes a move: moves the pieces, hands the turn over and brings everything that is
    /// kept about the position up to date.
    pub fn make_move(&mut self, m: Move)
        requires
            old(self).wf(),
            old(self).can_make(m@),
        ensures
            final(self).wf(),
            made(*old(self), m@, *final(self)),
    {
        let ghost first = *self;
        let ghost z = self.zobrist;
        let ghost mb = self.state.mb();
        let ghost stm = self.state.side_to_move;
        let rights = self.rights_after(m);
        let capture: bool = m.is_capture();
        let pawn: bool = match self.get_piece_at_square(m.get_from()) {
            Some((_, piece)) => piece == Piece::Pawn,
            None => false,
        };
        self.copy_state();
        let ghost k0 = self.state.key_rest(z);
        let castling_num = self.zobrist.get_castling_num(self.state.castling_rights);
        let side_num = self.zobrist.get_side_num();
        let passant_num: u64 = match self.state.enpassant {
            Some(square) => self.zobrist.get_enpassant_num(square),
            None => 0,
        };
        self.move_pieces(m);
        let ghost moved = self.state;
        let ghost h1 = self.state.hash;
        self.state.hash = self.state.hash ^ castling_num;
        self.state.hash = self.state.hash ^ passant_num;
        self.state.hash = self.state.hash ^ side_num;
        self.state.enpassant = None;
        self.state.castling_rights = rights;
        self.state.side_to_move = self.state.side_to_move.other();
        let mut new_passant_num: u64 = 0;
        if let MoveKind::DoublePawn = m.get_kind() {
            let square = m.get_to().across();
            self.state.enpassant = Some(square);
            new_passant_num = self.zobrist.get_enpassant_num(square);
        }
        self.state.hash = self.state.hash ^ new_passant_num;
        if capture || pawn {
            self.state.half_move_clock = 0;
        } else {
            self.state.half_move_clock = self.state.half_move_clock + 1;
        }
        if self.state.side_to_move == Side::Black {
            self.state.full_move = self.state.full_move + 1;
        }
        self.state.hash = self.state.hash ^ self.zobrist.get_castling_num(
            self.state.castling_rights,
        );
        let ghost settled = self.state;
        proof {
            let pk = pieces_key(z, settled.mb());
            let c0 = castling_num;
            let p0 = passant_num;
            let s = side_num;
            let p1 = new_passant_num;
            let c1 = z.castling@[rights.0 as int];
            let f0 = features_key(z, stm, first.state.castling_rights, first.state.ep());
            let pk0 = pieces_key(z, mb);
            lemma_xor(pk0, f0, 0);
            assert((pk0 ^ f0) ^ pk0 == f0) by (bit_vector);
            assert(k0 == f0);
            assert(h1 ^ pk == f0);
            assert(h1 ^ c0 ^ p0 ^ s ^ p1 ^ c1 == pk ^ (f0 ^ c0 ^ p0 ^ s ^ p1 ^ c1)) by (bit_vector)
                requires
                    h1 ^ pk == f0,
            ;
            lemma_features_step(
                z,
                stm,
                first.state.castling_rights,
                first.state.ep(),
                rights,
                passing(m@),
            );
            assert(settled.ep() == passing(m@));
            assert(settled.hash == settled.key(z));
            lemma_consistent_features(moved, settled);
            lemma_kings_stay(mb, stm, m@, Side::White);
            lemma_kings_stay(mb, stm, m@, Side::Black);
        }
        self.game_history.push(self.state.hash);
        self.update_all_threats();
        let ghost threatened = self.state;
        proof {
            lemma_same_but_threats(settled, threatened, z);
        }
        self.update_en_passant();
        proof {
            lemma_passant_cleared(threatened, self.state, z);
            lemma_remaining(mb, m@, first.state.castling_rights, rights);
            assert forall|i: int| 0 <= i < self.state_stack@.len() implies (
            #[trigger] self.state_stack@[i]).wf(z) by {
                if i < first.state_stack@.len() {
                    assert(first.state_stack@[i].wf(z));
                }
            }
        }
    }

    /// Passes the turn without moving a piece.
    pub fn make_null_move(&mut self)
        requires
            old(self).wf(),
            old(self).state.full_move < usize::MAX,
        ensures
            final(self).wf(),
            final(self).zobrist == old(self).zobrist,
            final(self).state_stack@ == old(self).state_stack@.push(old(self).state),
            final(self).state.mb() == old(self).state.mb(),
            final(self).state.side_to_move == old(self).state.side_to_move.other(),
            final(self).state.castling_rights == old(self).state.castling_rights,
            final(self).state.half_move_clock == old(self).state.half_move_clock,
            final(self).state.enpassant is None,
            final(self).state.full_move == old(self).state.full_move + (if old(
                self,
            ).state.side_to_move == Side::Black {
                1int
            } else {
                0
            }),
            final(self).game_history@ == old(self).game_history@.push(final(self).state.hash),
            final(self).state.pinned_bb(old(self).state.side_to_move) == old(
                self,
            ).state.pinned_bb(old(self).state.side_to_move),
    {
        let ghost first = *self;
        let ghost z = self.zobrist;
        self.copy_state();
        self.state.side_to_move = self.state.side_to_move.other();
        self.state.hash = self.state.hash ^ self.zobrist.get_side_num();
        if let Some(square) = self.state.enpassant {
            self.state.hash = self.state.hash ^ self.zobrist.get_enpassant_num(square);
            self.state.enpassant = None;
        }
        self.game_history.push(self.state.hash);
        if self.state.side_to_move == Side::White {
            self.state.full_move = self.state.full_move + 1;
        }
        let ghost settled = self.state;
        proof {
            let a = first.state;
            let r = a.castling_rights;
            let pk = pieces_key(z, a.mb());
            let f = features_key(z, a.side_to_move, r, a.ep());
            let s = z.side;
            let c = z.castling@[r.0 as int];
            let p = passant_key(z, a.ep());
            lemma_features_step(z, a.side_to_move, r, a.ep(), r, None);
            assert((pk ^ f) ^ s ^ p == pk ^ (f ^ c ^ p ^ s ^ 0 ^ c)) by (bit_vector);
            assert((pk ^ f) ^ s ^ 0 == (pk ^ f) ^ s) by (bit_vector);
            assert(settled.hash == settled.key(z));
            lemma_consistent_features(a, settled);
        }
        self.update_all_threats();
        proof {
            lemma_same_but_threats(settled, self.state, z);
            assert forall|i: int| 0 <= i < self.state_stack@.len() implies (
            #[trigger] self.state_stack@[i]).wf(z) by {
                if i < first.state_stack@.len() {
                    assert(first.state_stack@[i].wf(z));
                }
            }
        }
    }

    /// Whether `square` is attacked by the opponent of the side to move.
    pub fn is_attacked(&self, square: Square) -> (res: bool)
        ensures
            res == self.state.threats.has(square.idx()),
    {
        self.state.threats.contains(square)
    }

    /// Whether the king of `side` stands on a square that the opponent of the side to move
    /// attacks.
    pub fn king_in_check(&self, side: Side) -> (res: bool)
        requires
            self.state.consistent(),
            self.state.kings(),
        ensures
            res == self.state.threats.has(king_sq(self.state.mb(), side)),
    {
        self.is_attacked(self.get_king_square(side))
    }
}

/// The bitboards and the square table do not depend on the rest of the position.
pub proof fn lemma_consistent_features(a: BoardState, b: BoardState)
    requires
        a.consistent(),
        b.pieces == a.pieces,
        b.occupancies == a.occupancies,
        b.mailbox == a.mailbox,
        b.material_value == a.material_value,
    ensures
        b.consistent(),
{
    assert forall|p: Piece, i: int| #[trigger] b.kind_bb(p).has(i) <==> of_kind(b.mb(), p, i) by {
        assert(a.kind_bb(p).has(i) <==> of_kind(a.mb(), p, i));
    }
    assert forall|s: Side, i: int| #[trigger] b.side_bb(s).has(i) <==> owned(b.mb(), s, i) by {
        assert(a.side_bb(s).has(i) <==> owned(a.mb(), s, i));
    }
    assert forall|s: Side| #[trigger] b.material_of(s) == material(b.mb(), s) by {
        assert(a.material_of(s) == material(a.mb(), s));
    }
}

/// Dropping the en passant square keeps a position well formed.
pub proof fn lemma_passant_cleared(a: BoardState, b: BoardState, z: Zobrist)
    requires
        a.consistent(),
        a.kings(),
        a.castling_rights.valid(),
        a.hash == a.key(z),
        a.threats_current(),
        match a.ep() {
            Some(e) => if passant_live(a.mb(), a.side_to_move, e) {
                b == a
            } else {
                b == (BoardState {
                    enpassant: None,
                    hash: a.hash ^ z.enpassant@[file_of(e)],
                    ..a
                })
            },
            None => b == a,
        },
    ensures
        b.wf(z),
{
    lemma_consistent_features(a, b);
    if b != a {
        let pk = pieces_key(z, a.mb());
        let s: u64 = if a.side_to_move == Side::Black {
            z.side
        } else {
            0
        };
        let c = z.castling@[a.castling_rights.0 as int];
        let p = passant_key(z, a.ep());
        assert((pk ^ (s ^ c ^ p)) ^ p == pk ^ (s ^ c ^ 0)) by (bit_vector);
        assert forall|t: int| #[trigger] b.threats.has(t) <==> crate::board::position::threatened(
            b.mb(),
            b.side_to_move.other(),
            t,
        ) by {
            assert(a.threats.has(t) <==> crate::board::position::threatened(
                a.mb(),
                a.side_to_move.other(),
                t,
            ));
        }
        assert forall|t: int| #[trigger] b.checkers.has(t) <==> crate::board::position::checker(
            b.mb(),
            b.side_to_move,
            t,
        ) by {
            assert(a.checkers.has(t) <==> crate::board::position::checker(
                a.mb(),
                a.side_to_move,
                t,
            ));
        }
        assert forall|t: int| #[trigger]
            b.pinned_bb(b.side_to_move).has(t) <==> crate::board::position::pinned(
                b.mb(),
                b.side_to_move,
                t,
            ) by {
            assert(a.pinned_bb(a.side_to_move).has(t) <==> crate::board::position::pinned(
                a.mb(),
                a.side_to_move,
                t,
            ));
        }
        assert(b.threats_current());
        assert(b.hash == b.key(z));
        assert(b.kings());
    }
}

} // verus!
