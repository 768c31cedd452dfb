//! Positions as the engine keeps them: bitboards, a square table and derived facts.

use core::ops::Not;

use crate::attacks::{
    bishop_reach, blocked_bishop_attacks, blocked_rook_attacks, king_reach, knight_reach,
    mask_king_attacks, mask_knight_attacks, mask_pawn_attacks, pawn_reach, reach, rook_reach,
};
use crate::board::position::{
    checker, has_king, holds, king_at, king_sq, lemma_king_exists, lemma_king_unique,
    lemma_material_update, lemma_pieces_key_update, lemma_xor, material, occupied, of_kind, owned,
    pieces_key, pinned, position_key, threatened, Position,
};
use crate::types::bitboard::BitBoard;
use crate::types::bits::{group_bits, is_square};
use crate::types::pieces::Piece;
use crate::types::sides::{CastlingRights, Side};
use crate::types::squares::Square;
use crate::zobrist::{init_zobrist_nums, Zobrist};
use vstd::prelude::*;

pub mod attackers;
pub mod display;
pub mod legal;
pub mod legality;
pub mod makemove;
pub mod movegen;
pub mod notation;
pub mod parser;
pub mod position;
pub mod pseudo;
pub mod see;
pub mod start;
pub mod status;
pub mod threats;

verus! {

/// A position with the facts that are kept up to date from move to move.
#[derive(Clone, Copy, Debug, PartialEq)]
pub struct BoardState {
    /// The squares of each kind of piece.
    pub pieces: [BitBoard; 6],
    /// The squares of each side.
    pub occupancies: [BitBoard; 2],
    /// What stands on each square.
    pub mailbox: [Option<(Side, Piece)>; 64],
    pub side_to_move: Side,
    /// The square that a pawn has just passed and where it can be taken.
    pub enpassant: Option<Square>,
    pub castling_rights: CastlingRights,
    /// The squares that the opponent of the side to move attacks.
    pub threats: BitBoard,
    /// The pieces pinned to their king, for each side.
    pub pinned: [BitBoard; 2],
    /// The pieces that give check to the side to move.
    pub checkers: BitBoard,
    /// The worth of the pieces of each side.
    pub material_value: [i32; 2],
    pub half_move_clock: u8,
    pub full_move: usize,
    pub hash: u64,
}

impl BoardState {
    /// What stands where.
    pub open spec fn mb(self) -> Seq<Option<(Side, Piece)>> {
        self.mailbox@
    }

    pub open spec fn ep(self) -> Option<int> {
        match self.enpassant {
            Some(s) => Some(s.idx()),
            None => None,
        }
    }

    /// The position, without what is derived from it.
    pub open spec fn position(self) -> Position {
        Position {
            mb: self.mb(),
            stm: self.side_to_move,
            rights: self.castling_rights,
            ep: self.ep(),
        }
    }

    /// The bitboard of a kind of piece.
    pub open spec fn kind_bb(self, p: Piece) -> BitBoard {
        self.pieces@[p as int]
    }

    /// The bitboard of a side.
    pub open spec fn side_bb(self, s: Side) -> BitBoard {
        self.occupancies@[s as int]
    }

    /// The pins against a side.
    pub open spec fn pinned_bb(self, s: Side) -> BitBoard {
        self.pinned@[s as int]
    }

    /// The material count of a side.
    pub open spec fn material_of(self, s: Side) -> int {
        self.material_value@[s as int] as int
    }

    /// The bitboards, the material count and the square table tell the same story.
    pub open spec fn consistent(self) -> bool {
        &&& forall|p: Piece, i: int| #[trigger]
            self.kind_bb(p).has(i) <==> of_kind(self.mb(), p, i)
        &&& forall|s: Side, i: int| #[trigger]
            self.side_bb(s).has(i) <==> owned(self.mb(), s, i)
        &&& forall|s: Side| #[trigger] self.material_of(s) == material(self.mb(), s)
    }

    /// Both sides have a king.
    pub open spec fn kings(self) -> bool {
        has_king(self.mb(), Side::White) && has_king(self.mb(), Side::Black)
    }

    /// Threats, pins and checks against the side to move are up to date.
    pub open spec fn threats_current(self) -> bool {
        let stm = self.side_to_move;
        &&& forall|t: int| #[trigger]
            self.threats.has(t) <==> threatened(self.mb(), stm.other(), t)
        &&& forall|a: int| #[trigger] self.checkers.has(a) <==> checker(self.mb(), stm, a)
        &&& forall|b: int| #[trigger]
            self.pinned_bb(stm).has(b) <==> pinned(self.mb(), stm, b)
    }

    /// The key that belongs to the position.
    pub open spec fn key(self, z: Zobrist) -> u64 {
        position_key(z, self.mb(), self.side_to_move, self.castling_rights, self.ep())
    }

    /// The part of the key that the pieces do not account for.
    pub open spec fn key_rest(self, z: Zobrist) -> u64 {
        self.hash ^ pieces_key(z, self.mb())
    }

    /// The squares with a piece, as the bitboards have them.
    pub open spec fn taken(self) -> Set<int> {
        occupied(self.mb())
    }

    /// Everything but the threats, pins and checks is the same.
    pub open spec fn same_but_threats(self, other: BoardState) -> bool {
        &&& self.pieces == other.pieces
        &&& self.occupancies == other.occupancies
        &&& self.mailbox == other.mailbox
        &&& self.side_to_move == other.side_to_move
        &&& self.enpassant == other.enpassant
        &&& self.castling_rights == other.castling_rights
        &&& self.material_value == other.material_value
        &&& self.half_move_clock == other.half_move_clock
        &&& self.full_move == other.full_move
        &&& self.hash == other.hash
    }

    /// No piece is on the board, White is to move and nothing else is noted.
    pub open spec fn is_empty(self) -> bool {
        &&& self.consistent()
        &&& forall|i: int| is_square(i) ==> self.mb()[i] is None
        &&& self.side_to_move == Side::White
        &&& self.enpassant is None
        &&& self.castling_rights.0 == 0
        &&& self.threats.0 == 0
        &&& self.checkers.0 == 0
        &&& self.pinned_bb(Side::White).0 == 0
        &&& self.pinned_bb(Side::Black).0 == 0
        &&& self.half_move_clock == 0
        &&& self.full_move == 0
        &&& self.hash == 0
    }

    /// The empty board with White to move.
    pub fn new() -> (res: Self)
        ensures
            res.is_empty(),
    {
        broadcast use group_bits;

        let mut mailbox: [Option<(Side, Piece)>; 64] = [None;64];
        let mut i: usize = 0;
        while i < 64
            invariant
                i <= 64,
                forall|j: int| 0 <= j < i ==> #[trigger] mailbox@[j] is None,
            decreases 64 - i,
        {
            mailbox[i] = None;
            i += 1;
        }
        let state = BoardState {
            pieces: [BitBoard(0), BitBoard(0), BitBoard(0), BitBoard(0), BitBoard(0), BitBoard(0)],
            occupancies: [BitBoard(0), BitBoard(0)],
            mailbox,
            side_to_move: Side::White,
            enpassant: None,
            castling_rights: CastlingRights::new(),
            threats: BitBoard(0),
            pinned: [BitBoard(0), BitBoard(0)],
            checkers: BitBoard(0),
            material_value: [0, 0],
            half_move_clock: 0,
            full_move: 0,
            hash: 0,
        };
        proof {
            lemma_empty_material(state.mb(), Side::White, 64);
            lemma_empty_material(state.mb(), Side::Black, 64);
            assert forall|s: Side| state.material_of(s) == material(state.mb(), s) by {
                match s {
                    Side::White => {},
                    Side::Black => {},
                }
            }
        }
        state
    }
}

/// What does not concern threats carries over to a position that differs in them only.
pub proof fn lemma_same_but_threats(a: BoardState, b: BoardState, z: Zobrist)
    requires
        b.same_but_threats(a),
    ensures
        a.consistent() ==> b.consistent(),
        a.kings() ==> b.kings(),
        b.key(z) == a.key(z),
        b.mb() == a.mb(),
        b.ep() == a.ep(),
{
    if a.consistent() {
        assert forall|p: Piece, i: int| #[trigger] b.kind_bb(p).has(i) <==> of_kind(
            b.mb(),
            p,
            i,
        ) by {
            assert(a.kind_bb(p).has(i) <==> of_kind(a.mb(), p, i));
        }
        assert forall|s: Side, i: int| #[trigger] b.side_bb(s).has(i) <==> owned(b.mb(), s, i) by {
            assert(a.side_bb(s).has(i) <==> owned(a.mb(), s, i));
        }
        assert forall|s: Side| #[trigger] b.material_of(s) == material(b.mb(), s) by {
            assert(a.material_of(s) == material(a.mb(), s));
        }
    }
}

proof fn lemma_empty_material(mb: Seq<Option<(Side, Piece)>>, side: Side, n: int)
    requires
        forall|i: int| 0 <= i < n ==> mb[i] is None,
    ensures
        crate::board::position::material_upto(mb, side, n) == 0,
    decreases n,
{
    if n > 0 {
        lemma_empty_material(mb, side, n - 1);
    }
}

impl Default for BoardState {
    fn default() -> (res: Self)
        ensures
            res.is_empty(),
    {
        BoardState::new()
    }
}

/// However a position has come about, its key is the same.
pub proof fn law_same_key(a: BoardState, b: BoardState, z: Zobrist)
    requires
        a.wf(z),
        b.wf(z),
        a.position() == b.position(),
    ensures
        a.hash == b.hash,
{
}

/// A position together with the positions that led to it.
#[derive(Clone, Debug, PartialEq)]
pub struct Board {
    pub state: BoardState,
    /// The positions before the current one, oldest first.
    pub state_stack: Vec<BoardState>,
    /// The keys of the positions after each move.
    pub game_history: Vec<u64>,
    /// The numbers that position keys are made of.
    pub zobrist: Zobrist,
}

impl Board {
    /// Everything but the current position is the same.
    pub open spec fn same_past(self, other: Board) -> bool {
        &&& self.state_stack@ == other.state_stack@
        &&& self.game_history@ == other.game_history@
        &&& self.zobrist == other.zobrist
    }

    /// An empty board without a past, with the numbers that are drawn from the fixed seed.
    pub fn new() -> (res: Self)
        ensures
            res.state.is_empty(),
            res.state_stack@.len() == 0,
            res.game_history@.len() == 0,
            res.zobrist.as_drawn(),
    {
        Board {
            state: BoardState::new(),
            state_stack: Vec::new(),
            game_history: Vec::new(),
            zobrist: init_zobrist_nums(),
        }
    }

    /// The squares of the pieces of one kind and side.
    pub fn get_piece_bb(&self, side: Side, piece: Piece) -> (res: BitBoard)
        ensures
            res.0 == self.state.kind_bb(piece).0 & self.state.side_bb(side).0,
            self.state.consistent() ==> forall|i: int| #[trigger]
                res.has(i) <==> holds(self.state.mb(), i, side, piece),
    {
        broadcast use group_bits;

        let res = BitBoard(
            self.state.pieces[piece as usize].0 & self.state.occupancies[side as usize].0,
        );
        proof {
            if self.state.consistent() {
                assert forall|i: int| #[trigger] res.has(i) <==> holds(
                    self.state.mb(),
                    i,
                    side,
                    piece,
                ) by {
                    assert(self.state.kind_bb(piece).has(i) <==> of_kind(
                        self.state.mb(),
                        piece,
                        i,
                    ));
                    assert(self.state.side_bb(side).has(i) <==> owned(
                        self.state.mb(),
                        side,
                        i,
                    ));
                }
            }
        }
        res
    }

    pub fn get_piece_at_square(&self, square: Square) -> (res: Option<(Side, Piece)>)
        ensures
            res == self.state.mb()[square.idx()],
    {
        self.state.mailbox[square as usize]
    }

    /// The parts of the position that placing or removing a piece leaves alone.
    pub open spec fn same_features(self, other: Board) -> bool {
        &&& self.same_past(other)
        &&& self.state.side_to_move == other.state.side_to_move
        &&& self.state.enpassant == other.state.enpassant
        &&& self.state.castling_rights == other.state.castling_rights
        &&& self.state.threats == other.state.threats
        &&& self.state.pinned == other.state.pinned
        &&& self.state.checkers == other.state.checkers
        &&& self.state.half_move_clock == other.state.half_move_clock
        &&& self.state.full_move == other.state.full_move
    }

    /// Puts a piece on a square.
    pub fn place_piece(&mut self, side: Side, piece: Piece, square: Square)
        requires
            old(self).state.material_of(side) + piece.worth() <= i32::MAX,
        ensures
            final(self).same_features(*old(self)),
            final(self).state.mb() == old(self).state.mb().update(
                square.idx(),
                Some((side, piece)),
            ),
            forall|p: Piece, i: int| #[trigger]
                final(self).state.kind_bb(p).has(i) <==> old(self).state.kind_bb(p).has(i) || (p
                    == piece && i == square.idx()),
            forall|s: Side, i: int| #[trigger]
                final(self).state.side_bb(s).has(i) <==> old(self).state.side_bb(s).has(i) || (s
                    == side && i == square.idx()),
            forall|s: Side| #[trigger]
                final(self).state.material_of(s) == old(self).state.material_of(s) + (if s == side {
                    piece.worth()
                } else {
                    0
                }),
            final(self).state.hash == old(self).state.hash ^ old(self).zobrist.piece_num(
                side,
                piece,
                square.idx(),
            ),
            old(self).state.consistent() && old(self).state.mb()[square.idx()] is None
                ==> final(self).state.consistent() && final(self).state.key_rest(
                old(self).zobrist,
            ) == old(self).state.key_rest(old(self).zobrist),
    {
        self.state.pieces[piece as usize].set_bit(square);
        self.state.occupancies[side as usize].set_bit(square);
        self.state.mailbox[square as usize] = Some((side, piece));
        self.state.material_value[side as usize] = self.state.material_value[side as usize]
            + piece.value();
        self.state.hash = self.state.hash ^ self.zobrist.get_piece_num(side, piece, square);
        proof {
            let (a, b) = (old(self).state, self.state);
            assert(b.mb() =~= a.mb().update(square.idx(), Some((side, piece))));
            if a.consistent() && a.mb()[square.idx()] is None {
                lemma_material_update(a.mb(), Side::White, square.idx(), Some((side, piece)), 64);
                lemma_material_update(a.mb(), Side::Black, square.idx(), Some((side, piece)), 64);
                lemma_pieces_key_update(self.zobrist, a.mb(), square.idx(), Some((side, piece)), 64);
                let n = self.zobrist.piece_num(side, piece, square.idx());
                let k = pieces_key(self.zobrist, a.mb());
                lemma_xor(k, 0, 0);
                let h = a.hash;
                assert((h ^ n) ^ (k ^ n) == h ^ k) by (bit_vector);
                assert forall|p: Piece, i: int| #[trigger] b.kind_bb(p).has(i) <==> of_kind(
                    b.mb(),
                    p,
                    i,
                ) by {
                    assert(a.kind_bb(p).has(i) <==> of_kind(a.mb(), p, i));
                }
                assert forall|s: Side, i: int| #[trigger] b.side_bb(s).has(i) <==> owned(
                    b.mb(),
                    s,
                    i,
                ) by {
                    assert(a.side_bb(s).has(i) <==> owned(a.mb(), s, i));
                }
                assert forall|s: Side| #[trigger] b.material_of(s) == material(b.mb(), s) by {
                    assert(a.material_of(s) == material(a.mb(), s));
                    match s {
                        Side::White => {},
                        Side::Black => {},
                    }
                }
                assert(b.consistent());
                assert(pieces_key(self.zobrist, b.mb()) == k ^ n);
            }
        }
    }

    /// Takes a piece off a square.
    pub fn remove_piece(&mut self, side: Side, piece: Piece, square: Square)
        requires
            old(self).state.material_of(side) - piece.worth() >= i32::MIN,
        ensures
            final(self).same_features(*old(self)),
            final(self).state.mb() == old(self).state.mb().update(square.idx(), None),
            forall|p: Piece, i: int| #[trigger]
                final(self).state.kind_bb(p).has(i) <==> old(self).state.kind_bb(p).has(i) && !(p
                    == piece && i == square.idx()),
            forall|s: Side, i: int| #[trigger]
                final(self).state.side_bb(s).has(i) <==> old(self).state.side_bb(s).has(i) && !(s
                    == side && i == square.idx()),
            forall|s: Side| #[trigger]
                final(self).state.material_of(s) == old(self).state.material_of(s) - (if s == side {
                    piece.worth()
                } else {
                    0
                }),
            final(self).state.hash == old(self).state.hash ^ old(self).zobrist.piece_num(
                side,
                piece,
                square.idx(),
            ),
            old(self).state.consistent() && holds(
                old(self).state.mb(),
                square.idx(),
                side,
                piece,
            ) ==> final(self).state.consistent() && final(self).state.key_rest(old(self).zobrist)
                == old(self).state.key_rest(old(self).zobrist),
    {
        self.state.pieces[piece as usize].clear_bit(square);
        self.state.occupancies[side as usize].clear_bit(square);
        self.state.mailbox[square as usize] = None;
        self.state.material_value[side as usize] = self.state.material_value[side as usize]
            - piece.value();
        self.state.hash = self.state.hash ^ self.zobrist.get_piece_num(side, piece, square);
        proof {
            let (a, b) = (old(self).state, self.state);
            assert(b.mb() =~= a.mb().update(square.idx(), None));
            if a.consistent() && holds(a.mb(), square.idx(), side, piece) {
                lemma_material_update(a.mb(), Side::White, square.idx(), None, 64);
                lemma_material_update(a.mb(), Side::Black, square.idx(), None, 64);
                lemma_pieces_key_update(self.zobrist, a.mb(), square.idx(), None, 64);
                let n = self.zobrist.piece_num(side, piece, square.idx());
                let k = pieces_key(self.zobrist, a.mb());
                lemma_xor(k ^ n, 0, 0);
                let h = a.hash;
                assert((h ^ n) ^ (k ^ n) == h ^ k) by (bit_vector);
                assert forall|p: Piece, i: int| #[trigger] b.kind_bb(p).has(i) <==> of_kind(
                    b.mb(),
                    p,
                    i,
                ) by {
                    assert(a.kind_bb(p).has(i) <==> of_kind(a.mb(), p, i));
                }
                assert forall|s: Side, i: int| #[trigger] b.side_bb(s).has(i) <==> owned(
                    b.mb(),
                    s,
                    i,
                ) by {
                    assert(a.side_bb(s).has(i) <==> owned(a.mb(), s, i));
                }
                assert forall|s: Side| #[trigger] b.material_of(s) == material(b.mb(), s) by {
                    assert(a.material_of(s) == material(a.mb(), s));
                    match s {
                        Side::White => {},
                        Side::Black => {},
                    }
                }
                assert(b.consistent());
                assert(pieces_key(self.zobrist, b.mb()) == k ^ n);
            }
        }
    }

    /// The squares with a piece.
    pub fn get_all_occupancy(&self) -> (res: BitBoard)
        ensures
            res.0 == self.state.side_bb(Side::White).0 | self.state.side_bb(Side::Black).0,
            self.state.consistent() ==> forall|i: int| #[trigger]
                res.has(i) <==> is_square(i) && self.state.mb()[i] is Some,
            self.state.consistent() ==> res.squares() == occupied(self.state.mb()),
    {
        broadcast use group_bits;

        let res = self.state.occupancies[Side::White as usize]
            | self.state.occupancies[Side::Black as usize];
        proof {
            assert(res.0 == self.state.side_bb(Side::White).0 | self.state.side_bb(Side::Black).0);
            if self.state.consistent() {
                assert forall|i: int| #[trigger] res.has(i) <==> is_square(i)
                    && self.state.mb()[i] is Some by {
                    assert(self.state.side_bb(Side::White).has(i) <==> owned(
                        self.state.mb(),
                        Side::White,
                        i,
                    ));
                    assert(self.state.side_bb(Side::Black).has(i) <==> owned(
                        self.state.mb(),
                        Side::Black,
                        i,
                    ));
                }
                assert(res.squares() =~= occupied(self.state.mb()));
            }
        }
        res
    }

    /// The square of the king of `side`.
    pub fn get_king_square(&self, side: Side) -> (res: Square)
        requires
            self.state.consistent(),
            has_king(self.state.mb(), side),
        ensures
            res.idx() == king_sq(self.state.mb(), side),
            king_at(self.state.mb(), side, res.idx()),
    {
        let kings = self.get_piece_bb(side, Piece::King);
        proof {
            lemma_king_exists(self.state.mb(), side);
            assert(kings.has(king_sq(self.state.mb(), side)));
        }
        match kings.least_sig_bit() {
            Some(square) => {
                proof {
                    assert(king_at(self.state.mb(), side, square.idx()));
                    lemma_king_unique(self.state.mb(), side, square.idx());
                }
                square
            },
            None => Square::A1,
        }
    }

    pub fn get_pawn_attacks(&self, square: Square, side: Side) -> (res: BitBoard)
        ensures
            forall|t: int| #[trigger] res.has(t) <==> pawn_reach(side, square.idx(), t),
    {
        mask_pawn_attacks(side, square)
    }

    pub fn get_knight_attacks(&self, square: Square) -> (res: BitBoard)
        ensures
            forall|t: int| #[trigger] res.has(t) <==> knight_reach(square.idx(), t),
    {
        mask_knight_attacks(square)
    }

    pub fn get_king_attacks(&self, square: Square) -> (res: BitBoard)
        ensures
            forall|t: int| #[trigger] res.has(t) <==> king_reach(square.idx(), t),
    {
        mask_king_attacks(square)
    }

    pub fn get_bishop_attacks(&self, square: Square, board_occupancy: BitBoard) -> (res: BitBoard)
        ensures
            forall|t: int| #[trigger]
                res.has(t) <==> bishop_reach(square.idx(), t, board_occupancy.squares()),
    {
        blocked_bishop_attacks(square, board_occupancy)
    }

    pub fn get_rook_attacks(&self, square: Square, board_occupancy: BitBoard) -> (res: BitBoard)
        ensures
            forall|t: int| #[trigger]
                res.has(t) <==> rook_reach(square.idx(), t, board_occupancy.squares()),
    {
        blocked_rook_attacks(square, board_occupancy)
    }

    pub fn get_queen_attacks(&self, square: Square, board_occupancy: BitBoard) -> (res: BitBoard)
        ensures
            forall|t: int| #[trigger]
                res.has(t) <==> bishop_reach(square.idx(), t, board_occupancy.squares())
                    || rook_reach(square.idx(), t, board_occupancy.squares()),
    {
        broadcast use group_bits;

        self.get_bishop_attacks(square, board_occupancy) | self.get_rook_attacks(
            square,
            board_occupancy,
        )
    }

    /// The squares that a piece on `square` attacks in this position.
    pub fn get_piece_attack(&self, side: Side, square: Square, piece: Piece) -> (res: BitBoard)
        requires
            self.state.consistent(),
        ensures
            forall|t: int| #[trigger]
                res.has(t) <==> reach(piece, side, square.idx(), t, occupied(self.state.mb())),
    {
        match piece {
            Piece::Pawn => self.get_pawn_attacks(square, side),
            Piece::Knight => self.get_knight_attacks(square),
            Piece::Bishop => self.get_bishop_attacks(square, self.get_all_occupancy()),
            Piece::Rook => self.get_rook_attacks(square, self.get_all_occupancy()),
            Piece::Queen => self.get_queen_attacks(square, self.get_all_occupancy()),
            Piece::King => self.get_king_attacks(square),
        }
    }
}

} // verus!
