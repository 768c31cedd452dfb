//! Draws, direct checks and keys of parts of the position.

use crate::attacks::reach;
use crate::board::Board;
use crate::board::position::{king_sq, occupied, piece_of, side_of, Placement};
use crate::types::bits::group_bits;
use crate::types::moves::{Move, Step};
use crate::types::pieces::Piece;
use crate::types::sides::Side;
use crate::types::squares::Square;
use crate::zobrist::Zobrist;
use vstd::prelude::*;

verus! {

/// The last key has occurred before.
pub open spec fn repeated(keys: Seq<u64>) -> bool {
    exists|i: int| 0 <= i < keys.len() - 1 && #[trigger] keys[i] == keys.last()
}

/// The game is drawn: fifty moves of each side without progress, or a repetition.
pub open spec fn drawn(b: Board) -> bool {
    b.state.half_move_clock >= 100 || repeated(b.game_history@)
}

/// The piece that arrives attacks the opposing king.
pub open spec fn checks_directly(mb: Placement, s: Step) -> bool {
    mb[s.from] is Some && {
        let side = side_of(mb[s.from]);
        let arriving = match s.kind.promoted() {
            Some(p) => p,
            None => piece_of(mb[s.from]),
        };
        reach(arriving, side, s.to, king_sq(mb, side.other()), occupied(mb).remove(s.from))
    }
}

/// The number of a square's piece, if it is wanted for the pawn key or for the key of the
/// other pieces of a side.
pub open spec fn pawn_part(z: Zobrist, x: Option<(Side, Piece)>, i: int) -> u64 {
    match x {
        Some((side, Piece::Pawn)) => z.piece_num(side, Piece::Pawn, i),
        _ => 0,
    }
}

pub open spec fn officer_part(z: Zobrist, of: Side, x: Option<(Side, Piece)>, i: int) -> u64 {
    match x {
        Some((side, piece)) => if side == of && piece != Piece::Pawn {
            z.piece_num(side, piece, i)
        } else {
            0
        },
        None => 0,
    }
}

/// The key of the pawns on the first `n` squares.
pub open spec fn pawn_key_upto(z: Zobrist, mb: Placement, n: int) -> u64
    decreases n,
{
    if n <= 0 {
        0
    } else {
        pawn_key_upto(z, mb, n - 1) ^ pawn_part(z, mb[n - 1], n - 1)
    }
}

/// The key of the pieces of a side other than pawns on the first `n` squares.
pub open spec fn non_pawn_key_upto(z: Zobrist, of: Side, mb: Placement, n: int) -> u64
    decreases n,
{
    if n <= 0 {
        0
    } else {
        non_pawn_key_upto(z, of, mb, n - 1) ^ officer_part(z, of, mb[n - 1], n - 1)
    }
}

impl Board {
    /// Whether the game is drawn.
    pub fn is_draw(&self) -> (res: bool)
        ensures
            res == drawn(*self),
    {
        if self.state.half_move_clock >= 100 {
            return true;
        }
        let n: usize = self.game_history.len();
        if n == 0 {
            return false;
        }
        let last: u64 = self.game_history[n - 1];
        let mut i: usize = 0;
        while i < n - 1
            invariant
                n == self.game_history@.len(),
                n >= 1,
                i <= n - 1,
                last == self.game_history@.last(),
                self.state.half_move_clock < 100,
                forall|j: int| 0 <= j < i ==> #[trigger] self.game_history@[j] != last,
            decreases n - 1 - i,
        {
            if self.game_history[i] == last {
                assert(repeated(self.game_history@));
                return true;
            }
            i += 1;
        }
        false
    }

    /// Whether the piece that arrives attacks the opposing king.
    pub fn is_direct_check(&self, m: Move) -> (res: bool)
        requires
            self.state.consistent(),
            self.state.kings(),
        ensures
            res == checks_directly(self.state.mb(), m@),
    {
        let from = m.get_from();
        let to = m.get_to();
        match self.get_piece_at_square(from) {
            None => false,
            Some((side, piece)) => {
                let arriving = match m.get_promoted_piece() {
                    Some(p) => p,
                    None => piece,
                };
                let king = self.get_king_square(side.other());
                let mut occ = self.get_all_occupancy();
                occ.clear_bit(from);
                proof {
                    broadcast use group_bits;

                    assert(occ.squares() =~= occupied(self.state.mb()).remove(from.idx()));
                }
                match arriving {
                    Piece::Pawn => self.get_pawn_attacks(to, side).contains(king),
                    Piece::Knight => self.get_knight_attacks(to).contains(king),
                    Piece::Bishop => self.get_bishop_attacks(to, occ).contains(king),
                    Piece::Rook => self.get_rook_attacks(to, occ).contains(king),
                    Piece::Queen => self.get_queen_attacks(to, occ).contains(king),
                    Piece::King => self.get_king_attacks(to).contains(king),
                }
            },
        }
    }

    /// The key of the pawns.
    pub fn pawn_key(&self) -> (res: u64)
        ensures
            res == pawn_key_upto(self.zobrist, self.state.mb(), 64),
    {
        let mut key: u64 = 0;
        let mut i: usize = 0;
        while i < 64
            invariant
                i <= 64,
                key == pawn_key_upto(self.zobrist, self.state.mb(), i as int),
            decreases 64 - i,
        {
            let square = Square::from(i);
            let part: u64 = match self.get_piece_at_square(square) {
                Some((side, piece)) => if piece == Piece::Pawn {
                    self.zobrist.get_piece_num(side, Piece::Pawn, square)
                } else {
                    0
                },
                None => 0,
            };
            key = key ^ part;
            i += 1;
        }
        key
    }

    /// The key of the pieces of a side other than pawns.
    pub fn non_pawn_key(&self, of: Side) -> (res: u64)
        ensures
            res == non_pawn_key_upto(self.zobrist, of, self.state.mb(), 64),
    {
        let mut key: u64 = 0;
        let mut i: usize = 0;
        while i < 64
            invariant
                i <= 64,
                key == non_pawn_key_upto(self.zobrist, of, self.state.mb(), i as int),
            decreases 64 - i,
        {
            let square = Square::from(i);
            let part: u64 = match self.get_piece_at_square(square) {
                Some((side, piece)) => if side == of && piece != Piece::Pawn {
                    self.zobrist.get_piece_num(side, piece, square)
                } else {
                    0
                },
                None => 0,
            };
            key = key ^ part;
            i += 1;
        }
        key
    }
}

} // verus!
