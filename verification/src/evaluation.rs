//! Facts about positions, scores and squares that evaluation uses.

use crate::attacks::{distance_of, king_steps};
use crate::board::Board;
use crate::board::position::{holds, Placement};
use crate::types::bits::{file_of, group_bits, lemma_lowest_bit, rank_of};
use crate::types::constants::MATE_CUTOFF;
use crate::types::pieces::Piece;
use crate::types::sides::Side;
use crate::types::squares::Square;
use vstd::prelude::*;

verus! {

/// The side has no piece but king and pawns.
pub open spec fn pawns_alone(mb: Placement, side: Side) -> bool {
    forall|i: int, p: Piece| #[trigger]
        holds(mb, i, side, p) ==> p == Piece::King || p == Piece::Pawn
}

impl Board {
    /// Whether the side to move has no piece but king and pawns.
    pub fn only_king_and_pawns(&self) -> (res: bool)
        requires
            self.state.consistent(),
        ensures
            res == pawns_alone(self.state.mb(), self.state.side_to_move),
    {
        let side = self.state.side_to_move;
        let bishops = self.get_piece_bb(side, Piece::Bishop);
        let knights = self.get_piece_bb(side, Piece::Knight);
        let queens = self.get_piece_bb(side, Piece::Queen);
        let rooks = self.get_piece_bb(side, Piece::Rook);
        let officers = bishops | knights | queens | rooks;
        proof {
            broadcast use group_bits;

            let mb = self.state.mb();
            lemma_lowest_bit(officers.0);
            if officers.0 == 0 {
                assert forall|i: int, p: Piece| #[trigger] holds(mb, i, side, p) implies p
                    == Piece::King || p == Piece::Pawn by {
                    assert(!officers.has(i));
                    assert(bishops.has(i) <==> holds(mb, i, side, Piece::Bishop));
                    assert(knights.has(i) <==> holds(mb, i, side, Piece::Knight));
                    assert(queens.has(i) <==> holds(mb, i, side, Piece::Queen));
                    assert(rooks.has(i) <==> holds(mb, i, side, Piece::Rook));
                }
            } else {
                let i = vstd::std_specs::bits::u64_trailing_zeros(officers.0) as int;
                assert(officers.has(i));
                if bishops.has(i) {
                    assert(holds(mb, i, side, Piece::Bishop));
                } else if knights.has(i) {
                    assert(holds(mb, i, side, Piece::Knight));
                } else if queens.has(i) {
                    assert(holds(mb, i, side, Piece::Queen));
                } else {
                    assert(holds(mb, i, side, Piece::Rook));
                }
            }
        }
        officers.0 == 0
    }
}

/// A score tells of being mated soon.
pub open spec fn soon_mated(score: int) -> bool {
    score <= -MATE_CUTOFF
}

/// A score tells of mating soon.
pub open spec fn soon_mating(score: int) -> bool {
    score >= MATE_CUTOFF
}

/// A score of being mated soon.
pub fn mated(score: i32) -> (res: bool)
    ensures
        res <==> soon_mated(score as int),
{
    score <= -MATE_CUTOFF
}

/// A score of mating soon.
pub fn mating(score: i32) -> (res: bool)
    ensures
        res <==> soon_mating(score as int),
{
    score >= MATE_CUTOFF
}

/// The distance of a rank or file from the middle of the board.
pub open spec fn off_centre(x: int) -> int {
    if x < 4 {
        3 - x
    } else {
        x - 4
    }
}

/// The number of rook steps from square `i` to the nearest of the four middle squares.
pub open spec fn centre_steps(i: int) -> int {
    off_centre(rank_of(i)) + off_centre(file_of(i))
}

/// The number of rook steps between two squares.
pub open spec fn rook_steps(a: int, b: int) -> int {
    distance_of(rank_of(a), rank_of(b)) + distance_of(file_of(a), file_of(b))
}

/// The number of rook steps from a square to the nearest of the four middle squares.
pub fn cmd(square: Square) -> (res: usize)
    ensures
        res == centre_steps(square.idx()),
{
    let (rank, file) = square.to_rank_and_file();
    let r: u64 = rank as u64;
    let f: u64 = file as u64;
    let low: u64 = 0x00FF_FFFF_FFFF_FFFF;
    let a: u64 = r ^ (if r < 4 { low } else { 0 });
    let b: u64 = f ^ (if f < 4 { low } else { 0 });
    proof {
        assert(r < 4 ==> r ^ 0x00FF_FFFF_FFFF_FFFFu64 == 0x00FF_FFFF_FFFF_FFFFu64 - r)
            by (bit_vector);
        assert(f < 4 ==> f ^ 0x00FF_FFFF_FFFF_FFFFu64 == 0x00FF_FFFF_FFFF_FFFFu64 - f)
            by (bit_vector);
        assert(r ^ 0 == r && f ^ 0 == f) by (bit_vector);
    }
    let sum: u64 = a + b;
    assert(sum & 7 == sum % 8) by (bit_vector);
    (sum & 7) as usize
}

fn abs_diff(a: usize, b: usize) -> (res: usize)
    ensures
        res == distance_of(a as int, b as int),
{
    if a < b {
        b - a
    } else {
        a - b
    }
}

/// The number of rook steps between two squares.
pub fn manhattan_distance(square_1: Square, square_2: Square) -> (res: usize)
    ensures
        res == rook_steps(square_1.idx(), square_2.idx()),
{
    let (rank1, file1) = square_1.to_rank_and_file();
    let (rank2, file2) = square_2.to_rank_and_file();
    abs_diff(rank2, rank1) + abs_diff(file2, file1)
}

/// The number of king steps between two squares.
pub fn distance(square_1: Square, square_2: Square) -> (res: usize)
    ensures
        res == king_steps(square_1.idx(), square_2.idx()),
{
    let (rank1, file1) = square_1.to_rank_and_file();
    let (rank2, file2) = square_2.to_rank_and_file();
    let rank_distance: usize = abs_diff(rank2, rank1);
    let file_distance: usize = abs_diff(file2, file1);
    if rank_distance > file_distance {
        rank_distance
    } else {
        file_distance
    }
}

/// Distances do not depend on the direction.
pub proof fn law_distance_symmetric(a: int, b: int)
    ensures
        king_steps(a, b) == king_steps(b, a),
        king_steps(a, a) == 0,
{
}

} // verus!
