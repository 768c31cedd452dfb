//! Position keys: one number for each feature of a position, combined by exclusive or.

use crate::random::{get_random_u64_num, lemma_stepped_add, stepped, wide, SEED};
use crate::types::bits::file_of;
use crate::types::pieces::Piece;
use crate::types::sides::{CastlingRights, Side};
use crate::types::squares::Square;
use vstd::prelude::*;

verus! {

/// The `k`-th 64-bit number of the sequence that starts from the fixed seed.
pub open spec fn key(k: nat) -> u64 {
    wide(stepped(SEED, 4 * k))
}

#[derive(Clone, Copy, Debug, PartialEq, Eq)]
pub struct Zobrist {
    /// A number for each of the twelve pieces on each square.
    pub pieces: [[u64; 64]; 12],
    /// The number that marks Black to move.
    pub side: u64,
    /// A number for each combination of castling rights.
    pub castling: [u64; 16],
    /// A number for each file of an en passant square.
    pub enpassant: [u64; 8],
}

impl Zobrist {
    /// The number for a piece on square `i`.
    pub open spec fn piece_num(self, side: Side, piece: Piece, i: int) -> u64 {
        self.pieces@[piece as int + side as int * 6]@[i]
    }

    pub fn get_piece_num(&self, side: Side, piece: Piece, square: Square) -> (res: u64)
        ensures
            res == self.piece_num(side, piece, square.idx()),
    {
        self.pieces[(piece as usize) + (side as usize * 6)][square as usize]
    }

    pub fn get_side_num(&self) -> (res: u64)
        ensures
            res == self.side,
    {
        self.side
    }

    pub fn get_castling_num(&self, rights: CastlingRights) -> (res: u64)
        requires
            rights.valid(),
        ensures
            res == self.castling@[rights.0 as int],
    {
        self.castling[rights.0 as usize]
    }

    pub fn get_enpassant_num(&self, square: Square) -> (res: u64)
        ensures
            res == self.enpassant@[file_of(square.idx())],
    {
        self.enpassant[square.to_file()]
    }
}

impl Zobrist {
    /// The numbers are those that the generator gives first, in the order of the fields.
    pub open spec fn as_drawn(self) -> bool {
        &&& forall|p: int, i: int|
            0 <= p < 12 && 0 <= i < 64 ==> #[trigger] self.pieces@[p]@[i] == key(
                (64 * p + i) as nat,
            )
        &&& self.side == key(768)
        &&& forall|i: int| 0 <= i < 16 ==> #[trigger] self.castling@[i] == key((769 + i) as nat)
        &&& forall|i: int| 0 <= i < 8 ==> #[trigger] self.enpassant@[i] == key((785 + i) as nat)
    }
}

/// Draws the numbers for every feature, in the order of the fields.
pub fn init_zobrist_nums() -> (res: Zobrist)
    ensures
        res.as_drawn(),
{
    let mut state: u32 = SEED;
    let mut pieces: [[u64; 64]; 12] = [[0;64];12];
    let mut p: usize = 0;
    while p < 12
        invariant
            p <= 12,
            state == stepped(SEED, 4 * ((64 * p) as nat)),
            forall|q: int, i: int|
                0 <= q < p && 0 <= i < 64 ==> #[trigger] pieces@[q]@[i] == key(
                    (64 * q + i) as nat,
                ),
        decreases 12 - p,
    {
        let mut row: [u64; 64] = [0;64];
        let mut i: usize = 0;
        while i < 64
            invariant
                p < 12,
                i <= 64,
                state == stepped(SEED, 4 * ((64 * p + i) as nat)),
                forall|j: int| 0 <= j < i ==> #[trigger] row@[j] == key((64 * p + j) as nat),
            decreases 64 - i,
        {
            proof {
                lemma_stepped_add(SEED, 4 * ((64 * p + i) as nat), 4);
            }
            row[i] = get_random_u64_num(&mut state);
            i += 1;
        }
        pieces[p] = row;
        p += 1;
    }
    proof {
        lemma_stepped_add(SEED, 4 * 768, 4);
    }
    let side: u64 = get_random_u64_num(&mut state);
    let mut castling: [u64; 16] = [0;16];
    let mut i: usize = 0;
    while i < 16
        invariant
            i <= 16,
            state == stepped(SEED, 4 * ((769 + i) as nat)),
            forall|j: int| 0 <= j < i ==> #[trigger] castling@[j] == key((769 + j) as nat),
        decreases 16 - i,
    {
        proof {
            lemma_stepped_add(SEED, 4 * ((769 + i) as nat), 4);
        }
        castling[i] = get_random_u64_num(&mut state);
        i += 1;
    }
    let mut enpassant: [u64; 8] = [0;8];
    let mut i: usize = 0;
    while i < 8
        invariant
            i <= 8,
            state == stepped(SEED, 4 * ((785 + i) as nat)),
            forall|j: int| 0 <= j < i ==> #[trigger] enpassant@[j] == key((785 + j) as nat),
        decreases 8 - i,
    {
        proof {
            lemma_stepped_add(SEED, 4 * ((785 + i) as nat), 4);
        }
        enpassant[i] = get_random_u64_num(&mut state);
        i += 1;
    }
    Zobrist { pieces, side, castling, enpassant }
}

} // verus!
