//! Sets of squares packed into a machine word.

use crate::types::bits::{
    bit, bits_of, group_bits, is_square, lemma_clear_decreases, lemma_lowest_bit,
};
use crate::types::squares::Square;
use vstd::prelude::*;
use vstd::std_specs::ops::{BitAndSpecImpl, BitOrSpecImpl, BitXorSpecImpl, NotSpecImpl};

verus! {

/// A set of squares, one bit for each.
#[derive(Clone, Copy, Debug, PartialEq, Eq, Structural)]
pub struct BitBoard(pub u64);

impl BitBoard {
    /// Whether square number `i` is in the set.
    #[verifier::inline]
    pub open spec fn has(self, i: int) -> bool {
        bit(self.0, i)
    }

    /// The numbers of the squares in the set.
    pub open spec fn squares(self) -> Set<int> {
        bits_of(self.0)
    }

    pub fn set_bit(&mut self, square: Square)
        ensures
            forall|i: int| #[trigger] final(self).has(i) <==> old(self).has(i) || i == square.idx(),
    {
        broadcast use group_bits;

        self.0 = self.0 | (1u64 << (square as u64));
    }

    pub fn clear_bit(&mut self, square: Square)
        ensures
            forall|i: int| #[trigger] final(self).has(i) <==> old(self).has(i) && i != square.idx(),
            old(self).has(square.idx()) ==> final(self).0 < old(self).0,
    {
        broadcast use group_bits;

        proof {
            if self.has(square.idx()) {
                lemma_clear_decreases(self.0, square as u64);
            }
        }
        self.0 = self.0 & !(1u64 << (square as u64));
    }

    /// The number of squares in the set.
    pub fn count_bits(&self) -> (res: usize)
        ensures
            res == self.squares().len(),
    {
        self.0.count_ones() as usize
    }

    /// The lowest square of the set.
    pub fn least_sig_bit(&self) -> (res: Option<Square>)
        ensures
            res is None <==> (forall|i: int| !self.has(i)),
            res is None <==> self.0 == 0,
            res matches Some(s) ==> self.has(s.idx()) && (forall|j: int|
                0 <= j < s.idx() ==> !self.has(j)),
    {
        proof {
            lemma_lowest_bit(self.0);
        }
        if self.0 != 0 {
            Some(Square::from(self.0.trailing_zeros() as usize))
        } else {
            None
        }
    }

    /// Every square moved by `offset` numbers; squares that leave the board are lost.
    pub fn shift(&self, offset: i8) -> (res: BitBoard)
        requires
            -64 < offset < 64,
        ensures
            forall|i: int| #[trigger] res.has(i) <==> is_square(i) && self.has(i - offset),
    {
        broadcast use group_bits;

        if offset > 0 {
            let k: u64 = offset as u64;
            BitBoard(self.0 << k)
        } else {
            let k: u64 = (-offset) as u64;
            BitBoard(self.0 >> k)
        }
    }

    pub fn get_bit(&self, square: Square) -> (res: bool)
        ensures
            res == self.has(square.idx()),
    {
        broadcast use group_bits;

        let b: u64 = 1u64 << (square as u64);
        proof {
            lemma_lowest_bit(self.0 & b);
            if self.has(square.idx()) {
                assert(bit(self.0 & b, square.idx()));
            }
        }
        (self.0 & b) != 0
    }

    /// Takes the lowest square out of the set.
    pub fn pop_lsb(&mut self) -> (res: Option<Square>)
        ensures
            res is None <==> old(self).0 == 0,
            res is None ==> *final(self) == *old(self),
            res is None <==> (forall|i: int| !old(self).has(i)),
            res matches Some(s) ==> {
                &&& old(self).has(s.idx())
                &&& final(self).0 < old(self).0
                &&& forall|j: int| 0 <= j < s.idx() ==> !old(self).has(j)
                &&& forall|i: int| #[trigger]
                    final(self).has(i) <==> old(self).has(i) && i != s.idx()
                &&& forall|i: int| #[trigger] final(self).has(i) ==> s.idx() < i
            },
    {
        let lowest = self.least_sig_bit();
        if let Some(square) = lowest {
            proof {
                lemma_clear_decreases(self.0, square as u64);
            }
            broadcast use group_bits;

            self.0 = self.0 & !(1u64 << (square as u64));
        }
        lowest
    }

    /// The squares of the set, from the lowest on.
    pub fn iter(&self) -> (res: BitBoardIter)
        ensures
            res.rest() == *self,
    {
        BitBoardIter { bit_board: *self }
    }

    pub fn contains(&self, square: Square) -> (res: bool)
        ensures
            res == self.has(square.idx()),
    {
        self.get_bit(square)
    }

    pub fn is_empty(&self) -> (res: bool)
        ensures
            res <==> (forall|i: int| !self.has(i)),
    {
        proof {
            lemma_lowest_bit(self.0);
        }
        self.0 == 0
    }
}

impl core::ops::BitAnd for BitBoard {
    type Output = BitBoard;

    fn bitand(self, rhs: BitBoard) -> (res: BitBoard) {
        BitBoard(self.0 & rhs.0)
    }
}

impl BitAndSpecImpl for BitBoard {
    open spec fn obeys_bitand_spec() -> bool {
        true
    }

    open spec fn bitand_req(self, rhs: BitBoard) -> bool {
        true
    }

    open spec fn bitand_spec(self, rhs: BitBoard) -> BitBoard {
        BitBoard(self.0 & rhs.0)
    }
}

impl core::ops::BitOr for BitBoard {
    type Output = BitBoard;

    fn bitor(self, rhs: BitBoard) -> (res: BitBoard) {
        BitBoard(self.0 | rhs.0)
    }
}

impl BitOrSpecImpl for BitBoard {
    open spec fn obeys_bitor_spec() -> bool {
        true
    }

    open spec fn bitor_req(self, rhs: BitBoard) -> bool {
        true
    }

    open spec fn bitor_spec(self, rhs: BitBoard) -> BitBoard {
        BitBoard(self.0 | rhs.0)
    }
}

impl core::ops::BitXor for BitBoard {
    type Output = BitBoard;

    fn bitxor(self, rhs: BitBoard) -> (res: BitBoard) {
        BitBoard(self.0 ^ rhs.0)
    }
}

impl BitXorSpecImpl for BitBoard {
    open spec fn obeys_bitxor_spec() -> bool {
        true
    }

    open spec fn bitxor_req(self, rhs: BitBoard) -> bool {
        true
    }

    open spec fn bitxor_spec(self, rhs: BitBoard) -> BitBoard {
        BitBoard(self.0 ^ rhs.0)
    }
}

impl core::ops::Not for BitBoard {
    type Output = BitBoard;

    fn not(self) -> (res: BitBoard) {
        BitBoard(!self.0)
    }
}

impl NotSpecImpl for BitBoard {
    open spec fn obeys_not_spec() -> bool {
        true
    }

    open spec fn not_req(self) -> bool {
        true
    }

    open spec fn not_spec(self) -> BitBoard {
        BitBoard(!self.0)
    }
}

/// A walk over the squares of a set.
pub struct BitBoardIter {
    bit_board: BitBoard,
}

impl BitBoardIter {
    /// The squares still to come.
    pub closed spec fn rest(self) -> BitBoard {
        self.bit_board
    }

    pub fn next(&mut self) -> (res: Option<Square>)
        ensures
            res is None <==> (forall|i: int| !old(self).rest().has(i)),
            res is None ==> final(self).rest() == old(self).rest(),
            res matches Some(s) ==> {
                &&& old(self).rest().has(s.idx())
                &&& final(self).rest().0 < old(self).rest().0
                &&& forall|j: int| 0 <= j < s.idx() ==> !old(self).rest().has(j)
                &&& forall|i: int| #[trigger]
                    final(self).rest().has(i) <==> old(self).rest().has(i) && i != s.idx()
            },
    {
        proof {
            lemma_lowest_bit(self.rest().0);
        }
        self.bit_board.pop_lsb()
    }
}

} // verus!
