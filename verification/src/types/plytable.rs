//! What the search keeps for each ply.

use crate::types::bitboard::BitBoard;
use crate::types::constants::MAX_HISTORY;
use crate::types::history::{allocate_empty_history, bounded, gravity, update_at, PIECE_TO_SIZE};
use crate::types::moves::Move;
use crate::types::pieces::Piece;
use crate::types::score::NO_SCORE;
use crate::types::sides::Side;
use vstd::prelude::*;

verus! {

/// How many plies before the first one can be looked at.
pub const PLY_PADDING: usize = 8;

/// The number of plies in the table.
pub const PLY_COUNT: usize = 144;

/// The notes about one ply. A history table is given by its number; without a number it is
/// the spare table of the ply table.
#[derive(Clone, Copy, Debug, PartialEq)]
pub struct PlyData {
    /// The move that is being searched.
    pub m: Move,
    /// The piece that makes it.
    pub piece: Option<(Side, Piece)>,
    pub conthistory: Option<usize>,
    pub contcorrhistory: Option<usize>,
    /// The evaluation of the position.
    pub eval: i32,
    /// A move that is left out of the search.
    pub excluded: Move,
    /// The reduction of the search below, in 1024ths of a ply.
    pub reduction: i32,
    /// The squares that the opponent attacks.
    pub threats: BitBoard,
}

impl PlyData {
    pub open spec fn wf(self) -> bool {
        &&& self.conthistory matches Some(t) ==> t < PIECE_TO_SIZE
        &&& self.contcorrhistory matches Some(t) ==> t < PIECE_TO_SIZE
        &&& -40000 <= self.eval <= 40000
    }

    /// Nothing is known about the ply.
    pub open spec fn is_blank(self) -> bool {
        &&& self.m.null()
        &&& self.piece is None
        &&& self.conthistory is None
        &&& self.contcorrhistory is None
        &&& self.eval == NO_SCORE
        &&& self.excluded.null()
        &&& self.reduction == 0
        &&& self.threats.0 == 0
    }

    pub fn blank() -> (res: Self)
        ensures
            res.wf(),
            res.is_blank(),
    {
        PlyData {
            m: Move::none(),
            piece: None,
            conthistory: None,
            contcorrhistory: None,
            eval: NO_SCORE,
            excluded: Move::none(),
            reduction: 0,
            threats: BitBoard(0),
        }
    }
}

impl Default for PlyData {
    fn default() -> (res: Self)
        ensures
            res.wf(),
            res.is_blank(),
    {
        PlyData::blank()
    }
}

/// The notes of all plies, with some plies before the first, and a spare history table.
#[derive(Debug)]
pub struct PlyTable {
    data: Vec<PlyData>,
    sentinel: Vec<i16>,
}

impl PlyTable {
    pub closed spec fn data_spec(self) -> Seq<PlyData> {
        self.data@
    }

    /// The spare history table.
    pub closed spec fn spare(self) -> Seq<i16> {
        self.sentinel@
    }

    /// The notes about a ply.
    pub open spec fn at(self, ply: int) -> PlyData {
        self.data_spec()[ply + PLY_PADDING]
    }

    pub open spec fn wf(self) -> bool {
        &&& self.data_spec().len() == PLY_COUNT
        &&& self.spare().len() == PIECE_TO_SIZE
        &&& bounded(self.spare())
        &&& forall|i: int| 0 <= i < PLY_COUNT ==> (#[trigger] self.data_spec()[i]).wf()
    }

    pub fn new() -> (res: Self)
        ensures
            res.wf(),
            forall|i: int| 0 <= i < PLY_COUNT ==> (#[trigger] res.data_spec()[i]).is_blank(),
            forall|i: int| 0 <= i < PIECE_TO_SIZE ==> #[trigger] res.spare()[i] == 0,
    {
        let mut data: Vec<PlyData> = Vec::new();
        let mut i: usize = 0;
        while i < PLY_COUNT
            invariant
                i <= PLY_COUNT,
                data@.len() == i,
                forall|j: int|
                    0 <= j < i ==> (#[trigger] data@[j]).wf() && data@[j].is_blank(),
            decreases PLY_COUNT - i,
        {
            data.push(PlyData::blank());
            i += 1;
        }
        PlyTable { data, sentinel: allocate_empty_history(PIECE_TO_SIZE) }
    }

    /// The notes about a ply, which may lie a little before the first.
    pub fn get(&self, ply: i32) -> (res: PlyData)
        requires
            self.wf(),
            -8 <= ply < 136,
        ensures
            res == self.at(ply as int),
            res.wf(),
    {
        let index: usize = (ply + 8) as usize;
        assert(self.data_spec()[index as int].wf());
        self.data[index]
    }

    /// Replaces the notes about a ply.
    pub fn set(&mut self, ply: i32, entry: PlyData)
        requires
            old(self).wf(),
            -8 <= ply < 136,
            entry.wf(),
        ensures
            final(self).wf(),
            final(self).spare() == old(self).spare(),
            final(self).at(ply as int) == entry,
            forall|p: int|
                -8 <= p < 136 && p != ply ==> #[trigger] final(self).at(p) == old(self).at(p),
    {
        let index: usize = (ply + 8) as usize;
        self.data.set(index, entry);
        assert forall|i: int| 0 <= i < PLY_COUNT implies (#[trigger] self.data_spec()[i]).wf() by {
            if i != index {
                assert(old(self).data_spec()[i].wf());
            }
        }
    }

    /// A value of the spare table.
    pub fn spare_value(&self, index: usize) -> (res: i32)
        requires
            self.wf(),
            index < PIECE_TO_SIZE,
        ensures
            res == self.spare()[index as int],
            -MAX_HISTORY <= res <= MAX_HISTORY,
    {
        assert(-MAX_HISTORY <= self.spare()[index as int] <= MAX_HISTORY);
        self.sentinel[index] as i32
    }

    /// Moves a value of the spare table towards a bonus.
    pub fn update_spare(&mut self, index: usize, bonus: i32)
        requires
            old(self).wf(),
            index < PIECE_TO_SIZE,
        ensures
            final(self).wf(),
            final(self).data_spec() == old(self).data_spec(),
            final(self).spare() == old(self).spare().update(
                index as int,
                gravity(old(self).spare()[index as int] as int, bonus as int) as i16,
            ),
    {
        update_at(&mut self.sentinel, index, bonus);
    }
}

impl Default for PlyTable {
    fn default() -> (res: Self)
        ensures
            res.wf(),
            forall|i: int| 0 <= i < PLY_COUNT ==> (#[trigger] res.data_spec()[i]).is_blank(),
            forall|i: int| 0 <= i < PIECE_TO_SIZE ==> #[trigger] res.spare()[i] == 0,
    {
        PlyTable::new()
    }
}

} // verus!
