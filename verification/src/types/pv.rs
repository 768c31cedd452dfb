//! The best lines found so far, one for each ply.

use crate::types::constants::MAX_PLY;
use crate::types::moves::{Move, Step};
use vstd::prelude::*;

verus! {

/// The steps of a list of moves.
pub open spec fn steps(moves: Seq<Move>) -> Seq<Step> {
    Seq::new(moves.len(), |i: int| moves[i]@)
}

/// A table of lines: the line of a ply starts with the move of that ply.
#[derive(Debug)]
pub struct PVTable {
    lines: Vec<Vec<Move>>,
}

impl PVTable {
    pub closed spec fn lines_spec(self) -> Seq<Vec<Move>> {
        self.lines@
    }

    pub open spec fn wf(self) -> bool {
        self.lines_spec().len() == MAX_PLY + 1
    }

    /// The line of a ply.
    pub open spec fn line_spec(self, ply: int) -> Seq<Move> {
        self.lines_spec()[ply]@
    }

    pub fn new() -> (res: Self)
        ensures
            res.wf(),
            forall|p: int| 0 <= p <= MAX_PLY ==> (#[trigger] res.line_spec(p)).len() == 0,
    {
        let mut lines: Vec<Vec<Move>> = Vec::new();
        let mut i: usize = 0;
        while i <= MAX_PLY as usize
            invariant
                i <= MAX_PLY + 1,
                lines@.len() == i,
                forall|p: int| 0 <= p < i ==> (#[trigger] lines@[p])@.len() == 0,
            decreases MAX_PLY + 1 - i,
        {
            lines.push(Vec::new());
            i += 1;
        }
        PVTable { lines }
    }

    /// Forgets the line of a ply.
    pub fn clear(&mut self, ply: usize)
        requires
            old(self).wf(),
            ply <= MAX_PLY,
        ensures
            final(self).wf(),
            final(self).line_spec(ply as int).len() == 0,
            forall|p: int|
                0 <= p <= MAX_PLY && p != ply ==> #[trigger] final(self).line_spec(p) == old(
                    self,
                ).line_spec(p),
    {
        self.lines.set(ply, Vec::new());
    }

    /// Makes the line of a ply: the move, then the line of the next ply.
    pub fn add(&mut self, m: Move, ply: usize)
        requires
            old(self).wf(),
            ply < MAX_PLY,
        ensures
            final(self).wf(),
            final(self).line_spec(ply as int) == seq![m] + old(self).line_spec(ply + 1),
            forall|p: int|
                0 <= p <= MAX_PLY && p != ply ==> #[trigger] final(self).line_spec(p) == old(
                    self,
                ).line_spec(p),
    {
        let mut line: Vec<Move> = Vec::new();
        line.push(m);
        let mut i: usize = 0;
        while i < self.lines[ply + 1].len()
            invariant
                ply < MAX_PLY,
                self.lines@.len() == MAX_PLY + 1,
                i <= self.lines@[ply + 1]@.len(),
                line@ == seq![m] + self.lines@[ply + 1]@.subrange(0, i as int),
            decreases self.lines@[ply + 1]@.len() - i,
        {
            let next = self.lines[ply + 1][i];
            line.push(next);
            i += 1;
            assert(line@ =~= seq![m] + self.lines@[ply + 1]@.subrange(0, i as int));
        }
        assert(line@ =~= seq![m] + self.lines@[ply + 1]@);
        self.lines.set(ply, line);
    }

    /// A copy of the line of a ply.
    pub fn line(&self, ply: usize) -> (res: Vec<Move>)
        requires
            self.wf(),
            ply <= MAX_PLY,
        ensures
            res@ == self.line_spec(ply as int),
    {
        let mut line: Vec<Move> = Vec::new();
        let mut i: usize = 0;
        while i < self.lines[ply].len()
            invariant
                ply <= MAX_PLY,
                self.lines@.len() == MAX_PLY + 1,
                i <= self.lines@[ply as int]@.len(),
                line@ == self.lines@[ply as int]@.subrange(0, i as int),
            decreases self.lines@[ply as int]@.len() - i,
        {
            line.push(self.lines[ply][i]);
            i += 1;
            assert(line@ =~= self.lines@[ply as int]@.subrange(0, i as int));
        }
        assert(line@ =~= self.lines@[ply as int]@);
        line
    }
}

} // verus!
