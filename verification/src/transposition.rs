//! A plain transposition table: one entry for each place, always replaced.

use crate::types::moves::Move;
use vstd::prelude::*;

verus! {

/// The number of places: sixty-four megabytes of entries of thirty-two bytes.
pub const ENTRIES: usize = 2097152;

#[derive(Clone, Copy, Debug, PartialEq, Eq, Structural)]
pub enum NodeType {
    PV,
    All,
    Cut,
}

#[derive(Clone, Copy, Debug, PartialEq)]
pub struct Entry {
    key: u64,
    best_move: Move,
    score: i32,
    node: NodeType,
}

impl Entry {
    pub closed spec fn key_spec(self) -> u64 {
        self.key
    }

    pub closed spec fn move_spec(self) -> Move {
        self.best_move
    }

    pub closed spec fn score_spec(self) -> i32 {
        self.score
    }

    pub closed spec fn node_spec(self) -> NodeType {
        self.node
    }

    pub fn new(key: u64, best_move: Move, score: i32, node: NodeType) -> (res: Self)
        ensures
            res.key_spec() == key,
            res.move_spec() == best_move,
            res.score_spec() == score,
            res.node_spec() == node,
    {
        Entry { key, best_move, score, node }
    }

    pub fn get_key(&self) -> (res: u64)
        ensures
            res == self.key_spec(),
    {
        self.key
    }

    pub fn get_best_move(&self) -> (res: Move)
        ensures
            res == self.move_spec(),
    {
        self.best_move
    }

    pub fn get_score(&self) -> (res: i32)
        ensures
            res == self.score_spec(),
    {
        self.score
    }

    pub fn get_node_type(&self) -> (res: NodeType)
        ensures
            res == self.node_spec(),
    {
        self.node
    }
}

/// The place of a key.
pub open spec fn place_of(hash: u64) -> int {
    (hash * ENTRIES) / 0x1_0000_0000_0000_0000
}

fn index(hash: u64) -> (res: usize)
    ensures
        res == place_of(hash),
        res < ENTRIES,
{
    let product: u128 = (hash as u128) * (ENTRIES as u128);
    assert(product >> 64 == product / 0x1_0000_0000_0000_0000) by (bit_vector);
    assert(product == hash * ENTRIES);
    assert(product / 0x1_0000_0000_0000_0000 < ENTRIES);
    (product >> 64) as usize
}

/// What is known of a position has been put into its place, and nothing else has changed.
pub open spec fn put_down(
    before: Seq<Option<Entry>>,
    after: Seq<Option<Entry>>,
    hash: u64,
    best_move: Move,
    score: i32,
    node: NodeType,
) -> bool {
    &&& forall|p: int|
        0 <= p < ENTRIES && p != place_of(hash) ==> #[trigger] after[p] == before[p]
    &&& after[place_of(hash)] matches Some(e) && e.key_spec() == hash && e.move_spec() == best_move
        && e.score_spec() == score && e.node_spec() == node
}

/// The best move that a table has for a position.
pub open spec fn move_known(table: Seq<Option<Entry>>, hash: u64) -> Option<Move> {
    match table[place_of(hash)] {
        Some(e) => Some(e.move_spec()),
        None => None,
    }
}

#[derive(Debug)]
pub struct TranspositionTable(Vec<Option<Entry>>);

impl TranspositionTable {
    pub closed spec fn table(self) -> Seq<Option<Entry>> {
        self.0@
    }

    pub open spec fn wf(self) -> bool {
        self.table().len() == ENTRIES
    }

    pub fn new() -> (res: Self)
        ensures
            res.wf(),
            forall|i: int| 0 <= i < ENTRIES ==> #[trigger] res.table()[i] is None,
    {
        let mut table: Vec<Option<Entry>> = Vec::new();
        let mut i: usize = 0;
        while i < ENTRIES
            invariant
                i <= ENTRIES,
                table@.len() == i,
                forall|j: int| 0 <= j < i ==> #[trigger] table@[j] is None,
            decreases ENTRIES - i,
        {
            table.push(None);
            i += 1;
        }
        TranspositionTable(table)
    }

    pub fn add_entry(&mut self, best_move: Move, score: i32, node: NodeType, hash: u64)
        requires
            old(self).wf(),
        ensures
            final(self).wf(),
            put_down(old(self).table(), final(self).table(), hash, best_move, score, node),
    {
        let entry = Entry::new(hash, best_move, score, node);
        self.0.set(index(hash), Some(entry));
    }

    pub fn get_entry(&self, hash: u64) -> (res: &Option<Entry>)
        requires
            self.wf(),
        ensures
            *res == self.table()[place_of(hash)],
    {
        &self.0[index(hash)]
    }

    pub fn get_best_move(&self, hash: u64) -> (res: Option<Move>)
        requires
            self.wf(),
        ensures
            res == move_known(self.table(), hash),
    {
        match &self.0[index(hash)] {
            Some(e) => Some(e.get_best_move()),
            None => None,
        }
    }
}

impl Default for TranspositionTable {
    fn default() -> (res: Self)
        ensures
            res.wf(),
            forall|i: int| 0 <= i < ENTRIES ==> #[trigger] res.table()[i] is None,
    {
        TranspositionTable::new()
    }
}

} // verus!
