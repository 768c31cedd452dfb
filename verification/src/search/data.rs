//! What a worker keeps while it searches.

use std::sync::Arc;
use std::sync::atomic::{AtomicBool, Ordering};

use crate::board::Board;
use crate::board::legality::{fair, law_fair_preserved, law_generated_movable};
use crate::board::makemove::{applied, made, restored, taken_back};
use crate::board::movegen::generated;
use crate::board::status::{non_pawn_key_upto, pawn_key_upto};
use crate::nnue::{evaluation, Network};
use crate::search::time::TimeManager;
use crate::types::constants::{MAX_HISTORY, MAX_PLY};
use crate::types::history::{
    clamped, correction_place, gravity, magnitude, piece_to_index, piece_to_place, quotient,
    ContinuationHistory, CorrectionHistory, NoisyHistory, PawnHistory, QuietHistory, PIECE_TO_SIZE,
};
use crate::types::moves::{Move, Step};
use crate::types::plytable::{PlyData, PlyTable};
use crate::types::pv::PVTable;
use crate::types::score::{is_decisive, losing, winning, INFINITE, MATE};
use crate::types::sides::Side;
use crate::types::text::{decimal, push_decimal};
use crate::types::transposition::{fullness, TranspositionTable};
use vstd::prelude::*;

verus! {

/// The most workers there can be.
pub const MAX_WORKERS: usize = 512;

/// Whether the search goes on. Any thread may change it at any time, so nothing is known of
/// what is read.
#[derive(Debug)]
pub struct Status(AtomicBool);

pub const RUNNING: bool = true;

pub const STOPPED: bool = false;

impl Status {
    pub fn new() -> Self {
        Status(AtomicBool::new(RUNNING))
    }

    pub fn stop(&self) {
        self.0.store(STOPPED, Ordering::Relaxed);
    }

    pub fn run(&self) {
        self.0.store(RUNNING, Ordering::Relaxed);
    }

    pub fn get(&self) -> bool {
        self.0.load(Ordering::Relaxed)
    }
}

/// A look at a status that is shared with other threads, or at none. Where there is none to
/// look at, the search always goes on.
#[derive(Debug)]
pub struct Watch {
    status: Option<Arc<Status>>,
}

impl Watch {
    /// The status that is looked at.
    pub closed spec fn target(self) -> Option<Arc<Status>> {
        self.status
    }

    pub open spec fn watched(self) -> bool {
        self.target() is Some
    }

    pub fn over(status: Arc<Status>) -> (res: Self)
        ensures
            res.target() == Some(status),
    {
        Watch { status: Some(status) }
    }

    /// A look at nothing.
    pub fn idle() -> (res: Self)
        ensures
            !res.watched(),
    {
        Watch { status: None }
    }

    pub fn get(&self) -> (res: bool)
        ensures
            !self.watched() ==> res == RUNNING,
    {
        match &self.status {
            Some(status) => status.get(),
            None => RUNNING,
        }
    }

    pub fn stop(&self) {
        if let Some(status) = &self.status {
            status.stop();
        }
    }

    pub fn run(&self) {
        if let Some(status) = &self.status {
            status.run();
        }
    }
}

/// How far evaluations were off, by the pawns and by the other pieces of each side.
#[derive(Debug)]
pub struct SharedCorrectionHistories {
    pub pawn: CorrectionHistory,
    pub non_pawn_white: CorrectionHistory,
    pub non_pawn_black: CorrectionHistory,
}

impl SharedCorrectionHistories {
    pub open spec fn wf(self) -> bool {
        self.pawn.wf() && self.non_pawn_white.wf() && self.non_pawn_black.wf()
    }

    pub open spec fn is_clear(self) -> bool {
        self.pawn.is_clear() && self.non_pawn_white.is_clear() && self.non_pawn_black.is_clear()
    }

    pub fn clear(&mut self)
        ensures
            final(self).wf(),
            final(self).is_clear(),
    {
        self.pawn.clear();
        self.non_pawn_white.clear();
        self.non_pawn_black.clear();
    }
}

impl Default for SharedCorrectionHistories {
    fn default() -> (res: Self)
        ensures
            res.wf(),
            res.is_clear(),
    {
        SharedCorrectionHistories {
            pawn: CorrectionHistory::new(),
            non_pawn_white: CorrectionHistory::new(),
            non_pawn_black: CorrectionHistory::new(),
        }
    }
}

/// What outlives a single search: the table of positions, the corrections and the node
/// counters. The status that is looked at is shared with other threads.
#[derive(Debug)]
pub struct SharedData {
    pub tt: TranspositionTable,
    pub history: SharedCorrectionHistories,
    pub status: Watch,
    pub nodes: Vec<u64>,
}

/// The sum of the first `n` counters, in 64-bit arithmetic that wraps around.
pub open spec fn counted(nodes: Seq<u64>, n: int) -> u64
    decreases n,
{
    if n <= 0 {
        0
    } else {
        counted(nodes, n - 1).wrapping_add(nodes[n - 1])
    }
}

impl SharedData {
    pub open spec fn wf(self) -> bool {
        &&& self.tt.wf()
        &&& self.history.wf()
        &&& self.nodes@.len() == MAX_WORKERS
    }

    pub fn new(status: Watch) -> (res: Self)
        ensures
            res.wf(),
            res.tt.is_clear(),
            res.tt.table().len() == 524288,
            res.tt.age_spec() == 0,
            res.history.is_clear(),
            res.status == status,
            forall|i: int| 0 <= i < MAX_WORKERS ==> #[trigger] res.nodes@[i] == 0,
    {
        let mut nodes: Vec<u64> = Vec::new();
        let mut i: usize = 0;
        while i < MAX_WORKERS
            invariant
                i <= MAX_WORKERS,
                nodes@.len() == i,
                forall|j: int| 0 <= j < i ==> #[trigger] nodes@[j] == 0,
            decreases MAX_WORKERS - i,
        {
            nodes.push(0);
            i += 1;
        }
        SharedData {
            tt: TranspositionTable::default(),
            history: SharedCorrectionHistories::default(),
            status,
            nodes,
        }
    }

    /// Counts a node of a worker.
    pub fn increment_nodes(&mut self, id: usize)
        requires
            old(self).wf(),
            id < MAX_WORKERS,
        ensures
            final(self).wf(),
            final(self).tt == old(self).tt,
            final(self).history == old(self).history,
            final(self).status == old(self).status,
            final(self).nodes@ == old(self).nodes@.update(
                id as int,
                old(self).nodes@[id as int].wrapping_add(1),
            ),
    {
        let count: u64 = self.nodes[id].wrapping_add(1);
        self.nodes.set(id, count);
    }

    pub fn node_count(&self, id: usize) -> (res: u64)
        requires
            self.wf(),
            id < MAX_WORKERS,
        ensures
            res == self.nodes@[id as int],
    {
        self.nodes[id]
    }

    pub fn total_nodes_searched(&self) -> (res: u64)
        requires
            self.wf(),
        ensures
            res == counted(self.nodes@, MAX_WORKERS as int),
    {
        let mut total: u64 = 0;
        let mut i: usize = 0;
        while i < MAX_WORKERS
            invariant
                i <= MAX_WORKERS,
                self.nodes@.len() == MAX_WORKERS,
                total == counted(self.nodes@, i as int),
            decreases MAX_WORKERS - i,
        {
            total = total.wrapping_add(self.nodes[i]);
            i += 1;
        }
        total
    }

    pub fn reset_all_nodes(&mut self)
        requires
            old(self).wf(),
        ensures
            final(self).wf(),
            final(self).tt == old(self).tt,
            final(self).history == old(self).history,
            final(self).status == old(self).status,
            forall|i: int| 0 <= i < MAX_WORKERS ==> #[trigger] final(self).nodes@[i] == 0,
    {
        let mut i: usize = 0;
        let ghost start = *self;
        while i < MAX_WORKERS
            invariant
                i <= MAX_WORKERS,
                self.nodes@.len() == MAX_WORKERS,
                self.tt == start.tt,
                self.history == start.history,
                self.status == start.status,
                forall|j: int| 0 <= j < i ==> #[trigger] self.nodes@[j] == 0,
            decreases MAX_WORKERS - i,
        {
            self.nodes.set(i, 0);
            i += 1;
        }
    }
}

/// How much a search tells about itself.
#[derive(Debug, Clone, Copy, PartialEq, Eq, Structural)]
pub enum Report {
    Full,
    Minimal,
    Silent,
}

impl Default for Report {
    fn default() -> (res: Self)
        ensures
            res == Report::Full,
    {
        Report::Full
    }
}

/// The line that is expected after a root move.
#[derive(Debug, Clone)]
pub struct RootPV {
    pub inner: Vec<Move>,
}

impl RootPV {
    pub fn commit(&mut self, line: Vec<Move>)
        ensures
            final(self).inner@ == line@,
    {
        self.inner = line;
    }
}

impl Default for RootPV {
    fn default() -> (res: Self)
        ensures
            res.inner@.len() == 0,
    {
        RootPV { inner: Vec::new() }
    }
}

/// A move of the root position with what the search found out about it.
#[derive(Debug, Clone)]
pub struct RootMove {
    pub m: Move,
    pub nodes: u64,
    pub pv: RootPV,
    pub score: i32,
    pub previous_score: i32,
    pub display_score: i32,
    pub upperbound: bool,
    pub lowerbound: bool,
    pub searched_depth: i32,
    pub sel_depth: i32,
}

impl RootMove {
    /// Nothing has been found out about the move yet.
    pub open spec fn is_fresh(self) -> bool {
        &&& self.nodes == 0
        &&& self.pv.inner@.len() == 0
        &&& self.score == -INFINITE
        &&& self.previous_score == -INFINITE
        &&& self.display_score == -INFINITE
        &&& !self.upperbound
        &&& !self.lowerbound
        &&& self.searched_depth == 0
        &&& self.sel_depth == 0
    }

    /// The two tell the same about the same move.
    pub open spec fn same(self, other: RootMove) -> bool {
        &&& self.m == other.m
        &&& self.nodes == other.nodes
        &&& self.pv.inner@ == other.pv.inner@
        &&& self.score == other.score
        &&& self.previous_score == other.previous_score
        &&& self.display_score == other.display_score
        &&& self.upperbound == other.upperbound
        &&& self.lowerbound == other.lowerbound
        &&& self.searched_depth == other.searched_depth
        &&& self.sel_depth == other.sel_depth
    }

    pub fn new(m: Move) -> (res: Self)
        ensures
            res.m == m,
            res.is_fresh(),
    {
        RootMove {
            m,
            nodes: 0,
            pv: RootPV { inner: Vec::new() },
            score: -INFINITE,
            previous_score: -INFINITE,
            display_score: -INFINITE,
            upperbound: false,
            lowerbound: false,
            searched_depth: 0,
            sel_depth: 0,
        }
    }

    pub fn duplicate(&self) -> (res: Self)
        ensures
            res.same(*self),
    {
        let mut inner: Vec<Move> = Vec::new();
        let mut i: usize = 0;
        while i < self.pv.inner.len()
            invariant
                i <= self.pv.inner@.len(),
                inner@ == self.pv.inner@.subrange(0, i as int),
            decreases self.pv.inner@.len() - i,
        {
            inner.push(self.pv.inner[i]);
            i += 1;
            assert(inner@ =~= self.pv.inner@.subrange(0, i as int));
        }
        assert(inner@ =~= self.pv.inner@);
        RootMove {
            m: self.m,
            nodes: self.nodes,
            pv: RootPV { inner },
            score: self.score,
            previous_score: self.previous_score,
            display_score: self.display_score,
            upperbound: self.upperbound,
            lowerbound: self.lowerbound,
            searched_depth: self.searched_depth,
            sel_depth: self.sel_depth,
        }
    }
}

impl Default for RootMove {
    fn default() -> (res: Self)
        ensures
            res.m.null(),
            res.is_fresh(),
    {
        RootMove::new(Move::none())
    }
}

/// Reductions of late moves in 1024ths of a ply, by kind of move, depth and move number.
#[derive(Debug)]
pub struct LmrTable {
    values: Vec<i32>,
}

/// The number of values in a table of reductions.
pub const LMR_SIZE: usize = 16384;

/// No reduction is greater.
pub const LMR_LIMIT: i32 = 1000000;

/// The place of a reduction: noisy moves first, then by depth and by move number.
pub open spec fn lmr_place(quiet: bool, depth: int, count: int) -> int {
    ((if quiet {
        1int
    } else {
        0
    }) * 128 + depth) * 64 + count
}

/// The value at place `i` belongs to a move that can be reduced.
pub open spec fn lmr_counts(i: int) -> bool {
    (i / 64) % 128 >= 2 && i % 64 >= 2
}

/// The values are as many as needed, and those for moves that can be reduced are in range.
pub open spec fn lmr_usable(values: Seq<i32>) -> bool {
    &&& values.len() == LMR_SIZE
    &&& forall|i: int|
        0 <= i < LMR_SIZE && lmr_counts(i) ==> -LMR_LIMIT <= #[trigger] values[i] <= LMR_LIMIT
}

impl LmrTable {
    pub closed spec fn table(self) -> Seq<i32> {
        self.values@
    }

    pub open spec fn wf(self) -> bool {
        lmr_usable(self.table())
    }

    /// A table with the given values, unless they are not usable.
    pub fn new(values: Vec<i32>) -> (res: Option<Self>)
        ensures
            res is Some <==> lmr_usable(values@),
            res matches Some(t) ==> t.wf() && t.table() == values@,
    {
        if values.len() != LMR_SIZE {
            return None;
        }
        let mut i: usize = 0;
        while i < LMR_SIZE
            invariant
                i <= LMR_SIZE,
                values@.len() == LMR_SIZE,
                forall|j: int|
                    0 <= j < i && lmr_counts(j) ==> -LMR_LIMIT <= #[trigger] values@[j]
                        <= LMR_LIMIT,
            decreases LMR_SIZE - i,
        {
            let value: i32 = values[i];
            if (i / 64) % 128 >= 2 && i % 64 >= 2 && (value < -LMR_LIMIT || value > LMR_LIMIT) {
                assert(lmr_counts(i as int));
                return None;
            }
            i += 1;
        }
        Some(LmrTable { values })
    }

    pub fn get(&self, quiet: bool, depth: usize, count: usize) -> (res: i32)
        requires
            self.wf(),
            2 <= depth < 128,
            2 <= count < 64,
        ensures
            res == self.table()[lmr_place(quiet, depth as int, count as int)],
            -LMR_LIMIT <= res <= LMR_LIMIT,
    {
        let q: usize = if quiet { 1 } else { 0 };
        let index: usize = (q * 128 + depth) * 64 + count;
        assert(index / 64 == q * 128 + depth);
        assert(index % 64 == count);
        assert((q * 128 + depth) % 128 == depth);
        assert(lmr_counts(index as int));
        self.values[index]
    }
}

/// All that a worker needs to search.
pub struct SearchData {
    pub id: usize,
    pub best_move: Option<RootMove>,
    pub shared: SharedData,
    pub pv: PVTable,
    pub board: Board,
    pub time: TimeManager,
    pub report: Report,
    pub stack: PlyTable,
    pub root_moves: Vec<RootMove>,
    pub root_depth: i32,
    pub sel_depth: i32,
    pub prev_score: i32,
    pub nmp_min_ply: i32,
    pub completed_depth: i32,
    pub quiet_history: QuietHistory,
    pub noisy_history: NoisyHistory,
    pub pawn_history: PawnHistory,
    pub conthistory: ContinuationHistory,
    pub contcorrhistory: ContinuationHistory,
    pub network: Network,
    pub lmr: LmrTable,
}

/// All values are zero.
pub open spec fn zeros(table: Seq<i16>) -> bool {
    forall|i: int| 0 <= i < table.len() ==> #[trigger] table[i] == 0
}

/// The value of a move in the table of an earlier move, or in the spare table.
pub open spec fn cont_value(
    table: Seq<i16>,
    spare: Seq<i16>,
    subtable: Option<usize>,
    place: int,
) -> int {
    match subtable {
        Some(t) => table[t * PIECE_TO_SIZE + place] as int,
        None => spare[place] as int,
    }
}

/// The two tables after a bonus for a move in the table of an earlier move.
pub open spec fn cont_updated(
    tables: (Seq<i16>, Seq<i16>),
    subtable: Option<usize>,
    place: int,
    bonus: int,
) -> (Seq<i16>, Seq<i16>) {
    match subtable {
        Some(t) => (
            tables.0.update(
                t * PIECE_TO_SIZE + place,
                gravity(tables.0[t * PIECE_TO_SIZE + place] as int, bonus) as i16,
            ),
            tables.1,
        ),
        None => (
            tables.0,
            tables.1.update(place, gravity(tables.1[place] as int, bonus) as i16),
        ),
    }
}

impl SearchData {
    /// Everything but the histories and the notes of the plies is well formed: the
    /// position can arise in a game, and the network stands at it.
    pub open spec fn wf(self) -> bool {
        &&& self.id < MAX_WORKERS
        &&& self.shared.wf()
        &&& self.pv.wf()
        &&& self.board.wf()
        &&& fair(self.board.state)
        &&& self.stack.wf()
        &&& self.quiet_history.wf()
        &&& self.noisy_history.wf()
        &&& self.pawn_history.wf()
        &&& self.conthistory.wf()
        &&& self.contcorrhistory.wf()
        &&& self.network.wf()
        &&& self.network.boards().len() > 0
        &&& self.network.boards().last() == self.board.state.mb()
        &&& self.lmr.wf()
        &&& 0 <= self.nmp_min_ply <= 1000
        &&& self.best_move matches Some(rm) ==> rm.scored()
        &&& forall|i: int|
            0 <= i < self.root_moves@.len() ==> (#[trigger] self.root_moves@[i]).scored()
    }

    /// The place of a move in tables by piece and target square.
    pub open spec fn place_of(self, s: Step) -> int {
        piece_to_place(self.board.state.mb()[s.from], s.to)
    }

    /// Nothing has been learned or noted yet.
    pub open spec fn is_fresh(self) -> bool {
        &&& zeros(self.quiet_history.table())
        &&& zeros(self.noisy_history.table())
        &&& zeros(self.pawn_history.table())
        &&& zeros(self.conthistory.table())
        &&& zeros(self.contcorrhistory.table())
        &&& zeros(self.stack.spare())
        &&& forall|p: int| -8 <= p < 136 ==> (#[trigger] self.stack.at(p)).is_blank()
        &&& forall|p: int| 0 <= p <= MAX_PLY ==> (#[trigger] self.pv.line_spec(p)).len() == 0
    }

    /// A worker at a position, with empty tables.
    pub fn new(
        shared: SharedData,
        id: usize,
        board: Board,
        time: TimeManager,
        network: Network,
        lmr: LmrTable,
    ) -> (res: Self)
        requires
            id < MAX_WORKERS,
            shared.wf(),
            board.wf(),
            fair(board.state),
            network.wf(),
            network.boards() == seq![board.state.mb()],
            lmr.wf(),
        ensures
            res.wf(),
            res.id == id,
            res.shared == shared,
            res.board == board,
            res.time == time,
            res.network == network,
            res.lmr == lmr,
            res.is_fresh(),
            res.best_move is None,
            res.report == Report::Silent,
            res.root_moves@.len() == 0,
            res.root_depth == 0,
            res.sel_depth == 0,
            res.prev_score == 0,
            res.nmp_min_ply == 0,
            res.completed_depth == 0,
    {
        SearchData {
            id,
            best_move: None,
            shared,
            pv: PVTable::new(),
            board,
            time,
            report: Report::Silent,
            stack: PlyTable::new(),
            root_moves: Vec::new(),
            root_depth: 0,
            sel_depth: 0,
            prev_score: 0,
            nmp_min_ply: 0,
            completed_depth: 0,
            quiet_history: QuietHistory::new(),
            noisy_history: NoisyHistory::new(),
            pawn_history: PawnHistory::new(),
            conthistory: ContinuationHistory::new(),
            contcorrhistory: ContinuationHistory::new(),
            network,
            lmr,
        }
    }

    /// The corrections that outlive a search.
    pub fn corrhistory(&self) -> (res: &SharedCorrectionHistories)
        ensures
            *res == self.shared.history,
    {
        &self.shared.history
    }

    /// The nodes that this worker has searched.
    pub fn nodes(&self) -> (res: u64)
        requires
            self.wf(),
        ensures
            res == self.shared.nodes@[self.id as int],
    {
        self.shared.node_count(self.id)
    }

    pub fn reset_nodes(&mut self)
        requires
            old(self).wf(),
        ensures
            final(self).wf(),
            final(self).shared.nodes@ == old(self).shared.nodes@.update(old(self).id as int, 0),
            *final(self) == (SearchData { shared: final(self).shared, ..*old(self) }),
            final(self).shared == (SharedData {
                nodes: final(self).shared.nodes,
                ..old(self).shared
            }),
    {
        let id: usize = self.id;
        self.shared.nodes.set(id, 0);
    }

    /// How well a move has done as an answer to the move `index` plies before.
    pub open spec fn conthistory_of(self, s: Step, ply: int, index: int) -> int {
        cont_value(
            self.conthistory.table(),
            self.stack.spare(),
            self.stack.at(ply - index).conthistory,
            self.place_of(s),
        )
    }

    pub fn conthistory(&self, m: Move, ply: i32, index: i32) -> (res: i32)
        requires
            self.wf(),
            0 <= ply <= 128,
            0 <= index <= 8,
        ensures
            res == self.conthistory_of(m@, ply as int, index as int),
            -MAX_HISTORY <= res <= MAX_HISTORY,
    {
        let piece = self.board.get_piece_at_square(m.get_from());
        let to = m.get_to();
        match self.stack.get(ply - index).conthistory {
            Some(subtable) => self.conthistory.get(subtable, piece, to),
            None => self.stack.spare_value(piece_to_index(piece, to)),
        }
    }

    /// Gives a move a bonus as an answer to the move `index` plies before.
    fn update_conthistory(&mut self, m: Move, ply: i32, index: i32, bonus: i32)
        requires
            old(self).wf(),
            0 <= ply <= 128,
            0 <= index <= 8,
        ensures
            final(self).wf(),
            (final(self).conthistory.table(), final(self).stack.spare()) == cont_updated(
                (old(self).conthistory.table(), old(self).stack.spare()),
                old(self).stack.at(ply - index).conthistory,
                old(self).place_of(m@),
                bonus as int,
            ),
            final(self).stack.data_spec() == old(self).stack.data_spec(),
            *final(self) == (SearchData {
                conthistory: final(self).conthistory,
                stack: final(self).stack,
                ..*old(self)
            }),
    {
        let piece = self.board.get_piece_at_square(m.get_from());
        let to = m.get_to();
        match self.stack.get(ply - index).conthistory {
            Some(subtable) => self.conthistory.update(subtable, piece, to, bonus),
            None => self.stack.update_spare(piece_to_index(piece, to), bonus),
        }
    }

    /// Gives a move a bonus as an answer to the moves one, two and four plies before.
    pub fn update_conthistories(&mut self, m: Move, ply: i32, bonus: i32)
        requires
            old(self).wf(),
            0 <= ply <= 128,
        ensures
            final(self).wf(),
            (final(self).conthistory.table(), final(self).stack.spare()) == cont_updated(
                cont_updated(
                    cont_updated(
                        (old(self).conthistory.table(), old(self).stack.spare()),
                        old(self).stack.at(ply - 1).conthistory,
                        old(self).place_of(m@),
                        bonus as int,
                    ),
                    old(self).stack.at(ply - 2).conthistory,
                    old(self).place_of(m@),
                    bonus as int,
                ),
                old(self).stack.at(ply - 4).conthistory,
                old(self).place_of(m@),
                bonus as int,
            ),
            final(self).stack.data_spec() == old(self).stack.data_spec(),
            *final(self) == (SearchData {
                conthistory: final(self).conthistory,
                stack: final(self).stack,
                ..*old(self)
            }),
    {
        self.update_conthistory(m, ply, 1, bonus);
        self.update_conthistory(m, ply, 2, bonus);
        self.update_conthistory(m, ply, 4, bonus);
    }

    /// The keys under which corrections are kept.
    pub open spec fn pawn_key_spec(self) -> u64 {
        pawn_key_upto(self.board.zobrist, self.board.state.mb(), 64)
    }

    pub open spec fn non_pawn_key_spec(self, side: Side) -> u64 {
        non_pawn_key_upto(self.board.zobrist, side, self.board.state.mb(), 64)
    }

    /// What the last move together with the move `index` plies before says about the
    /// evaluation, unless one of the two was no move.
    pub open spec fn contcorrection_of(self, ply: int, index: int) -> int {
        let last = self.stack.at(ply - 1);
        let earlier = self.stack.at(ply - index);
        if !last.m.null() && !earlier.m.null() {
            cont_value(
                self.contcorrhistory.table(),
                self.stack.spare(),
                earlier.contcorrhistory,
                piece_to_place(last.piece, last.m@.to),
            )
        } else {
            0
        }
    }

    fn contcorrection(&self, ply: i32, index: i32) -> (res: i32)
        requires
            self.wf(),
            0 <= ply <= 128,
            0 <= index <= 8,
        ensures
            res == self.contcorrection_of(ply as int, index as int),
            -MAX_HISTORY <= res <= MAX_HISTORY,
    {
        let last = self.stack.get(ply - 1);
        let earlier = self.stack.get(ply - index);
        if last.m.is_null() || earlier.m.is_null() {
            return 0;
        }
        let to = last.m.get_to();
        match earlier.contcorrhistory {
            Some(subtable) => self.contcorrhistory.get(subtable, last.piece, to),
            None => self.stack.spare_value(piece_to_index(last.piece, to)),
        }
    }

    /// What is added to the evaluation of the position.
    pub open spec fn correction_of(self, ply: int) -> int {
        let stm = self.board.state.side_to_move;
        let h = self.shared.history;
        quotient(
            h.pawn.table()[correction_place(stm, self.pawn_key_spec())]
                + h.non_pawn_white.table()[correction_place(
                stm,
                self.non_pawn_key_spec(Side::White),
            )] + h.non_pawn_black.table()[correction_place(
                stm,
                self.non_pawn_key_spec(Side::Black),
            )] + self.contcorrection_of(ply, 2) + self.contcorrection_of(ply, 4),
            64,
        )
    }

    pub fn correction(&self, ply: i32) -> (res: i32)
        requires
            self.wf(),
            0 <= ply <= 128,
        ensures
            res == self.correction_of(ply as int),
            -625 <= res <= 625,
    {
        let stm = self.board.state.side_to_move;
        let pawn: i32 = self.corrhistory().pawn.get(stm, self.board.pawn_key());
        let white: i32 = self.corrhistory().non_pawn_white.get(
            stm,
            self.board.non_pawn_key(Side::White),
        );
        let black: i32 = self.corrhistory().non_pawn_black.get(
            stm,
            self.board.non_pawn_key(Side::Black),
        );
        let total: i32 = pawn + white + black + self.contcorrection(ply, 2) + self.contcorrection(
            ply,
            4,
        );
        if total >= 0 {
            total / 64
        } else {
            -((-total) / 64)
        }
    }

    /// The tables after a bonus for the last move together with the move `index` plies
    /// before, unless one of the two was no move.
    pub open spec fn contcorrection_after(
        self,
        tables: (Seq<i16>, Seq<i16>),
        ply: int,
        index: int,
        bonus: int,
    ) -> (Seq<i16>, Seq<i16>) {
        let last = self.stack.at(ply - 1);
        let earlier = self.stack.at(ply - index);
        if !last.m.null() && !earlier.m.null() {
            cont_updated(
                tables,
                earlier.contcorrhistory,
                piece_to_place(last.piece, last.m@.to),
                bonus,
            )
        } else {
            tables
        }
    }

    fn update_contcorrection(&mut self, ply: i32, index: i32, bonus: i32)
        requires
            old(self).wf(),
            0 <= ply <= 128,
            0 <= index <= 8,
        ensures
            final(self).wf(),
            (final(self).contcorrhistory.table(), final(self).stack.spare()) == old(
                self,
            ).contcorrection_after(
                (old(self).contcorrhistory.table(), old(self).stack.spare()),
                ply as int,
                index as int,
                bonus as int,
            ),
            final(self).stack.data_spec() == old(self).stack.data_spec(),
            *final(self) == (SearchData {
                contcorrhistory: final(self).contcorrhistory,
                stack: final(self).stack,
                ..*old(self)
            }),
    {
        let last = self.stack.get(ply - 1);
        let earlier = self.stack.get(ply - index);
        if last.m.is_null() || earlier.m.is_null() {
            return ;
        }
        let to = last.m.get_to();
        match earlier.contcorrhistory {
            Some(subtable) => self.contcorrhistory.update(subtable, last.piece, to, bonus),
            None => self.stack.update_spare(piece_to_index(last.piece, to), bonus),
        }
    }

    /// The bonus for a score that differs from the evaluation by `diff`.
    pub open spec fn correction_bonus(diff: int, depth: int) -> int {
        clamped(quotient(157 * depth * diff, 128), -4605, 2548)
    }

    /// Remembers by how much the score of the position differs from its evaluation.
    pub fn update_correction_histories(&mut self, diff: i32, depth: i32, ply: i32)
        requires
            old(self).wf(),
            0 <= ply <= 128,
            -100000 <= diff <= 100000,
            0 <= depth <= 130,
        ensures
            final(self).wf(),
            corrections_taught(
                *old(self),
                *final(self),
                diff as int,
                depth as int,
                ply as int,
            ),
    {
        let stm = self.board.state.side_to_move;
        assert(-2100000000 < 157 * depth * diff < 2100000000) by (nonlinear_arith)
            requires
                0 <= depth <= 130,
                -100000 <= diff <= 100000,
        ;
        assert(-2100000000 < depth * diff < 2100000000) by (nonlinear_arith)
            requires
                0 <= depth <= 130,
                -100000 <= diff <= 100000,
        ;
        assert(157 * depth * diff == (157 * depth) * diff);
        let product: i32 = 157 * depth * diff;
        let share: i32 = if product >= 0 { product / 128 } else { -((-product) / 128) };
        let bonus: i32 = if share < -4605 {
            -4605
        } else if share > 2548 {
            2548
        } else {
            share
        };
        let pawn_key = self.board.pawn_key();
        let white_key = self.board.non_pawn_key(Side::White);
        let black_key = self.board.non_pawn_key(Side::Black);
        self.shared.history.pawn.update(stm, pawn_key, bonus);
        self.shared.history.non_pawn_white.update(stm, white_key, bonus);
        self.shared.history.non_pawn_black.update(stm, black_key, bonus);
        self.update_contcorrection(ply, 2, bonus);
        self.update_contcorrection(ply, 4, bonus);
    }
}

/// A correction history after a bonus for a key.
pub open spec fn corrected(
    a: CorrectionHistory,
    b: CorrectionHistory,
    stm: Side,
    key: u64,
    bonus: int,
) -> bool {
    b.table() == a.table().update(
        correction_place(stm, key),
        gravity(a.table()[correction_place(stm, key)] as int, bonus) as i16,
    )
}

/// The corrections have learned by how much a score differs from the evaluation.
pub open spec fn corrections_taught(
    a: SearchData,
    b: SearchData,
    diff: int,
    depth: int,
    ply: int,
) -> bool {
    let stm = a.board.state.side_to_move;
    let bonus = SearchData::correction_bonus(diff, depth);
    let x = a.shared.history;
    let y = b.shared.history;
    &&& b == (SearchData {
        shared: b.shared,
        contcorrhistory: b.contcorrhistory,
        stack: b.stack,
        ..a
    })
    &&& b.shared == (SharedData { history: b.shared.history, ..a.shared })
    &&& b.stack.data_spec() == a.stack.data_spec()
    &&& corrected(x.pawn, y.pawn, stm, a.pawn_key_spec(), bonus)
    &&& corrected(
        x.non_pawn_white,
        y.non_pawn_white,
        stm,
        a.non_pawn_key_spec(Side::White),
        bonus,
    )
    &&& corrected(
        x.non_pawn_black,
        y.non_pawn_black,
        stm,
        a.non_pawn_key_spec(Side::Black),
        bonus,
    )
    &&& (b.contcorrhistory.table(), b.stack.spare()) == a.contcorrection_after(
        a.contcorrection_after((a.contcorrhistory.table(), a.stack.spare()), ply, 2, bonus),
        ply,
        4,
        bonus,
    )
}

/// A move has been made, and the notes of the ply, the network and the counters are in step.
pub open spec fn moved(a: SearchData, m: Move, ply: int, b: SearchData) -> bool {
    let st = a.board.state;
    &&& b == (SearchData {
        board: b.board,
        network: b.network,
        stack: b.stack,
        shared: b.shared,
        ..a
    })
    &&& b.shared == (SharedData { nodes: b.shared.nodes, ..a.shared })
    &&& b.shared.nodes@ == a.shared.nodes@.update(
        a.id as int,
        a.shared.nodes@[a.id as int].wrapping_add(1),
    )
    &&& b.network.params() == a.network.params()
    &&& b.network.boards() == a.network.boards().push(applied(st.mb(), m@))
    &&& made(a.board, m@, b.board)
    &&& b.stack.spare() == a.stack.spare()
    &&& forall|p: int| -8 <= p < 136 && p != ply ==> #[trigger] b.stack.at(p) == a.stack.at(p)
    &&& b.stack.at(ply) == (PlyData {
        m,
        piece: st.mb()[m@.from],
        conthistory: Some(a.place_of(m@) as usize),
        contcorrhistory: Some(a.place_of(m@) as usize),
        threats: st.threats,
        ..a.stack.at(ply)
    })
}

/// The last move has been taken back.
pub open spec fn unmoved(a: SearchData, b: SearchData) -> bool {
    &&& b == (SearchData { board: b.board, network: b.network, ..a })
    &&& b.network.params() == a.network.params()
    &&& b.network.boards() == a.network.boards().drop_last()
    &&& taken_back(a.board, b.board)
}

impl SearchData {
    /// Makes a move and keeps the notes, the network and the counters in step.
    pub fn make_move(&mut self, m: Move, ply: i32)
        requires
            old(self).wf(),
            generated(old(self).board.state, m@),
            old(self).board.state.half_move_clock < 255,
            old(self).board.state.full_move < usize::MAX,
            old(self).network.boards().len() < 136,
            0 <= ply < 128,
        ensures
            final(self).wf(),
            moved(*old(self), m, ply as int, *final(self)),
            final(self).board.game_history@.drop_last() == old(self).board.game_history@,
    {
        let ghost before = self.board.state;
        proof {
            law_generated_movable(before, m@);
        }
        self.network.push(&self.board, m);
        let to = m.get_to();
        let piece = self.board.get_piece_at_square(m.get_from());
        let mut entry = self.stack.get(ply);
        entry.m = m;
        entry.piece = piece;
        entry.conthistory = Some(self.conthistory.subtable(piece, to));
        entry.contcorrhistory = Some(self.contcorrhistory.subtable(piece, to));
        entry.threats = self.board.state.threats;
        self.stack.set(ply, entry);
        self.board.make_move(m);
        proof {
            law_fair_preserved(before, m@, self.board.state);
            assert(self.board.game_history@.drop_last() =~= old(self).board.game_history@);
        }
        let id: usize = self.id;
        self.shared.increment_nodes(id);
    }

    /// Takes the last move back.
    pub fn unmake_move(&mut self)
        requires
            old(self).network.wf(),
            old(self).network.boards().len() > 1,
            old(self).board.wf(),
            old(self).board.state_stack@.len() > 0,
            old(self).board.game_history@.len() > 0,
        ensures
            final(self).network.wf(),
            final(self).board.wf(),
            unmoved(*old(self), *final(self)),
    {
        self.board.unmake_move();
        self.network.pop();
    }
}

/// Making a move and taking it back leaves the position and the network as they were, and so
/// what the network says of the position.
pub proof fn law_make_unmake(
    before: SearchData,
    m: Move,
    ply: int,
    made: SearchData,
    after: SearchData,
)
    requires
        moved(before, m, ply, made),
        unmoved(made, after),
    ensures
        restored(before.board, after.board),
        after.network.params() == before.network.params(),
        after.network.boards() == before.network.boards(),
        evaluation(
            after.network.params(),
            after.board.state.side_to_move,
            after.board.state.mb(),
        ) == evaluation(
            before.network.params(),
            before.board.state.side_to_move,
            before.board.state.mb(),
        ),
{
    assert(made.board.state_stack@.drop_last() =~= before.board.state_stack@);
    assert(made.board.game_history@.drop_last() =~= before.board.game_history@);
    assert(made.network.boards().drop_last() =~= before.network.boards());
}

/// The decimal notation of a number that may be negative.
pub open spec fn signed(x: int) -> Seq<char> {
    if x < 0 {
        seq!['-'] + decimal((-x) as nat)
    } else {
        decimal(x as nat)
    }
}

pub fn push_signed(out: &mut String, x: i32)
    ensures
        final(out)@ == old(out)@ + signed(x as int),
{
    let ghost start = out@;
    if x < 0 {
        out.push('-');
        let size: i64 = -(x as i64);
        push_decimal(out, size as u64);
    } else {
        push_decimal(out, x as u64);
    }
    assert(out@ =~= start + signed(x as int));
}

/// In how many moves a mate comes, negative for a mate against the side to move.
pub open spec fn mate_distance(score: int) -> int {
    let moves = quotient(MATE - magnitude(score) + 1, 2);
    if score > 0 {
        moves
    } else if score < 0 {
        -moves
    } else {
        0
    }
}

/// A score as it is reported: moves to mate, or hundredths of a pawn.
pub open spec fn score_text(score: int, upperbound: bool, lowerbound: bool) -> Seq<char> {
    let base = if winning(score) || losing(score) {
        "mate "@ + signed(mate_distance(score))
    } else {
        "cp "@ + signed(score)
    };
    let upper = if upperbound {
        base + " upperbound"@
    } else {
        base
    };
    if lowerbound {
        upper + " lowerbound"@
    } else {
        upper
    }
}

/// The first `n` moves of a line, each followed by a blank.
pub open spec fn line_text(line: Seq<Move>, n: int) -> Seq<char>
    decreases n,
{
    if n <= 0 {
        Seq::empty()
    } else {
        (line_text(line, n - 1) + Move::notation(line[n - 1]@)).push(' ')
    }
}

/// The report about the best move. A move without a score from the last iteration is
/// reported with its score from the iteration before.
pub open spec fn info_text(
    rm: RootMove,
    elapsed: u64,
    nodes: u64,
    nps: u64,
    hashfull: usize,
) -> Seq<char> {
    let stale = rm.score == -INFINITE;
    let score = if stale {
        rm.previous_score
    } else {
        rm.display_score
    };
    "info depth "@ + signed(rm.searched_depth as int) + " seldepth "@ + signed(rm.sel_depth as int)
        + " time "@ + decimal(elapsed as nat) + " score "@ + score_text(
        score as int,
        rm.upperbound && !stale,
        rm.lowerbound && !stale,
    ) + " nodes "@ + decimal(nodes as nat) + " nps "@ + decimal(nps as nat) + " pv "@ + (
    Move::notation(rm.m@)).push(' ') + line_text(rm.pv.inner@, rm.pv.inner@.len() as int)
        + " hashfull "@ + decimal(hashfull as nat)
}

fn push_score(out: &mut String, score: i32, upperbound: bool, lowerbound: bool)
    requires
        -100000 <= score <= 100000,
    ensures
        final(out)@ == old(out)@ + score_text(score as int, upperbound, lowerbound),
{
    let ghost start = out@;
    if is_decisive(score) {
        out.push_str("mate ");
        let size: i32 = if score < 0 { -score } else { score };
        let plies: i32 = MATE - size + 1;
        let moves: i32 = if plies >= 0 { plies / 2 } else { -((-plies) / 2) };
        push_signed(out, if score > 0 { moves } else { -moves });
    } else {
        out.push_str("cp ");
        push_signed(out, score);
    }
    if upperbound {
        out.push_str(" upperbound");
    }
    if lowerbound {
        out.push_str(" lowerbound");
    }
    assert(out@ =~= start + score_text(score as int, upperbound, lowerbound));
}

fn push_line(out: &mut String, line: &Vec<Move>)
    ensures
        final(out)@ == old(out)@ + line_text(line@, line@.len() as int),
{
    let ghost start = out@;
    let mut i: usize = 0;
    assert(out@ =~= start + line_text(line@, 0));
    while i < line.len()
        invariant
            i <= line@.len(),
            out@ == start + line_text(line@, i as int),
        decreases line@.len() - i,
    {
        let text = line[i].to_string();
        out.push_str(text.as_str());
        out.push(' ');
        i += 1;
        assert(out@ =~= start + line_text(line@, i as int));
    }
}

impl RootMove {
    /// The scores are those that a search gives.
    pub open spec fn scored(self) -> bool {
        &&& -100000 <= self.score <= 100000
        &&& -100000 <= self.display_score <= 100000
        &&& -100000 <= self.previous_score <= 100000
    }

    /// The report about this move as the best one.
    pub fn info(&self, elapsed: u64, nodes: u64, nps: u64, hashfull: usize) -> (res: String)
        requires
            self.scored(),
        ensures
            res@ == info_text(*self, elapsed, nodes, nps, hashfull),
    {
        let stale: bool = self.score == -INFINITE;
        let score: i32 = if stale { self.previous_score } else { self.display_score };
        let mut out = String::new();
        out.push_str("info depth ");
        push_signed(&mut out, self.searched_depth);
        out.push_str(" seldepth ");
        push_signed(&mut out, self.sel_depth);
        out.push_str(" time ");
        push_decimal(&mut out, elapsed);
        out.push_str(" score ");
        push_score(&mut out, score, self.upperbound && !stale, self.lowerbound && !stale);
        out.push_str(" nodes ");
        push_decimal(&mut out, nodes);
        out.push_str(" nps ");
        push_decimal(&mut out, nps);
        out.push_str(" pv ");
        let first = self.m.to_string();
        let ghost head = out@;
        out.push_str(first.as_str());
        out.push(' ');
        assert(out@ =~= head + (Move::notation(self.m@)).push(' '));
        push_line(&mut out, &self.pv.inner);
        out.push_str(" hashfull ");
        push_decimal(&mut out, hashfull as u64);
        assert(out@ =~= info_text(*self, elapsed, nodes, nps, hashfull));
        out
    }
}

impl SearchData {
    /// The report about the best move so far, if there is one. The time in milliseconds
    /// and the nodes per second are given.
    pub fn uci_info(&self, elapsed: u64, nps: u64) -> (res: Option<String>)
        requires
            self.wf(),
        ensures
            match self.best_move {
                None => res is None,
                Some(rm) => res matches Some(text) && exists|hashfull: usize|
                    hashfull == fullness(
                        self.shared.tt.table(),
                        self.shared.tt.age_spec(),
                    ) && text@ == #[trigger] info_text(
                        rm,
                        elapsed,
                        counted(self.shared.nodes@, MAX_WORKERS as int),
                        nps,
                        hashfull,
                    ),
            },
    {
        match &self.best_move {
            None => None,
            Some(rm) => {
                let nodes: u64 = self.shared.total_nodes_searched();
                Some(rm.info(elapsed, nodes, nps, self.shared.tt.hashfull()))
            },
        }
    }
}

} // verus!
