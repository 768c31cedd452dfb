//! The search for the best move.

pub mod account;
pub mod bookkeeping;
pub mod coverage;
pub mod data;
pub mod horizon;
pub mod learning;
pub mod looping;
pub mod movepicker;
pub mod picking;
pub mod pruning;
pub mod runner;
pub mod time;
pub mod tree;
pub mod trying;

use crate::board::{Board, BoardState};
use crate::board::legality::{fair, in_check};
use crate::board::makemove::{next_position, restored};
use crate::board::movegen::{generated, moves_in};
use crate::board::position::{attacker, king_sq, lemma_king_exists, occupied, threatened, Position};
use crate::board::status::drawn;
use crate::nnue::{evaluation, EVAL_LIMIT};
use crate::perft::playable;
use crate::search::data::{RootMove, SearchData};
use crate::search::pruning::{
    blend, clamp, conclusive, futile_above, hindsight_depth, improvement_of, larger, lesser,
    razored,
};
use crate::search::time::unbounded;
use crate::types::moves::{Move, Step};
use crate::types::pv::steps;
use crate::types::score::{DRAW, INFINITE, MATE, NO_SCORE, TIMEOUT};
use crate::types::transposition::{answers, first_answer, key_of, Bound, Entry, TranspositionTable};
use vstd::prelude::*;

verus! {

/// The place of a node in the tree: the root, on the line that is expected, or elsewhere.
#[derive(Debug, Clone, Copy, PartialEq, Eq, Structural)]
pub enum Node {
    Root,
    PV,
    NonPV,
}

impl Node {
    pub open spec fn pv(self) -> bool {
        self !is NonPV
    }

    pub fn is_pv(&self) -> (res: bool)
        ensures
            res == self.pv(),
    {
        !matches!(self, Node::NonPV)
    }

    pub fn is_root(&self) -> (res: bool)
        ensures
            res == (*self is Root),
    {
        matches!(self, Node::Root)
    }
}

/// No ply of a search is greater.
pub const LAST_PLY: i32 = 127;

/// The side to move is in check.
pub open spec fn checked(st: BoardState) -> bool {
    st.threats.has(king_sq(st.mb(), st.side_to_move))
}

/// There is no move.
pub open spec fn no_moves(st: BoardState) -> bool {
    forall|s: Step| !#[trigger] generated(st, s)
}

/// A score that a search may give.
pub open spec fn scorable(score: int) -> bool {
    -TIMEOUT <= score <= TIMEOUT
}

/// A score that a search may end with. The lowest score of all is none of them.
pub open spec fn endable(score: int) -> bool {
    -TIMEOUT < score <= TIMEOUT
}

/// A window of scores.
pub open spec fn window(alpha: int, beta: int) -> bool {
    -TIMEOUT <= alpha < beta <= TIMEOUT
}

/// The moves are the same.
pub open spec fn same_moves(a: Seq<RootMove>, b: Seq<RootMove>) -> bool {
    a.len() == b.len() && forall|i: int| 0 <= i < a.len() ==> (#[trigger] b[i]).m == a[i].m
}

/// A search leaves behind what it has learned, but the position, the limits and the root
/// moves are as before, and so is which moves are left out.
pub open spec fn kept(a: SearchData, b: SearchData) -> bool {
    &&& b.wf()
    &&& b.id == a.id
    &&& b.time == a.time
    &&& b.report == a.report
    &&& b.best_move == a.best_move
    &&& b.root_depth == a.root_depth
    &&& b.prev_score == a.prev_score
    &&& b.nmp_min_ply == a.nmp_min_ply
    &&& b.completed_depth == a.completed_depth
    &&& b.lmr == a.lmr
    &&& b.shared.status == a.shared.status
    &&& restored(a.board, b.board)
    &&& b.network.boards() == a.network.boards()
    &&& b.network.params() == a.network.params()
    &&& same_moves(a.root_moves@, b.root_moves@)
    &&& forall|p: int|
        -8 <= p < 136 ==> (#[trigger] b.stack.at(p)).excluded == a.stack.at(p).excluded
}

/// The moves can be played one after another.
pub open spec fn plays(pos: Position, line: Seq<Move>) -> bool {
    playable(pos, steps(line))
}

/// A move, and then what can be played after it, can be played.
pub proof fn lemma_plays_after(pos: Position, m: Move, line: Seq<Move>)
    requires
        moves_in(pos, m@),
        plays(next_position(pos, m@), line),
    ensures
        plays(pos, seq![m] + line),
{
    assert(steps(seq![m] + line).drop_first() =~= steps(line));
}

/// After each root move the moves of its line can be played.
pub open spec fn lined(d: SearchData) -> bool {
    forall|i: int|
        0 <= i < d.root_moves@.len() ==> plays(
            next_position(d.board.state.position(), (#[trigger] d.root_moves@[i]).m@),
            d.root_moves@[i].pv.inner@,
        )
}

/// All root moves are moves of the position.
pub open spec fn rooted(d: SearchData) -> bool {
    forall|i: int|
        0 <= i < d.root_moves@.len() ==> generated(
            d.board.state,
            (#[trigger] d.root_moves@[i]).m@,
        )
}

/// The root moves are the moves of the position, each once.
pub open spec fn rooted_exactly(d: SearchData) -> bool {
    &&& rooted(d)
    &&& forall|s: Step| #[trigger]
        generated(d.board.state, s) ==> exists|i: int|
            0 <= i < d.root_moves@.len() && (#[trigger] d.root_moves@[i]).m@ == s
    &&& forall|i: int, j: int|
        0 <= i < j < d.root_moves@.len() ==> (#[trigger] d.root_moves@[i]).m@ != (
        #[trigger] d.root_moves@[j]).m@
}

/// What is noted at the root once a score above the window's lower end is found: some move
/// has it, and if it lies in the window none has a greater one.
pub open spec fn root_scored(d: SearchData, beta: int, score: int) -> bool {
    &&& exists|k: int| 0 <= k < d.root_moves@.len() && (#[trigger] d.root_moves@[k]).score == score
    &&& score < beta ==> forall|i: int|
        0 <= i < d.root_moves@.len() ==> (#[trigger] d.root_moves@[i]).score <= score
}

/// The lines of earlier plies are as before. Off the expected line all lines are; on it
/// the line of this ply can be played.
pub open spec fn traced(a: SearchData, b: SearchData, pv: bool, ply: int) -> bool {
    &&& b.root_moves == a.root_moves
    &&& forall|p: int| 0 <= p < ply ==> #[trigger] b.pv.line_spec(p) == a.pv.line_spec(p)
    &&& if pv {
        plays(a.board.state.position(), b.pv.line_spec(ply))
    } else {
        b.pv == a.pv
    }
}

/// The worker can search at a ply: there is room for the moves to come.
pub open spec fn ready(d: SearchData, node: Node, ply: int) -> bool {
    &&& d.wf()
    &&& 0 <= ply <= LAST_PLY
    &&& d.network.boards().len() <= ply + 1
    &&& d.board.state.full_move + (LAST_PLY + 1 - ply) <= usize::MAX
    &&& node is Root ==> ply == 0 && d.board.state.half_move_clock < 255
}

/// What is known of a position from the table. A move is taken over only if it is one of
/// the position, and scores and evaluations only within their ranges.
#[derive(Debug)]
pub struct Probe {
    pub found: bool,
    pub best_move: Option<Move>,
    pub bound: Option<Bound>,
    pub score: Option<i32>,
    pub was_pv: bool,
    pub depth: Option<i32>,
    pub eval: Option<i32>,
}

/// The probe says what the entry says.
pub open spec fn reads(entry: Option<Entry>, st: BoardState, p: Probe) -> bool {
    match entry {
        None => {
            &&& !p.found
            &&& p.best_move is None
            &&& p.bound is None
            &&& p.score is None
            &&& !p.was_pv
            &&& p.depth is None
            &&& p.eval is None
        },
        Some(e) => {
            &&& p.found
            &&& p.best_move == if !e.best_move.null() && generated(st, e.best_move@) {
                Some(e.best_move)
            } else {
                None
            }
            &&& p.bound == Some(e.flags.bound_of())
            &&& match p.score {
                None => e.score == NO_SCORE,
                Some(s) => e.score != NO_SCORE && s == crate::types::history::clamped(
                    e.score as int,
                    -INFINITE as int,
                    INFINITE as int,
                ),
            }
            &&& p.was_pv == e.flags.pv_of()
            &&& p.depth == Some(e.depth as i32)
            &&& match p.eval {
                None => e.eval == NO_SCORE,
                Some(v) => e.eval != NO_SCORE && v == crate::types::history::clamped(
                    e.eval as int,
                    -EVAL_LIMIT as int,
                    EVAL_LIMIT as int,
                ),
            }
        },
    }
}

/// Reads an entry of the table.
pub fn read_entry(entry: &Option<Entry>, board: &Board) -> (res: Probe)
    requires
        board.wf(),
        fair(board.state),
    ensures
        reads(*entry, board.state, res),
{
    match entry {
        None => Probe {
            found: false,
            best_move: None,
            bound: None,
            score: None,
            was_pv: false,
            depth: None,
            eval: None,
        },
        Some(e) => {
            let m = e.best_move();
            let score: i32 = e.score();
            let eval: i32 = e.eval();
            Probe {
                found: true,
                best_move: if !m.is_null() && board.is_playable(m) { Some(m) } else { None },
                bound: Some(e.bound()),
                score: if score == NO_SCORE {
                    None
                } else {
                    Some(clamp(score, -INFINITE, INFINITE))
                },
                was_pv: e.is_pv(),
                depth: Some(e.depth()),
                eval: if eval == NO_SCORE {
                    None
                } else {
                    Some(clamp(eval, -EVAL_LIMIT, EVAL_LIMIT))
                },
            }
        },
    }
}

/// A king that is not attacked, itself out of the way, is not in check.
pub proof fn lemma_safe_king(st: BoardState)
    requires
        st.kings(),
        st.threats_current(),
        !checked(st),
    ensures
        !in_check(st.mb(), st.side_to_move),
{
    let mb = st.mb();
    let stm = st.side_to_move;
    let k = king_sq(mb, stm);
    lemma_king_exists(mb, stm);
    assert(!threatened(mb, stm.other(), k));
    if in_check(mb, stm) {
        let c = choose|c: int| #[trigger] attacker(mb, stm.other(), c, k, occupied(mb));
        assert(stm.other().other() == stm);
        assert(attacker(mb, stm.other(), c, k, occupied(mb).remove(k)));
    }
}

/// The score of a node that needs no search: a draw, a node that is too deep, or a window
/// that no mate can reach.
pub open spec fn settled(
    d: SearchData,
    node: Node,
    depth: int,
    alpha: int,
    beta: int,
    ply: int,
) -> Option<int> {
    if depth <= 0 || node is Root {
        None
    } else if drawn(d.board) {
        Some(DRAW as int)
    } else if ply >= LAST_PLY {
        Some(too_deep(d))
    } else if larger(alpha, -MATE + ply) >= lesser(beta, MATE - ply + 1) {
        Some(larger(alpha, -MATE + ply))
    } else {
        None
    }
}

/// The score of a node that is too deep to be searched.
pub open spec fn too_deep(d: SearchData) -> int {
    if checked(d.board.state) {
        DRAW as int
    } else {
        evaluation(d.network.params(), d.board.state.side_to_move, d.board.state.mb())
    }
}

/// The score of a position without moves.
pub open spec fn terminal(st: BoardState, ply: int) -> int {
    if checked(st) {
        -MATE + ply
    } else {
        DRAW as int
    }
}

/// The score of a node without any move to search. When a move is left out there may be
/// others.
pub open spec fn bare_score(d: SearchData, ply: int) -> int {
    if leaving_out(d, ply) {
        -INFINITE as int
    } else {
        terminal(d.board.state, ply)
    }
}

/// The entry is what the table has on a position.
pub open spec fn known(
    tt: TranspositionTable,
    st: BoardState,
    ply: int,
    entry: Option<Entry>,
) -> bool {
    let entries = tt.entries_at(st.hash);
    let key = key_of(st.hash);
    match entry {
        Some(e) => exists|i: int| #[trigger]
            first_answer(entries, key, i) && entry_read(entries[i], ply, e),
        None => forall|i: int| !answers(entries, key, i),
    }
}

/// An entry as it is read at a ply: a mate is counted from there.
pub open spec fn entry_read(s: Entry, ply: int, e: Entry) -> bool {
    &&& e.best_move == s.best_move
    &&& e.score == crate::types::score::restored(s.score as int, ply)
    &&& e.eval == s.eval
    &&& e.depth == s.depth
    &&& e.flags == s.flags
}

/// The probe says what the table has on a position.
pub open spec fn probed(tt: TranspositionTable, st: BoardState, ply: int, p: Probe) -> bool {
    exists|entry: Option<Entry>| #[trigger] known(tt, st, ply, entry) && reads(entry, st, p)
}

/// What a table has on a position.
pub open spec fn table_says(tt: TranspositionTable, st: BoardState, ply: int) -> Probe {
    choose|p: Probe| #[trigger] probed(tt, st, ply, p)
}

/// What the table of the worker has on its position.
pub open spec fn probe_of(d: SearchData, ply: int) -> Probe {
    table_says(d.shared.tt, d.board.state, ply)
}

/// A table has one thing to say on a position.
pub proof fn lemma_table_says(tt: TranspositionTable, st: BoardState, ply: int, p: Probe)
    requires
        probed(tt, st, ply, p),
    ensures
        table_says(tt, st, ply) == p,
{
    let q = table_says(tt, st, ply);
    assert(probed(tt, st, ply, q));
    let x = choose|entry: Option<Entry>| #[trigger]
        known(tt, st, ply, entry) && reads(entry, st, p);
    let y = choose|entry: Option<Entry>| #[trigger]
        known(tt, st, ply, entry) && reads(entry, st, q);
    let entries = tt.entries_at(st.hash);
    let key = key_of(st.hash);
    if x is Some && y is Some {
        let i = choose|i: int| #[trigger]
            first_answer(entries, key, i) && entry_read(entries[i], ply, x->0);
        let j = choose|j: int| #[trigger]
            first_answer(entries, key, j) && entry_read(entries[j], ply, y->0);
        assert(i == j);
    } else if x is Some {
        let i = choose|i: int| #[trigger]
            first_answer(entries, key, i) && entry_read(entries[i], ply, x->0);
        assert(answers(entries, key, i));
    } else if y is Some {
        let i = choose|i: int| #[trigger]
            first_answer(entries, key, i) && entry_read(entries[i], ply, y->0);
        assert(answers(entries, key, i));
    }
}

/// No limit stops the worker in the middle of a search.
pub open spec fn clockless(d: SearchData) -> bool {
    unbounded(d.time.limits, d.id, d.root_depth)
}

/// Nothing stops the worker in the middle of a search: no limit does, and it looks at no
/// status.
pub open spec fn undisturbed(d: SearchData) -> bool {
    clockless(d) && !d.shared.status.watched()
}

/// The evaluation of the position with what earlier searches say it is off by.
pub open spec fn corrected_eval(d: SearchData, p: Probe, ply: int) -> int {
    (match p.eval {
        Some(e) => e as int,
        None => evaluation(d.network.params(), d.board.state.side_to_move, d.board.state.mb()),
    }) + d.correction_of(ply)
}

/// The score of a position without any move: out of check its evaluation.
pub open spec fn pat_of(d: SearchData, ply: int) -> int {
    if checked(d.board.state) {
        -INFINITE as int
    } else {
        corrected_eval(d, probe_of(d, ply), ply)
    }
}

/// The score of a quiet search that the table, the depth, the evaluation or a lack of moves
/// gives at once.
pub open spec fn at_once(d: SearchData, node: Node, alpha: int, beta: int, ply: int) -> Option<
    int,
> {
    let p = probe_of(d, ply);
    if drawn(d.board) {
        Some(DRAW as int)
    } else if !node.pv() && p.score is Some && conclusive(
        p.bound,
        p.score->0 as int,
        alpha,
        beta,
    ) {
        Some(p.score->0 as int)
    } else if ply == LAST_PLY {
        Some(too_deep(d))
    } else if pat_of(d, ply) >= beta {
        Some(pat_of(d, ply))
    } else if checked(d.board.state) && no_moves(d.board.state) {
        Some(-MATE + ply)
    } else {
        None
    }
}

/// What a quiet search gives: what is clear at once, and otherwise no less than the score
/// without any move. Only where a limit or another thread stops it does the score say so.
pub open spec fn quiesced(
    d: SearchData,
    node: Node,
    alpha: int,
    beta: int,
    ply: int,
    res: int,
) -> bool {
    &&& endable(res)
    &&& undisturbed(d) ==> res != TIMEOUT
    &&& drawn(d.board) ==> res == DRAW
    &&& match at_once(d, node, alpha, beta, ply) {
        Some(score) => res == score || !clockless(d) && res == TIMEOUT,
        None => res >= pat_of(d, ply),
    }
}

/// The evaluation has become better since the last turns of the side to move.
pub open spec fn improves(d: SearchData, eval: int, ply: int) -> bool {
    improvement_of(
        false,
        eval,
        d.stack.at(ply - 2).eval as int,
        d.stack.at(ply - 4).eval as int,
    ) > 0
}

/// A move is left out at the ply.
pub open spec fn leaving_out(d: SearchData, ply: int) -> bool {
    !d.stack.at(ply).excluded.null()
}

/// The evaluation that a node is judged by: none in check, and the one from before when a
/// move is left out.
pub open spec fn static_eval_of(d: SearchData, ply: int) -> int {
    if checked(d.board.state) {
        NO_SCORE as int
    } else if leaving_out(d, ply) {
        d.stack.at(ply).eval as int
    } else {
        corrected_eval(d, probe_of(d, ply), ply)
    }
}

/// The depth at which a node is searched.
pub open spec fn deepened(d: SearchData, node: Node, depth: int, ply: int) -> int {
    let last = d.stack.at(ply - 1);
    if node is Root || checked(d.board.state) || leaving_out(d, ply) || last.eval == NO_SCORE {
        depth
    } else {
        hindsight_depth(
            depth,
            last.reduction as int,
            static_eval_of(d, ply),
            last.eval as int,
        )
    }
}

/// A node off the expected line looks so bad that only its captures are searched.
pub open spec fn razes(d: SearchData, node: Node, depth: int, alpha: int, ply: int) -> bool {
    !node.pv() && !checked(d.board.state) && razored(
        probe_of(d, ply).bound,
        static_eval_of(d, ply),
        alpha,
        deepened(d, node, depth, ply),
    )
}

/// The score of a node off the expected line that the table or the evaluation gives
/// without a search.
pub open spec fn shortcut(
    d: SearchData,
    node: Node,
    depth: int,
    alpha: int,
    beta: int,
    ply: int,
    cutnode: bool,
) -> Option<int> {
    let p = probe_of(d, ply);
    let eval = static_eval_of(d, ply);
    if node.pv() || leaving_out(d, ply) {
        None
    } else if p.score is Some && p.depth is Some && p.depth->0 >= depth && (p.score->0 <= alpha
        || cutnode) && conclusive(p.bound, p.score->0 as int, alpha, beta) {
        Some(p.score->0 as int)
    } else if !checked(d.board.state) && !razes(d, node, depth, alpha, ply) && futile_above(
        eval,
        beta,
        deepened(d, node, depth, ply),
        improves(d, eval, ply),
    ) {
        Some(blend(eval, beta, 686))
    } else {
        None
    }
}

/// The score of a node without a search of its moves: the table, the evaluation or a lack of
/// moves gives it.
pub open spec fn given(
    d: SearchData,
    node: Node,
    depth: int,
    alpha: int,
    beta: int,
    ply: int,
    cutnode: bool,
) -> Option<int> {
    match shortcut(d, node, depth, alpha, beta, ply, cutnode) {
        Some(score) => Some(score),
        None => if no_moves(d.board.state) && !cutnode && !razes(d, node, depth, alpha, ply) {
            Some(bare_score(d, ply))
        } else {
            None
        },
    }
}

/// What a search that has not been stopped on entry gives: that of the captures at the
/// horizon, that of a settled node, or what the table, the evaluation or a lack of moves
/// gives. Only where a limit or another thread stops it does the score say so.
pub open spec fn entered(
    d: SearchData,
    node: Node,
    depth: int,
    alpha: int,
    beta: int,
    ply: int,
    cutnode: bool,
    res: int,
) -> bool {
    &&& endable(res)
    &&& undisturbed(d) ==> res != TIMEOUT
    &&& if depth <= 0 {
        quiesced(d, node, alpha, beta, ply, res)
    } else {
        match settled(d, node, depth, alpha, beta, ply) {
            Some(score) => res == score,
            None => match given(
                d,
                node,
                lesser(depth, 127),
                low_end(node, alpha, ply),
                high_end(node, beta, ply),
                ply,
                cutnode,
            ) {
                Some(score) => res == score || !clockless(d) && res == TIMEOUT,
                None => true,
            },
        }
    }
}

/// What a search gives. Where it looks at a status, it may have been stopped.
pub open spec fn reported(
    d: SearchData,
    node: Node,
    depth: int,
    alpha: int,
    beta: int,
    ply: int,
    cutnode: bool,
    res: int,
) -> bool {
    ||| d.shared.status.watched() && res == TIMEOUT
    ||| entered(d, node, depth, alpha, beta, ply, cutnode, res)
}

/// The notes of the plies before a ply are as they were.
pub open spec fn notes_before(a: SearchData, b: SearchData, ply: int) -> bool {
    forall|p: int| -8 <= p < ply ==> #[trigger] b.stack.at(p) == a.stack.at(p)
}

/// The lower end of the window of a node: no score below a mate at once.
pub open spec fn low_end(node: Node, alpha: int, ply: int) -> int {
    if node is Root {
        alpha
    } else {
        larger(alpha, -MATE + ply)
    }
}

/// The upper end of the window of a node: no score above a mate with the next move.
pub open spec fn high_end(node: Node, beta: int, ply: int) -> int {
    if node is Root {
        beta
    } else {
        lesser(beta, MATE - ply + 1)
    }
}

/// On the expected line, a search that nothing disturbs gives a position without moves its
/// score: that of a mate when in check, and that of a draw otherwise.
pub proof fn law_terminal(
    d: SearchData,
    depth: int,
    alpha: int,
    beta: int,
    ply: int,
    res: int,
)
    requires
        reported(d, Node::PV, depth, alpha, beta, ply, false, res),
        undisturbed(d),
        depth > 0,
        !drawn(d.board),
        no_moves(d.board.state),
        !leaving_out(d, ply),
        ply < LAST_PLY,
        larger(alpha, -MATE + ply) < lesser(beta, MATE - ply + 1),
    ensures
        res == terminal(d.board.state, ply),
{
}

/// Out of check, a quiet search that nothing disturbs never gives less than the evaluation
/// of the position, and exactly that if it reaches the upper end of the window, unless the
/// position is drawn or the table has the score.
pub proof fn law_standing_pat(
    d: SearchData,
    node: Node,
    alpha: int,
    beta: int,
    ply: int,
    res: int,
)
    requires
        quiesced(d, node, alpha, beta, ply, res),
        clockless(d),
        !drawn(d.board),
        !checked(d.board.state),
        ply < LAST_PLY,
        node.pv() || probe_of(d, ply).score is None,
    ensures
        res >= corrected_eval(d, probe_of(d, ply), ply),
        corrected_eval(d, probe_of(d, ply), ply) >= beta ==> res == corrected_eval(
            d,
            probe_of(d, ply),
            ply,
        ),
{
}

} // verus!
