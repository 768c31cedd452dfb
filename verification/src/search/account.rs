//! How the score of a search comes about: which moves are looked at and in which order, how
//! each of them is searched, and what is learned from it, down to the positions whose scores
//! are clear.

use crate::board::BoardState;
use crate::board::makemove::taken_back;
use crate::board::position::Position;
use crate::board::see::wins_exchange;
use crate::board::status::checks_directly;
use crate::evaluation::pawns_alone;
use crate::nnue::evaluation;
use crate::search::{
    checked, conclusive, deepened, drawn, endable, given, high_end, improves, kept, leaving_out,
    low_end, pat_of, probe_of, quiesced, razes, reported, settled, static_eval_of, terminal, Node,
    Probe, LAST_PLY,
};
use crate::search::data::{
    corrections_taught, lmr_place, moved, unmoved, RootMove, SearchData, SharedData,
};
use crate::search::learning::{bumped, lessons, noisy_taught, only_lessons, standing_of, taught};
use crate::search::movepicker::{gave, is_new, MovePicker};
use crate::search::pruning::{
    confirmation_of, done_badly, futile_above, futile_below, larger, late, lesser, loss_allowed,
    passable, passing_depth, passing_of, reduced_depth, reduction_for, singular_extension,
    swing_bonus, telling, Lateness, Passing,
};
use crate::types::history::quiet_place;
use crate::types::moves::{Move, Step};
use crate::types::plytable::PlyData;
use crate::types::score::{losing, winning, INFINITE, MATE, NO_SCORE, TIMEOUT};
use crate::types::transposition::{written, Bound, Record};
use vstd::prelude::*;

verus! {

/// What a search is asked for.
pub struct Call {
    pub node: Node,
    pub depth: int,
    pub alpha: int,
    pub beta: int,
    pub ply: int,
    pub cutnode: bool,
}

/// A search below: from where, for what, with which score for the side that has moved, and in
/// which state it leaves the worker.
pub struct Reply {
    pub from: SearchData,
    pub call: Call,
    pub score: int,
    pub to: SearchData,
}

/// What is known of a node before its moves are looked at.
pub struct Setting {
    /// The moves are those of a quiet search.
    pub horizon: bool,
    pub node: Node,
    pub depth: int,
    /// The score without any move.
    pub floor: int,
    pub alpha: int,
    pub beta: int,
    pub ply: int,
    pub cutnode: bool,
    pub in_check: bool,
    pub probe: Probe,
    pub improving: bool,
    pub static_eval: int,
    pub raw_eval: int,
    /// By how much the first move is searched deeper.
    pub extension: int,
    /// The move that is left out, or none.
    pub left_out: Move,
}

/// What the moves so far have come to.
pub struct Tally {
    /// The number of moves, but for the one that is left out.
    pub count: int,
    pub best: int,
    pub alpha: int,
    pub best_move: Option<Move>,
    /// The score has reached the upper end of the window.
    pub cut: bool,
    /// A quiet search has seen enough moves.
    pub over: bool,
    /// No more quiet moves are asked for.
    pub skip: bool,
    /// The first quiet and noisy moves that were searched in vain.
    pub quiets: Seq<Move>,
    pub noisies: Seq<Move>,
}

/// What is done with a move.
pub enum Verdict {
    /// It is left out.
    LeftOut,
    /// It is quiet and late: it and the other quiet moves are passed over.
    Late,
    /// It is quiet and cannot bring the score up to the window: it and the other quiet moves
    /// are passed over.
    Futile,
    /// It is quiet and has done badly: it is passed over.
    Poor,
    /// It loses too much: it is passed over.
    Losing,
    /// It and all moves after it are passed over.
    Enough,
    /// It is searched.
    Search,
}

/// Before the first move.
pub open spec fn opening(n: Setting) -> Tally {
    Tally {
        count: 0,
        best: n.floor,
        alpha: n.alpha,
        best_move: None,
        cut: false,
        over: false,
        skip: n.horizon && !n.in_check,
        quiets: Seq::empty(),
        noisies: Seq::empty(),
    }
}

/// What a quiet search does with a move: as long as all scores are lost it searches every
/// move, then none after the second but direct checks, and none that loses too much.
pub open spec fn quiet_verdict(t: Tally, st: BoardState, s: Step) -> Verdict {
    if losing(t.best) {
        Verdict::Search
    } else if t.count + 1 >= 3 && !checks_directly(st.mb(), s) {
        Verdict::Enough
    } else if !wins_exchange(st, s, -112) {
        Verdict::Losing
    } else {
        Verdict::Search
    }
}

/// What a search does with a move. At the root, in check and as long as all scores are lost
/// it searches every move.
pub open spec fn verdict(n: Setting, t: Tally, d: SearchData, s: Step) -> Verdict {
    let st = d.board.state;
    let direct = checks_directly(st.mb(), s);
    let standing = standing_of(d, s, n.ply);
    if n.horizon {
        quiet_verdict(t, st, s)
    } else if s == n.left_out@ {
        Verdict::LeftOut
    } else if n.node is Root || n.in_check || losing(t.best) {
        Verdict::Search
    } else if !s.kind.quiet() {
        if wins_exchange(st, s, loss_allowed(n.depth)) {
            Verdict::Search
        } else {
            Verdict::Losing
        }
    } else if !direct && !winning(n.beta) && late(t.count + 1, n.depth, n.improving) {
        Verdict::Late
    } else if !direct && futile_below(n.static_eval, n.depth, standing, t.alpha) {
        Verdict::Futile
    } else if done_badly(n.depth, standing) {
        Verdict::Poor
    } else {
        Verdict::Search
    }
}

/// By how much, in 1024ths of a ply, a move after the first is searched less deep at first.
pub open spec fn late_by(n: Setting, t: Tally, d: SearchData, s: Step) -> Option<int> {
    if !n.horizon && n.depth >= 2 && t.count + 1 > 1 {
        Some(
            reduction_for(
                Lateness {
                    base: d.lmr.table()[lmr_place(
                        s.kind.quiet(),
                        lesser(n.depth, 127),
                        lesser(t.count + 1, 63),
                    )],
                    cutnode: n.cutnode,
                    was_pv: n.probe.was_pv,
                    direct_check: checks_directly(d.board.state.mb(), s),
                    improving: n.improving,
                    table_low: n.probe.score matches Some(x) && x <= t.alpha,
                    table_shallow: n.probe.depth matches Some(x) && x < n.depth,
                    history: standing_of(d, s, n.ply) as i32,
                },
            ),
        )
    } else {
        None
    }
}

/// How a move is to be searched.
pub struct Plan {
    pub horizon: bool,
    pub node: Node,
    pub depth: int,
    pub reduction: Option<int>,
    pub alpha: int,
    pub beta: int,
    pub ply: int,
    pub cutnode: bool,
    pub first: bool,
}

pub open spec fn plan_of(n: Setting, t: Tally, d: SearchData, s: Step) -> Plan {
    Plan {
        horizon: n.horizon,
        node: n.node,
        depth: if n.horizon {
            0
        } else if t.count == 0 {
            n.depth - 1 + n.extension
        } else {
            n.depth - 1
        },
        reduction: late_by(n, t, d, s),
        alpha: t.alpha,
        beta: n.beta,
        ply: n.ply,
        cutnode: n.cutnode,
        first: t.count == 0,
    }
}

/// How a move was searched: with a window of no width at a reduced depth, with such a window
/// at full depth, and with the whole window, as far as each was called for.
pub struct Trial {
    pub made: SearchData,
    pub reduced: Option<Reply>,
    pub reset: SearchData,
    pub narrow: Option<Reply>,
    pub whole: Option<Reply>,
    pub back: SearchData,
    pub score: int,
}

/// Only the notes of a ply have changed.
pub open spec fn renoted(a: SearchData, b: SearchData, ply: int, note: PlyData) -> bool {
    &&& b == (SearchData { stack: b.stack, ..a })
    &&& b.stack.spare() == a.stack.spare()
    &&& forall|p: int| -8 <= p < 136 && p != ply ==> #[trigger] b.stack.at(p) == a.stack.at(p)
    &&& b.stack.at(ply) == note
}

/// The search with a window of no width, at full depth.
pub open spec fn narrow_call(plan: Plan) -> Call {
    Call {
        node: Node::NonPV,
        depth: plan.depth,
        alpha: -plan.alpha - 1,
        beta: -plan.alpha,
        ply: plan.ply + 1,
        cutnode: !plan.cutnode,
    }
}

/// The search with the whole window.
pub open spec fn whole_call(plan: Plan) -> Call {
    Call {
        node: if plan.horizon {
            plan.node
        } else {
            Node::PV
        },
        depth: plan.depth,
        alpha: -plan.beta,
        beta: -plan.alpha,
        ply: plan.ply + 1,
        cutnode: false,
    }
}

/// The first search of a late move, at a reduced depth. The reduction is noted meanwhile.
pub open spec fn reduced_first(plan: Plan, tr: Trial) -> bool {
    match plan.reduction {
        None => tr.reduced is None && tr.reset == tr.made,
        Some(r) => tr.reduced matches Some(x) && {
            &&& x.call == (Call {
                depth: reduced_depth(plan.depth, r, plan.node.pv()),
                cutnode: true,
                ..narrow_call(plan)
            })
            &&& renoted(
                tr.made,
                x.from,
                plan.ply,
                PlyData { reduction: r as i32, ..tr.made.stack.at(plan.ply) },
            )
            &&& renoted(
                x.to,
                tr.reset,
                plan.ply,
                PlyData { reduction: 0, ..x.to.stack.at(plan.ply) },
            )
        },
    }
}

/// The search with a window of no width is called for: the move is not reduced and not the
/// first on the expected line, or its reduced search has turned out better than expected.
pub open spec fn wants_narrow(plan: Plan, tr: Trial) -> bool {
    match tr.reduced {
        Some(x) => x.score > plan.alpha && x.call.depth < plan.depth,
        None => !plan.horizon && (!plan.node.pv() || !plan.first),
    }
}

/// The score before the search with the whole window.
pub open spec fn score_so_far(tr: Trial) -> int {
    match tr.narrow {
        Some(x) => x.score,
        None => match tr.reduced {
            Some(x) => x.score,
            None => -INFINITE as int,
        },
    }
}

/// The state before the search with the whole window.
pub open spec fn state_so_far(tr: Trial) -> SearchData {
    match tr.narrow {
        Some(x) => x.to,
        None => tr.reset,
    }
}

/// The searches of a move are those that the plan calls for, one after another, between
/// making the move and taking it back.
pub open spec fn shape(plan: Plan, a: SearchData, m: Move, tr: Trial) -> bool {
    &&& moved(a, m, plan.ply, tr.made)
    &&& reduced_first(plan, tr)
    &&& tr.narrow is Some == wants_narrow(plan, tr)
    &&& tr.narrow matches Some(x) ==> x.call == narrow_call(plan) && x.from == tr.reset
    &&& tr.whole is Some == (plan.horizon || plan.node.pv() && (plan.first || score_so_far(tr)
        > plan.alpha))
    &&& tr.whole matches Some(x) ==> x.call == whole_call(plan) && x.from == state_so_far(tr)
    &&& match tr.whole {
        Some(x) => tr.score == x.score && unmoved(x.to, tr.back),
        None => tr.score == score_so_far(tr) && unmoved(state_so_far(tr), tr.back),
    }
}

/// A search is asked for a score and gives it, leaving the worker in another state.
pub open spec fn replied(a: SearchData, b: SearchData, call: Call, res: int) -> bool
    decreases 128 - call.ply, larger(call.depth, 0), 8int,
{
    &&& kept(a, b)
    &&& reported(
        a,
        call.node,
        call.depth,
        call.alpha,
        call.beta,
        call.ply,
        call.cutnode,
        res,
    )
    &&& outcome(
        a,
        b,
        call.node,
        call.depth,
        call.alpha,
        call.beta,
        call.ply,
        call.cutnode,
        res,
    )
}

/// A search at the next ply, if there is one, has given its score.
pub open spec fn answered(ply: int, r: Option<Reply>) -> bool
    decreases 128 - ply, 0int, 0int,
{
    match r {
        None => true,
        Some(x) => x.call.ply == ply + 1 && ply < LAST_PLY && replied(
            x.from,
            x.to,
            x.call,
            -x.score,
        ),
    }
}

/// A move is searched as planned.
#[verifier::opaque]
pub open spec fn played(plan: Plan, a: SearchData, m: Move, tr: Trial) -> bool
    decreases 128 - plan.ply, 0int, 1int,
{
    &&& shape(plan, a, m, tr)
    &&& answered(plan.ply, tr.reduced)
    &&& answered(plan.ply, tr.narrow)
    &&& answered(plan.ply, tr.whole)
}

/// A move has been searched as planned, with a score.
pub open spec fn gone_through(plan: Plan, a: SearchData, m: Move, b: SearchData, res: int) -> bool {
    exists|tr: Trial| #[trigger] played(plan, a, m, tr) && tr.back == b && tr.score == res
}

/// A move that the picker has given, and what was done with it.
pub struct Visit {
    pub picker: MovePicker,
    pub m: Move,
    pub left: MovePicker,
    pub before: SearchData,
    pub trial: Option<Trial>,
    pub after: SearchData,
}

/// What the moves come to with one more.
pub open spec fn counted(n: Setting, t: Tally, v: Visit) -> Tally {
    let count = t.count + 1;
    match verdict(n, t, v.before, v.m@) {
        Verdict::LeftOut => t,
        Verdict::Late | Verdict::Futile => Tally { count, skip: true, ..t },
        Verdict::Poor | Verdict::Losing => Tally { count, ..t },
        Verdict::Enough => Tally { count, over: true, ..t },
        Verdict::Search => {
            let score = v.trial->0.score;
            let raised = score > t.best && score > t.alpha;
            let cut = raised && score >= n.beta;
            let in_vain = !raised && count < 32;
            Tally {
                count,
                best: larger(t.best, score),
                alpha: if raised && !cut {
                    score
                } else {
                    t.alpha
                },
                best_move: if raised {
                    Some(v.m)
                } else {
                    t.best_move
                },
                cut,
                quiets: if in_vain && v.m@.kind.quiet() {
                    t.quiets.push(v.m)
                } else {
                    t.quiets
                },
                noisies: if in_vain && !v.m@.kind.quiet() {
                    t.noisies.push(v.m)
                } else {
                    t.noisies
                },
                ..t
            }
        },
    }
}

/// What some moves, one after another, come to.
#[verifier::opaque]
pub open spec fn tally(n: Setting, visits: Seq<Visit>) -> Tally
    decreases visits.len(),
{
    if visits.len() == 0 {
        opening(n)
    } else {
        counted(n, tally(n, visits.drop_last()), visits.last())
    }
}

/// A root move after its search.
pub open spec fn noted(
    a: RootMove,
    b: RootMove,
    score: int,
    alpha: int,
    beta: int,
    first: bool,
    spent: u64,
    root_depth: i32,
    sel_depth: i32,
    line: Seq<Move>,
) -> bool {
    &&& b.m == a.m
    &&& b.nodes == a.nodes.wrapping_add(spent)
    &&& b.previous_score == a.previous_score
    &&& if first || score > alpha {
        &&& b.score == score
        &&& b.searched_depth == root_depth
        &&& b.sel_depth == sel_depth
        &&& b.pv.inner@ == line
        &&& b.upperbound == (score <= alpha)
        &&& b.lowerbound == (score > alpha && score >= beta)
        &&& b.display_score == if score <= alpha {
            alpha
        } else if score >= beta {
            beta
        } else {
            score
        }
    } else {
        b.score == -INFINITE && b.same(RootMove { score: b.score, nodes: b.nodes, ..a })
    }
}

/// What the search of a move has given is noted at the root.
pub open spec fn root_noted(
    a: SearchData,
    b: SearchData,
    m: Move,
    score: int,
    alpha: int,
    beta: int,
    first: bool,
    spent: u64,
) -> bool {
    &&& b == (SearchData { root_moves: b.root_moves, ..a })
    &&& b.root_moves@.len() == a.root_moves@.len()
    &&& forall|i: int|
        0 <= i < a.root_moves@.len() && a.root_moves@[i].m@ != m@ ==> #[trigger] b.root_moves@[i]
            == a.root_moves@[i]
    &&& forall|i: int|
        0 <= i < a.root_moves@.len() && a.root_moves@[i].m@ == m@ && (forall|j: int|
            0 <= j < i ==> (#[trigger] a.root_moves@[j]).m@ != m@) ==> noted(
            a.root_moves@[i],
            #[trigger] b.root_moves@[i],
            score,
            alpha,
            beta,
            first,
            spent,
            a.root_depth,
            a.sel_depth,
            a.pv.line_spec(1),
        )
}

/// What is done once a move has been taken back: at the root its score is noted, and on the
/// expected line a better move becomes the first of the line.
pub open spec fn afterwards(
    n: Setting,
    t: Tally,
    m: Move,
    before: SearchData,
    tr: Trial,
    after: SearchData,
) -> bool {
    if n.node is Root && !n.horizon {
        root_noted(
            tr.back,
            after,
            m,
            tr.score,
            t.alpha,
            n.beta,
            t.count == 0,
            tr.back.shared.nodes@[tr.back.id as int].wrapping_sub(
                before.shared.nodes@[before.id as int],
            ),
        )
    } else {
        &&& after == (SearchData { pv: after.pv, ..tr.back })
        &&& if n.node.pv() && tr.score > t.best && tr.score > t.alpha {
            &&& after.pv.line_spec(n.ply) == seq![m] + tr.back.pv.line_spec(n.ply + 1)
            &&& forall|p: int|
                0 <= p <= 128 && p != n.ply ==> #[trigger] after.pv.line_spec(p)
                    == tr.back.pv.line_spec(p)
        } else {
            after.pv == tr.back.pv
        }
    }
}

/// The picker gives a move, and what its verdict says is done with it.
pub open spec fn visit_made(n: Setting, t: Tally, v: Visit) -> bool
    decreases 128 - n.ply, 0int, 2int,
{
    &&& !t.cut && !t.over
    &&& gave(v.picker, v.before, t.skip, n.ply, v.left, Some(v.m))
    &&& match v.trial {
        None => verdict(n, t, v.before, v.m@) !is Search && v.after == v.before,
        Some(tr) => {
            &&& verdict(n, t, v.before, v.m@) is Search
            &&& played(plan_of(n, t, v.before, v.m@), v.before, v.m, tr)
            &&& afterwards(n, t, v.m, v.before, tr, v.after)
        },
    }
}

/// The state after some visits.
pub open spec fn state_after(start: SearchData, visits: Seq<Visit>) -> SearchData {
    if visits.len() == 0 {
        start
    } else {
        visits.last().after
    }
}

/// The picker after some visits.
pub open spec fn picker_after(first: MovePicker, visits: Seq<Visit>) -> MovePicker {
    if visits.len() == 0 {
        first
    } else {
        visits.last().left
    }
}

/// Moves are looked at one after another, each from the state that the last one has left.
#[verifier::opaque]
pub open spec fn visited(
    n: Setting,
    start: SearchData,
    first: MovePicker,
    visits: Seq<Visit>,
) -> bool
    decreases 128 - n.ply, 0int, 3int,
{
    forall|i: int|
        #![trigger visits[i]]
        0 <= i < visits.len() ==> {
            &&& visits[i].before == state_after(start, visits.take(i))
            &&& visits[i].picker == picker_after(first, visits.take(i))
            &&& visit_made(n, tally(n, visits.take(i)), visits[i])
        }
}

/// The moves of a node from the first to the last that is looked at.
pub struct Walk {
    pub first: MovePicker,
    pub visits: Seq<Visit>,
    pub end: MovePicker,
}

/// The moves come to an end: the score reaches the upper end of the window, a quiet search has
/// seen enough, or there are no more.
pub open spec fn ended(n: Setting, start: SearchData, w: Walk) -> bool {
    let t = tally(n, w.visits);
    &&& is_new(w.first, n.probe.best_move)
    &&& t.cut || t.over || gave(
        picker_after(w.first, w.visits),
        state_after(start, w.visits),
        t.skip,
        n.ply,
        w.end,
        None,
    )
}

/// A move, or one that stands for none.
pub open spec fn stands_for(best_move: Option<Move>, m: Move) -> bool {
    match best_move {
        Some(b) => m == b,
        None => m.null(),
    }
}

/// The table has been told what was found out about the position, and nothing else changed.
pub open spec fn told(
    a: SearchData,
    b: SearchData,
    best_move: Option<Move>,
    score: int,
    eval: int,
    bound: Bound,
    depth: int,
    ply: int,
    pv: bool,
) -> bool {
    &&& b == (SearchData { shared: b.shared, ..a })
    &&& b.shared == (SharedData { tt: b.shared.tt, ..a.shared })
    &&& exists|m: Move| #[trigger]
        stands_for(best_move, m) && written(
            a.shared.tt,
            b.shared.tt,
            a.board.state.hash,
            Record { best_move: m, score, eval, bound, depth, pv },
            ply,
        )
}

/// The evaluation of a position as the table keeps it.
pub open spec fn raw_eval_of(d: SearchData, ply: int) -> int {
    if checked(d.board.state) {
        NO_SCORE as int
    } else {
        match probe_of(d, ply).eval {
            Some(e) => e as int,
            None => evaluation(
                d.network.params(),
                d.board.state.side_to_move,
                d.board.state.mb(),
            ),
        }
    }
}

/// Whether the best score is exact or only a bound.
pub open spec fn bound_of(t: Tally) -> Bound {
    if t.cut {
        Bound::Lower
    } else if t.best_move is Some {
        Bound::Exact
    } else {
        Bound::Upper
    }
}

/// A quiet move has got a bonus, and nothing else changed.
pub open spec fn quiet_bumped(a: SearchData, b: SearchData, place: int, bonus: int) -> bool {
    &&& b == (SearchData { quiet_history: b.quiet_history, ..a })
    &&& b.quiet_history.table() == bumped(a.quiet_history.table(), place, bonus)
}

/// The states in which a node is left step by step.
pub struct Close {
    pub learned: SearchData,
    pub blamed: SearchData,
    pub recorded: SearchData,
}

/// What a node leaves behind: the histories learn of the best move and of those before it, the
/// last quiet move of the opponent gets a bonus if no move was good enough, the table is told,
/// and the corrections learn how far the evaluation was off. When a move is left out the last
/// two do not happen.
pub open spec fn closing(
    n: Setting,
    t: Tally,
    last: SearchData,
    c: Close,
    b: SearchData,
) -> bool {
    let note = c.learned.stack.at(n.ply - 1);
    let whole = n.left_out.null();
    &&& match t.best_move {
        Some(m) => only_lessons(last, c.learned) && lessons(c.learned) == taught(
            last,
            m@,
            n.depth,
            n.ply,
            t.quiets,
            t.noisies,
        ),
        None => c.learned == last,
    }
    &&& if n.node !is Root && bound_of(t) is Upper && note.m@.kind.quiet() {
        quiet_bumped(
            c.learned,
            c.blamed,
            quiet_place(note.threats, last.board.state.side_to_move.other(), note.m@),
            lesser(122 * n.depth - 76, 1194),
        )
    } else {
        c.blamed == c.learned
    }
    &&& if whole {
        told(
            c.blamed,
            c.recorded,
            t.best_move,
            t.best,
            n.raw_eval,
            bound_of(t),
            n.depth,
            n.ply,
            n.node.pv() || n.probe.was_pv,
        )
    } else {
        c.recorded == c.blamed
    }
    &&& if whole && !n.in_check && (t.best_move matches Some(m) ==> m@.kind.quiet()) && telling(
        bound_of(t),
        t.best,
        n.static_eval,
    ) {
        corrections_taught(c.recorded, b, t.best - n.static_eval, n.depth, n.ply)
    } else {
        b == c.recorded
    }
}

/// The score of a node without any move. When a move is left out there may be others.
pub open spec fn empty_score(n: Setting, st: BoardState) -> int {
    if n.left_out.null() {
        terminal(st, n.ply)
    } else {
        -INFINITE as int
    }
}

/// How a node ends, with its score.
pub open spec fn closed(
    n: Setting,
    start: SearchData,
    visits: Seq<Visit>,
    b: SearchData,
    res: int,
) -> bool {
    let t = tally(n, visits);
    let last = state_after(start, visits);
    if t.count == 0 {
        b == last && res == empty_score(n, start.board.state)
    } else {
        res == t.best && exists|c: Close| #[trigger] closing(n, t, last, c, b)
    }
}

/// The score of a node is the best over its moves, looked at one after another.
#[verifier::opaque]
pub open spec fn ranked(n: Setting, start: SearchData, b: SearchData, res: int) -> bool
    decreases 128 - n.ply, 0int, 4int,
{
    exists|w: Walk| #[trigger]
        ended(n, start, w) && visited(n, start, w.first, w.visits) && closed(
            n,
            start,
            w.visits,
            b,
            res,
        )
}

/// The moves of a node up to one whose search is the last: it was stopped meanwhile.
pub struct Halt {
    pub first: MovePicker,
    pub visits: Seq<Visit>,
    pub m: Move,
    pub left: MovePicker,
    pub trial: Trial,
}

/// The picker has given one more move, which is searched, and that is all.
pub open spec fn halted_at(n: Setting, start: SearchData, h: Halt, b: SearchData) -> bool {
    let t = tally(n, h.visits);
    let at = state_after(start, h.visits);
    &&& is_new(h.first, n.probe.best_move)
    &&& !t.cut && !t.over
    &&& gave(picker_after(h.first, h.visits), at, t.skip, n.ply, h.left, Some(h.m))
    &&& verdict(n, t, at, h.m@) is Search
    &&& b == h.trial.back
}

/// The search of the moves of a node is broken off once one of them has been taken back: what
/// was learned up to then stays.
#[verifier::opaque]
pub open spec fn broken_off(n: Setting, start: SearchData, b: SearchData) -> bool
    decreases 128 - n.ply, 0int, 4int,
{
    exists|h: Halt| #[trigger]
        halted_at(n, start, h, b) && visited(n, start, h.first, h.visits) && played(
            plan_of(n, tally(n, h.visits), state_after(start, h.visits), h.m@),
            state_after(start, h.visits),
            h.m,
            h.trial,
        )
}

/// A noisy move that has reached the upper end of the window in a quiet search gets a bonus.
pub open spec fn rewarded(t: Tally, a: SearchData, b: SearchData) -> bool {
    if t.cut && (t.best_move matches Some(m) && !m@.kind.quiet()) {
        only_lessons(a, b) && lessons(b) == noisy_taught(lessons(a), a, t.best_move->0@, 106)
    } else {
        b == a
    }
}

/// How a quiet search ends, with its score.
pub open spec fn closed_quietly(
    n: Setting,
    start: SearchData,
    visits: Seq<Visit>,
    b: SearchData,
    res: int,
) -> bool {
    let t = tally(n, visits);
    let last = state_after(start, visits);
    if n.in_check && t.count == 0 {
        b == last && res == -MATE + n.ply
    } else {
        res == t.best && exists|learned: SearchData| #[trigger]
            rewarded(t, last, learned) && told(
                learned,
                b,
                t.best_move,
                t.best,
                n.raw_eval,
                if t.cut {
                    Bound::Lower
                } else {
                    Bound::Upper
                },
                0,
                n.ply,
                n.node.pv() || n.probe.was_pv,
            )
    }
}

/// The score of a quiet search is the best over the moves it looks at and the score without
/// any move.
#[verifier::opaque]
pub open spec fn ranked_quietly(n: Setting, start: SearchData, b: SearchData, res: int) -> bool
    decreases 128 - n.ply, 0int, 4int,
{
    exists|w: Walk| #[trigger]
        ended(n, start, w) && visited(n, start, w.first, w.visits) && closed_quietly(
            n,
            start,
            w.visits,
            b,
            res,
        )
}

/// What a quiet search knows before it looks at moves.
pub open spec fn quiet_setting(
    d: SearchData,
    node: Node,
    alpha: int,
    beta: int,
    ply: int,
) -> Setting {
    Setting {
        horizon: true,
        node,
        depth: 0,
        floor: pat_of(d, ply),
        alpha: larger(alpha, pat_of(d, ply)),
        beta,
        ply,
        cutnode: false,
        in_check: checked(d.board.state),
        probe: probe_of(d, ply),
        improving: false,
        static_eval: pat_of(d, ply),
        raw_eval: raw_eval_of(d, ply),
        extension: 0,
        left_out: d.stack.at(ply).excluded,
    }
}

/// What a search knows before it looks at moves.
pub open spec fn setting_of(
    d: SearchData,
    node: Node,
    depth: int,
    alpha: int,
    beta: int,
    ply: int,
    cutnode: bool,
) -> Setting {
    Setting {
        horizon: false,
        node,
        depth: deepened(d, node, depth, ply),
        floor: -INFINITE as int,
        alpha,
        beta,
        ply,
        cutnode,
        in_check: checked(d.board.state),
        probe: probe_of(d, ply),
        improving: !checked(d.board.state) && improves(d, static_eval_of(d, ply), ply),
        static_eval: static_eval_of(d, ply),
        raw_eval: if leaving_out(d, ply) {
            NO_SCORE as int
        } else {
            raw_eval_of(d, ply)
        },
        extension: 0,
        left_out: d.stack.at(ply).excluded,
    }
}

/// The line of a ply is empty, and the other lines are as before.
pub open spec fn line_cleared(a: SearchData, b: SearchData, ply: int) -> bool {
    &&& b.pv.line_spec(ply).len() == 0
    &&& forall|p: int|
        0 <= p <= 128 && p != ply ==> #[trigger] b.pv.line_spec(p) == a.pv.line_spec(p)
}

/// On the expected line the line of a ply begins anew; elsewhere no line changes.
pub open spec fn line_begun(a: SearchData, b: SearchData, expected: bool, ply: int) -> bool {
    if expected {
        line_cleared(a, b, ply)
    } else {
        b.pv == a.pv
    }
}

/// How deep the search has come.
pub open spec fn reached(d: SearchData, node: Node, ply: int) -> int {
    if node.pv() {
        larger(d.sel_depth as int, ply)
    } else {
        d.sel_depth as int
    }
}

/// The table is told of a position that it does not know, with its evaluation.
pub open spec fn introduced(d: SearchData, mid: SearchData, node: Node, ply: int) -> bool {
    &&& mid.shared == (SharedData { tt: mid.shared.tt, ..d.shared })
    &&& if probe_of(d, ply).found || leaving_out(d, ply) {
        mid.shared.tt == d.shared.tt
    } else {
        exists|m: Move| #[trigger]
            stands_for(None, m) && written(
                d.shared.tt,
                mid.shared.tt,
                d.board.state.hash,
                Record {
                    best_move: m,
                    score: NO_SCORE as int,
                    eval: raw_eval_of(d, ply),
                    bound: Bound::Unset,
                    depth: 0,
                    pv: node.pv() || probe_of(d, ply).was_pv,
                },
                ply,
            )
    }
}

/// A quiet search is about to look at moves: the position has been evaluated.
pub open spec fn set_up(d: SearchData, mid: SearchData, node: Node, ply: int) -> bool {
    &&& kept(d, mid)
    &&& mid == (SearchData {
        pv: mid.pv,
        sel_depth: mid.sel_depth,
        shared: mid.shared,
        network: mid.network,
        ..d
    })
    &&& line_begun(d, mid, node.pv(), ply)
    &&& mid.sel_depth == reached(d, node, ply)
    &&& mid.shared == (SharedData { tt: mid.shared.tt, ..d.shared })
    &&& if probe_of(d, ply).found {
        mid.shared.tt == d.shared.tt
    } else {
        exists|m: Move| #[trigger]
            stands_for(None, m) && written(
                d.shared.tt,
                mid.shared.tt,
                d.board.state.hash,
                Record {
                    best_move: m,
                    score: NO_SCORE as int,
                    eval: raw_eval_of(d, ply),
                    bound: Bound::Unset,
                    depth: 0,
                    pv: node.pv() || probe_of(d, ply).was_pv,
                },
                ply,
            )
    }
}

/// A search has looked no further than the position: nothing has been learned.
pub open spec fn untouched(d: SearchData, b: SearchData, node: Node, ply: int) -> bool {
    &&& b == (SearchData { pv: b.pv, sel_depth: b.sel_depth, network: b.network, ..d })
    &&& line_begun(d, b, node.pv(), ply)
    &&& b.sel_depth == reached(d, node, ply)
}

/// The score of a quiet search is clear before the position is evaluated: it is a draw, the
/// table gives the score, or the node is too deep.
pub open spec fn clear_at_sight(
    d: SearchData,
    node: Node,
    alpha: int,
    beta: int,
    ply: int,
) -> bool {
    let p = probe_of(d, ply);
    ||| drawn(d.board)
    ||| !node.pv() && p.score is Some && conclusive(p.bound, p.score->0 as int, alpha, beta)
    ||| ply == LAST_PLY
}

/// A quiet search whose evaluation reaches the upper end of the window: the table is told so
/// where it has not known the position.
pub open spec fn stood_pat(
    d: SearchData,
    mid: SearchData,
    b: SearchData,
    node: Node,
    ply: int,
) -> bool {
    let p = probe_of(d, ply);
    &&& set_up(d, mid, node, ply)
    &&& if p.found {
        b == mid
    } else {
        told(
            mid,
            b,
            None,
            pat_of(d, ply),
            raw_eval_of(d, ply),
            Bound::Lower,
            0,
            ply,
            node.pv() || p.was_pv,
        )
    }
}

/// What a quiet search gives, and how its score comes about. One that is stopped has not begun
/// or is broken off.
#[verifier::opaque]
pub open spec fn quieted(
    d: SearchData,
    b: SearchData,
    node: Node,
    alpha: int,
    beta: int,
    ply: int,
    res: int,
) -> bool
    decreases 128 - ply, 0int, 5int,
{
    &&& quiesced(d, node, alpha, beta, ply, res)
    &&& if res == TIMEOUT {
        untouched(d, b, node, ply) || exists|mid: SearchData| #[trigger]
            set_up(d, mid, node, ply) && broken_off(
                quiet_setting(d, node, alpha, beta, ply),
                mid,
                b,
            )
    } else if clear_at_sight(d, node, alpha, beta, ply) {
        untouched(d, b, node, ply)
    } else if pat_of(d, ply) >= beta {
        exists|mid: SearchData| #[trigger] stood_pat(d, mid, b, node, ply)
    } else {
        exists|mid: SearchData| #[trigger]
            set_up(d, mid, node, ply) && ranked_quietly(
                quiet_setting(d, node, alpha, beta, ply),
                mid,
                b,
                res,
            )
    }
}

/// The turn has been passed: nothing has moved, the opponent is to move, and the ply is
/// noted as one without a move.
pub open spec fn passes(a: SearchData, b: SearchData, ply: int) -> bool {
    &&& b == (SearchData { board: b.board, stack: b.stack, ..a })
    &&& b.board.wf()
    &&& b.board.zobrist == a.board.zobrist
    &&& b.board.state.position() == (Position {
        stm: a.board.state.side_to_move.other(),
        ep: None,
        ..a.board.state.position()
    })
    &&& b.board.state.half_move_clock == a.board.state.half_move_clock
    &&& b.board.state.full_move == a.board.state.full_move + if a.board.state.side_to_move
        is Black {
        1int
    } else {
        0
    }
    &&& b.board.state.pinned_bb(a.board.state.side_to_move) == a.board.state.pinned_bb(
        a.board.state.side_to_move,
    )
    &&& b.board.state_stack@ == a.board.state_stack@.push(a.board.state)
    &&& b.board.game_history@ == a.board.game_history@.push(b.board.state.hash)
    &&& b.stack.spare() == a.stack.spare()
    &&& forall|p: int| -8 <= p < 136 && p != ply ==> #[trigger] b.stack.at(p) == a.stack.at(p)
    &&& passing_note(a.stack.at(ply), b.stack.at(ply))
}

/// The notes of a ply at which the turn is passed.
pub open spec fn passing_note(a: PlyData, b: PlyData) -> bool {
    &&& b.m.null()
    &&& b == (PlyData {
        m: b.m,
        piece: None,
        conthistory: None,
        contcorrhistory: None,
        ..a
    })
}

/// What follows from the score after a pass: nothing, the score, or what a search of the
/// position itself, from which no turn is passed for some plies, says about it.
#[verifier::opaque]
pub open spec fn pass_followed(
    a: SearchData,
    depth: int,
    beta: int,
    ply: int,
    score: int,
    b: SearchData,
    res: Option<int>,
) -> bool
    decreases 128 - ply, larger(depth - 1, 0), 2int,
{
    match passing_of(score, beta, depth, a.nmp_min_ply as int) {
        Passing::Open => res is None && b == a,
        Passing::Cut => res == Some(score) && b == a,
        Passing::Confirm => exists|again: SearchData, after: SearchData, second: int, stopped: bool|
            {
                &&& #[trigger] confirms(a, again, after, depth, ply, b)
                &&& res == #[trigger] confirmation_of(stopped, second, beta)
                &&& depth >= 3
                &&& replied(
                    again,
                    after,
                    Call {
                        node: Node::NonPV,
                        depth: depth - passing_depth(depth),
                        alpha: beta - 1,
                        beta,
                        ply,
                        cutnode: true,
                    },
                    second,
                )
            },
    }
}

/// The position is searched once more, and no turn is passed for some plies.
pub open spec fn confirms(
    a: SearchData,
    again: SearchData,
    after: SearchData,
    depth: int,
    ply: int,
    b: SearchData,
) -> bool {
    &&& again == (SearchData { nmp_min_ply: again.nmp_min_ply, ..a })
    &&& again.nmp_min_ply == ply + (depth - passing_depth(depth)) * 3 / 4
    &&& kept(again, after)
    &&& b == (SearchData { nmp_min_ply: 0, ..after })
}

/// What follows from a passed turn: the position after it is searched, and the score says
/// what follows, unless the search is stopped.
#[verifier::opaque]
pub open spec fn pass_answered(
    a: SearchData,
    depth: int,
    beta: int,
    ply: int,
    b: SearchData,
    res: Option<int>,
) -> bool
    decreases 128 - ply, larger(depth - 1, 0), 3int,
{
    exists|passed: SearchData, after: SearchData, back: SearchData, below: int|
        {
            &&& #[trigger] passed_over(a, passed, after, back, ply, below)
            &&& ply < LAST_PLY
            &&& replied(
                passed,
                after,
                Call {
                    node: Node::NonPV,
                    depth: depth - passing_depth(depth),
                    alpha: -beta,
                    beta: -beta + 1,
                    ply: ply + 1,
                    cutnode: false,
                },
                below,
            )
            &&& pass_followed(back, depth, beta, ply, -below, b, res) || res == Some(
                TIMEOUT as int,
            ) && b == back
        }
}

/// The turn is passed, a score is found from there, and the turn is taken back.
pub open spec fn passed_over(
    a: SearchData,
    passed: SearchData,
    after: SearchData,
    back: SearchData,
    ply: int,
    below: int,
) -> bool {
    &&& passes(a, passed, ply)
    &&& kept(passed, after)
    &&& endable(below)
    &&& back == (SearchData { board: back.board, ..after })
    &&& taken_back(after.board, back.board)
}

/// A score or none, as a number.
pub open spec fn number(res: Option<i32>) -> Option<int> {
    match res {
        Some(x) => Some(x as int),
        None => None,
    }
}

/// The turn may be passed at a node: it is expected to fail high, its evaluation is above the
/// window, the side to move has a piece and the last turn was not passed.
pub open spec fn may_pass(n: Setting, d: SearchData) -> bool {
    &&& n.cutnode && n.depth >= 3 && n.left_out.null() && !n.in_check
    &&& n.ply >= d.nmp_min_ply
    &&& !pawns_alone(d.board.state.mb(), d.board.state.side_to_move)
    &&& n.probe.bound != Some(Bound::Upper)
    &&& passable(n.static_eval, n.beta, n.depth, n.improving)
    &&& !d.stack.at(n.ply - 1).m.null()
}

/// Where the turn may be passed, it is passed.
pub open spec fn after_pass(n: Setting, a: SearchData, b: SearchData, res: Option<int>) -> bool
    decreases 128 - n.ply, larger(n.depth - 1, 0), 4int,
{
    if may_pass(n, a) {
        pass_answered(a, n.depth, n.beta, n.ply, b, res)
    } else {
        b == a && res is None
    }
}

/// The move from the table is put to the test: its entry is deep enough and tells of no mate.
pub open spec fn may_single(n: Setting) -> bool {
    &&& n.node !is Root && n.left_out.null() && n.depth >= 5
    &&& n.probe.bound != Some(Bound::Upper)
    &&& n.probe.best_move is Some
    &&& n.probe.score matches Some(score) && !winning(score as int) && !losing(score as int)
    &&& n.probe.depth matches Some(depth) && depth >= n.depth - 3
}

/// A move is left out at a ply, and no move is noted there.
pub open spec fn leaves_out(a: SearchData, b: SearchData, m: Move, ply: int) -> bool {
    let note = b.stack.at(ply);
    &&& note.m.null()
    &&& renoted(a, b, ply, PlyData { m: note.m, excluded: m, ..a.stack.at(ply) })
}

/// The position is searched without the move from the table, which then counts again.
pub open spec fn single_out(
    a: SearchData,
    without: SearchData,
    after: SearchData,
    b: SearchData,
    m: Move,
    ply: int,
    score: int,
) -> bool {
    &&& leaves_out(a, without, m, ply)
    &&& kept(without, after)
    &&& endable(score)
    &&& renoted(
        after,
        b,
        ply,
        PlyData { excluded: a.stack.at(ply).excluded, ..after.stack.at(ply) },
    )
}

/// By how much the move from the table is extended: a search without it says so, unless it is
/// stopped.
#[verifier::opaque]
pub open spec fn singled(
    node: Node,
    depth: int,
    m: Move,
    tt_score: int,
    was_pv: bool,
    beta: int,
    ply: int,
    cutnode: bool,
    a: SearchData,
    b: SearchData,
    extension: Option<int>,
) -> bool
    decreases 128 - ply, larger(depth - 1, 0), 3int,
{
    exists|without: SearchData, after: SearchData, score: int|
        {
            &&& #[trigger] single_out(a, without, after, b, m, ply, score)
            &&& depth >= 5
            &&& replied(
                without,
                after,
                Call {
                    node: Node::NonPV,
                    depth: (depth - 1) / 2,
                    alpha: tt_score - 2 * depth - 1,
                    beta: tt_score - 2 * depth,
                    ply,
                    cutnode,
                },
                score,
            )
            &&& extension matches Some(e) ==> e == singular_extension(
                node.pv(),
                was_pv,
                cutnode,
                score,
                tt_score - 2 * depth,
                tt_score,
                beta,
            )
        }
}

/// Where the move from the table may be put to the test, it is.
pub open spec fn after_single(n: Setting, a: SearchData, b: SearchData, extension: int) -> bool
    decreases 128 - n.ply, larger(n.depth - 1, 0), 4int,
{
    if may_single(n) {
        singled(
            n.node,
            n.depth,
            n.probe.best_move->0,
            n.probe.score->0 as int,
            n.probe.was_pv,
            n.beta,
            n.ply,
            n.cutnode,
            a,
            b,
            Some(extension),
        )
    } else {
        b == a && extension == 0
    }
}

/// The search without the move from the table is stopped.
pub open spec fn single_broken(n: Setting, a: SearchData, b: SearchData) -> bool
    decreases 128 - n.ply, larger(n.depth - 1, 0), 4int,
{
    may_single(n) && singled(
        n.node,
        n.depth,
        n.probe.best_move->0,
        n.probe.score->0 as int,
        n.probe.was_pv,
        n.beta,
        n.ply,
        n.cutnode,
        a,
        b,
        None,
    )
}

/// A state that is kept, and an extension.
pub open spec fn extended(a: SearchData, b: SearchData, extension: int) -> bool {
    kept(a, b) && -3 <= extension <= 3
}

/// A node at whose moves one has to look: where the turn may be passed, the answer to that is
/// the score or there is none; then the move from the table is put to the test, and the moves
/// are looked at. A stop ends it at any of these.
#[verifier::opaque]
pub open spec fn looked_into(n: Setting, a: SearchData, b: SearchData, res: int) -> bool
    decreases 128 - n.ply, larger(n.depth - 1, 0), 5int,
{
    ||| after_pass(n, a, b, Some(res))
    ||| res == TIMEOUT && exists|p: SearchData| #[trigger]
        kept(a, p) && after_pass(n, a, p, None) && single_broken(n, p, b)
    ||| exists|p: SearchData, s: SearchData, extension: int|
        {
            &&& #[trigger] kept(a, p)
            &&& #[trigger] extended(p, s, extension)
            &&& after_pass(n, a, p, None)
            &&& after_single(n, p, s, extension)
            &&& if res == TIMEOUT {
                broken_off(Setting { extension, ..n }, s, b)
            } else {
                ranked(Setting { extension, ..n }, s, b, res)
            }
        }
}

/// A node has been evaluated: the table has learned of the position at most, the evaluation
/// is noted, and the last move has got a bonus by how the evaluation has changed.
pub open spec fn prepared(
    d: SearchData,
    mid: SearchData,
    node: Node,
    depth: int,
    ply: int,
) -> bool {
    let last = d.stack.at(ply - 1);
    &&& kept(d, mid)
    &&& mid == (SearchData {
        pv: mid.pv,
        sel_depth: mid.sel_depth,
        shared: mid.shared,
        network: mid.network,
        stack: mid.stack,
        quiet_history: mid.quiet_history,
        ..d
    })
    &&& line_begun(d, mid, node is PV, ply)
    &&& mid.sel_depth == reached(d, node, ply)
    &&& introduced(d, mid, node, ply)
    &&& mid.stack.spare() == d.stack.spare()
    &&& forall|p: int| -8 <= p < 136 && p != ply ==> #[trigger] mid.stack.at(p) == d.stack.at(p)
    &&& mid.stack.at(ply) == (PlyData {
        eval: static_eval_of(d, ply) as i32,
        ..d.stack.at(ply)
    })
    &&& mid.quiet_history.table() == if node !is Root && !checked(d.board.state) && !leaving_out(
        d,
        ply,
    ) && last.eval != NO_SCORE && last.m.null() && last.m@.kind.quiet() {
        bumped(
            d.quiet_history.table(),
            quiet_place(last.threats, d.board.state.side_to_move.other(), last.m@),
            swing_bonus(last.eval as int, static_eval_of(d, ply), depth),
        )
    } else {
        d.quiet_history.table()
    }
}

/// The table gives the score of a node.
pub open spec fn cut_by_table(
    d: SearchData,
    node: Node,
    depth: int,
    alpha: int,
    beta: int,
    ply: int,
    cutnode: bool,
) -> bool {
    let p = probe_of(d, ply);
    &&& !node.pv() && !leaving_out(d, ply)
    &&& p.score is Some && p.depth is Some && p.depth->0 >= depth
    &&& p.score->0 <= alpha || cutnode
    &&& conclusive(p.bound, p.score->0 as int, alpha, beta)
}

/// A quiet move from the table whose score reaches the upper end of the window gets a bonus.
pub open spec fn cut_short(d: SearchData, b: SearchData, depth: int, beta: int, ply: int) -> bool {
    let p = probe_of(d, ply);
    &&& b == (SearchData { quiet_history: b.quiet_history, ..d })
    &&& b.quiet_history.table() == if p.score->0 >= beta && p.best_move is Some
        && p.best_move->0@.kind.quiet() {
        bumped(
            d.quiet_history.table(),
            quiet_place(d.board.state.threats, d.board.state.side_to_move, p.best_move->0@),
            lesser(206 * depth - 50, 1201),
        )
    } else {
        d.quiet_history.table()
    }
}

/// The evaluation of a node is so good that its moves are not looked at.
pub open spec fn rests(d: SearchData, node: Node, depth: int, beta: int, ply: int) -> bool {
    let eval = static_eval_of(d, ply);
    !node.pv() && !leaving_out(d, ply) && !checked(d.board.state) && futile_above(
        eval,
        beta,
        deepened(d, node, depth, ply),
        improves(d, eval, ply),
    )
}

/// What comes of a node that is neither drawn nor too deep: the table gives its score, only
/// its captures are looked at, its evaluation stands for it, or its moves are looked at.
#[verifier::opaque]
pub open spec fn explained(
    d: SearchData,
    b: SearchData,
    node: Node,
    depth: int,
    alpha: int,
    beta: int,
    ply: int,
    cutnode: bool,
    res: int,
) -> bool
    decreases 128 - ply, larger(depth, 0), 6int,
{
    if cut_by_table(d, node, depth, alpha, beta, ply, cutnode) {
        cut_short(d, b, depth, beta, ply)
    } else {
        exists|mid: SearchData| #[trigger]
            prepared(d, mid, node, depth, ply) && if razes(d, node, depth, alpha, ply) {
                quieted(mid, b, node, alpha, beta, ply, res)
            } else if rests(d, node, depth, beta, ply) {
                b == mid
            } else {
                looked_into(setting_of(d, node, depth, alpha, beta, ply, cutnode), mid, b, res)
            }
    }
}

/// A search has been stopped before it has looked at the position.
pub open spec fn turned_away(d: SearchData, b: SearchData, node: Node, ply: int) -> bool {
    &&& b == (SearchData { pv: b.pv, sel_depth: b.sel_depth, ..d })
    &&& line_begun(d, b, node is PV, ply)
    &&& b.sel_depth == reached(d, node, ply)
}

/// How the score of a search comes about: by the captures at the horizon, without a search, or
/// as that of a node. One that is stopped may not have begun.
#[verifier::opaque]
pub open spec fn outcome(
    d: SearchData,
    b: SearchData,
    node: Node,
    depth: int,
    alpha: int,
    beta: int,
    ply: int,
    cutnode: bool,
    res: int,
) -> bool
    decreases 128 - ply, larger(depth, 0), 7int,
{
    let low = low_end(node, alpha, ply);
    let high = high_end(node, beta, ply);
    ||| res == TIMEOUT && turned_away(d, b, node, ply)
    ||| if depth <= 0 {
        quieted(d, b, node, alpha, beta, ply, res)
    } else if settled(d, node, depth, alpha, beta, ply) is Some {
        untouched(d, b, node, ply)
    } else {
        explained(d, b, node, lesser(depth, 127), low, high, ply, cutnode, res)
    }
}

/// A quiet search whose score is clear at sight, or that was stopped.
pub proof fn lemma_quiet_at_sight(
    d: SearchData,
    b: SearchData,
    node: Node,
    alpha: int,
    beta: int,
    ply: int,
    res: int,
)
    requires
        quiesced(d, node, alpha, beta, ply, res),
        res == TIMEOUT || clear_at_sight(d, node, alpha, beta, ply),
        untouched(d, b, node, ply),
    ensures
        quieted(d, b, node, alpha, beta, ply, res),
{
    reveal(quieted);
}

/// A quiet search whose evaluation reaches the upper end of the window.
pub proof fn lemma_quiet_pat(
    d: SearchData,
    mid: SearchData,
    b: SearchData,
    node: Node,
    alpha: int,
    beta: int,
    ply: int,
    res: int,
)
    requires
        quiesced(d, node, alpha, beta, ply, res),
        !clear_at_sight(d, node, alpha, beta, ply),
        pat_of(d, ply) >= beta,
        res != TIMEOUT,
        stood_pat(d, mid, b, node, ply),
    ensures
        quieted(d, b, node, alpha, beta, ply, res),
{
    reveal(quieted);
}

/// A quiet search that has looked at moves.
pub proof fn lemma_quiet_moves(
    d: SearchData,
    mid: SearchData,
    b: SearchData,
    node: Node,
    alpha: int,
    beta: int,
    ply: int,
    res: int,
)
    requires
        quiesced(d, node, alpha, beta, ply, res),
        !clear_at_sight(d, node, alpha, beta, ply),
        pat_of(d, ply) < beta,
        set_up(d, mid, node, ply),
        if res == TIMEOUT {
            broken_off(quiet_setting(d, node, alpha, beta, ply), mid, b)
        } else {
            ranked_quietly(quiet_setting(d, node, alpha, beta, ply), mid, b, res)
        },
    ensures
        quieted(d, b, node, alpha, beta, ply, res),
{
    reveal(broken_off);
    reveal(ranked_quietly);
    reveal(quieted);
}

/// What a quiet search gives depends neither on the lines nor on the depth reached so far, but
/// that it counts itself.
pub proof fn lemma_same_quiet(
    a: SearchData,
    b: SearchData,
    c: SearchData,
    node: Node,
    alpha: int,
    beta: int,
    ply: int,
    res: int,
)
    requires
        b == (SearchData { pv: b.pv, sel_depth: b.sel_depth, ..a }),
        line_begun(a, b, node is PV, ply),
        b.sel_depth == reached(a, node, ply),
        kept(a, b),
        quieted(b, c, node, alpha, beta, ply, res),
    ensures
        quieted(a, c, node, alpha, beta, ply, res),
{
    reveal(broken_off);
    reveal(ranked_quietly);
    reveal(quieted);
    assert(quiet_setting(b, node, alpha, beta, ply) == quiet_setting(a, node, alpha, beta, ply));
    if res == TIMEOUT {
        if !untouched(b, c, node, ply) {
            let mid = choose|mid: SearchData| #[trigger]
                set_up(b, mid, node, ply) && broken_off(
                    quiet_setting(b, node, alpha, beta, ply),
                    mid,
                    c,
                );
            assert(set_up(a, mid, node, ply));
        }
    } else if !clear_at_sight(b, node, alpha, beta, ply) {
        if pat_of(b, ply) >= beta {
            let mid = choose|mid: SearchData| #[trigger] stood_pat(b, mid, c, node, ply);
            assert(set_up(a, mid, node, ply));
            assert(stood_pat(a, mid, c, node, ply));
        } else {
            let mid = choose|mid: SearchData| #[trigger]
                set_up(b, mid, node, ply) && ranked_quietly(
                    quiet_setting(b, node, alpha, beta, ply),
                    mid,
                    c,
                    res,
                );
            assert(set_up(a, mid, node, ply));
        }
    }
}

/// What is known of a node before its moves are looked at depends neither on the lines nor on
/// the depth reached so far.
pub proof fn lemma_same_outlook(
    a: SearchData,
    b: SearchData,
    node: Node,
    depth: int,
    alpha: int,
    beta: int,
    ply: int,
    cutnode: bool,
)
    requires
        b == (SearchData { pv: b.pv, sel_depth: b.sel_depth, ..a }),
    ensures
        given(a, node, depth, alpha, beta, ply, cutnode) == given(
            b,
            node,
            depth,
            alpha,
            beta,
            ply,
            cutnode,
        ),
        cut_by_table(a, node, depth, alpha, beta, ply, cutnode) == cut_by_table(
            b,
            node,
            depth,
            alpha,
            beta,
            ply,
            cutnode,
        ),
        razes(a, node, depth, alpha, ply) == razes(b, node, depth, alpha, ply),
        rests(a, node, depth, beta, ply) == rests(b, node, depth, beta, ply),
        setting_of(a, node, depth, alpha, beta, ply, cutnode) == setting_of(
            b,
            node,
            depth,
            alpha,
            beta,
            ply,
            cutnode,
        ),
{
}

/// What comes of a node depends neither on the lines nor on the depth reached so far, but that
/// the search counts itself.
pub proof fn lemma_same_explained(
    a: SearchData,
    b: SearchData,
    c: SearchData,
    node: Node,
    depth: int,
    alpha: int,
    beta: int,
    ply: int,
    cutnode: bool,
    res: int,
)
    requires
        b == (SearchData { pv: b.pv, sel_depth: b.sel_depth, ..a }),
        line_begun(a, b, node is PV, ply),
        b.sel_depth == reached(a, node, ply),
        kept(a, b),
        explained(b, c, node, depth, alpha, beta, ply, cutnode, res),
    ensures
        explained(a, c, node, depth, alpha, beta, ply, cutnode, res),
{
    lemma_same_outlook(a, b, node, depth, alpha, beta, ply, cutnode);
    reveal(quieted);
    reveal(looked_into);
    reveal(explained);
    if !cut_by_table(b, node, depth, alpha, beta, ply, cutnode) {
        let mid = choose|mid: SearchData| #[trigger]
            prepared(b, mid, node, depth, ply) && if razes(b, node, depth, alpha, ply) {
                quieted(mid, c, node, alpha, beta, ply, res)
            } else if rests(b, node, depth, beta, ply) {
                c == mid
            } else {
                looked_into(setting_of(b, node, depth, alpha, beta, ply, cutnode), mid, c, res)
            };
        assert(prepared(a, mid, node, depth, ply));
    }
}

/// A node whose score comes of a passed turn.
pub proof fn lemma_passed(n: Setting, a: SearchData, b: SearchData, res: int)
    requires
        may_pass(n, a),
        pass_answered(a, n.depth, n.beta, n.ply, b, Some(res)),
    ensures
        looked_into(n, a, b, res),
{
    reveal(pass_answered);
    reveal(looked_into);
}

/// A node whose moves are looked at.
pub proof fn lemma_looked(
    n: Setting,
    a: SearchData,
    p: SearchData,
    s: SearchData,
    extension: int,
    b: SearchData,
    res: int,
)
    requires
        kept(a, p),
        extended(p, s, extension),
        if may_pass(n, a) {
            pass_answered(a, n.depth, n.beta, n.ply, p, None)
        } else {
            p == a
        },
        if may_single(n) {
            singled(
                n.node,
                n.depth,
                n.probe.best_move->0,
                n.probe.score->0 as int,
                n.probe.was_pv,
                n.beta,
                n.ply,
                n.cutnode,
                p,
                s,
                Some(extension),
            )
        } else {
            s == p && extension == 0
        },
        if res == TIMEOUT {
            broken_off(Setting { extension, ..n }, s, b)
        } else {
            ranked(Setting { extension, ..n }, s, b, res)
        },
    ensures
        looked_into(n, a, b, res),
{
    reveal(looked_into);
    assert(after_pass(n, a, p, None)) by {
        reveal(pass_answered);
    }
    assert(after_single(n, p, s, extension)) by {
        reveal(singled);
    }
    reveal(broken_off);
    reveal(ranked);
}

/// A node whose move from the table was being put to the test when the search was stopped.
pub proof fn lemma_single_broken(n: Setting, a: SearchData, p: SearchData, b: SearchData)
    requires
        kept(a, p),
        if may_pass(n, a) {
            pass_answered(a, n.depth, n.beta, n.ply, p, None)
        } else {
            p == a
        },
        may_single(n),
        singled(
            n.node,
            n.depth,
            n.probe.best_move->0,
            n.probe.score->0 as int,
            n.probe.was_pv,
            n.beta,
            n.ply,
            n.cutnode,
            p,
            b,
            None,
        ),
    ensures
        looked_into(n, a, b, TIMEOUT as int),
{
    reveal(looked_into);
    assert(after_pass(n, a, p, None)) by {
        reveal(pass_answered);
    }
    assert(single_broken(n, p, b)) by {
        reveal(singled);
    }
}

/// A node whose score the table does not give.
pub proof fn lemma_explained(
    d: SearchData,
    mid: SearchData,
    b: SearchData,
    node: Node,
    depth: int,
    alpha: int,
    beta: int,
    ply: int,
    cutnode: bool,
    res: int,
)
    requires
        !cut_by_table(d, node, depth, alpha, beta, ply, cutnode),
        prepared(d, mid, node, depth, ply),
        if razes(d, node, depth, alpha, ply) {
            quieted(mid, b, node, alpha, beta, ply, res)
        } else if rests(d, node, depth, beta, ply) {
            b == mid
        } else {
            looked_into(setting_of(d, node, depth, alpha, beta, ply, cutnode), mid, b, res)
        },
    ensures
        explained(d, b, node, depth, alpha, beta, ply, cutnode, res),
{
    reveal(quieted);
    reveal(looked_into);
    reveal(explained);
}

/// A node whose score the table gives.
pub proof fn lemma_cut_short(
    d: SearchData,
    b: SearchData,
    node: Node,
    depth: int,
    alpha: int,
    beta: int,
    ply: int,
    cutnode: bool,
    res: int,
)
    requires
        cut_by_table(d, node, depth, alpha, beta, ply, cutnode),
        cut_short(d, b, depth, beta, ply),
    ensures
        explained(d, b, node, depth, alpha, beta, ply, cutnode, res),
{
    reveal(explained);
}

/// How the score of a search comes about.
pub proof fn lemma_outcome(
    d: SearchData,
    b: SearchData,
    node: Node,
    depth: int,
    alpha: int,
    beta: int,
    ply: int,
    cutnode: bool,
    res: int,
)
    requires
        if res == TIMEOUT && turned_away(d, b, node, ply) {
            true
        } else if depth <= 0 {
            quieted(d, b, node, alpha, beta, ply, res)
        } else if settled(d, node, depth, alpha, beta, ply) is Some {
            untouched(d, b, node, ply)
        } else {
            explained(
                d,
                b,
                node,
                lesser(depth, 127),
                low_end(node, alpha, ply),
                high_end(node, beta, ply),
                ply,
                cutnode,
                res,
            )
        },
    ensures
        outcome(d, b, node, depth, alpha, beta, ply, cutnode, res),
{
    reveal(quieted);
    reveal(explained);
    reveal(outcome);
}

/// At first no move has been looked at.
pub proof fn lemma_unvisited(n: Setting, start: SearchData, first: MovePicker)
    ensures
        visited(n, start, first, Seq::empty()),
        tally(n, Seq::empty()) == opening(n),
{
    reveal(tally);
    reveal(visited);
}

/// A move has been searched.
pub proof fn lemma_searched(n: Setting, t: Tally, v: Visit, tr: Trial)
    requires
        !t.cut && !t.over,
        gave(v.picker, v.before, t.skip, n.ply, v.left, Some(v.m)),
        verdict(n, t, v.before, v.m@) is Search,
        v.trial == Some(tr),
        played(plan_of(n, t, v.before, v.m@), v.before, v.m, tr),
        afterwards(n, t, v.m, v.before, tr, v.after),
    ensures
        visit_made(n, t, v),
{
    reveal(played);
}

/// The moves of a node have been looked at up to one during whose search a stop came.
pub proof fn lemma_broken_off(n: Setting, start: SearchData, h: Halt, b: SearchData)
    requires
        halted_at(n, start, h, b),
        visited(n, start, h.first, h.visits),
        played(
            plan_of(n, tally(n, h.visits), state_after(start, h.visits), h.m@),
            state_after(start, h.visits),
            h.m,
            h.trial,
        ),
    ensures
        broken_off(n, start, b),
{
    reveal(visited);
    reveal(played);
    reveal(broken_off);
}

/// The moves of a node have been looked at.
pub proof fn lemma_ranked(n: Setting, start: SearchData, w: Walk, b: SearchData, res: int)
    requires
        ended(n, start, w),
        visited(n, start, w.first, w.visits),
        closed(n, start, w.visits, b, res),
    ensures
        ranked(n, start, b, res),
{
    reveal(visited);
    reveal(ranked);
}

/// One more move has been looked at.
pub proof fn lemma_visit(
    n: Setting,
    start: SearchData,
    first: MovePicker,
    visits: Seq<Visit>,
    v: Visit,
)
    requires
        visited(n, start, first, visits),
        v.before == state_after(start, visits),
        v.picker == picker_after(first, visits),
        visit_made(n, tally(n, visits), v),
    ensures
        visited(n, start, first, visits.push(v)),
        tally(n, visits.push(v)) == counted(n, tally(n, visits), v),
        state_after(start, visits.push(v)) == v.after,
        picker_after(first, visits.push(v)) == v.left,
{
    reveal(tally);
    reveal(visited);
    let more = visits.push(v);
    assert(more.drop_last() =~= visits);
    assert forall|i: int|
        #![trigger more[i]]
        0 <= i < more.len() implies {
        &&& more[i].before == state_after(start, more.take(i))
        &&& more[i].picker == picker_after(first, more.take(i))
        &&& visit_made(n, tally(n, more.take(i)), more[i])
    } by {
        if i < visits.len() {
            assert(more.take(i) =~= visits.take(i));
            assert(more[i] == visits[i]);
        } else {
            assert(more.take(i) =~= visits);
        }
    }
}

} // verus!
