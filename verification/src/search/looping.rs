//! The moves of a node, searched one after another.

use crate::board::legality::law_generated_movable;
use crate::board::movegen::generated;
use crate::board::status::checks_directly;
use crate::nnue::EVAL_LIMIT;
use crate::search::{
    checked, endable, kept, lemma_plays_after, lined, no_moves, notes_before, ready, root_scored,
    rooted_exactly, scorable, terminal, undisturbed, window, Node, Probe, LAST_PLY,
};
use crate::search::account::{
    afterwards, bound_of, broken_off, closing, empty_score, ended, gone_through, late_by,
    lemma_broken_off, lemma_ranked, lemma_searched, lemma_unvisited, lemma_visit, noted, number,
    picker_after, plan_of, played, ranked, root_noted, state_after, tally, verdict, visit_made,
    visited, Close, Halt, Setting, Tally, Trial, Verdict, Visit, Walk,
};
use crate::search::bookkeeping::{
    lemma_fewer, lemma_kept, lemma_pending_finite, probe, record, traced_on,
};
use crate::search::data::{SearchData, STOPPED};
use crate::search::learning::{history_of, standing_of, update_histories};
use crate::search::movepicker::{gave, is_new, MovePicker};
use crate::search::pruning::{
    capped_bonus, exchange_threshold, has_done_badly, is_futile, is_late, is_telling, larger,
    late_reduction, Lateness,
};
use crate::search::trying::{play_move, update_root_move};
use crate::types::moves::{Move, Step};
use crate::types::score::{is_loss, is_win, DRAW, INFINITE, MATE, NO_SCORE, TIMEOUT};
use crate::types::stackvec::StackVec;
use crate::types::transposition::Bound;
use vstd::prelude::*;

verus! {

/// What is known about a node before its moves are searched.
pub struct Facts {
    pub in_check: bool,
    pub excluded: bool,
    pub improving: bool,
    pub raw_eval: i32,
    pub static_eval: i32,
    pub extension: i32,
}

impl Facts {
    /// What a search knows before it looks at moves.
    pub open spec fn setting(
        self,
        node: Node,
        probe: Probe,
        depth: int,
        alpha: int,
        beta: int,
        ply: int,
        cutnode: bool,
        left_out: Move,
    ) -> Setting {
        Setting {
            horizon: false,
            node,
            depth,
            floor: -INFINITE as int,
            alpha,
            beta,
            ply,
            cutnode,
            in_check: self.in_check,
            probe,
            improving: self.improving,
            static_eval: self.static_eval as int,
            raw_eval: self.raw_eval as int,
            extension: self.extension as int,
            left_out,
        }
    }

    pub open spec fn wf(self) -> bool {
        &&& self.raw_eval == NO_SCORE || -EVAL_LIMIT <= self.raw_eval <= EVAL_LIMIT
        &&& -40000 <= self.static_eval <= 40000
        &&& -3 <= self.extension <= 3
    }
}

/// The place of a root move whose score has been noted; the others are as they were.
proof fn lemma_noted(
    start: SearchData,
    a: SearchData,
    b: SearchData,
    m: Move,
    score: int,
    alpha: int,
    beta: int,
    first: bool,
    spent: u64,
) -> (k: int)
    requires
        rooted_exactly(start),
        kept(start, a),
        generated(start.board.state, m@),
        root_noted(a, b, m, score, alpha, beta, first, spent),
    ensures
        0 <= k < a.root_moves@.len(),
        b.root_moves@.len() == a.root_moves@.len(),
        b.root_moves@[k].m@ == m@,
        forall|j: int|
            0 <= j < a.root_moves@.len() && j != k ==> #[trigger] b.root_moves@[j]
                == a.root_moves@[j],
        b.root_moves@[k].score == if first || score > alpha {
            score
        } else {
            -INFINITE as int
        },
{
    let k = choose|k: int|
        0 <= k < start.root_moves@.len() && (#[trigger] start.root_moves@[k]).m@ == m@;
    assert(start.root_moves@[k].m@ == m@);
    assert(a.root_moves@[k].m == start.root_moves@[k].m);
    assert forall|j: int| 0 <= j < a.root_moves@.len() && j != k implies (
    #[trigger] a.root_moves@[j]).m@ != m@ by {
        assert(a.root_moves@[j].m == start.root_moves@[j].m);
    }
    assert(noted(
        a.root_moves@[k],
        b.root_moves@[k],
        score,
        alpha,
        beta,
        first,
        spent,
        a.root_depth,
        a.sel_depth,
        a.pv.line_spec(1),
    ));
    k
}

/// What is done with a move of a node that is not left out.
pub(crate) fn judge(
    data: &SearchData,
    node: Node,
    facts: &Facts,
    m: Move,
    move_count: i32,
    history: i32,
    is_direct_check: bool,
    depth: i32,
    best_score: i32,
    alpha: i32,
    beta: i32,
    Ghost(n): Ghost<Setting>,
    Ghost(t): Ghost<Tally>,
) -> (res: Verdict)
    requires
        data.wf(),
        generated(data.board.state, m@),
        facts.wf(),
        1 <= depth <= 128,
        !n.horizon,
        m@ != n.left_out@,
        n.node == node,
        n.depth == depth,
        n.beta == beta,
        n.in_check == facts.in_check,
        n.improving == facts.improving,
        n.static_eval == facts.static_eval,
        t.best == best_score,
        t.alpha == alpha,
        t.count + 1 == move_count,
        history == standing_of(*data, m@, n.ply),
        -30000 <= history <= 30000,
        is_direct_check == checks_directly(data.board.state.mb(), m@),
    ensures
        res == verdict(n, t, *data, m@),
        res !is LeftOut && res !is Enough,
{
    proof {
        law_generated_movable(data.board.state, m@);
    }
    if node.is_root() || facts.in_check || is_loss(best_score) {
        return Verdict::Search;
    }
    if !m.get_kind().is_quiet() {
        return if data.board.see(m, exchange_threshold(depth)) {
            Verdict::Search
        } else {
            Verdict::Losing
        };
    }
    if !is_direct_check && !is_win(beta) && is_late(move_count, depth, facts.improving) {
        Verdict::Late
    } else if !is_direct_check && is_futile(facts.static_eval, depth, history, alpha) {
        Verdict::Futile
    } else if has_done_badly(depth, history) {
        Verdict::Poor
    } else {
        Verdict::Search
    }
}

/// By how much a move after the first is searched less deep at first.
pub(crate) fn lateness(
    data: &SearchData,
    tt: &Probe,
    facts: &Facts,
    m: Move,
    move_count: i32,
    history: i32,
    is_direct_check: bool,
    depth: i32,
    alpha: i32,
    cutnode: bool,
    Ghost(n): Ghost<Setting>,
    Ghost(t): Ghost<Tally>,
) -> (res: Option<i32>)
    requires
        data.wf(),
        1 <= depth <= 128,
        !n.horizon,
        n.depth == depth,
        n.cutnode == cutnode,
        n.probe == *tt,
        n.improving == facts.improving,
        t.alpha == alpha,
        t.count + 1 == move_count,
        0 < move_count,
        history == standing_of(*data, m@, n.ply),
        -30000 <= history <= 30000,
        is_direct_check == checks_directly(data.board.state.mb(), m@),
    ensures
        number(res) == late_by(n, t, *data, m@),
        res matches Some(r) ==> -1010000 <= r <= 1010000,
{
    if depth < 2 || move_count <= 1 {
        return None;
    }
    let l = Lateness {
        base: data.lmr.get(
            m.get_kind().is_quiet(),
            if depth < 127 { depth as usize } else { 127 },
            if move_count < 63 { move_count as usize } else { 63 },
        ),
        cutnode,
        was_pv: tt.was_pv,
        direct_check: is_direct_check,
        improving: facts.improving,
        table_low: match tt.score {
            Some(s) => s <= alpha,
            None => false,
        },
        table_shallow: match tt.depth {
            Some(d) => d < depth,
            None => false,
        },
        history,
    };
    Some(late_reduction(&l))
}

/// Searches a move of a node, and notes at the root what it has given, or on the expected
/// line that it is the better one. None is given where the search was stopped.
pub(crate) fn try_move(
    data: &mut SearchData,
    node: Node,
    tt: &Probe,
    facts: &Facts,
    m: Move,
    move_count: i32,
    history: i32,
    is_direct_check: bool,
    depth: i32,
    best_score: i32,
    alpha: i32,
    beta: i32,
    ply: i32,
    cutnode: bool,
    Ghost(start): Ghost<SearchData>,
    Ghost(n): Ghost<Setting>,
    Ghost(t): Ghost<Tally>,
    Ghost(picker): Ghost<MovePicker>,
    Ghost(left): Ghost<MovePicker>,
) -> (res: (Option<i32>, Ghost<Visit>, Ghost<int>))
    requires
        ready(*old(data), node, ply as int),
        kept(start, *old(data)),
        ply < LAST_PLY,
        old(data).board.state.half_move_clock < 255,
        generated(old(data).board.state, m@),
        facts.wf(),
        1 <= depth <= 128,
        window(alpha as int, beta as int),
        n == facts.setting(
            node,
            *tt,
            depth as int,
            n.alpha,
            beta as int,
            ply as int,
            cutnode,
            n.left_out,
        ),
        t.alpha == alpha,
        t.best == best_score,
        t.count + 1 == move_count,
        0 < move_count,
        !t.cut && !t.over,
        gave(picker, *old(data), t.skip, ply as int, left, Some(m)),
        verdict(n, t, *old(data), m@) is Search,
        history == standing_of(*old(data), m@, ply as int),
        -30000 <= history <= 30000,
        is_direct_check == checks_directly(old(data).board.state.mb(), m@),
    ensures
        kept(start, *final(data)),
        node !is Root ==> traced_on(*old(data), *final(data), node, ply as int),
        node is Root && lined(*old(data)) ==> lined(*final(data)),
        notes_before(*old(data), *final(data), ply as int),
        undisturbed(start) ==> res.0 is Some,
        res.0 is None ==> (res.1@.trial matches Some(tr) && tr.back == *final(data) && played(
            plan_of(n, t, *old(data), m@),
            *old(data),
            m,
            tr,
        )),
        res.0 matches Some(score) ==> {
            let v = res.1@;
            let k = res.2@;
            let raised = score > best_score && score > alpha;
            &&& -TIMEOUT <= score < TIMEOUT
            &&& v == (Visit {
                picker,
                m,
                left,
                before: *old(data),
                trial: v.trial,
                after: *final(data),
            })
            &&& v.trial matches Some(tr) && tr.score == score
            &&& visit_made(n, t, v)
            &&& node is PV && raised ==> final(data).pv.line_spec(ply as int).len() > 0
            &&& node is PV && !raised ==> final(data).pv.line_spec(ply as int)
                == old(data).pv.line_spec(ply as int)
            &&& node is Root && rooted_exactly(start) ==> {
                &&& 0 <= k < old(data).root_moves@.len()
                &&& final(data).root_moves@.len() == old(data).root_moves@.len()
                &&& final(data).root_moves@[k].m@ == m@
                &&& forall|j: int|
                    0 <= j < old(data).root_moves@.len() && j != k ==> #[trigger] final(
                        data).root_moves@[j] == old(data).root_moves@[j]
                &&& final(data).root_moves@[k].score == if move_count == 1 || score > alpha {
                    score as int
                } else {
                    -INFINITE as int
                }
            }
        },
    decreases 128 - ply, 0int, 3int,
{
    let ghost mid = *data;
    let ghost pos = data.board.state.position();
    let ghost mut k: int = 0;
    let initial_nodes: u64 = data.nodes();
    let new_depth: i32 = depth - 1 + if move_count == 1 { facts.extension } else { 0 };
    let reduction = lateness(
        data,
        tt,
        facts,
        m,
        move_count,
        history,
        is_direct_check,
        depth,
        alpha,
        cutnode,
        Ghost(n),
        Ghost(t),
    );
    let score: i32 = play_move(
        data,
        node,
        m,
        new_depth,
        reduction,
        alpha,
        beta,
        ply,
        cutnode,
        move_count == 1,
    );
    let ghost back = *data;
    proof {
        lemma_kept(start, mid, back);
    }
    assert(gone_through(plan_of(n, t, mid, m@), mid, m, back, score as int));
    let ghost tr = choose|tr: Trial| #[trigger]
        played(plan_of(n, t, mid, m@), mid, m, tr) && tr.back == back && tr.score == score;
    let ghost mut v = Visit { picker, m, left, before: mid, trial: Some(tr), after: back };
    if data.shared.status.get() == STOPPED {
        return (None, Ghost(v), Ghost(k));
    }
    if node.is_root() {
        let spent: u64 = data.nodes().wrapping_sub(initial_nodes);
        update_root_move(data, m, score, alpha, beta, move_count == 1, spent);
        proof {
            lemma_kept(start, back, *data);
            if rooted_exactly(start) {
                k = lemma_noted(
                    start,
                    back,
                    *data,
                    m,
                    score as int,
                    alpha as int,
                    beta as int,
                    move_count == 1,
                    spent,
                );
            }
        }
    } else if node.is_pv() && score > best_score && score > alpha {
        proof {
            lemma_plays_after(pos, m, data.pv.line_spec(ply + 1));
        }
        data.pv.add(m, ply as usize);
    }
    proof {
        v = Visit { picker, m, left, before: mid, trial: Some(tr), after: *data };
        assert(afterwards(n, t, m, mid, tr, *data));
        lemma_searched(n, t, v, tr);
    }
    (Some(score), Ghost(v), Ghost(k))
}

/// Learns from the moves of a node, and notes what was found out about it.
pub(crate) fn conclude(
    data: &mut SearchData,
    node: Node,
    tt: &Probe,
    facts: &Facts,
    depth: i32,
    ply: i32,
    best_move: Option<Move>,
    best_score: i32,
    bound: Bound,
    quiets: &StackVec<Move, 32>,
    noisies: &StackVec<Move, 32>,
    Ghost(n): Ghost<Setting>,
    Ghost(t): Ghost<Tally>,
)
    requires
        old(data).wf(),
        0 <= ply < LAST_PLY,
        1 <= depth <= 128,
        facts.wf(),
        scorable(best_score as int),
        n.node == node,
        n.probe == *tt,
        n.depth == depth,
        n.ply == ply,
        n.in_check == facts.in_check,
        n.raw_eval == facts.raw_eval,
        n.static_eval == facts.static_eval,
        n.left_out.null() == !facts.excluded,
        t.best_move == best_move,
        t.best == best_score,
        t.quiets == quiets@,
        t.noisies == noisies@,
        bound == bound_of(t),
    ensures
        kept(*old(data), *final(data)),
        exists|c: Close| #[trigger] closing(n, t, *old(data), c, *final(data)),
        final(data).pv == old(data).pv,
        final(data).root_moves == old(data).root_moves,
        notes_before(*old(data), *final(data), ply as int),
{
    let ghost last = *data;
    let stm = data.board.state.side_to_move;
    if let Some(m) = best_move {
        update_histories(data, m, depth, ply, quiets, noisies);
    }
    let ghost learned = *data;
    if !node.is_root() && bound == Bound::Upper {
        let last = data.stack.get(ply - 1);
        if last.m.get_kind().is_quiet() {
            let bonus: i32 = capped_bonus(122, depth, 76, 1194);
            data.quiet_history.update(last.threats, stm.other(), last.m, bonus);
        }
    }
    let ghost blamed = *data;
    let ghost mut recorded = *data;
    if !facts.excluded {
        record(
            data,
            best_move,
            best_score,
            facts.raw_eval,
            bound,
            depth,
            ply,
            node.is_pv() || tt.was_pv,
        );
        proof {
            lemma_kept(last, blamed, *data);
            recorded = *data;
        }
        let quiet_best: bool = match best_move {
            Some(m) => m.get_kind().is_quiet(),
            None => true,
        };
        if !facts.in_check && quiet_best && is_telling(bound, best_score, facts.static_eval) {
            data.update_correction_histories(best_score - facts.static_eval, depth, ply);
            proof {
                assert forall|p: int| -8 <= p < 136 implies (#[trigger] data.stack.at(p)).excluded
                    == recorded.stack.at(p).excluded by {}
                lemma_kept(last, recorded, *data);
            }
        }
    }
    assert(closing(n, t, last, Close { learned, blamed, recorded }, *data));
}

/// Searches the moves of a node one after another.
#[verifier::rlimit(30)]
pub(crate) fn search_moves(
    data: &mut SearchData,
    node: Node,
    tt: &Probe,
    facts: &Facts,
    depth: i32,
    alpha: i32,
    beta: i32,
    ply: i32,
    cutnode: bool,
) -> (res: i32)
    requires
        ready(*old(data), node, ply as int),
        ply < LAST_PLY,
        old(data).board.state.half_move_clock < 255,
        tt.best_move matches Some(m) ==> generated(old(data).board.state, m@),
        facts.wf(),
        facts.in_check == checked(old(data).board.state),
        facts.excluded == !old(data).stack.at(ply as int).excluded.null(),
        1 <= depth <= 128,
        window(alpha as int, beta as int),
    ensures
        kept(*old(data), *final(data)),
        endable(res as int),
        undisturbed(*old(data)) ==> res != TIMEOUT,
        no_moves(old(data).board.state) ==> res == if facts.excluded {
            -INFINITE as int
        } else {
            terminal(old(data).board.state, ply as int)
        },
        ({
            let n = facts.setting(
                node,
                *tt,
                depth as int,
                alpha as int,
                beta as int,
                ply as int,
                cutnode,
                old(data).stack.at(ply as int).excluded,
            );
            if res == TIMEOUT {
                broken_off(n, *old(data), *final(data))
            } else {
                ranked(n, *old(data), *final(data), res as int)
            }
        }),
        node !is Root ==> traced_on(*old(data), *final(data), node, ply as int),
        node is Root && lined(*old(data)) ==> lined(*final(data)),
        node is PV && res != TIMEOUT && res > alpha >= -INFINITE && !facts.excluded && !no_moves(
            old(data).board.state,
        ) ==> final(data).pv.line_spec(ply as int).len() > 0,
        node is Root && rooted_exactly(*old(data)) && res != TIMEOUT && res > alpha >= -INFINITE
            && !facts.excluded && !no_moves(old(data).board.state) ==> root_scored(
            *final(data),
            beta as int,
            res as int,
        ),
        notes_before(*old(data), *final(data), ply as int),
    decreases 128 - ply, 0int, 4int,
{
    let ghost start = *data;
    let ghost st = data.board.state;
    let ghost pos = st.position();
    let ghost first_alpha = alpha as int;
    let ghost whole = node is Root && rooted_exactly(*data) && !facts.excluded && alpha
        >= -INFINITE;
    let ghost mut top: int = 0;
    let ghost left_out = data.stack.at(ply as int).excluded;
    let ghost n = facts.setting(
        node,
        *tt,
        depth as int,
        alpha as int,
        beta as int,
        ply as int,
        cutnode,
        left_out,
    );
    let ghost mut visits: Seq<Visit> = Seq::empty();
    let stm = data.board.state.side_to_move;
    let mut low: i32 = alpha;
    let mut move_count: i32 = 0;
    let mut best_score: i32 = -INFINITE;
    let mut best_move: Option<Move> = None;
    let mut bound: Bound = Bound::Upper;
    let mut move_picker = MovePicker::new(tt.best_move);
    let ghost first = move_picker;
    let mut quiets_searched: StackVec<Move, 32> = StackVec::new();
    let mut noisies_searched: StackVec<Move, 32> = StackVec::new();
    let mut skip_quiets: bool = false;
    proof {
        lemma_pending_finite(move_picker, st);
        lemma_unvisited(n, start, first);
    }
    loop
        invariant_except_break
            ready(*data, node, ply as int),
            move_count + move_picker.pending(st).len() <= 66560,
            window(low as int, beta as int),
            move_picker.wf(st),
            move_picker.pending(st).finite(),
            forall|s: Step| #[trigger] move_picker.pending(st).contains(s) ==> generated(st, s),
            quiets_searched@.len() + noisies_searched@.len() <= move_count,
            move_count == 0 && !facts.excluded ==> !skip_quiets && forall|s: Step| #[trigger]
                generated(st, s) ==> move_picker.pending(st).contains(s),
            low == first_alpha || best_score == low,
            first_alpha >= -INFINITE ==> low == larger(first_alpha, best_score as int),
            picker_after(first, visits) == move_picker,
            tally(n, visits).alpha == low,
            !tally(n, visits).cut,
            node is Root ==> !skip_quiets,
            whole ==> forall|i: int|
                0 <= i < data.root_moves@.len() ==> move_picker.pending(st).contains(
                    (#[trigger] data.root_moves@[i]).m@,
                ) || data.root_moves@[i].score <= best_score,
            whole && best_score > first_alpha ==> !move_picker.pending(st).contains(
                data.root_moves@[top].m@,
            ),
        invariant
            start == *old(data),
            first_alpha == alpha,
            start.wf(),
            kept(start, *data),
            st == start.board.state,
            stm == st.side_to_move,
            facts.wf(),
            facts.in_check == checked(st),
            1 <= depth <= 128,
            0 <= ply < LAST_PLY,
            0 <= move_count,
            st.half_move_clock < 255,
            node is Root ==> ply == 0,
            start.network.boards().len() <= ply + 1,
            st.full_move + (LAST_PLY + 1 - ply) <= usize::MAX,
            scorable(best_score as int),
            no_moves(st) ==> move_count == 0,
            pos == st.position(),
            left_out == start.stack.at(ply as int).excluded,
            n == facts.setting(
                node,
                *tt,
                depth as int,
                first_alpha,
                beta as int,
                ply as int,
                cutnode,
                left_out,
            ),
            is_new(first, tt.best_move),
            visited(n, start, first, visits),
            state_after(start, visits) == *data,
            tally(n, visits).count == move_count,
            tally(n, visits).best == best_score,
            tally(n, visits).best_move == best_move,
            tally(n, visits).skip == skip_quiets,
            tally(n, visits).quiets == quiets_searched@,
            tally(n, visits).noisies == noisies_searched@,
            !tally(n, visits).over,
            bound == bound_of(tally(n, visits)),
            best_score < TIMEOUT,
            node !is Root ==> traced_on(start, *data, node, ply as int),
            notes_before(start, *data, ply as int),
            node is Root && lined(start) ==> lined(*data),
            facts.excluded == !start.stack.at(ply as int).excluded.null(),
            node is PV && first_alpha >= -INFINITE && best_score > first_alpha
                ==> data.pv.line_spec(ply as int).len() > 0,
            first_alpha <= low,
            whole == (node is Root && rooted_exactly(start) && !facts.excluded && first_alpha
                >= -INFINITE),
            best_score >= -INFINITE,
            whole && best_score > first_alpha ==> 0 <= top < data.root_moves@.len()
                && data.root_moves@[top].score == best_score,
        ensures
            ended(n, start, Walk { first, visits, end: move_picker }),
            move_count == 0 && !facts.excluded ==> no_moves(st),
            whole && best_score < beta ==> forall|i: int|
                0 <= i < data.root_moves@.len() ==> (#[trigger] data.root_moves@[i]).score
                    <= best_score,
        decreases move_picker.pending(st).len(),
    {
        let ghost before = move_picker;
        let m = match move_picker.next(data, skip_quiets, ply) {
            None => {
                break ;
            },
            Some(m) => m,
        };
        proof {
            lemma_fewer(before, move_picker, st, m@);
            assert(generated(st, m@));
            law_generated_movable(st, m@);
        }
        let ghost mid = *data;
        let ghost v = Visit {
            picker: before,
            m,
            left: move_picker,
            before: mid,
            trial: None,
            after: mid,
        };
        let ghost t = tally(n, visits);
        if m.same(&data.stack.get(ply).excluded) {
            proof {
                lemma_visit(n, start, first, visits, v);
                visits = visits.push(v);
            }
            continue ;
        }
        move_count = move_count + 1;
        let is_direct_check: bool = data.board.is_direct_check(m);
        let is_quiet: bool = m.get_kind().is_quiet();
        let history: i32 = history_of(data, m, ply);
        let opinion = judge(
            data,
            node,
            facts,
            m,
            move_count,
            history,
            is_direct_check,
            depth,
            best_score,
            low,
            beta,
            Ghost(n),
            Ghost(t),
        );
        match opinion {
            Verdict::Search => {},
            Verdict::Late | Verdict::Futile => {
                skip_quiets = true;
                proof {
                    lemma_visit(n, start, first, visits, v);
                    visits = visits.push(v);
                }
                continue ;
            },
            _ => {
                proof {
                    lemma_visit(n, start, first, visits, v);
                    visits = visits.push(v);
                }
                continue ;
            },
        }
        let (found, Ghost(v), Ghost(k)) = try_move(
            data,
            node,
            tt,
            facts,
            m,
            move_count,
            history,
            is_direct_check,
            depth,
            best_score,
            low,
            beta,
            ply,
            cutnode,
            Ghost(start),
            Ghost(n),
            Ghost(t),
            Ghost(before),
            Ghost(move_picker),
        );
        let score: i32 = match found {
            None => {
                proof {
                    let h = Halt { first, visits, m, left: move_picker, trial: v.trial->0 };
                    lemma_broken_off(n, start, h, *data);
                }
                return TIMEOUT;
            },
            Some(score) => score,
        };
        let raised: bool = score > best_score && score > low;
        if raised {
            best_move = Some(m);
            bound = Bound::Exact;
        }
        proof {
            if whole && raised {
                top = k;
            }
            lemma_visit(n, start, first, visits, v);
            visits = visits.push(v);
        }
        if score > best_score {
            best_score = score;
        }
        if raised {
            if score >= beta {
                bound = Bound::Lower;
                break ;
            }
            low = score;
        }
        if !raised && move_count < 32 {
            if is_quiet {
                quiets_searched.push(m);
            } else {
                noisies_searched.push(m);
            }
        }
    }
    let ghost w = Walk { first, visits, end: move_picker };
    assert(ended(n, start, w));
    if move_count == 0 {
        proof {
            lemma_ranked(n, start, w, *data, empty_score(n, st));
        }
        if facts.excluded {
            return -INFINITE;
        }
        if facts.in_check {
            return -MATE + ply;
        }
        return DRAW;
    }
    let ghost last = *data;
    conclude(
        data,
        node,
        tt,
        facts,
        depth,
        ply,
        best_move,
        best_score,
        bound,
        &quiets_searched,
        &noisies_searched,
        Ghost(n),
        Ghost(tally(n, visits)),
    );
    proof {
        lemma_kept(start, last, *data);
        lemma_ranked(n, start, w, *data, best_score as int);
    }
    best_score
}

} // verus!
