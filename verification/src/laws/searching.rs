//! What the scores of a search mean: when they come from the table, how the searches below a
//! node relate to its window, and what the score of a node says of the true one.

use crate::board::BoardState;
use crate::laws::decisions::{allows, law_conclusive, law_reverse_futility, same_side};
use crate::nnue::evaluation;
use crate::search::{
    at_once, checked, deepened, high_end, improves, low_end, pat_of, probe_of, reads, settled,
    shortcut, static_eval_of, terminal, Node, Probe,
};
use crate::search::account::{
    afterwards, bound_of, counted, prepared, shape, tally, verdict, Plan, Setting, Tally, Trial,
    Visit,
};
use crate::search::data::SearchData;
use crate::search::pruning::futile_above;
use crate::types::moves::Move;
use crate::types::score::{restored, stored};
use crate::types::transposition::{Bound, Entry};
use vstd::prelude::*;

verus! {

/// Every true score that a probe allows lies on the same side of a window as a score.
pub open spec fn vouched(p: Probe, score: int, alpha: int, beta: int) -> bool {
    p.bound is Some && forall|v: int| #[trigger]
        allows(p.bound->0, score, v) ==> same_side(v, score, alpha, beta)
}

/// A node gets its score without a search only off the expected line and with no move left
/// out. Either the table has it, from a search that was deep enough, and its bound allows only
/// true scores on the same side of the window; or the evaluation lies above the window, out of
/// check, and the score lies between the two.
pub proof fn law_shortcut(
    d: SearchData,
    node: Node,
    depth: int,
    alpha: int,
    beta: int,
    ply: int,
    cutnode: bool,
    score: int,
)
    requires
        1 <= depth,
        alpha < beta,
        shortcut(d, node, depth, alpha, beta, ply, cutnode) == Some(score),
    ensures
        node is NonPV,
        d.stack.at(ply).excluded.null(),
        ({
            let p = probe_of(d, ply);
            let eval = static_eval_of(d, ply);
            ||| {
                &&& p.score matches Some(x) && x == score
                &&& p.depth matches Some(x) && x >= depth
                &&& vouched(p, score, alpha, beta)
                &&& score >= beta ==> p.bound->0 != Bound::Upper && cutnode
                &&& score < alpha ==> p.bound->0 != Bound::Lower
            }
            ||| !checked(d.board.state) && beta <= score <= eval && -30744 < score < 30744
        }),
{
    let p = probe_of(d, ply);
    let eval = static_eval_of(d, ply);
    let deep = deepened(d, node, depth, ply);
    if futile_above(eval, beta, deep, improves(d, eval, ply)) {
        law_reverse_futility(eval, eval, beta, deep, deep, improves(d, eval, ply));
    }
    if p.bound is Some && p.score is Some {
        law_conclusive(p.bound->0, p.score->0 as int, alpha, beta);
    }
}

/// Nothing that the table has on a position settles a node on the expected line.
pub proof fn law_expected_line_searched(
    d: SearchData,
    node: Node,
    depth: int,
    alpha: int,
    beta: int,
    ply: int,
    cutnode: bool,
)
    requires
        node !is NonPV,
    ensures
        shortcut(d, node, depth, alpha, beta, ply, cutnode) is None,
{
}

/// A quiet search gives at once: the score of a draw; off the expected line, a score from the
/// table whose bound allows only true scores on the same side of the window; an evaluation at
/// the upper end of the window or above; the score of a mate.
pub proof fn law_quiet_at_once(
    d: SearchData,
    node: Node,
    alpha: int,
    beta: int,
    ply: int,
    score: int,
)
    requires
        -32000 <= alpha < beta,
        at_once(d, node, alpha, beta, ply) == Some(score),
        ply < 127,
    ensures
        ({
            let p = probe_of(d, ply);
            ||| crate::board::status::drawn(d.board) && score == 0
            ||| {
                &&& node is NonPV
                &&& p.score matches Some(x) && x == score
                &&& vouched(p, score, alpha, beta)
            }
            ||| !checked(d.board.state) && score >= beta && score == pat_of(d, ply)
            ||| checked(d.board.state) && crate::search::no_moves(d.board.state) && score == ply
                - 31000
        }),
{
    let p = probe_of(d, ply);
    if p.bound is Some && p.score is Some {
        law_conclusive(p.bound->0, p.score->0 as int, alpha, beta);
    }
}

/// A mate is stored as it is seen from its own position, so that it is the same however the
/// position was reached, and is read back as it is seen from the root. `k` is the distance from
/// the position to the mate.
pub proof fn law_mate_stored(k: int, ply: int, other: int)
    requires
        0 <= k,
        0 <= ply,
        0 <= other,
        k + ply <= 256,
        k + other <= 256,
    ensures
        stored(31000 - (ply + k), ply) == 31000 - k,
        stored(-31000 + (ply + k), ply) == -31000 + k,
        restored(31000 - k, other) == 31000 - (other + k),
        restored(-31000 + k, other) == -31000 + (other + k),
{
}

/// A score that tells of no mate is stored and read back as it is, and so is the mark of an
/// unknown score.
pub proof fn law_other_scores_stored(score: int, ply: int)
    requires
        -30744 < score < 30744 || score == 32001,
    ensures
        stored(score, ply) == score,
        restored(score, ply) == score,
{
}

/// The searches of a move stand in the window of the node as its opponent sees it. A score
/// above the window's lower end comes from a search that was not reduced, and on the expected
/// line from one of the whole window; the first move there is searched with the whole window
/// only, and the other moves of a node first with a window of no width. A reduction is noted
/// while the reduced search lasts.
pub proof fn law_move_searched(plan: Plan, a: SearchData, m: Move, tr: Trial)
    requires
        shape(plan, a, m, tr),
        plan.alpha < plan.beta,
        plan.first ==> plan.reduction is None,
        plan.horizon ==> plan.reduction is None,
        !plan.horizon && !plan.node.pv() ==> tr.narrow is Some || tr.reduced is Some,
    ensures
        tr.whole matches Some(x) ==> {
            &&& x.call.alpha == -plan.beta
            &&& x.call.beta == -plan.alpha
            &&& x.call.depth == plan.depth
            &&& x.call.ply == plan.ply + 1
            &&& tr.score == x.score
            &&& !plan.horizon ==> x.call.node is PV && !x.call.cutnode
        },
        tr.narrow matches Some(x) ==> {
            &&& x.call.beta == -plan.alpha
            &&& x.call.alpha == x.call.beta - 1
            &&& x.call.node is NonPV
            &&& x.call.depth == plan.depth
            &&& x.call.ply == plan.ply + 1
            &&& x.call.cutnode != plan.cutnode
        },
        tr.reduced matches Some(x) ==> {
            &&& x.call.beta == -plan.alpha
            &&& x.call.alpha == x.call.beta - 1
            &&& x.call.node is NonPV
            &&& x.call.cutnode
            &&& x.call.ply == plan.ply + 1
            &&& -1010000 <= plan.reduction->0 <= 1010000 ==> x.from.stack.at(plan.ply).reduction
                == plan.reduction->0
            &&& tr.reset.stack.at(plan.ply).reduction == 0
            &&& tr.reset.board == x.to.board
        },
        plan.node.pv() && plan.first ==> tr.whole is Some && tr.narrow is None && tr.reduced
            is None,
        plan.node.pv() && tr.score > plan.alpha ==> tr.whole is Some,
        !plan.node.pv() && !plan.horizon ==> tr.whole is None,
        plan.horizon ==> tr.whole is Some && tr.narrow is None,
        tr.reduced is Some <==> plan.reduction is Some,
        tr.reduced matches Some(x) ==> (tr.narrow is Some <==> x.score > plan.alpha && x.call.depth
            < plan.depth),
        !plan.horizon && plan.reduction is None ==> (tr.narrow is Some <==> plan.node is NonPV
            || !plan.first),
        tr.score > plan.alpha && tr.whole is None ==> (tr.narrow matches Some(x) && x.score
            == tr.score) || (tr.reduced matches Some(x) && x.score == tr.score && x.call.depth
            >= plan.depth),
{
}

/// The window of a node holds no score below a mate at once and none above a mate with the
/// next move. A window without any other score needs no search.
pub proof fn law_mate_window(d: SearchData, node: Node, depth: int, alpha: int, beta: int, ply: int)
    requires
        depth > 0,
        node !is Root,
        0 <= ply < 127,
        !crate::board::status::drawn(d.board),
    ensures
        low_end(node, alpha, ply) >= alpha,
        high_end(node, beta, ply) <= beta,
        forall|v: int|
            ply - 31000 < v < 31000 - ply + 1 ==> (#[trigger] same_side(v, v, alpha, beta)) && (
            low_end(node, alpha, ply) < v <==> alpha < v) && (v < high_end(node, beta, ply) <==> v
                < beta),
        settled(d, node, depth, alpha, beta, ply) matches Some(s) ==> s == low_end(
            node,
            alpha,
            ply,
        ) && low_end(node, alpha, ply) >= high_end(node, beta, ply),
        settled(d, node, depth, alpha, beta, ply) is None ==> low_end(node, alpha, ply) < high_end(
            node,
            beta,
            ply,
        ),
        low_end(Node::Root, alpha, ply) == alpha,
        high_end(Node::Root, beta, ply) == beta,
{
}

/// A drawn position has the score zero at every node but the root, whatever the window.
pub proof fn law_draw_settles(
    d: SearchData,
    node: Node,
    depth: int,
    alpha: int,
    beta: int,
    ply: int,
)
    requires
        depth > 0,
        crate::board::status::drawn(d.board),
    ensures
        node !is Root ==> settled(d, node, depth, alpha, beta, ply) == Some(0int),
        node is Root ==> settled(d, node, depth, alpha, beta, ply) is None,
{
}

/// The sooner the mate, the lower the score of the side that is mated. It is always a lost one,
/// and that of a stalemate is zero.
pub proof fn law_terminal_order(st: BoardState, near: int, far: int)
    requires
        0 <= near < far <= 127,
    ensures
        checked(st) ==> terminal(st, near) < terminal(st, far) <= -30744 && terminal(st, near)
            == near - 31000,
        !checked(st) ==> terminal(st, near) == 0,
{
}

/// What the moves so far have come to, held against the window.
proof fn lemma_tally_window(n: Setting, visits: Seq<Visit>)
    requires
        n.floor <= n.alpha < n.beta,
        forall|i: int|
            0 <= i < visits.len() ==> !(#[trigger] tally(n, visits.take(i))).cut,
    ensures
        ({
            let t = tally(n, visits);
            &&& n.floor <= t.best
            &&& n.alpha <= t.alpha < n.beta
            &&& t.cut <==> t.best >= n.beta
            &&& t.best_move is Some <==> t.best > n.alpha
            &&& !t.cut && t.best_move is Some ==> t.alpha == t.best
            &&& t.best_move is None ==> t.alpha == n.alpha
        }),
    decreases visits.len(),
{
    reveal(tally);
    if visits.len() > 0 {
        let before = visits.drop_last();
        assert(visits.take(visits.len() - 1) =~= before);
        assert(!tally(n, visits.take(visits.len() - 1)).cut);
        assert forall|i: int| 0 <= i < before.len() implies !(#[trigger] tally(
            n,
            before.take(i),
        )).cut by {
            assert(before.take(i) =~= visits.take(i));
            assert(!tally(n, visits.take(i)).cut);
        }
        lemma_tally_window(n, before);
    }
}

/// What is stored about a node says what its window shows: a score at the upper end of the
/// window or above is a lower bound, one in the window is exact, and one at the lower end or
/// below is an upper bound. The best move is named where the score is above the lower end.
pub proof fn law_bound_told(n: Setting, visits: Seq<Visit>)
    requires
        n.floor <= n.alpha < n.beta,
        forall|i: int|
            0 <= i < visits.len() ==> !(#[trigger] tally(n, visits.take(i))).cut,
    ensures
        ({
            let t = tally(n, visits);
            &&& bound_of(t) == Bound::Lower <==> t.best >= n.beta
            &&& bound_of(t) == Bound::Exact <==> n.alpha < t.best < n.beta
            &&& bound_of(t) == Bound::Upper <==> t.best <= n.alpha
            &&& t.best_move is Some <==> t.best > n.alpha
        }),
{
    lemma_tally_window(n, visits);
}

/// A search of one more move never lowers the best score nor the lower end of the window, and
/// the best move changes only to a move with a better score than all before. Moves that are
/// passed over change no score.
pub proof fn law_one_more_move(n: Setting, t: Tally, v: Visit)
    requires
        !t.cut,
        t.alpha < n.beta,
    ensures
        ({
            let u = counted(n, t, v);
            let looked = verdict(n, t, v.before, v.m@) is Search;
            let score = v.trial->0.score;
            &&& u.best >= t.best
            &&& u.alpha >= t.alpha
            &&& u.count == t.count + if verdict(n, t, v.before, v.m@) is LeftOut {
                0int
            } else {
                1
            }
            &&& !looked ==> u.best == t.best && u.alpha == t.alpha && u.best_move == t.best_move
                && u.quiets == t.quiets && u.noisies == t.noisies
            &&& looked ==> u.best >= score && (u.best == score || u.best == t.best)
            &&& u.best_move != t.best_move ==> looked && u.best_move == Some(v.m) && u.best == score
                && score > t.best
            &&& u.cut ==> looked && score >= n.beta
            &&& looked && score > t.best && score >= n.beta ==> u.cut
            &&& u.quiets.len() + u.noisies.len() <= t.quiets.len() + t.noisies.len() + 1
            &&& u.quiets.len() > t.quiets.len() ==> looked && u.quiets.last() == v.m
                && v.m@.kind.quiet()
            &&& u.noisies.len() > t.noisies.len() ==> looked && u.noisies.last() == v.m
                && !v.m@.kind.quiet()
            &&& looked && u.best_move == Some(v.m) && score > t.best && score > t.alpha
                ==> u.quiets == t.quiets && u.noisies == t.noisies
        }),
{
}

/// A probe says of a position what its entry says: the score lies on the same side of the
/// draw, no move is taken over that the position does not have, and nothing is known without
/// an entry.
pub proof fn law_probe(e: Entry, st: BoardState, p: Probe, none: Probe)
    requires
        reads(Some(e), st, p),
        reads(None, st, none),
    ensures
        p.bound == Some(e.flags.bound_of()),
        p.depth == Some(e.depth as i32),
        e.score == 32001 <==> p.score is None,
        e.eval == 32001 <==> p.eval is None,
        -32000 <= e.score <= 32000 ==> p.score == Some(e.score as i32),
        -30000 <= e.eval <= 30000 ==> p.eval == Some(e.eval as i32),
        p.best_move matches Some(m) ==> m == e.best_move && crate::board::movegen::generated(
            st,
            m@,
        ),
        none.score is None && none.bound is None && none.best_move is None && none.eval is None,
{
}

/// The evaluation that a node is judged by is that of the table, or else that of the network, with
/// the correction added. In check there is none, and where a move is left out it is the one from
/// before.
pub proof fn law_static_eval(d: SearchData, ply: int)
    ensures
        checked(d.board.state) ==> static_eval_of(d, ply) == 32001 && pat_of(d, ply) == -32000,
        !checked(d.board.state) && !d.stack.at(ply).excluded.null() ==> static_eval_of(d, ply)
            == d.stack.at(ply).eval,
        !checked(d.board.state) && d.stack.at(ply).excluded.null() ==> static_eval_of(d, ply)
            == pat_of(d, ply),
        !checked(d.board.state) ==> pat_of(d, ply) - d.correction_of(ply) == match probe_of(
            d,
            ply,
        ).eval {
            Some(e) => e as int,
            None => evaluation(
                d.network.params(),
                d.board.state.side_to_move,
                d.board.state.mb(),
            ),
        },
{
}

/// A position improves if its evaluation is greater than that of two plies before, or of four
/// where there is none.
pub proof fn law_improves(d: SearchData, eval: int, ply: int)
    ensures
        d.stack.at(ply - 2).eval != 32001 ==> (improves(d, eval, ply) <==> eval > d.stack.at(
            ply - 2,
        ).eval),
        d.stack.at(ply - 2).eval == 32001 && d.stack.at(ply - 4).eval != 32001 ==> (improves(
            d,
            eval,
            ply,
        ) <==> eval > d.stack.at(ply - 4).eval),
        d.stack.at(ply - 2).eval == 32001 && d.stack.at(ply - 4).eval == 32001 ==> !improves(
            d,
            eval,
            ply,
        ),
{
}

/// Only the first thirty-one moves are remembered as tried in vain.
pub proof fn law_remembered(n: Setting, t: Tally, v: Visit)
    requires
        verdict(n, t, v.before, v.m@) is Search,
        v.trial->0.score <= t.alpha || v.trial->0.score <= t.best,
    ensures
        t.count >= 31 ==> counted(n, t, v).quiets == t.quiets && counted(n, t, v).noisies
            == t.noisies,
        t.count < 31 && v.m@.kind.quiet() ==> counted(n, t, v).quiets == t.quiets.push(v.m)
            && counted(n, t, v).noisies == t.noisies,
        t.count < 31 && !v.m@.kind.quiet() ==> counted(n, t, v).noisies == t.noisies.push(v.m)
            && counted(n, t, v).quiets == t.quiets,
{
}

/// On the expected line a better move becomes the first of the line, with the line below it
/// behind; any other move leaves the line as it is.
pub proof fn law_line_kept(
    n: Setting,
    t: Tally,
    m: Move,
    before: SearchData,
    tr: Trial,
    after: SearchData,
)
    requires
        afterwards(n, t, m, before, tr, after),
        n.node is PV,
        0 <= n.ply < 128,
    ensures
        tr.score > t.best && tr.score > t.alpha ==> {
            &&& after.pv.line_spec(n.ply).len() == tr.back.pv.line_spec(n.ply + 1).len() + 1
            &&& after.pv.line_spec(n.ply)[0] == m
            &&& after.pv.line_spec(n.ply).skip(1) == tr.back.pv.line_spec(n.ply + 1)
        },
        tr.score <= t.best || tr.score <= t.alpha ==> after.pv == tr.back.pv,
{
    if tr.score > t.best && tr.score > t.alpha {
        assert(after.pv.line_spec(n.ply).skip(1) =~= tr.back.pv.line_spec(n.ply + 1));
    }
}

/// Before the moves of a node are looked at its evaluation is noted, and the notes of the other
/// plies are as before.
pub proof fn law_prepared(
    d: SearchData,
    mid: SearchData,
    node: Node,
    depth: int,
    ply: int,
    other: int,
)
    requires
        d.wf(),
        prepared(d, mid, node, depth, ply),
        -8 <= ply < 136,
        -8 <= other < 136,
        -40000 <= static_eval_of(d, ply) <= 40000,
    ensures
        mid.stack.at(ply).eval == static_eval_of(d, ply),
        mid.stack.at(ply).excluded == d.stack.at(ply).excluded,
        other != ply ==> mid.stack.at(other) == d.stack.at(other),
        mid.board.state == d.board.state,
        mid.noisy_history == d.noisy_history,
        node is Root || checked(d.board.state) || d.stack.at(ply - 1).eval == 32001
            ==> mid.quiet_history.table() == d.quiet_history.table(),
{
}

/// The nodes that the first `n` workers have counted.
pub open spec fn total_nodes(nodes: Seq<u64>, n: int) -> u64 {
    crate::search::data::counted(nodes, n)
}

/// The counters of all workers add up: a node more of one of them is a node more of all.
pub proof fn law_nodes_add_up(nodes: Seq<u64>, i: int, n: int)
    requires
        0 <= i < n <= nodes.len(),
    ensures
        total_nodes(nodes.update(i, nodes[i].wrapping_add(1)), n) == total_nodes(
            nodes,
            n,
        ).wrapping_add(1),
        (forall|j: int| 0 <= j < n ==> #[trigger] nodes[j] == 0) ==> total_nodes(nodes, n) == 0,
    decreases n,
{
    let after = nodes.update(i, nodes[i].wrapping_add(1));
    if i == n - 1 {
        lemma_same_total(nodes, after, n - 1);
    } else {
        law_nodes_add_up(nodes, i, n - 1);
    }
    if forall|j: int| 0 <= j < n ==> #[trigger] nodes[j] == 0 {
        lemma_no_nodes(nodes, n);
    }
}

proof fn lemma_same_total(a: Seq<u64>, b: Seq<u64>, n: int)
    requires
        forall|j: int| 0 <= j < n ==> #[trigger] a[j] == b[j],
    ensures
        total_nodes(a, n) == total_nodes(b, n),
    decreases n,
{
    if n > 0 {
        assert(a[n - 1] == b[n - 1]);
        lemma_same_total(a, b, n - 1);
    }
}

proof fn lemma_no_nodes(a: Seq<u64>, n: int)
    requires
        forall|j: int| 0 <= j < n ==> #[trigger] a[j] == 0,
    ensures
        total_nodes(a, n) == 0,
    decreases n,
{
    if n > 0 {
        assert(a[n - 1] == 0);
        lemma_no_nodes(a, n - 1);
    }
}

} // verus!
