//! How the iterations of a search follow one another, and whose result is played.

use crate::search::data::{RootMove, SearchData};
use crate::search::runner::{
    around, beyond_depth, completed, first_best, lowered, mate_in_hand, mate_shown, outset, raised,
    settled_move, Runner,
};
use crate::threads::{
    displaces, leader, leader_upto, lowest_upto, votes, votes_upto, weight, SearchResult,
};
use crate::types::moves::Step;
use vstd::prelude::*;

verus! {

/// After a score at its lower end or below, a window reaches below the score, as far as there
/// are scores, and its upper end comes down to the score. Its reach grows by three sixteenths.
pub proof fn law_window_lowered(r: Runner, score: int)
    requires
        r.wf(),
        -32002 <= score <= r.alpha,
    ensures
        ({
            let (alpha, beta, delta) = lowered(r, score);
            &&& alpha < r.alpha || alpha == -32000
            &&& alpha < beta <= r.beta
            &&& score - alpha == r.delta || alpha == -32000
            &&& score <= beta
            &&& alpha > -32000 ==> beta == score
            &&& alpha == -32000 ==> beta == r.beta || beta == r.delta - 32000
            &&& delta >= r.delta
            &&& delta < 64004 ==> 16 * (delta - r.delta) <= 3 * r.delta < 16 * (delta - r.delta + 1)
        }),
{
}

/// After a score at its upper end or above, a window reaches above the score, as far as there
/// are scores, and still holds it; its lower end does not fall. Its reach grows by a little
/// less than a fifth.
pub proof fn law_window_raised(r: Runner, score: int)
    requires
        r.wf(),
        r.beta <= score <= 32002,
    ensures
        ({
            let (alpha, beta, delta) = raised(r, score);
            &&& beta > r.beta || beta == 32000
            &&& r.alpha <= alpha < beta
            &&& beta - score == r.delta || beta == 32000
            &&& alpha <= score
            &&& r.beta - alpha <= r.delta
            &&& r.beta - alpha == r.delta || alpha == r.alpha
            &&& delta >= r.delta
            &&& delta < 64004 ==> 128 * (delta - r.delta) <= 25 * r.delta < 128 * (delta - r.delta
                + 1)
        }),
{
}

/// The window of the next iteration lies around the last score, as far to the one side as to
/// the other where there are scores.
pub proof fn law_window_around(score: int)
    requires
        -32000 < score < 32000,
    ensures
        ({
            let (alpha, beta, delta) = around(score);
            &&& -32000 <= alpha < score < beta <= 32000
            &&& -31975 <= score <= 31975 ==> score - alpha == 25 && beta - score == 25
            &&& delta == 25
        }),
{
}

/// A search for a mate in `n` moves ends with a mate in `k` exactly if `k` is no more than `n`,
/// for either side. No other score ends one for a mate in up to 128 moves.
pub proof fn law_mate_shown(k: int, n: int, score: int)
    requires
        1 <= k <= 128,
        0 <= n <= 127,
        -30744 < score < 30744,
    ensures
        mate_shown(31000 - (2 * k - 1), n) <==> k <= n,
        mate_shown(-31000 + 2 * k, n) <==> k <= n,
        !mate_shown(score, n),
{
}

/// Only the first worker ends a search for a mate, and only if one is asked for.
pub proof fn law_mate_asked_for(r: Runner, d: SearchData)
    ensures
        mate_in_hand(r, d) ==> d.id == 0 && d.time.limits.mate is Some,
        d.id == 0 && d.time.limits.mate is Some ==> (mate_in_hand(r, d) <==> mate_shown(
            r.best_score as int,
            d.time.limits.mate->0 as int,
        )),
{
}

/// A limit of `n` plies lets the first worker search to each depth up to `n` and no further;
/// it holds back no other worker.
pub proof fn law_depth_limit(r: Runner, d: SearchData, n: i32)
    requires
        d.time.limits.depth == Some(n),
    ensures
        d.id == 0 ==> (1 <= r.depth <= n ==> !beyond_depth(r, d)) && (r.depth == n + 1
            ==> beyond_depth(r, d)),
        d.id != 0 ==> !beyond_depth(r, d),
{
}

/// The first of the best moves is one, and no other move has a better score.
pub proof fn law_first_best(moves: Seq<RootMove>, k: int, l: int, j: int)
    requires
        first_best(moves, k),
        first_best(moves, l),
        0 <= j < moves.len(),
    ensures
        k == l,
        moves[j].score <= moves[k].score,
        settled_move(moves[k]).previous_score == moves[k].score,
        settled_move(moves[k]).m == moves[k].m,
{
    if k < l {
        assert(moves[k].score < moves[l].score);
    } else if l < k {
        assert(moves[l].score < moves[k].score);
    }
}

proof fn lemma_lowest_is_least(results: Seq<SearchResult>, n: int)
    requires
        1 <= n <= results.len(),
    ensures
        forall|i: int| 0 <= i < n ==> lowest_upto(results, n) <= (#[trigger] results[i]).score,
        exists|i: int| 0 <= i < n && lowest_upto(results, n) == (#[trigger] results[i]).score,
    decreases n,
{
    if n > 1 {
        lemma_lowest_is_least(results, n - 1);
        let i = choose|i: int|
            0 <= i < n - 1 && lowest_upto(results, n - 1) == (#[trigger] results[i]).score;
        assert(results[i].score == lowest_upto(results, n - 1));
        assert(results[n - 1].score == results[n - 1].score);
    } else {
        assert(results[0].score == lowest_upto(results, 1));
    }
}

/// The word of a worker counts more the higher its score and the deeper its search, and counts
/// at least ten for each ply.
pub proof fn law_weight(a: SearchResult, b: SearchResult, lowest: int)
    requires
        lowest <= a.score <= b.score,
        0 <= a.searched_depth <= b.searched_depth,
    ensures
        weight(a, lowest) <= weight(b, lowest),
        10 * a.searched_depth <= weight(a, lowest),
        a.score == lowest ==> weight(a, lowest) == 10 * a.searched_depth,
{
    let x = a.score - lowest + 10;
    let y = b.score - lowest + 10;
    let p = a.searched_depth as int;
    let q = b.searched_depth as int;
    assert(x * p <= y * q && 10 * p <= x * p) by (nonlinear_arith)
        requires
            10 <= x <= y,
            0 <= p <= q,
    ;
}

/// A move that no worker has found gets no votes, and one that only one worker has found gets
/// the weight of that worker.
pub proof fn law_votes(results: Seq<SearchResult>, s: Step, k: int)
    requires
        0 <= k < results.len(),
    ensures
        (forall|i: int| 0 <= i < results.len() ==> (#[trigger] results[i]).m@ != s) ==> votes(
            results,
            s,
        ) == 0,
        (forall|i: int| 0 <= i < results.len() ==> ((#[trigger] results[i]).m@ == s <==> i == k))
            ==> votes(results, s) == weight(results[k], lowest_upto(results, results.len() as int)),
{
    let n = results.len() as int;
    let low = lowest_upto(results, n);
    if forall|i: int| 0 <= i < n ==> (#[trigger] results[i]).m@ != s {
        lemma_no_votes(results, s, low, n);
    }
    if forall|i: int| 0 <= i < n ==> ((#[trigger] results[i]).m@ == s <==> i == k) {
        lemma_one_vote(results, s, low, n, k);
    }
}

proof fn lemma_no_votes(results: Seq<SearchResult>, s: Step, low: int, n: int)
    requires
        0 <= n <= results.len(),
        forall|i: int| 0 <= i < n ==> (#[trigger] results[i]).m@ != s,
    ensures
        votes_upto(results, s, low, n) == 0,
    decreases n,
{
    if n > 0 {
        assert(results[n - 1].m@ != s);
        lemma_no_votes(results, s, low, n - 1);
    }
}

proof fn lemma_one_vote(results: Seq<SearchResult>, s: Step, low: int, n: int, k: int)
    requires
        0 <= k < n <= results.len(),
        forall|i: int| 0 <= i < n ==> ((#[trigger] results[i]).m@ == s <==> i == k),
    ensures
        votes_upto(results, s, low, n) == weight(results[k], low),
    decreases n,
{
    assert(results[n - 1].m@ == s <==> n - 1 == k);
    if n - 1 == k {
        lemma_no_votes(results, s, low, n - 1);
    } else {
        lemma_one_vote(results, s, low, n - 1, k);
    }
}

/// If no worker sees a loss and one sees a win, the worker that is followed sees the surest win.
pub proof fn law_win_followed(results: Seq<SearchResult>, k: int)
    requires
        0 <= k < results.len(),
        results[k].score >= 30744,
        forall|i: int| 0 <= i < results.len() ==> (#[trigger] results[i]).score > -30744,
    ensures
        0 <= leader(results) < results.len(),
        forall|i: int|
            0 <= i < results.len() ==> (#[trigger] results[i]).score
                <= results[leader(results)].score,
{
    lemma_win_followed(results, results.len() as int);
}

proof fn lemma_win_followed(results: Seq<SearchResult>, n: int)
    requires
        1 <= n <= results.len(),
        forall|i: int| 0 <= i < results.len() ==> (#[trigger] results[i]).score > -30744,
    ensures
        0 <= leader_upto(results, n) < n,
        (exists|k: int| 0 <= k < n && (#[trigger] results[k]).score >= 30744) ==> forall|i: int|
            0 <= i < n ==> (#[trigger] results[i]).score <= results[leader_upto(results, n)].score,
    decreases n,
{
    assert(results[n - 1].score > -30744);
    if n == 1 {
        assert(leader_upto(results, 0) == 0);
        assert(0 <= leader_upto(results, 1) < 1);
    } else {
        lemma_win_followed(results, n - 1);
        let best = leader_upto(results, n - 1);
        assert(results[best].score > -30744);
    }
}

/// If no worker sees a win or a loss, the move of the worker that is followed has at least as
/// many votes as any other, and its word counts as much as that of any worker for a move with
/// as many.
pub proof fn law_votes_followed(results: Seq<SearchResult>, i: int)
    requires
        0 <= i < results.len(),
        forall|j: int| 0 <= j < results.len() ==> -30744 < (#[trigger] results[j]).score < 30744,
    ensures
        0 <= leader(results) < results.len(),
        votes(results, results[i].m@) <= votes(results, results[leader(results)].m@),
        votes(results, results[i].m@) == votes(results, results[leader(results)].m@) ==> weight(
            results[i],
            lowest_upto(results, results.len() as int),
        ) <= weight(results[leader(results)], lowest_upto(results, results.len() as int)),
        forall|j: int|
            0 <= j < results.len() ==> lowest_upto(results, results.len() as int) <= (
            #[trigger] results[j]).score,
{
    lemma_votes_followed(results, results.len() as int);
    lemma_lowest_is_least(results, results.len() as int);
}

proof fn lemma_votes_followed(results: Seq<SearchResult>, n: int)
    requires
        1 <= n <= results.len(),
        forall|j: int| 0 <= j < results.len() ==> -30744 < (#[trigger] results[j]).score < 30744,
    ensures
        0 <= leader_upto(results, n) < n,
        forall|i: int|
            #![trigger results[i]]
            0 <= i < n ==> {
                let best = results[leader_upto(results, n)];
                let low = lowest_upto(results, results.len() as int);
                &&& votes(results, results[i].m@) <= votes(results, best.m@)
                &&& votes(results, results[i].m@) == votes(results, best.m@) ==> weight(
                    results[i],
                    low,
                ) <= weight(best, low)
            },
    decreases n,
{
    assert(-30744 < results[n - 1].score < 30744);
    if n == 1 {
        assert(leader_upto(results, 0) == 0);
        assert(0 <= leader_upto(results, 1) < 1);
    } else {
        lemma_votes_followed(results, n - 1);
        let best = leader_upto(results, n - 1);
        assert(-30744 < results[best].score < 30744);
    }
}

/// A worker that sees a win is displaced only by a surer win, and one that sees a loss only by
/// an earlier one.
pub proof fn law_decided_kept(results: Seq<SearchResult>, current: SearchResult, best: SearchResult)
    requires
        displaces(results, current, best),
    ensures
        best.score >= 30744 ==> current.score > best.score,
        best.score <= -30744 ==> current.score < best.score,
{
}

/// A result counts exactly if it has a move, a depth and a score that is known.
pub proof fn law_counted(r: SearchResult)
    ensures
        r.counts() <==> !r.m.null() && r.searched_depth >= 1 && r.score != 32001,
{
}

/// The first window of a search holds every score, and the first iteration is one ply deep.
pub proof fn law_outset(r: Runner, score: int)
    requires
        outset(r),
        -32000 < score < 32000,
    ensures
        r.alpha < score < r.beta,
        r.depth == 1,
        r.delta == 24,
        r.move_stability == 0,
{
}

/// With a complete iteration the depth grows by one, the best move is one with the greatest
/// score and comes first, the others follow in the order of their scores, and how often it has
/// been the best in a row is counted.
pub proof fn law_completed(
    a: Runner,
    b: Runner,
    before: SearchData,
    after: SearchData,
    i: int,
    j: int,
)
    requires
        completed(a, b, before, after),
        a.wf(),
        0 <= i < before.root_moves@.len(),
        0 <= j < after.root_moves@.len(),
    ensures
        after.best_move matches Some(rm) && rm.score == b.best_score && rm.score
            >= before.root_moves@[i].score && after.root_moves@[j].score <= rm.score,
        a.depth < 0x7fffffff ==> b.depth == a.depth + 1,
        before.best_move is None ==> b.move_stability == 0,
        before.best_move matches Some(last) ==> last.m@ != (after.best_move->0).m@
            ==> b.move_stability == 0,
        before.best_move matches Some(last) ==> last.m@ == (after.best_move->0).m@
            && a.move_stability < 100 ==> b.move_stability == a.move_stability + 1,
        after.completed_depth == a.depth,
        after.board == before.board,
{
    let k = choose|k: int| #[trigger]
        first_best(before.root_moves@, k) && after.root_moves@[0] == settled_move(
            before.root_moves@[k],
        );
    assert(before.root_moves@[i].score <= before.root_moves@[k].score);
    assert(j == 0 || after.root_moves@[0].score >= after.root_moves@[j].score);
}

} // verus!
