//! The choice between the results of several workers.

use crate::board::Board;
use crate::board::movegen::{generated, move_order, MoveGenKind};
use crate::types::moves::{Move, Step};
use crate::types::score::{is_decisive, is_loss, is_win, losing, winning, NO_SCORE};
use vstd::prelude::*;

verus! {

/// What a worker has found: its best move with the score, and how deep it has searched.
#[derive(Debug, Clone, Copy, PartialEq)]
pub struct SearchResult {
    pub id: usize,
    pub m: Move,
    pub score: i32,
    pub searched_depth: i32,
}

impl SearchResult {
    /// The worker has found something.
    pub open spec fn counts(self) -> bool {
        !self.m.null() && self.searched_depth > 0 && self.score != NO_SCORE
    }

    /// The numbers are those that a search gives.
    pub open spec fn wf(self) -> bool {
        -100000 <= self.score <= 100000 && 0 <= self.searched_depth
    }

    pub fn is_counted(&self) -> (res: bool)
        ensures
            res == self.counts(),
    {
        !self.m.is_null() && self.searched_depth > 0 && self.score != NO_SCORE
    }
}

/// The lowest score among the first `n` results.
pub open spec fn lowest_upto(results: Seq<SearchResult>, n: int) -> int
    decreases n,
{
    if n <= 1 {
        results[0].score as int
    } else {
        let below = lowest_upto(results, n - 1);
        if results[n - 1].score < below {
            results[n - 1].score as int
        } else {
            below
        }
    }
}

/// How much the word of a worker counts: by its score above the lowest, and by its depth.
pub open spec fn weight(r: SearchResult, lowest: int) -> int {
    (r.score - lowest + 10) * r.searched_depth
}

/// What the first `n` workers give to a move.
pub open spec fn votes_upto(results: Seq<SearchResult>, s: Step, lowest: int, n: int) -> int
    decreases n,
{
    if n <= 0 {
        0
    } else {
        votes_upto(results, s, lowest, n - 1) + if results[n - 1].m@ == s {
            weight(results[n - 1], lowest)
        } else {
            0
        }
    }
}

pub open spec fn votes(results: Seq<SearchResult>, s: Step) -> int {
    votes_upto(results, s, lowest_upto(results, results.len() as int), results.len() as int)
}

/// Whether `current` takes the place of `best`: a win counts most, a loss is left only for
/// an even clearer loss, then the votes decide, and then the weight of the worker.
pub open spec fn displaces(
    results: Seq<SearchResult>,
    current: SearchResult,
    best: SearchResult,
) -> bool {
    let lowest = lowest_upto(results, results.len() as int);
    if winning(best.score as int) {
        current.score > best.score
    } else if losing(best.score as int) {
        losing(current.score as int) && current.score < best.score
    } else if winning(current.score as int) || losing(current.score as int) {
        true
    } else if votes(results, current.m@) > votes(results, best.m@) {
        true
    } else {
        votes(results, current.m@) == votes(results, best.m@) && weight(current, lowest) > weight(
            best,
            lowest,
        )
    }
}

/// The number of the worker that is followed, after a look at the first `n`.
pub open spec fn leader_upto(results: Seq<SearchResult>, n: int) -> int
    decreases n,
{
    if n <= 0 {
        0
    } else {
        let best = leader_upto(results, n - 1);
        if displaces(results, results[n - 1], results[best]) {
            n - 1
        } else {
            best
        }
    }
}

/// The number of the worker that is followed.
pub open spec fn leader(results: Seq<SearchResult>) -> int {
    leader_upto(results, results.len() as int)
}

spec fn sane(results: Seq<SearchResult>) -> bool {
    &&& results.len() <= 512
    &&& forall|i: int| 0 <= i < results.len() ==> (#[trigger] results[i]).wf()
}

proof fn lemma_lowest(results: Seq<SearchResult>, n: int)
    requires
        sane(results),
        1 <= n <= results.len(),
    ensures
        -100000 <= lowest_upto(results, n) <= 100000,
        forall|i: int| 0 <= i < n ==> lowest_upto(results, n) <= (#[trigger] results[i]).score,
    decreases n,
{
    assert(results[n - 1].wf());
    if n > 1 {
        lemma_lowest(results, n - 1);
    } else {
        assert(results[0].wf());
    }
}

proof fn lemma_weight(r: SearchResult, lowest: int)
    requires
        r.wf(),
        -100000 <= lowest <= r.score,
    ensures
        0 <= weight(r, lowest) <= 440000000000000,
{
    let a = r.score - lowest + 10;
    let b = r.searched_depth as int;
    assert(0 <= a * b <= 440000000000000) by (nonlinear_arith)
        requires
            0 <= a <= 200010,
            0 <= b <= 0x7fffffff,
    ;
}

proof fn lemma_votes(results: Seq<SearchResult>, s: Step, lowest: int, n: int)
    requires
        sane(results),
        0 <= n <= results.len(),
        -100000 <= lowest,
        forall|i: int| 0 <= i < results.len() ==> lowest <= (#[trigger] results[i]).score,
    ensures
        0 <= votes_upto(results, s, lowest, n) <= 440000000000000 * n,
    decreases n,
{
    if n > 0 {
        lemma_votes(results, s, lowest, n - 1);
        assert(results[n - 1].wf());
        lemma_weight(results[n - 1], lowest);
    }
}

fn thread_weight(r: &SearchResult, lowest: i64) -> (res: i64)
    requires
        r.wf(),
        -100000 <= lowest <= r.score,
    ensures
        res == weight(*r, lowest as int),
        0 <= res <= 440000000000000,
{
    proof {
        lemma_weight(*r, lowest as int);
    }
    (r.score as i64 - lowest + 10) * (r.searched_depth as i64)
}

fn lowest_score(results: &Vec<SearchResult>) -> (res: i64)
    requires
        sane(results@),
        results@.len() > 0,
    ensures
        res == lowest_upto(results@, results@.len() as int),
{
    let mut lowest: i64 = results[0].score as i64;
    let mut i: usize = 1;
    while i < results.len()
        invariant
            1 <= i <= results@.len(),
            lowest == lowest_upto(results@, i as int),
        decreases results@.len() - i,
    {
        if (results[i].score as i64) < lowest {
            lowest = results[i].score as i64;
        }
        i += 1;
    }
    lowest
}

fn count_votes(results: &Vec<SearchResult>, m: Move, lowest: i64) -> (res: i64)
    requires
        sane(results@),
        -100000 <= lowest,
        forall|i: int| 0 <= i < results@.len() ==> lowest <= (#[trigger] results@[i]).score,
    ensures
        res == votes_upto(results@, m@, lowest as int, results@.len() as int),
{
    let mut total: i64 = 0;
    let mut i: usize = 0;
    while i < results.len()
        invariant
            i <= results@.len(),
            sane(results@),
            -100000 <= lowest,
            forall|i: int| 0 <= i < results@.len() ==> lowest <= (#[trigger] results@[i]).score,
            total == votes_upto(results@, m@, lowest as int, i as int),
        decreases results@.len() - i,
    {
        proof {
            lemma_votes(results@, m@, lowest as int, i as int);
            assert(results@[i as int].wf());
        }
        if results[i].m.same(&m) {
            total = total + thread_weight(&results[i], lowest);
        }
        i += 1;
    }
    total
}

/// The number of the worker to follow.
pub fn best_result(results: &Vec<SearchResult>) -> (res: usize)
    requires
        0 < results@.len() <= 512,
        forall|i: int| 0 <= i < results@.len() ==> (#[trigger] results@[i]).wf(),
    ensures
        res == leader(results@),
        res < results@.len(),
{
    let lowest = lowest_score(results);
    proof {
        lemma_lowest(results@, results@.len() as int);
    }
    let mut best_index: usize = 0;
    let mut i: usize = 0;
    while i < results.len()
        invariant
            i <= results@.len(),
            best_index < results@.len(),
            sane(results@),
            lowest == lowest_upto(results@, results@.len() as int),
            -100000 <= lowest <= 100000,
            forall|i: int| 0 <= i < results@.len() ==> lowest <= (#[trigger] results@[i]).score,
            best_index == leader_upto(results@, i as int),
        decreases results@.len() - i,
    {
        let best = results[best_index];
        let current = results[i];
        assert(results@[best_index as int].wf() && results@[i as int].wf());
        let displaced: bool = if is_win(best.score) {
            current.score > best.score
        } else if is_loss(best.score) {
            is_loss(current.score) && current.score < best.score
        } else if is_decisive(current.score) {
            true
        } else {
            let ours: i64 = count_votes(results, current.m, lowest);
            let theirs: i64 = count_votes(results, best.m, lowest);
            ours > theirs || (ours == theirs && thread_weight(&current, lowest) > thread_weight(
                &best,
                lowest,
            ))
        };
        if displaced {
            best_index = i;
        }
        i += 1;
    }
    best_index
}

/// The results that count.
pub fn counted_results(results: &Vec<SearchResult>) -> (res: Vec<SearchResult>)
    ensures
        res@ == results@.filter(|r: SearchResult| r.counts()),
{
    let ghost f = |r: SearchResult| r.counts();
    let mut kept: Vec<SearchResult> = Vec::new();
    let mut i: usize = 0;
    proof {
        assert(results@.subrange(0, 0) =~= Seq::<SearchResult>::empty());
        reveal(Seq::filter);
    }
    while i < results.len()
        invariant
            i <= results@.len(),
            f == (|r: SearchResult| r.counts()),
            kept@ == results@.subrange(0, i as int).filter(f),
        decreases results@.len() - i,
    {
        let ghost before = results@.subrange(0, i as int);
        let r = results[i];
        proof {
            let next = results@.subrange(0, i + 1);
            assert(next =~= before.push(r));
            assert(next.drop_last() =~= before);
            reveal(Seq::filter);
        }
        if r.is_counted() {
            kept.push(r);
        }
        i += 1;
    }
    assert(results@.subrange(0, results@.len() as int) =~= results@);
    kept
}

/// The result to follow, if any counts, and the move to play: that of the result, or else
/// the first move of the position, or none if there is no move.
pub fn choose_move(results: &Vec<SearchResult>, board: &Board) -> (res: (
    Option<SearchResult>,
    Option<Move>,
))
    requires
        board.wf(),
        results@.len() <= 512,
        forall|i: int| 0 <= i < results@.len() ==> (#[trigger] results@[i]).wf(),
    ensures
        ({
            let counted = results@.filter(|r: SearchResult| r.counts());
            if counted.len() > 0 {
                &&& res.0 == Some(counted[leader(counted)])
                &&& res.1 == Some(counted[leader(counted)].m)
            } else {
                &&& res.0 is None
                &&& match res.1 {
                    Some(m) => {
                        let list = move_order(board.state.position(), MoveGenKind::All);
                        generated(board.state, m@) && list.len() > 0 && m@ == list[0]
                    },
                    None => forall|s: Step| !#[trigger] generated(board.state, s),
                }
            }
        }),
{
    let counted = counted_results(results);
    proof {
        let f = |r: SearchResult| r.counts();
        results@.lemma_filter_len(f);
        assert forall|i: int| 0 <= i < counted@.len() implies (#[trigger] counted@[i]).wf() by {
            lemma_filter_member(results@, i);
        }
    }
    if counted.len() > 0 {
        let best = counted[best_result(&counted)];
        return (Some(best), Some(best.m));
    }
    let moves = board.generate_moves(MoveGenKind::All);
    if moves.is_empty() {
        proof {
            assert forall|s: Step| !#[trigger] generated(board.state, s) by {
                assert(!moves@.contains(s));
            }
        }
        return (None, None);
    }
    let m = moves.get(0).mv;
    assert(moves@.contains(moves@[0]));
    (None, Some(m))
}

/// What a filter lets through was there before.
proof fn lemma_filter_member(results: Seq<SearchResult>, i: int)
    requires
        0 <= i < results.filter(|r: SearchResult| r.counts()).len(),
    ensures
        results.contains(results.filter(|r: SearchResult| r.counts())[i]),
    decreases results.len(),
{
    reveal(Seq::filter);
    let f = |r: SearchResult| r.counts();
    let x = results.filter(f)[i];
    let rest = results.drop_last();
    if i < rest.filter(f).len() {
        lemma_filter_member(rest, i);
        let k = choose|k: int| 0 <= k < rest.len() && rest[k] == x;
        assert(results[k] == x);
    } else {
        assert(results[results.len() - 1] == x);
    }
}

} // verus!
