//! Laws of the moves that a node has looked at: which of them count, and why the others do
//! not.

use crate::board::BoardState;
use crate::board::legality::{fair, law_generated_movable};
use crate::board::movegen::generated;
use crate::board::see::wins_exchange;
use crate::board::status::checks_directly;
use crate::search::{at_once, checked, kept, no_moves, Node};
use crate::search::account::{
    after_pass, after_single, broken_off, closed, closed_quietly, counted, ended, explained,
    extended, looked_into, opening, outcome, picker_after, played, prepared, quiet_setting, quieted,
    ranked, ranked_quietly, set_up, setting_of, state_after, tally, verdict, visit_made, visited,
    Setting, Tally, Visit, Walk,
};
use crate::search::data::SearchData;
use crate::search::learning::standing_of;
use crate::search::movepicker::gave;
use crate::search::picking::{giving, law_drained, picker_at, skipped, was_given, Giving};
use crate::search::pruning::{larger, lesser, loss_allowed};
use crate::types::moves::Step;
use crate::types::score::{losing, TIMEOUT};
use vstd::prelude::*;

verus! {

/// A move was searched.
pub open spec fn was_searched(visits: Seq<Visit>, s: Step) -> bool {
    exists|i: int|
        0 <= i < visits.len() && (#[trigger] visits[i]).m@ == s && visits[i].trial is Some
}

/// The moves so far when move `i` is looked at.
pub open spec fn tally_at(n: Setting, visits: Seq<Visit>, i: int) -> Tally {
    tally(n, visits.take(i))
}

/// Looking at a move leaves the position as it was.
proof fn lemma_board_kept(n: Setting, t: Tally, v: Visit)
    requires
        visit_made(n, t, v),
    ensures
        v.after.board.state == v.before.board.state,
{
    if let Some(tr) = v.trial {
        reveal(played);
        let top = v.before.board.state_stack@.push(v.before.board.state);
        assert(tr.made.board.state_stack@ == top);
        assert(tr.back.board.state == top.last());
    }
}

/// All moves are looked at in the same position.
proof fn lemma_boards_kept(n: Setting, start: SearchData, w: Walk, i: int)
    requires
        visited(n, start, w.first, w.visits),
        0 <= i <= w.visits.len(),
    ensures
        state_after(start, w.visits.take(i)).board.state == start.board.state,
        i < w.visits.len() ==> w.visits[i].before.board.state == start.board.state,
    decreases i,
{
    reveal(visited);
    if i > 0 {
        lemma_boards_kept(n, start, w, i - 1);
        lemma_board_kept(n, tally(n, w.visits.take(i - 1)), w.visits[i - 1]);
        assert(w.visits.take(i).last() == w.visits[i - 1]);
    }
    if i < w.visits.len() {
        assert(w.visits[i].before == state_after(start, w.visits.take(i)));
    }
}

/// After move `i`, which is quiet and late or futile, no more quiet moves are asked for.
pub open spec fn ends_quiets(n: Setting, visits: Seq<Visit>, i: int) -> bool {
    let v = visits[i];
    let said = verdict(n, tally_at(n, visits, i), v.before, v.m@);
    0 <= i < visits.len() && v.m@.kind.quiet() && (said is Late || said is Futile)
}

/// A score is the greatest of those of the moves that were searched, and of the score without
/// any move.
pub open spec fn best_of(n: Setting, visits: Seq<Visit>, best: int) -> bool {
    &&& best >= n.floor
    &&& forall|i: int|
        0 <= i < visits.len() && (#[trigger] visits[i]).trial is Some ==> best
            >= visits[i].trial->0.score
    &&& best == n.floor || exists|i: int|
        0 <= i < visits.len() && (#[trigger] visits[i]).trial is Some && visits[i].trial->0.score
            == best
}

/// What one more move changes.
proof fn lemma_step(n: Setting, t: Tally, v: Visit)
    requires
        visit_made(n, t, v),
    ensures
        !t.cut && !t.over,
        v.trial is Some <==> verdict(n, t, v.before, v.m@) is Search,
        ({
            let next = counted(n, t, v);
            let said = verdict(n, t, v.before, v.m@);
            &&& next.best == match v.trial {
                Some(tr) => larger(t.best, tr.score),
                None => t.best,
            }
            &&& next.cut ==> next.count == t.count + 1 && next.best >= n.beta
            &&& next.count == t.count || next.count == t.count + 1
            &&& n.horizon ==> next.count == t.count + 1 && next.skip == t.skip
            &&& t.skip ==> next.skip
            &&& next.skip && !t.skip ==> v.m@.kind.quiet() && (said is Late || said is Futile)
            &&& next.over ==> n.horizon && said is Enough
        }),
{
}

/// What is known of move `i`.
proof fn lemma_visit_at(n: Setting, start: SearchData, w: Walk, i: int)
    requires
        visited(n, start, w.first, w.visits),
        0 <= i < w.visits.len(),
    ensures
        visit_made(n, tally_at(n, w.visits, i), w.visits[i]),
        tally_at(n, w.visits, i + 1) == counted(n, tally_at(n, w.visits, i), w.visits[i]),
{
    assert(visit_made(n, tally_at(n, w.visits, i), w.visits[i])) by {
        reveal(visited);
    }
    assert(tally_at(n, w.visits, i + 1) == counted(n, tally_at(n, w.visits, i), w.visits[i])) by {
        reveal(tally);
        assert(w.visits.take(i + 1).drop_last() =~= w.visits.take(i));
        assert(w.visits.take(i + 1).last() == w.visits[i]);
    }
}

/// What is known of move `i` and of what it changes.
proof fn lemma_step_at(n: Setting, start: SearchData, w: Walk, i: int)
    requires
        visited(n, start, w.first, w.visits),
        0 <= i < w.visits.len(),
    ensures
        ({
            let v = w.visits[i];
            let t = tally_at(n, w.visits, i);
            let next = tally_at(n, w.visits, i + 1);
            let said = verdict(n, t, v.before, v.m@);
            &&& !t.cut && !t.over
            &&& v.trial is Some <==> said is Search
            &&& next.best == match v.trial {
                Some(tr) => larger(t.best, tr.score),
                None => t.best,
            }
            &&& next.cut ==> next.count == t.count + 1 && next.best >= n.beta
            &&& next.count == t.count || next.count == t.count + 1
            &&& n.horizon ==> next.count == t.count + 1 && next.skip == t.skip
            &&& t.skip ==> next.skip
            &&& next.skip && !t.skip ==> v.m@.kind.quiet() && (said is Late || said is Futile)
            &&& next.over ==> n.horizon && said is Enough
        }),
{
    lemma_visit_at(n, start, w, i);
    lemma_step(n, tally_at(n, w.visits, i), w.visits[i]);
}

/// What holds after the first `k` moves.
proof fn lemma_tally_at(n: Setting, start: SearchData, w: Walk, k: int)
    requires
        visited(n, start, w.first, w.visits),
        0 <= k <= w.visits.len(),
    ensures
        ({
            let t = tally_at(n, w.visits, k);
            &&& t.count >= 0
            &&& t.cut ==> t.count > 0 && t.best >= n.beta
            &&& !n.horizon ==> !t.over
            &&& !n.horizon && t.skip ==> exists|i: int| #[trigger] ends_quiets(n, w.visits, i)
            &&& n.horizon ==> t.skip == !n.in_check && t.count == k
            &&& t.over ==> k > 0 && verdict(
                n,
                tally_at(n, w.visits, k - 1),
                w.visits[k - 1].before,
                w.visits[k - 1].m@,
            ) is Enough
            &&& forall|i: int|
                0 <= i <= k && (#[trigger] tally_at(n, w.visits, i)).skip ==> t.skip
        }),
    decreases k,
{
    if k > 0 {
        lemma_tally_at(n, start, w, k - 1);
        lemma_step_at(n, start, w, k - 1);
        if !n.horizon && tally_at(n, w.visits, k).skip && !tally_at(n, w.visits, k - 1).skip {
            assert(ends_quiets(n, w.visits, k - 1));
        }
    } else {
        assert(tally_at(n, w.visits, 0) == opening(n)) by {
            reveal(tally);
        }
    }
}

/// The best score after the first `k` moves.
proof fn lemma_best_at(n: Setting, start: SearchData, w: Walk, k: int)
    requires
        visited(n, start, w.first, w.visits),
        0 <= k <= w.visits.len(),
    ensures
        best_of(n, w.visits.take(k), tally_at(n, w.visits, k).best),
    decreases k,
{
    let now = w.visits.take(k);
    let best = tally_at(n, w.visits, k).best;
    if k > 0 {
        lemma_best_at(n, start, w, k - 1);
        lemma_step_at(n, start, w, k - 1);
        let before = w.visits.take(k - 1);
        let v = w.visits[k - 1];
        assert(now[k - 1] == v);
        assert forall|i: int| 0 <= i < now.len() && (#[trigger] now[i]).trial is Some implies best
            >= now[i].trial->0.score by {
            if i < k - 1 {
                assert(before[i] == now[i]);
            }
        }
        if best != n.floor && !(v.trial is Some && v.trial->0.score == best) {
            let i = choose|i: int|
                0 <= i < before.len() && (#[trigger] before[i]).trial is Some
                    && before[i].trial->0.score == tally_at(n, w.visits, k - 1).best;
            assert(now[i] == before[i]);
        }
    } else {
        assert(tally_at(n, w.visits, 0) == opening(n)) by {
            reveal(tally);
        }
    }
}

/// The moves that a node has looked at, as the picker has given them.
spec fn givings(n: Setting, visits: Seq<Visit>) -> Seq<Giving> {
    Seq::new(
        visits.len(),
        |i: int|
            Giving {
                picker: visits[i].picker,
                at: visits[i].before,
                skip: tally_at(n, visits, i).skip,
                m: visits[i].m,
                left: visits[i].left,
            },
    )
}

/// A move was looked at.
pub open spec fn was_seen(visits: Seq<Visit>, s: Step) -> bool {
    exists|i: int| 0 <= i < visits.len() && (#[trigger] visits[i]).m@ == s
}

/// Each move of the position is looked at, but for quiet ones that are not asked for, unless
/// the moves come to an end before.
proof fn lemma_seen(n: Setting, start: SearchData, w: Walk)
    requires
        visited(n, start, w.first, w.visits),
        ended(n, start, w),
        !tally(n, w.visits).cut,
        !tally(n, w.visits).over,
    ensures
        forall|s: Step| #[trigger]
            generated(start.board.state, s) ==> was_seen(w.visits, s) || s.kind.quiet() && tally(
                n,
                w.visits,
            ).skip,
{
    let gs = givings(n, w.visits);
    let st = start.board.state;
    let k = w.visits.len() as int;
    assert(w.visits.take(k) =~= w.visits);
    lemma_tally_at(n, start, w, k);
    lemma_boards_kept(n, start, w, k);
    assert(giving(w.first, gs, st, n.ply)) by {
        reveal(visited);
        assert forall|i: int|
            #![trigger gs[i]]
            0 <= i < gs.len() implies gave(
            gs[i].picker,
            gs[i].at,
            gs[i].skip,
            n.ply,
            gs[i].left,
            Some(gs[i].m),
        ) && gs[i].at.board.state == st && gs[i].picker == picker_at(w.first, gs, i) by {
            lemma_boards_kept(n, start, w, i);
            let v = w.visits[i];
            assert(visit_made(n, tally(n, w.visits.take(i)), v));
            assert(v.picker == picker_after(w.first, w.visits.take(i)));
            if i > 0 {
                assert(w.visits.take(i).last() == w.visits[i - 1]);
            }
        }
    }
    assert(picker_at(w.first, gs, k) == picker_after(w.first, w.visits));
    law_drained(
        w.first,
        gs,
        st,
        n.ply,
        n.probe.best_move,
        state_after(start, w.visits),
        tally(n, w.visits).skip,
        w.end,
    );
    assert forall|s: Step| #[trigger] generated(st, s) implies was_seen(w.visits, s)
        || s.kind.quiet() && tally(n, w.visits).skip by {
        if was_given(gs, s) {
            let i = choose|i: int| 0 <= i < gs.len() && (#[trigger] gs[i]).m@ == s;
            assert(w.visits[i].m@ == s);
        } else if skipped(gs) {
            let i = choose|i: int| 0 <= i < gs.len() && (#[trigger] gs[i]).skip;
            assert(tally_at(n, w.visits, i).skip);
        }
    }
}

/// Why a search has not searched a move: it is left out; it is noisy and loses too much; it is
/// quiet and not before one that is late or futile; or it is quiet and has done badly.
pub open spec fn passed_up(n: Setting, st: BoardState, visits: Seq<Visit>, s: Step) -> bool {
    ||| s == n.left_out@
    ||| !s.kind.quiet() && !wins_exchange(st, s, loss_allowed(n.depth))
    ||| s.kind.quiet() && exists|i: int| #[trigger] ends_quiets(n, visits, i)
    ||| s.kind.quiet() && n.depth <= 6 && exists|i: int|
        0 <= i < visits.len() && (#[trigger] visits[i]).m@ == s && standing_of(
            visits[i].before,
            s,
            n.ply,
        ) < -1481 * n.depth
}

/// At the root and in check quiet moves do not come to an end.
proof fn lemma_root_quiets(n: Setting, visits: Seq<Visit>, i: int)
    requires
        !n.horizon,
        ends_quiets(n, visits, i),
    ensures
        !(n.node is Root) && !n.in_check,
{
}

/// A move that a search has looked at and not searched.
proof fn lemma_why(n: Setting, start: SearchData, w: Walk, i: int)
    requires
        visited(n, start, w.first, w.visits),
        0 <= i < w.visits.len(),
        w.visits[i].trial is None,
        !n.horizon,
    ensures
        passed_up(n, start.board.state, w.visits, w.visits[i].m@),
        n.node is Root || n.in_check ==> w.visits[i].m@ == n.left_out@,
{
    lemma_boards_kept(n, start, w, i);
    lemma_step_at(n, start, w, i);
    let v = w.visits[i];
    let said = verdict(n, tally_at(n, w.visits, i), v.before, v.m@);
    if said is Late || said is Futile {
        assert(ends_quiets(n, w.visits, i));
    }
}

/// The moves that a node has looked at.
proof fn lemma_walk(n: Setting, start: SearchData, b: SearchData, res: int) -> (w: Walk)
    requires
        ranked(n, start, b, res),
    ensures
        visited(n, start, w.first, w.visits),
        ended(n, start, w),
        closed(n, start, w.visits, b, res),
{
    reveal(visited);
    reveal(ranked);
    let w = choose|w: Walk| #[trigger]
        ended(n, start, w) && visited(n, start, w.first, w.visits) && closed(
            n,
            start,
            w.visits,
            b,
            res,
        );
    w
}

/// Every move of the position was searched, or there is a reason why not.
proof fn lemma_accounted(n: Setting, start: SearchData, w: Walk)
    requires
        visited(n, start, w.first, w.visits),
        ended(n, start, w),
        !tally(n, w.visits).cut,
        !n.horizon,
    ensures
        forall|s: Step| #[trigger]
            generated(start.board.state, s) ==> was_searched(w.visits, s) || passed_up(
                n,
                start.board.state,
                w.visits,
                s,
            ),
        n.node is Root || n.in_check ==> forall|s: Step| #[trigger]
            generated(start.board.state, s) ==> was_searched(w.visits, s) || s == n.left_out@,
{
    let st = start.board.state;
    let k = w.visits.len() as int;
    assert(w.visits.take(k) =~= w.visits);
    lemma_tally_at(n, start, w, k);
    lemma_seen(n, start, w);
    assert forall|s: Step| #[trigger] generated(st, s) implies (was_searched(w.visits, s)
        || passed_up(n, st, w.visits, s)) && (n.node is Root || n.in_check ==> was_searched(
        w.visits,
        s,
    ) || s == n.left_out@) by {
        if was_seen(w.visits, s) {
            let i = choose|i: int| 0 <= i < w.visits.len() && (#[trigger] w.visits[i]).m@ == s;
            if w.visits[i].trial is None {
                lemma_why(n, start, w, i);
            }
        } else {
            let i = choose|i: int| #[trigger] ends_quiets(n, w.visits, i);
            lemma_root_quiets(n, w.visits, i);
        }
    }
}

/// The score of a node is the greatest of those of the moves that were searched. Where it is
/// below the upper end of the window, every move of the position was searched, or there is a
/// reason why not; at the root and in check every move was, but the one that is left out.
pub proof fn law_moves_accounted(n: Setting, start: SearchData, b: SearchData, res: int) -> (w:
    Walk)
    requires
        ranked(n, start, b, res),
        !n.horizon,
    ensures
        visited(n, start, w.first, w.visits),
        ended(n, start, w),
        closed(n, start, w.visits, b, res),
        best_of(n, w.visits, tally(n, w.visits).best),
        res < n.beta ==> forall|s: Step| #[trigger]
            generated(start.board.state, s) ==> was_searched(w.visits, s) || passed_up(
                n,
                start.board.state,
                w.visits,
                s,
            ),
        res < n.beta && (n.node is Root || n.in_check) ==> forall|s: Step| #[trigger]
            generated(start.board.state, s) ==> was_searched(w.visits, s) || s == n.left_out@,
{
    let w = lemma_walk(n, start, b, res);
    assert(w.visits.take(w.visits.len() as int) =~= w.visits);
    lemma_best_at(n, start, w, w.visits.len() as int);
    lemma_tally_at(n, start, w, w.visits.len() as int);
    if !tally(n, w.visits).cut {
        lemma_accounted(n, start, w);
    }
    w
}

/// Why a quiet search has not searched a move: there is a score that is not lost, and the move
/// loses too much, or three moves have been looked at of which the last gives no direct check
/// and is not searched, and neither are those after it.
pub open spec fn passed_up_quietly(
    n: Setting,
    st: BoardState,
    visits: Seq<Visit>,
    s: Step,
) -> bool {
    ||| !wins_exchange(st, s, -112) && exists|i: int|
        0 <= i < visits.len() && (#[trigger] visits[i]).m@ == s && !losing(
            tally_at(n, visits, i).best,
        )
    ||| visits.len() >= 3 && {
        let last = visits.last();
        &&& last.trial is None
        &&& !checks_directly(st.mb(), last.m@)
        &&& !losing(tally_at(n, visits, visits.len() - 1).best)
        &&& s == last.m@ || !was_seen(visits, s)
    }
}

/// The last move of a quiet search that has seen enough.
proof fn lemma_enough(n: Setting, start: SearchData, w: Walk)
    requires
        visited(n, start, w.first, w.visits),
        n.horizon,
        tally(n, w.visits).over,
    ensures
        w.visits.len() >= 3,
        w.visits.last().trial is None,
        !checks_directly(start.board.state.mb(), w.visits.last().m@),
        !losing(tally_at(n, w.visits, w.visits.len() - 1).best),
{
    let k = w.visits.len() as int;
    assert(w.visits.take(k) =~= w.visits);
    lemma_tally_at(n, start, w, k);
    lemma_tally_at(n, start, w, k - 1);
    lemma_boards_kept(n, start, w, k - 1);
    lemma_step_at(n, start, w, k - 1);
}

/// A move that a quiet search has looked at and not searched.
proof fn lemma_why_quietly(n: Setting, start: SearchData, w: Walk, i: int)
    requires
        visited(n, start, w.first, w.visits),
        0 <= i < w.visits.len(),
        w.visits[i].trial is None,
        n.horizon,
    ensures
        passed_up_quietly(n, start.board.state, w.visits, w.visits[i].m@),
{
    lemma_boards_kept(n, start, w, i);
    lemma_step_at(n, start, w, i);
    lemma_tally_at(n, start, w, i);
    let v = w.visits[i];
    let t = tally_at(n, w.visits, i);
    if verdict(n, t, v.before, v.m@) is Enough {
        lemma_visit_at(n, start, w, i);
        if i + 1 < w.visits.len() {
            lemma_step_at(n, start, w, i + 1);
        }
        assert(w.visits.last() == v);
    }
}

/// The moves that a quiet search has looked at.
proof fn lemma_walk_quietly(n: Setting, start: SearchData, b: SearchData, res: int) -> (w: Walk)
    requires
        ranked_quietly(n, start, b, res),
    ensures
        visited(n, start, w.first, w.visits),
        ended(n, start, w),
        closed_quietly(n, start, w.visits, b, res),
{
    reveal(visited);
    reveal(ranked_quietly);
    let w = choose|w: Walk| #[trigger]
        ended(n, start, w) && visited(n, start, w.first, w.visits) && closed_quietly(
            n,
            start,
            w.visits,
            b,
            res,
        );
    w
}

/// Every noisy move of the position was searched, and in check every move, or there is a
/// reason why not.
proof fn lemma_noisy_accounted(n: Setting, start: SearchData, w: Walk)
    requires
        visited(n, start, w.first, w.visits),
        ended(n, start, w),
        !tally(n, w.visits).cut,
        n.horizon,
    ensures
        forall|s: Step| #[trigger]
            generated(start.board.state, s) && (n.in_check || !s.kind.quiet()) ==> was_searched(
                w.visits,
                s,
            ) || passed_up_quietly(n, start.board.state, w.visits, s),
{
    let st = start.board.state;
    let k = w.visits.len() as int;
    assert(w.visits.take(k) =~= w.visits);
    lemma_tally_at(n, start, w, k);
    if !tally(n, w.visits).over {
        lemma_seen(n, start, w);
    } else {
        lemma_enough(n, start, w);
    }
    assert forall|s: Step| #[trigger]
        generated(st, s) && (n.in_check || !s.kind.quiet()) implies was_searched(w.visits, s)
        || passed_up_quietly(n, st, w.visits, s) by {
        if was_seen(w.visits, s) {
            let i = choose|i: int| 0 <= i < w.visits.len() && (#[trigger] w.visits[i]).m@ == s;
            if w.visits[i].trial is None {
                lemma_why_quietly(n, start, w, i);
            }
        }
    }
}

/// The score of a quiet search is the greatest of the score without any move and those of the
/// moves that were searched. Where it is below the upper end of the window, every noisy move
/// of the position was searched, and in check every move, or there is a reason why not.
pub proof fn law_noisy_moves_accounted(n: Setting, start: SearchData, b: SearchData, res: int) -> (
w: Walk)
    requires
        ranked_quietly(n, start, b, res),
        n.horizon,
    ensures
        visited(n, start, w.first, w.visits),
        ended(n, start, w),
        closed_quietly(n, start, w.visits, b, res),
        best_of(n, w.visits, tally(n, w.visits).best),
        res < n.beta ==> forall|s: Step| #[trigger]
            generated(start.board.state, s) && (n.in_check || !s.kind.quiet()) ==> was_searched(
                w.visits,
                s,
            ) || passed_up_quietly(n, start.board.state, w.visits, s),
{
    let w = lemma_walk_quietly(n, start, b, res);
    assert(w.visits.take(w.visits.len() as int) =~= w.visits);
    lemma_best_at(n, start, w, w.visits.len() as int);
    lemma_tally_at(n, start, w, w.visits.len() as int);
    if !tally(n, w.visits).cut {
        lemma_noisy_accounted(n, start, w);
    }
    w
}

/// A quiet search that has looked at moves.
proof fn lemma_quiet_ranked(
    d: SearchData,
    b: SearchData,
    node: Node,
    alpha: int,
    beta: int,
    ply: int,
    res: int,
) -> (mid: SearchData)
    requires
        quieted(d, b, node, alpha, beta, ply, res),
        at_once(d, node, alpha, beta, ply) is None,
        res != TIMEOUT,
    ensures
        set_up(d, mid, node, ply),
        ranked_quietly(quiet_setting(d, node, alpha, beta, ply), mid, b, res),
{
    reveal(ranked_quietly);
    reveal(quieted);
    choose|mid: SearchData| #[trigger]
        set_up(d, mid, node, ply) && ranked_quietly(
            quiet_setting(d, node, alpha, beta, ply),
            mid,
            b,
            res,
        )
}

/// The score of a quiet search that is not clear at once, and that was not stopped, is the
/// greatest of the evaluation and the scores of the moves that were searched. Where it is
/// below the upper end of the window, every noisy move was searched, and in check every move,
/// or there is a reason why not.
pub proof fn law_quiet_search_accounted(
    d: SearchData,
    b: SearchData,
    node: Node,
    alpha: int,
    beta: int,
    ply: int,
    res: int,
) -> (found: (SearchData, Walk))
    requires
        quieted(d, b, node, alpha, beta, ply, res),
        at_once(d, node, alpha, beta, ply) is None,
        res != TIMEOUT,
    ensures
        ({
            let n = quiet_setting(d, node, alpha, beta, ply);
            let (mid, w) = found;
            &&& set_up(d, mid, node, ply)
            &&& visited(n, mid, w.first, w.visits)
            &&& ended(n, mid, w)
            &&& closed_quietly(n, mid, w.visits, b, res)
            &&& best_of(n, w.visits, tally(n, w.visits).best)
            &&& res < beta ==> forall|s: Step| #[trigger]
                generated(d.board.state, s) && (checked(d.board.state) || !s.kind.quiet())
                    ==> was_searched(w.visits, s) || passed_up_quietly(
                    n,
                    d.board.state,
                    w.visits,
                    s,
                )
        }),
{
    let n = quiet_setting(d, node, alpha, beta, ply);
    let mid = lemma_quiet_ranked(d, b, node, alpha, beta, ply, res);
    let w = law_noisy_moves_accounted(n, mid, b, res);
    (mid, w)
}

/// A search of the root that was not stopped looks at its moves.
proof fn lemma_root_explained(
    d: SearchData,
    b: SearchData,
    depth: int,
    alpha: int,
    beta: int,
    res: int,
)
    requires
        outcome(d, b, Node::Root, depth, alpha, beta, 0, false, res),
        depth > 0,
        res != TIMEOUT,
    ensures
        explained(d, b, Node::Root, lesser(depth, 127), alpha, beta, 0, false, res),
{
    reveal(explained);
    reveal(outcome);
}

/// What a search of the root knows before it looks at moves.
proof fn lemma_root_looked(
    d: SearchData,
    b: SearchData,
    depth: int,
    alpha: int,
    beta: int,
    res: int,
) -> (mid: SearchData)
    requires
        explained(d, b, Node::Root, depth, alpha, beta, 0, false, res),
    ensures
        prepared(d, mid, Node::Root, depth, 0),
        looked_into(setting_of(d, Node::Root, depth, alpha, beta, 0, false), mid, b, res),
{
    reveal(looked_into);
    reveal(explained);
    choose|mid: SearchData| #[trigger]
        prepared(d, mid, Node::Root, depth, 0) && looked_into(
            setting_of(d, Node::Root, depth, alpha, beta, 0, false),
            mid,
            b,
            res,
        )
}

/// At the root the turn is not passed, and no move is put to the test.
proof fn lemma_root_ranked(n: Setting, a: SearchData, b: SearchData, res: int)
    requires
        looked_into(n, a, b, res),
        res != TIMEOUT,
        n.node is Root,
        !n.cutnode,
        n.extension == 0,
    ensures
        ranked(n, a, b, res),
{
    reveal(ranked);
    reveal(looked_into);
    let (p, s, extension) = choose|p: SearchData, s: SearchData, extension: int|
        {
            &&& #[trigger] kept(a, p)
            &&& #[trigger] extended(p, s, extension)
            &&& after_pass(n, a, p, None)
            &&& after_single(n, p, s, extension)
            &&& if res == TIMEOUT {
                broken_off(Setting { extension, ..n }, s, b)
            } else {
                ranked(Setting { extension, ..n }, s, b, res)
            }
        };
    assert(p == a && s == a && extension == 0);
    assert((Setting { extension, ..n }) == n);
}

/// The score of a search of the root that was not stopped is the greatest of those of its
/// moves. All of them were searched unless it reaches the upper end of the window.
pub proof fn law_root_accounted(
    d: SearchData,
    b: SearchData,
    depth: int,
    alpha: int,
    beta: int,
    res: int,
) -> (found: (SearchData, Walk))
    requires
        d.wf(),
        fair(d.board.state),
        d.stack.at(0).excluded.null(),
        outcome(d, b, Node::Root, depth, alpha, beta, 0, false, res),
        depth > 0,
        res != TIMEOUT,
        !no_moves(d.board.state),
    ensures
        ({
            let n = setting_of(d, Node::Root, lesser(depth, 127), alpha, beta, 0, false);
            let (mid, w) = found;
            &&& prepared(d, mid, Node::Root, lesser(depth, 127), 0)
            &&& visited(n, mid, w.first, w.visits)
            &&& ended(n, mid, w)
            &&& closed(n, mid, w.visits, b, res)
            &&& best_of(n, w.visits, tally(n, w.visits).best)
            &&& res < beta ==> forall|s: Step| #[trigger]
                generated(d.board.state, s) ==> was_searched(w.visits, s)
        }),
{
    let deep = lesser(depth, 127);
    let n = setting_of(d, Node::Root, deep, alpha, beta, 0, false);
    lemma_root_explained(d, b, depth, alpha, beta, res);
    let mid = lemma_root_looked(d, b, deep, alpha, beta, res);
    lemma_root_ranked(n, mid, b, res);
    let w = law_moves_accounted(n, mid, b, res);
    assert forall|s: Step| res < beta && #[trigger] generated(d.board.state, s) implies
        was_searched(w.visits, s) by {
        law_generated_movable(d.board.state, s);
        assert(generated(mid.board.state, s));
    }
    (mid, w)
}

} // verus!
