//! What is done at a node: which moves are searched and how deep, when the turn may be passed,
//! and what is noted and remembered.

use crate::board::see::wins_exchange;
use crate::board::status::checks_directly;
use crate::evaluation::pawns_alone;
use crate::laws::decisions::{law_conclusive, law_passing};
use crate::laws::histories::{
    law_corrected_towards, law_gravity, law_noisy_taught, law_piece_places, law_quiet_places,
    lemma_sound, noisy_place_of,
};
use crate::laws::margins::law_hindsight_edges;
use crate::laws::searching::{law_bound_told, vouched};
use crate::nnue::evaluation;
use crate::search::{
    checked, deepened, leaving_out, pat_of, probe_of, razes, static_eval_of, Node, LAST_PLY,
};
use crate::search::account::{
    bound_of, clear_at_sight, closed_quietly, closing, confirms, cut_by_table, cut_short,
    introduced, late_by, may_pass, may_single, noted, pass_answered, pass_followed, passed_over,
    passes, plan_of, quiet_setting, raw_eval_of, reached, replied, rests, rewarded, root_noted,
    setting_of, single_out, singled, stands_for, state_after, stood_pat, tally, told, verdict, Call,
    Close, Reply, Setting, Tally, Visit,
};
use crate::search::data::{lmr_counts, lmr_place, lmr_usable, moved, unmoved, RootMove, SearchData};
use crate::search::learning::{lessons, standing_of, taught};
use crate::search::pruning::{
    futile_below, late, loss_allowed, passing_depth, singular_extension, telling,
};
use crate::types::history::{piece_to_place, quiet_place};
use crate::types::moves::{Move, Step};
use crate::types::score::TIMEOUT;
use crate::types::sides::Side;
use crate::types::transposition::{written, Bound, Record};
use vstd::prelude::*;

verus! {

/// At the root, in check and as long as every score so far is lost, every move is searched but
/// the one that is left out, and none but that is left out anywhere.
pub proof fn law_searched_without_doubt(n: Setting, t: Tally, d: SearchData, s: Step)
    requires
        !n.horizon,
    ensures
        verdict(n, t, d, s) is LeftOut <==> s == n.left_out@,
        s != n.left_out@ && (n.node is Root || n.in_check || t.best <= -30744) ==> verdict(
            n,
            t,
            d,
            s,
        ) is Search,
        verdict(n, t, d, s) !is Enough,
{
}

/// A noisy move is passed over exactly if it loses more than the depth allows, and a quiet move
/// never for that.
pub proof fn law_noisy_searched(n: Setting, t: Tally, d: SearchData, s: Step)
    requires
        !n.horizon,
        s != n.left_out@,
        n.node !is Root,
        !n.in_check,
        t.best > -30744,
    ensures
        !s.kind.quiet() ==> (verdict(n, t, d, s) is Search <==> wins_exchange(
            d.board.state,
            s,
            loss_allowed(n.depth),
        )),
        !s.kind.quiet() ==> verdict(n, t, d, s) is Search || verdict(n, t, d, s) is Losing,
        s.kind.quiet() ==> verdict(n, t, d, s) !is Losing,
{
}

/// A quiet move that gives check directly is neither late nor futile. One of the first two moves
/// is never late, none is where a win is in sight, and a move that has done well so far is
/// searched if it gives check.
pub proof fn law_quiet_searched(n: Setting, t: Tally, d: SearchData, s: Step)
    requires
        !n.horizon,
        s.kind.quiet(),
        0 <= n.depth,
    ensures
        checks_directly(d.board.state.mb(), s) ==> verdict(n, t, d, s) !is Late && verdict(
            n,
            t,
            d,
            s,
        ) !is Futile,
        t.count + 1 <= 2 ==> verdict(n, t, d, s) !is Late,
        n.beta >= 30744 ==> verdict(n, t, d, s) !is Late,
        n.depth >= 8 ==> verdict(n, t, d, s) !is Futile && verdict(n, t, d, s) !is Poor,
        verdict(n, t, d, s) is Poor ==> standing_of(d, s, n.ply) < 0,
        checks_directly(d.board.state.mb(), s) && standing_of(d, s, n.ply) >= 0 && s != n.left_out@
            ==> verdict(n, t, d, s) is Search,
        verdict(n, t, d, s) is Futile && standing_of(d, s, n.ply) >= 0 ==> n.static_eval < t.alpha,
{
    crate::laws::decisions::law_late(
        t.count + 1,
        t.count + 1,
        n.depth,
        n.depth,
        n.improving,
    );
    let h = standing_of(d, s, n.ply);
    crate::laws::decisions::law_futile(
        n.static_eval,
        n.static_eval,
        n.depth,
        n.depth,
        h,
        h,
        t.alpha,
        t.alpha,
    );
}

/// A quiet search looks at two moves, and then only at direct checks; of those it searches the
/// ones that do not lose more than 112. As long as every score is lost it searches every move.
pub proof fn law_quiet_search_moves(n: Setting, t: Tally, d: SearchData, s: Step)
    requires
        n.horizon,
        0 <= t.count,
    ensures
        t.best <= -30744 ==> verdict(n, t, d, s) is Search,
        t.best > -30744 && (t.count <= 1 || checks_directly(d.board.state.mb(), s)) ==> (verdict(
            n,
            t,
            d,
            s,
        ) is Search <==> wins_exchange(d.board.state, s, -112)),
        t.best > -30744 ==> (verdict(n, t, d, s) is Enough <==> t.count >= 2 && !checks_directly(
            d.board.state.mb(),
            s,
        )),
{
}

/// Every move is searched in the window as it stands, one ply less deep than the node, and the
/// first one deeper by the extension. Only later moves, from depth two on, are reduced.
pub proof fn law_plan(n: Setting, t: Tally, d: SearchData, s: Step)
    requires
        0 <= t.count,
    ensures
        ({
            let p = plan_of(n, t, d, s);
            &&& p.alpha == t.alpha && p.beta == n.beta && p.ply == n.ply
            &&& p.node == n.node && p.cutnode == n.cutnode && p.horizon == n.horizon
            &&& p.first <==> t.count == 0
            &&& !n.horizon && t.count == 0 ==> p.depth == n.depth - 1 + n.extension
            &&& !n.horizon && t.count > 0 ==> p.depth == n.depth - 1
            &&& n.horizon ==> p.depth == 0
            &&& p.reduction is Some <==> !n.horizon && n.depth >= 2 && t.count > 0
        }),
{
}

/// A late move is searched less deep where a cut is expected, and where the position does not
/// improve.
pub proof fn law_late_by_node(n: Setting, t: Tally, d: SearchData, s: Step)
    requires
        !n.horizon,
        n.depth >= 2,
        t.count >= 1,
    ensures
        late_by(n, t, d, s) is Some,
        late_by(Setting { cutnode: true, ..n }, t, d, s)->0 == late_by(
            Setting { cutnode: false, ..n },
            t,
            d,
            s,
        )->0 + 1200,
        late_by(Setting { improving: false, ..n }, t, d, s)->0 == late_by(
            Setting { improving: true, ..n },
            t,
            d,
            s,
        )->0 + 215,
{
}

/// What the table says of the position of a late move: it is searched less deep where the table
/// does not know the position from the expected line, has a low score or a shallow entry.
pub proof fn law_late_by_table(n: Setting, m: Setting, t: Tally, d: SearchData, s: Step)
    requires
        !n.horizon,
        n.depth >= 2,
        t.count >= 1,
        n.probe.score is None,
        n.probe.depth is None,
        m == (Setting { probe: m.probe, ..n }),
    ensures
        late_by(m, t, d, s)->0 == late_by(n, t, d, s)->0 + (if m.probe.score matches Some(x) && x
            <= t.alpha {
            454int
        } else {
            0
        }) + (if m.probe.depth matches Some(x) && x < n.depth {
            303int
        } else {
            0
        }) + (if n.probe.was_pv == m.probe.was_pv {
            0int
        } else if n.probe.was_pv {
            1200
        } else {
            -1200
        }),
{
}

/// Of two quiet or two noisy moves at the same number, the one that has done better so far is
/// reduced no more, and a direct check less.
pub proof fn law_late_moves(n: Setting, t: Tally, d: SearchData, s: Step, u: Step)
    requires
        !n.horizon,
        n.depth >= 2,
        t.count >= 1,
        s.kind.quiet() == u.kind.quiet(),
        -30000 <= standing_of(d, s, n.ply) <= standing_of(d, u, n.ply) <= 30000,
    ensures
        checks_directly(d.board.state.mb(), s) == checks_directly(d.board.state.mb(), u)
            ==> late_by(n, t, d, u)->0 <= late_by(n, t, d, s)->0,
        !checks_directly(d.board.state.mb(), s) && checks_directly(d.board.state.mb(), u)
            ==> late_by(n, t, d, u)->0 <= late_by(n, t, d, s)->0 - 800,
{
    let h = standing_of(d, s, n.ply);
    let g = standing_of(d, u, n.ply);
    crate::laws::decisions::lemma_quotient_order(439 * h, 439 * g, 4096);
}

/// The table of reductions has a place of its own for each kind, depth and number.
pub proof fn law_reduction_places(q: bool, r: bool, a: int, b: int, c: int, e: int)
    requires
        0 <= a < 128,
        0 <= b < 128,
        0 <= c < 64,
        0 <= e < 64,
    ensures
        0 <= lmr_place(q, a, c) < 16384,
        lmr_place(q, a, c) == lmr_place(r, b, e) <==> q == r && a == b && c == e,
{
}

/// The turn is passed only where a cut is expected, from depth three on, out of check, with a
/// piece besides king and pawns, with no move left out, not twice in a row, and with an
/// evaluation at the upper end of the window or above.
pub proof fn law_may_pass(n: Setting, d: SearchData)
    requires
        may_pass(n, d),
        0 <= n.depth,
    ensures
        n.cutnode,
        n.depth >= 3,
        !n.in_check,
        n.left_out.null(),
        n.static_eval >= n.beta,
        !pawns_alone(d.board.state.mb(), d.board.state.side_to_move),
        !d.stack.at(n.ply - 1).m.null(),
        n.probe.bound != Some(Bound::Upper),
        n.ply >= d.nmp_min_ply,
{
    law_passing(n.static_eval, n.static_eval, n.beta, n.depth, n.depth, n.improving);
}

/// While a pass is being confirmed the turn is passed again only after three quarters of the
/// depth of that search.
pub proof fn law_confirming(
    a: SearchData,
    again: SearchData,
    after: SearchData,
    depth: int,
    ply: int,
    b: SearchData,
    n: Setting,
)
    requires
        confirms(a, again, after, depth, ply, b),
        4 * (n.ply - ply) < 3 * (depth - passing_depth(depth)) - 3,
    ensures
        !may_pass(n, again),
        b.nmp_min_ply == 0,
{
}

/// Passing the turn moves nothing: the same pieces stand where they stood, and the other side is
/// to move.
pub proof fn law_passed(a: SearchData, b: SearchData, ply: int)
    requires
        passes(a, b, ply),
    ensures
        b.board.state.mb() == a.board.state.mb(),
        b.board.state.side_to_move == a.board.state.side_to_move.other(),
        b.board.state.side_to_move != a.board.state.side_to_move,
        b.board.state.ep() is None,
        b.board.state.castling_rights == a.board.state.castling_rights,
        b.stack.at(ply).m.null(),
        b.network == a.network,
        b.board.state.half_move_clock == a.board.state.half_move_clock,
        b.board.game_history@.len() == a.board.game_history@.len() + 1,
        b.board.state.full_move == a.board.state.full_move <==> a.board.state.side_to_move
            == Side::White,
{
}

/// The move from the table is put to the test only below the root, from depth five on, where
/// its entry is at most three plies less deep, tells of no mate and is no upper bound.
pub proof fn law_may_single(n: Setting)
    requires
        may_single(n),
    ensures
        n.node !is Root,
        n.depth >= 5,
        n.left_out.null(),
        n.probe.best_move is Some,
        -30744 < n.probe.score->0 < 30744,
        n.probe.depth->0 + 3 >= n.depth,
        n.probe.bound != Some(Bound::Upper),
{
}

/// Where the table gives the score of a node, the node is off the expected line, no move is left
/// out, the entry is deep enough, and every true score that its bound allows lies on the same
/// side of the window; a score above the window's lower end only where a cut is expected.
pub proof fn law_cut_by_table(
    d: SearchData,
    node: Node,
    depth: int,
    alpha: int,
    beta: int,
    ply: int,
    cutnode: bool,
)
    requires
        alpha < beta,
    ensures
        ({
            let p = probe_of(d, ply);
            cut_by_table(d, node, depth, alpha, beta, ply, cutnode) <==> {
                &&& node is NonPV
                &&& d.stack.at(ply).excluded.null()
                &&& p.score is Some
                &&& p.depth is Some && p.depth->0 >= depth
                &&& vouched(p, p.score->0 as int, alpha, beta)
                &&& p.score->0 > alpha ==> cutnode
            }
        }),
{
    let p = probe_of(d, ply);
    if p.bound is Some && p.score is Some {
        law_conclusive(p.bound->0, p.score->0 as int, alpha, beta);
    }
}

/// A quiet move from the table that cuts a node off stands no lower afterwards; no other move is
/// affected, nor is any by a score below the window.
pub proof fn law_cut_rewarded(
    d: SearchData,
    b: SearchData,
    depth: int,
    beta: int,
    ply: int,
    i: int,
)
    requires
        d.wf(),
        1 <= depth,
        cut_short(d, b, depth, beta, ply),
        0 <= i < 32768,
    ensures
        b.quiet_history.table()[i] >= d.quiet_history.table()[i],
        probe_of(d, ply).score->0 < beta ==> b.quiet_history.table() == d.quiet_history.table(),
        probe_of(d, ply).best_move matches Some(m) && m@.kind.quiet() && probe_of(d, ply).score->0
            >= beta && i == quiet_place(
            d.board.state.threats,
            d.board.state.side_to_move,
            m@,
        ) && d.quiet_history.table()[i] == 0 ==> b.quiet_history.table()[i] == if depth <= 6 {
            206 * depth - 50
        } else {
            1201
        },
        b.board == d.board && b.shared == d.shared && b.noisy_history == d.noisy_history,
{
    let p = probe_of(d, ply);
    let table = d.quiet_history.table();
    assert(-8000 <= table[i] <= 8000);
    if let Some(m) = p.best_move {
        m.lemma_squares();
        let st = d.board.state;
        law_quiet_places(st.threats, st.threats, st.side_to_move, st.side_to_move, m@, m@);
        let place = quiet_place(st.threats, st.side_to_move, m@);
        assert(-8000 <= table[place] <= 8000);
        law_gravity(
            table[place] as int,
            crate::search::pruning::lesser(206 * depth - 50, 1201),
        );
    }
}

/// What is noted of a root move: the first one and any with a score above the window's lower
/// end get their score, shown no lower and no higher than the window is, and marked as a bound
/// where it lies at its ends or beyond. Every other move counts for less than all scores. The
/// nodes of the search add up.
pub proof fn law_root_noted(
    a: RootMove,
    b: RootMove,
    score: int,
    alpha: int,
    beta: int,
    first: bool,
    spent: u64,
    root_depth: i32,
    sel_depth: i32,
    line: Seq<Move>,
)
    requires
        noted(a, b, score, alpha, beta, first, spent, root_depth, sel_depth, line),
        alpha < beta,
    ensures
        b.m == a.m,
        a.nodes + spent <= u64::MAX ==> b.nodes == a.nodes + spent,
        first || score > alpha ==> {
            &&& b.score == score
            &&& alpha <= b.display_score <= beta
            &&& alpha < score < beta ==> b.display_score == score && !b.upperbound && !b.lowerbound
            &&& b.upperbound <==> score <= alpha
            &&& b.lowerbound <==> score >= beta
            &&& b.pv.inner@ == line
            &&& b.searched_depth == root_depth
        },
        !first && score <= alpha ==> b.score == -32000 && b.display_score == a.display_score
            && b.searched_depth == a.searched_depth,
{
}

/// What a search knows before it looks at moves: the evaluation that the node is judged by, and
/// nothing that any move would have to beat but all scores; for a quiet search that is the
/// evaluation itself.
pub proof fn law_settings(
    d: SearchData,
    node: Node,
    depth: int,
    alpha: int,
    beta: int,
    ply: int,
    cutnode: bool,
)
    ensures
        ({
            let n = setting_of(d, node, depth, alpha, beta, ply, cutnode);
            let q = quiet_setting(d, node, alpha, beta, ply);
            &&& n.floor == -32000 && n.alpha == alpha && n.beta == beta
            &&& n.in_check == checked(d.board.state) && q.in_check == n.in_check
            &&& n.in_check ==> n.static_eval == 32001 && !n.improving && q.floor == -32000
            &&& !n.in_check && !leaving_out(d, ply) ==> n.static_eval == q.floor
            &&& q.alpha >= alpha && q.alpha >= q.floor && (q.alpha == alpha || q.alpha == q.floor)
            &&& q.beta == beta
            &&& n.left_out == d.stack.at(ply).excluded
        }),
{
}

/// The evaluation stands for a node only off the expected line, out of check and with no move
/// left out; only captures are searched only off the expected line, out of check and below the
/// window.
pub proof fn law_rests_and_razes(
    d: SearchData,
    node: Node,
    depth: int,
    alpha: int,
    beta: int,
    ply: int,
)
    requires
        1 <= depth <= 127,
    ensures
        rests(d, node, depth, beta, ply) ==> node is NonPV && !checked(d.board.state)
            && !leaving_out(d, ply) && static_eval_of(d, ply) > beta,
        razes(d, node, depth, alpha, ply) ==> node is NonPV && !checked(d.board.state)
            && static_eval_of(d, ply) < alpha - 242,
        1 <= deepened(d, node, depth, ply) <= depth + 1,
        node is Root || checked(d.board.state) || leaving_out(d, ply) ==> deepened(
            d,
            node,
            depth,
            ply,
        ) == depth,
{
    let deep = deepened(d, node, depth, ply);
    let eval = static_eval_of(d, ply);
    crate::laws::decisions::law_razoring(
        probe_of(d, ply).bound,
        eval,
        eval,
        alpha,
        deep,
        deep,
    );
    if rests(d, node, depth, beta, ply) {
        crate::laws::decisions::law_reverse_futility(
            eval,
            eval,
            beta,
            deep,
            deep,
            crate::search::improves(d, eval, ply),
        );
    }
}

/// The score of a quiet search is clear at sight on the expected line only for a draw or at the
/// last ply, and elsewhere also where the table has a score that its bound vouches for.
pub proof fn law_clear_at_sight(
    d: SearchData,
    node: Node,
    alpha: int,
    beta: int,
    ply: int,
)
    requires
        alpha < beta,
        !crate::board::status::drawn(d.board),
        ply < 127,
    ensures
        clear_at_sight(d, node, alpha, beta, ply) <==> node is NonPV && probe_of(d, ply).score
            is Some && vouched(
            probe_of(d, ply),
            probe_of(d, ply).score->0 as int,
            alpha,
            beta,
        ),
{
    let p = probe_of(d, ply);
    if p.bound is Some && p.score is Some {
        law_conclusive(p.bound->0, p.score->0 as int, alpha, beta);
    }
}

/// How deep the search has come grows only on the expected line, up to the ply there.
pub proof fn law_reached(d: SearchData, node: Node, ply: int)
    ensures
        reached(d, node, ply) >= d.sel_depth,
        node !is NonPV ==> reached(d, node, ply) >= ply,
        reached(d, node, ply) == d.sel_depth || node !is NonPV && reached(d, node, ply) == ply,
{
}

/// The turn is passed with a window of no width around the upper end of the window, as the
/// opponent sees it, and with a depth that the pass takes plies off.
pub proof fn law_pass_window(
    a: SearchData,
    depth: int,
    beta: int,
    ply: int,
    b: SearchData,
    res: Option<int>,
) -> (r: Reply)
    requires
        pass_answered(a, depth, beta, ply, b, res),
    ensures
        replied(r.from, r.to, r.call, -r.score),
        passes(a, r.from, ply),
        r.call.beta == 1 - beta,
        r.call.alpha == -beta,
        r.call.ply == ply + 1,
        r.call.depth + passing_depth(depth) == depth,
        r.call.node is NonPV,
        !r.call.cutnode,
        res == Some(32002int) || r.score >= beta || res is None,
        res is Some && res->0 != 32002 && depth <= 14 ==> res->0 == r.score && r.score >= beta,
{
    reveal(pass_answered);
    let (passed, after, back, below) = choose|
        passed: SearchData,
        after: SearchData,
        back: SearchData,
        below: int,
    |
        {
            &&& #[trigger] passed_over(a, passed, after, back, ply, below)
            &&& ply < LAST_PLY
            &&& replied(
                passed,
                after,
                Call {
                    node: Node::NonPV,
                    depth: depth - passing_depth(depth),
                    alpha: -beta,
                    beta: -beta + 1,
                    ply: ply + 1,
                    cutnode: false,
                },
                below,
            )
            &&& pass_followed(back, depth, beta, ply, -below, b, res) || res == Some(
                TIMEOUT as int,
            ) && b == back
        };
    reveal(pass_followed);
    Reply {
        from: passed,
        call: Call {
            node: Node::NonPV,
            depth: depth - passing_depth(depth),
            alpha: -beta,
            beta: -beta + 1,
            ply: ply + 1,
            cutnode: false,
        },
        score: -below,
        to: after,
    }
}

/// The move from the table is put to the test by a search of half the depth without it, with a
/// window of no width that lies below the score of the table by two for each ply.
pub proof fn law_single_window(
    node: Node,
    depth: int,
    m: Move,
    tt_score: int,
    was_pv: bool,
    beta: int,
    ply: int,
    cutnode: bool,
    a: SearchData,
    b: SearchData,
    extension: Option<int>,
) -> (r: Reply)
    requires
        singled(node, depth, m, tt_score, was_pv, beta, ply, cutnode, a, b, extension),
    ensures
        replied(r.from, r.to, r.call, r.score),
        r.from.stack.at(ply).excluded == m,
        r.call.alpha + 1 == r.call.beta,
        tt_score - r.call.beta == 2 * depth,
        2 * r.call.depth + 1 <= depth <= 2 * r.call.depth + 2,
        r.call.ply == ply,
        r.call.cutnode == cutnode,
        extension matches Some(e) ==> (e > 0 <==> r.score < tt_score - 2 * depth),
{
    reveal(singled);
    let (without, after, score) = choose|without: SearchData, after: SearchData, score: int|
        {
            &&& #[trigger] single_out(a, without, after, b, m, ply, score)
            &&& depth >= 5
            &&& replied(
                without,
                after,
                Call {
                    node: Node::NonPV,
                    depth: (depth - 1) / 2,
                    alpha: tt_score - 2 * depth - 1,
                    beta: tt_score - 2 * depth,
                    ply,
                    cutnode,
                },
                score,
            )
            &&& extension matches Some(e) ==> e == singular_extension(
                node.pv(),
                was_pv,
                cutnode,
                score,
                tt_score - 2 * depth,
                tt_score,
                beta,
            )
        };
    Reply {
        from: without,
        call: Call {
            node: Node::NonPV,
            depth: (depth - 1) / 2,
            alpha: tt_score - 2 * depth - 1,
            beta: tt_score - 2 * depth,
            ply,
            cutnode,
        },
        score,
        to: after,
    }
}

/// What a node leaves behind: the histories learn of its best move and the moves before it. With
/// a move left out neither the table nor the corrections learn anything. The last quiet move of
/// the opponent stands no lower, and higher if it stood at zero, where no move has raised the
/// score above the window's lower end.
pub proof fn law_left_behind(n: Setting, t: Tally, last: SearchData, c: Close, b: SearchData)
    requires
        closing(n, t, last, c, b),
        c.learned.quiet_history.wf(),
        1 <= n.depth,
        -8 <= n.ply - 1 < 136,
    ensures
        !n.left_out.null() ==> b.shared == c.learned.shared,
        t.best_move is None ==> c.learned == last,
        t.best_move matches Some(m) ==> lessons(c.learned) == taught(
            last,
            m@,
            n.depth,
            n.ply,
            t.quiets,
            t.noisies,
        ),
        ({
            let note = c.learned.stack.at(n.ply - 1);
            let p = quiet_place(note.threats, last.board.state.side_to_move.other(), note.m@);
            let before = c.learned.quiet_history.table();
            let after = c.blamed.quiet_history.table();
            if n.node !is Root && bound_of(t) is Upper && note.m@.kind.quiet() {
                &&& after[p] >= before[p]
                &&& before[p] == 0 && n.depth <= 10 ==> after[p] == 122 * n.depth - 76
                &&& before[p] == 0 && n.depth >= 11 ==> after[p] == 1194
                &&& forall|i: int| 0 <= i < 32768 && i != p ==> #[trigger] after[i] == before[i]
            } else {
                after == before
            }
        }),
        t.best_move is Some && !t.best_move->0@.kind.quiet() || n.in_check || !telling(
            bound_of(t),
            t.best,
            n.static_eval,
        ) ==> b.shared.history == c.recorded.shared.history,
{
    let note = c.learned.stack.at(n.ply - 1);
    let other = last.board.state.side_to_move.other();
    note.m.lemma_squares();
    law_quiet_places(note.threats, note.threats, other, other, note.m@, note.m@);
    let p = quiet_place(note.threats, other, note.m@);
    let before = c.learned.quiet_history.table();
    assert(-8000 <= before[p] <= 8000);
    law_gravity(before[p] as int, crate::search::pruning::lesser(122 * n.depth - 76, 1194));
}

/// What the table is told of a node whose moves were all open to it: the best score with the best
/// move, the depth, the evaluation without the correction, whether it lies on an expected line,
/// and a bound that the true score keeps as far as the window shows it.
pub proof fn law_table_told(
    n: Setting,
    visits: Seq<Visit>,
    last: SearchData,
    c: Close,
    b: SearchData,
) -> (r: Record)
    requires
        closing(n, tally(n, visits), last, c, b),
        n.left_out.null(),
        n.floor <= n.alpha < n.beta,
        forall|i: int| 0 <= i < visits.len() ==> !(#[trigger] tally(n, visits.take(i))).cut,
    ensures
        written(
            c.blamed.shared.tt,
            c.recorded.shared.tt,
            c.blamed.board.state.hash,
            r,
            n.ply,
        ),
        r.score == tally(n, visits).best,
        r.depth == n.depth,
        r.eval == n.raw_eval,
        r.pv <==> n.node !is NonPV || n.probe.was_pv,
        r.score >= n.beta <==> r.bound == Bound::Lower,
        n.alpha < r.score < n.beta <==> r.bound == Bound::Exact,
        r.score <= n.alpha <==> r.bound == Bound::Upper,
        r.score > n.alpha ==> tally(n, visits).best_move == Some(r.best_move),
        r.score <= n.alpha ==> r.best_move.null(),
{
    let t = tally(n, visits);
    law_bound_told(n, visits);
    let m = choose|m: Move| #[trigger]
        stands_for(t.best_move, m) && written(
            c.blamed.shared.tt,
            c.recorded.shared.tt,
            c.blamed.board.state.hash,
            Record {
                best_move: m,
                score: t.best,
                eval: n.raw_eval,
                bound: bound_of(t),
                depth: n.depth,
                pv: n.node.pv() || n.probe.was_pv,
            },
            n.ply,
        );
    Record {
        best_move: m,
        score: t.best,
        eval: n.raw_eval,
        bound: bound_of(t),
        depth: n.depth,
        pv: n.node.pv() || n.probe.was_pv,
    }
}

/// What the corrections learn of a node: where its score lies above the evaluation, the
/// evaluation of the position is not lowered by it, and where it lies below, not raised.
pub proof fn law_corrections_told(n: Setting, t: Tally, last: SearchData, c: Close, b: SearchData)
    requires
        closing(n, t, last, c, b),
        c.recorded.wf(),
        0 <= n.ply <= 127,
        0 <= n.depth,
    ensures
        t.best >= n.static_eval ==> b.correction_of(n.ply) >= c.recorded.correction_of(n.ply),
        t.best <= n.static_eval ==> b.correction_of(n.ply) <= c.recorded.correction_of(n.ply),
{
    if b != c.recorded {
        law_corrected_towards(c.recorded, b, t.best - n.static_eval, n.depth, n.ply);
    }
}

/// What a quiet search tells the table: its score, at depth zero, as a lower bound where it
/// reaches the upper end of the window and as an upper bound otherwise. A noisy move that reaches
/// it stands no lower afterwards, and at 106 if it stood at zero.
pub proof fn law_quiet_search_told(
    n: Setting,
    start: SearchData,
    visits: Seq<Visit>,
    b: SearchData,
    res: int,
) -> (out: (SearchData, Record))
    requires
        closed_quietly(n, start, visits, b, res),
        !(n.in_check && tally(n, visits).count == 0),
        n.floor <= n.alpha < n.beta,
        forall|i: int| 0 <= i < visits.len() ==> !(#[trigger] tally(n, visits.take(i))).cut,
        state_after(start, visits).wf(),
    ensures
        ({
            let (learned, r) = out;
            let last = state_after(start, visits);
            let t = tally(n, visits);
            &&& written(learned.shared.tt, b.shared.tt, learned.board.state.hash, r, n.ply)
            &&& r.score == res
            &&& r.depth == 0
            &&& r.eval == n.raw_eval
            &&& r.pv <==> n.node !is NonPV || n.probe.was_pv
            &&& r.bound == if res >= n.beta {
                Bound::Lower
            } else {
                Bound::Upper
            }
            &&& res > n.alpha ==> t.best_move == Some(r.best_move)
            &&& res >= n.beta && !r.best_move@.kind.quiet() ==> {
                let p = noisy_place_of(last, r.best_move@);
                let before = lessons(last).noisy[p];
                let after = lessons(learned).noisy[p];
                after >= before && (before == 0 ==> after == 106)
            }
            &&& res < n.beta ==> learned == last
        }),
{
    let t = tally(n, visits);
    let last = state_after(start, visits);
    law_bound_told(n, visits);
    let learned = choose|learned: SearchData| #[trigger]
        rewarded(t, last, learned) && told(
            learned,
            b,
            t.best_move,
            t.best,
            n.raw_eval,
            if t.cut {
                Bound::Lower
            } else {
                Bound::Upper
            },
            0,
            n.ply,
            n.node.pv() || n.probe.was_pv,
        );
    let bound = if t.cut {
        Bound::Lower
    } else {
        Bound::Upper
    };
    let m = choose|m: Move| #[trigger]
        stands_for(t.best_move, m) && written(
            learned.shared.tt,
            b.shared.tt,
            learned.board.state.hash,
            Record {
                best_move: m,
                score: t.best,
                eval: n.raw_eval,
                bound,
                depth: 0,
                pv: n.node.pv() || n.probe.was_pv,
            },
            n.ply,
        );
    if res >= n.beta && !m@.kind.quiet() {
        lemma_sound(last);
        law_noisy_taught(lessons(last), last, m, 106);
        law_gravity(0, 106);
    }
    let r = Record {
        best_move: m,
        score: t.best,
        eval: n.raw_eval,
        bound,
        depth: 0,
        pv: n.node.pv() || n.probe.was_pv,
    };
    (learned, r)
}

/// A quiet search whose evaluation stands tells the table of it as a lower bound, where the
/// table did not know the position, and nothing otherwise.
pub proof fn law_stood_pat_told(
    d: SearchData,
    mid: SearchData,
    b: SearchData,
    node: Node,
    ply: int,
)
    requires
        stood_pat(d, mid, b, node, ply),
    ensures
        probe_of(d, ply).found ==> b == mid && b.shared.tt == d.shared.tt,
        !probe_of(d, ply).found ==> exists|r: Record| #[trigger]
            written(mid.shared.tt, b.shared.tt, mid.board.state.hash, r, ply) && r.bound
                == Bound::Lower && r.score == pat_of(d, ply) && r.depth == 0 && r.eval
                == raw_eval_of(d, ply) && r.best_move.null(),
{
}

/// A position that the table does not know is put into it with its evaluation alone: without a
/// score, a bound, a depth or a move.
pub proof fn law_introduced(d: SearchData, mid: SearchData, node: Node, ply: int)
    requires
        introduced(d, mid, node, ply),
    ensures
        probe_of(d, ply).found || leaving_out(d, ply) ==> mid.shared.tt == d.shared.tt,
        !probe_of(d, ply).found && !leaving_out(d, ply) ==> exists|r: Record| #[trigger]
            written(d.shared.tt, mid.shared.tt, d.board.state.hash, r, ply) && r.bound
                == Bound::Unset && r.score == 32001 && r.depth == 0 && r.eval == raw_eval_of(d, ply)
                && r.best_move.null() && (r.pv <==> node !is NonPV || probe_of(d, ply).was_pv),
        mid.shared.history == d.shared.history,
{
}

/// What the table keeps as the evaluation of a position: none in check, else its own, else that
/// of the network, in each case without the correction.
pub proof fn law_raw_eval(d: SearchData, ply: int)
    ensures
        checked(d.board.state) ==> raw_eval_of(d, ply) == 32001,
        !checked(d.board.state) ==> pat_of(d, ply) == raw_eval_of(d, ply) + d.correction_of(ply),
        !checked(d.board.state) && probe_of(d, ply).eval is None ==> raw_eval_of(d, ply)
            == evaluation(d.network.params(), d.board.state.side_to_move, d.board.state.mb()),
{
}

/// A move that is made is noted at its ply with its piece, with the tables that answers to it
/// are looked up in, and with what the opponent attacks; the notes of other plies, the tables and
/// the limits stay. One node more is counted, and the network follows the board.
pub proof fn law_move_noted(a: SearchData, m: Move, ply: int, b: SearchData, other: int)
    requires
        a.wf(),
        moved(a, m, ply, b),
        -8 <= other < 136,
    ensures
        b.stack.at(ply).m == m,
        b.stack.at(ply).piece == a.board.state.mb()[m@.from],
        b.stack.at(ply).conthistory matches Some(t) && t == piece_to_place(
            a.board.state.mb()[m@.from],
            m@.to,
        ),
        b.stack.at(ply).contcorrhistory matches Some(t) && t == piece_to_place(
            a.board.state.mb()[m@.from],
            m@.to,
        ),
        b.stack.at(ply).threats == a.board.state.threats,
        b.stack.at(ply).eval == a.stack.at(ply).eval,
        b.stack.at(ply).excluded == a.stack.at(ply).excluded,
        other != ply ==> b.stack.at(other) == a.stack.at(other),
        a.shared.nodes@[a.id as int] < u64::MAX ==> b.shared.nodes@[a.id as int]
            == a.shared.nodes@[a.id as int] + 1,
        b.network.boards().last() == b.board.state.mb(),
        b.shared.tt == a.shared.tt,
        b.time == a.time,
{
    m.lemma_squares();
    law_piece_places(a.board.state.mb()[m@.from], a.board.state.mb()[m@.from], m@.to, m@.to);
}

/// What was moved and then taken back leaves the position as it was, while the notes and the
/// nodes stay.
pub proof fn law_move_taken_back(
    a: SearchData,
    m: Move,
    ply: int,
    b: SearchData,
    c: SearchData,
)
    requires
        moved(a, m, ply, b),
        unmoved(b, c),
    ensures
        c.board.state == a.board.state,
        c.board.game_history@ == a.board.game_history@,
        c.network.boards() == a.network.boards(),
        c.shared == b.shared,
        c.stack == b.stack,
{
    assert(b.board.state_stack@.last() == a.board.state);
    assert(b.board.game_history@.drop_last() =~= a.board.game_history@);
    assert(b.network.boards().drop_last() =~= a.network.boards());
}

/// What the search of a root move has given is noted with that move alone: the others keep what
/// they have, and no move is added or lost.
pub proof fn law_root_moves_kept(
    a: SearchData,
    b: SearchData,
    m: Move,
    score: int,
    alpha: int,
    beta: int,
    first: bool,
    spent: u64,
    i: int,
)
    requires
        root_noted(a, b, m, score, alpha, beta, first, spent),
        alpha < beta,
        0 <= i < a.root_moves@.len(),
        forall|j: int| 0 <= j < i ==> (#[trigger] a.root_moves@[j]).m@ != m@,
    ensures
        b.root_moves@.len() == a.root_moves@.len(),
        a.root_moves@[i].m@ != m@ ==> b.root_moves@[i] == a.root_moves@[i],
        a.root_moves@[i].m@ == m@ ==> b.root_moves@[i].m == a.root_moves@[i].m,
        a.root_moves@[i].m@ == m@ && score > alpha ==> b.root_moves@[i].score == score
            && b.root_moves@[i].pv.inner@ == a.pv.line_spec(1),
        a.root_moves@[i].m@ == m@ && score <= alpha && !first ==> b.root_moves@[i].score == -32000,
        b.board == a.board && b.shared == a.shared && b.stack == a.stack,
{
    assert(a.root_moves@[i].m@ == m@ ==> noted(
        a.root_moves@[i],
        b.root_moves@[i],
        score,
        alpha,
        beta,
        first,
        spent,
        a.root_depth,
        a.sel_depth,
        a.pv.line_spec(1),
    ));
}

/// A quiet move without a direct check is passed over where it is late, where it is futile, and,
/// with or without a check, where it has done badly; otherwise it is searched.
pub proof fn law_quiet_passed_over(n: Setting, t: Tally, d: SearchData, s: Step)
    requires
        !n.horizon,
        s.kind.quiet(),
        s != n.left_out@,
        n.node !is Root,
        !n.in_check,
        t.best > -30744,
    ensures
        ({
            let direct = checks_directly(d.board.state.mb(), s);
            let standing = standing_of(d, s, n.ply);
            let tardy = !direct && n.beta < 30744 && late(t.count + 1, n.depth, n.improving);
            let hopeless = !direct && futile_below(n.static_eval, n.depth, standing, t.alpha);
            &&& verdict(n, t, d, s) is Late <==> tardy
            &&& verdict(n, t, d, s) is Futile <==> !tardy && hopeless
            &&& verdict(n, t, d, s) is Search <==> !tardy && !hopeless && !(n.depth <= 6 && standing
                < -1481 * n.depth)
        }),
{
}

/// A late move that nothing speaks for or against is reduced by what the table of reductions has
/// for its kind, the depth of the node and its number.
pub proof fn law_late_base(n: Setting, t: Tally, d: SearchData, s: Step)
    requires
        !n.horizon,
        2 <= n.depth <= 127,
        1 <= t.count <= 62,
        !n.cutnode,
        !n.probe.was_pv,
        n.improving,
        n.probe.score is None,
        n.probe.depth is None,
        !checks_directly(d.board.state.mb(), s),
        standing_of(d, s, n.ply) == 0,
    ensures
        late_by(n, t, d, s)->0 == d.lmr.table()[64 * n.depth + t.count + 1 + if s.kind.quiet() {
            8192int
        } else {
            0
        }],
{
}

/// The values of reductions that are ever looked up are those from the second ply and the second
/// move on, and they alone must be in range.
pub proof fn law_reductions_counted(values: Seq<i32>, q: bool, depth: int, count: int)
    requires
        0 <= depth < 128,
        0 <= count < 64,
    ensures
        lmr_counts(lmr_place(q, depth, count)) <==> depth >= 2 && count >= 2,
        lmr_usable(values) && depth >= 2 && count >= 2 ==> -1000000 <= values[lmr_place(
            q,
            depth,
            count,
        )] <= 1000000,
{
    let i = lmr_place(q, depth, count);
    assert(i / 64 == depth + if q {
        128int
    } else {
        0
    });
    assert(i % 64 == count);
}

/// A node is searched a ply deeper exactly if the last move was much reduced and the two
/// evaluations do not add up for the side to move, and a ply less deep exactly if it was reduced
/// and they do, by 211 or more; neither at the root, in check or with a move left out.
pub proof fn law_deepened(d: SearchData, node: Node, depth: int, ply: int)
    requires
        2 <= depth <= 127,
    ensures
        ({
            let last = d.stack.at(ply - 1);
            let sum = static_eval_of(d, ply) + last.eval;
            let open = node !is Root && !checked(d.board.state) && d.stack.at(ply).excluded.null()
                && last.eval != 32001;
            &&& deepened(d, node, depth, ply) == depth + 1 <==> open && last.reduction >= 3093
                && sum <= 0
            &&& deepened(d, node, depth, ply) == depth - 1 <==> open && last.reduction >= 2078
                && sum >= 211
        }),
{
    law_hindsight_edges(
        depth,
        d.stack.at(ply - 1).reduction as int,
        static_eval_of(d, ply),
        d.stack.at(ply - 1).eval as int,
    );
}

/// Where a cut is expected, the depth and the pieces allow it and the evaluation lies 199 above
/// the window, the turn is passed.
pub proof fn law_will_pass(n: Setting, d: SearchData)
    requires
        n.cutnode,
        n.depth >= 3,
        n.left_out.null(),
        !n.in_check,
        n.ply >= d.nmp_min_ply,
        !pawns_alone(d.board.state.mb(), d.board.state.side_to_move),
        n.probe.bound != Some(Bound::Upper),
        !d.stack.at(n.ply - 1).m.null(),
        n.static_eval >= n.beta + 199,
    ensures
        may_pass(n, d),
{
    law_passing(n.static_eval, n.static_eval, n.beta, n.depth, n.depth, n.improving);
}

/// Below the root, from depth five on, a move of the table with a score that tells of no mate and
/// an entry that is deep enough and no upper bound is put to the test.
pub proof fn law_will_single(n: Setting, score: i32, depth: i32)
    requires
        n.node !is Root,
        n.left_out.null(),
        n.depth >= 5,
        n.probe.bound != Some(Bound::Upper),
        n.probe.best_move is Some,
        n.probe.score == Some(score),
        -30744 < score < 30744,
        n.probe.depth == Some(depth),
        depth >= n.depth - 3,
    ensures
        may_single(n),
{
}

/// Off the expected line, out of check and with no move left out, an evaluation far enough above
/// the window stands for a node, and one far enough below leaves only its captures.
pub proof fn law_will_rest(d: SearchData, node: Node, depth: int, alpha: int, beta: int, ply: int)
    requires
        node is NonPV,
        !checked(d.board.state),
        !leaving_out(d, ply),
        1 <= depth <= 127,
    ensures
        ({
            let eval = static_eval_of(d, ply);
            let deep = deepened(d, node, depth, ply);
            &&& -30744 < beta && eval < 30744 && eval >= beta + 87 * deep + (deep * deep) * 6
                ==> rests(d, node, depth, beta, ply)
            &&& alpha < 2000 && probe_of(d, ply).bound != Some(Bound::Lower) && eval < alpha - 242
                - (deep * deep) * 254 ==> razes(d, node, depth, alpha, ply)
        }),
{
    let eval = static_eval_of(d, ply);
    let deep = deepened(d, node, depth, ply);
    law_rests_and_razes(d, node, depth, alpha, beta, ply);
    assert(0 <= (deep * deep)) by (nonlinear_arith);
    assert(6 * deep * deep == (deep * deep) * 6) by (nonlinear_arith);
    assert(254 * deep * deep == (deep * deep) * 254) by (nonlinear_arith);
}

} // verus!
