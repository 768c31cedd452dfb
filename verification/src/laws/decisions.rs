//! What the decisions of the search rest on: how they answer to greater and smaller scores,
//! evaluations, depths and histories.

use crate::search::pruning::{
    blend, conclusive, confirmation_of, futile_above, futile_below, hindsight_depth, improvement_of,
    late, loss_allowed, passable, passing_depth, passing_of, razored, reduced_depth, reduction_for,
    singular_extension, swing_bonus, telling, Lateness,
};
use crate::types::history::quotient;
use crate::types::transposition::Bound;
use vstd::prelude::*;

verus! {

/// The true score `v` agrees with what a stored score says of it.
pub open spec fn allows(bound: Bound, score: int, v: int) -> bool {
    match bound {
        Bound::Exact => v == score,
        Bound::Lower => v >= score,
        Bound::Upper => v <= score,
        Bound::Unset => true,
    }
}

/// Two scores lie on the same side of a window: both below it, both in it, or both at its
/// upper end or above.
pub open spec fn same_side(v: int, w: int, alpha: int, beta: int) -> bool {
    (v < alpha <==> w < alpha) && (v >= beta <==> w >= beta)
}

/// A score from the table settles a node exactly if every true score that its bound allows lies
/// on the same side of the window as the score itself. So no score at the upper end of the
/// window or above follows from an upper bound, and none below it from a lower bound.
pub proof fn law_conclusive(bound: Bound, score: int, alpha: int, beta: int)
    requires
        alpha < beta,
    ensures
        conclusive(Some(bound), score, alpha, beta) <==> forall|v: int| #[trigger]
            allows(bound, score, v) ==> same_side(v, score, alpha, beta),
        conclusive(Some(bound), score, alpha, beta) && bound == Bound::Upper ==> score < alpha,
        conclusive(Some(bound), score, alpha, beta) && bound == Bound::Lower ==> score >= beta,
        !conclusive(None, score, alpha, beta),
{
    if !conclusive(Some(bound), score, alpha, beta) {
        let v = if bound == Bound::Lower {
            beta
        } else if bound == Bound::Upper {
            alpha - 1
        } else if score < alpha {
            beta
        } else {
            alpha - 1
        };
        assert(allows(bound, score, v) && !same_side(v, score, alpha, beta));
    }
}

/// The score of a search corrects the evaluation exactly if every true score that its bound
/// allows lies on the same side of the evaluation, or on it, as the score does.
pub proof fn law_telling(bound: Bound, score: int, eval: int)
    requires
        bound != Bound::Exact,
    ensures
        telling(bound, score, eval) <==> (forall|v: int| #[trigger]
            allows(bound, score, v) ==> v >= eval) || (forall|v: int| #[trigger]
            allows(bound, score, v) ==> v <= eval),
        telling(Bound::Exact, score, eval),
{
    assert(allows(bound, score, score));
    if bound == Bound::Lower {
        assert(allows(bound, score, if score > eval {
            score + 1
        } else {
            eval + 1
        }));
    } else if bound == Bound::Upper {
        assert(allows(bound, score, if score < eval {
            score - 1
        } else {
            eval - 1
        }));
    } else {
        assert(allows(bound, score, eval - 1));
        assert(allows(bound, score, eval + 1));
    }
}

/// A division that rounds towards zero keeps the order.
pub proof fn lemma_quotient_order(a: int, b: int, d: int)
    requires
        a <= b,
        d > 0,
    ensures
        quotient(a, d) <= quotient(b, d),
        a >= 0 ==> quotient(a, d) >= 0,
        a <= 0 ==> quotient(a, d) <= 0,
{
    if a >= 0 {
        vstd::arithmetic::div_mod::lemma_div_is_ordered(a, b, d);
        vstd::arithmetic::div_mod::lemma_div_pos_is_pos(a, d);
    } else if b >= 0 {
        vstd::arithmetic::div_mod::lemma_div_pos_is_pos(b, d);
        vstd::arithmetic::div_mod::lemma_div_pos_is_pos(-a, d);
    } else {
        vstd::arithmetic::div_mod::lemma_div_is_ordered(-b, -a, d);
        vstd::arithmetic::div_mod::lemma_div_pos_is_pos(-a, d);
        vstd::arithmetic::div_mod::lemma_div_pos_is_pos(-b, d);
    }
}

/// A square grows with its root.
proof fn lemma_square_order(a: int, b: int, c: int)
    requires
        0 <= a <= b,
        0 <= c,
    ensures
        c * a * a <= c * b * b,
        0 <= c * a * a,
{
    assert(c * a * a <= c * b * b && 0 <= c * a * a) by (nonlinear_arith)
        requires
            0 <= a <= b,
            0 <= c,
    ;
}

/// Only captures are searched where the evaluation lies below the window, by more the greater
/// the depth; never where the table says that the score is at least so much.
pub proof fn law_razoring(
    bound: Option<Bound>,
    eval: int,
    worse: int,
    alpha: int,
    depth: int,
    less: int,
)
    requires
        0 <= less <= depth,
        worse <= eval,
    ensures
        razored(bound, eval, alpha, depth) ==> eval < alpha - 242,
        razored(bound, eval, alpha, depth) ==> razored(bound, worse, alpha, less),
        razored(Some(Bound::Lower), eval, alpha, depth) == false,
        alpha >= 2000 ==> !razored(bound, eval, alpha, depth),
        depth >= 1 && razored(bound, eval, alpha, depth) ==> eval < alpha - 495,
{
    lemma_square_order(less, depth, 254);
    if depth >= 1 {
        lemma_square_order(1, depth, 254);
    }
}

/// The moves of a node are passed over for its evaluation only if that lies above the window,
/// by more the greater the depth, and no mate is in sight. The score that stands for the node
/// then is no less than the window's upper end and no more than the evaluation.
pub proof fn law_reverse_futility(
    eval: int,
    better: int,
    beta: int,
    depth: int,
    less: int,
    improving: bool,
)
    requires
        1 <= less <= depth,
        eval <= better < 30744,
    ensures
        futile_above(eval, beta, depth, improving) ==> eval > beta,
        futile_above(eval, beta, depth, improving) ==> futile_above(better, beta, less, improving),
        futile_above(eval, beta, depth, false) ==> futile_above(eval, beta, depth, true),
        futile_above(eval, beta, depth, improving) ==> beta <= blend(eval, beta, 686) <= eval,
        futile_above(eval, beta, depth, improving) ==> -30744 < beta < 30744 && -30744 < eval
            < 30744,
{
    lemma_square_order(less, depth, 6);
    lemma_square_order(1, less, 6);
    if futile_above(eval, beta, depth, improving) {
        law_blend(eval, beta, 686);
    }
}

/// A blend of two scores lies between them, at one end and at the other for the two ends of the
/// scale, and nearer to the second the greater its share.
pub proof fn law_blend(a: int, b: int, t: int)
    requires
        0 <= t <= 1024,
    ensures
        a <= b ==> a <= blend(a, b, t) <= b,
        b <= a ==> b <= blend(a, b, t) <= a,
        blend(a, b, 0) == a,
        blend(a, b, 1024) == b,
{
    let d = b - a;
    assert(d >= 0 ==> 0 <= d * t <= d * 1024) by (nonlinear_arith)
        requires
            0 <= t <= 1024,
    ;
    assert(d <= 0 ==> d * 1024 <= d * t <= 0) by (nonlinear_arith)
        requires
            0 <= t <= 1024,
    ;
    lemma_quotient_order(0, if d >= 0 {
        d * t
    } else {
        0
    }, 1024);
    lemma_quotient_order(if d >= 0 {
        d * t
    } else {
        d * 1024
    }, if d >= 0 {
        d * 1024
    } else {
        d * t
    }, 1024);
    lemma_quotient_order(if d <= 0 {
        d * t
    } else {
        0
    }, 0, 1024);
}

/// The turn is passed only if the evaluation is at the upper end of the window or above, by a
/// margin that shrinks with the depth.
pub proof fn law_passing(eval: int, better: int, beta: int, depth: int, more: int, improving: bool)
    requires
        0 <= depth <= more,
        eval <= better,
    ensures
        passable(eval, beta, depth, improving) ==> eval >= beta,
        passable(eval, beta, depth, improving) ==> passable(better, beta, more, improving),
        passable(eval, beta, depth, false) ==> passable(eval, beta, depth, true),
        eval >= beta + 199 ==> passable(eval, beta, depth, improving),
{
    lemma_quotient_order(1214 * depth, 1214 * more, 128);
}

/// A passed turn is searched at least six plies less deep, and less deep by more at greater
/// depth, but always deeper from a greater depth.
pub proof fn law_passing_depth(depth: int, more: int)
    requires
        0 <= depth <= more,
    ensures
        6 <= passing_depth(depth) <= passing_depth(more),
        depth - passing_depth(depth) <= more - passing_depth(more),
{
}

/// A passed turn cuts a node off only with a score at the upper end of the window or above that
/// tells of no mate; beyond depth fourteen a search has to confirm it, unless it is part of such
/// a search. What a confirmation gives is at the upper end of the window or above too.
pub proof fn law_pass_cuts(score: int, beta: int, depth: int, min_ply: int, second: int)
    ensures
        passing_of(score, beta, depth, min_ply) !is Open <==> beta <= score < 30744 && score
            > -30744,
        depth > 14 && min_ply <= 0 ==> passing_of(score, beta, depth, min_ply) !is Cut,
        depth <= 14 || min_ply > 0 ==> passing_of(score, beta, depth, min_ply) !is Confirm,
        confirmation_of(false, second, beta) is Some <==> second >= beta,
        confirmation_of(false, second, beta) matches Some(s) ==> s == second,
        confirmation_of(true, second, beta) == Some(32002int),
{
}

/// The move from the table is searched deeper exactly if all other moves fall below its mark,
/// and by more the farther they do; less deep only if they do not and a cut is expected.
pub proof fn law_singular(
    pv: bool,
    was_pv: bool,
    cutnode: bool,
    score: int,
    worse: int,
    mark: int,
    tt_score: int,
    beta: int,
)
    requires
        worse <= score,
    ensures
        ({
            let e = singular_extension(pv, was_pv, cutnode, score, mark, tt_score, beta);
            let f = singular_extension(pv, was_pv, cutnode, worse, mark, tt_score, beta);
            let off = singular_extension(false, was_pv, cutnode, score, mark, tt_score, beta);
            &&& e > 0 <==> score < mark
            &&& e <= f
            &&& e < 0 <==> score >= mark && (tt_score >= beta || cutnode)
            &&& -3 <= e <= 3
            &&& e <= off
            &&& score < mark - 506 ==> e == 3
            &&& mark - 10 <= score < mark ==> e == 1
        }),
{
}

/// Quiet moves are passed over as late only after some moves; more moves count at greater depth
/// and when the position improves. The first two moves never are.
pub proof fn law_late(count: int, later: int, depth: int, less: int, improving: bool)
    requires
        0 <= less <= depth,
        count <= later,
    ensures
        late(count, depth, improving) ==> late(later, less, improving),
        late(count, depth, true) ==> late(count, depth, false),
        count <= 2 ==> !late(count, depth, improving),
        depth >= 1 && count <= 4 ==> !late(count, depth, improving),
{
    lemma_square_order(less, depth, 1363);
    lemma_square_order(less, depth, 1626);
    lemma_square_order(0, depth, 1363);
    lemma_square_order(0, depth, 1626);
    lemma_square_order(0, depth, 263);
    assert((1363 + 263) * depth * depth == 1363 * depth * depth + 263 * depth * depth)
        by (nonlinear_arith);
    if depth >= 1 {
        lemma_square_order(1, depth, 1363);
        lemma_square_order(1, depth, 1626);
    }
}

/// A quiet move is passed over as futile only at small depth and where the evaluation, with a
/// margin that grows with the depth and with the history of the move, does not reach the window.
pub proof fn law_futile(
    eval: int,
    worse: int,
    depth: int,
    less: int,
    history: int,
    poorer: int,
    alpha: int,
    higher: int,
)
    requires
        0 <= less <= depth,
        worse <= eval,
        poorer <= history,
        alpha <= higher,
    ensures
        futile_below(eval, depth, history, alpha) ==> futile_below(worse, less, poorer, higher),
        futile_below(eval, depth, history, alpha) ==> depth < 8,
        history >= 0 && futile_below(eval, depth, history, alpha) ==> eval + 142 <= alpha,
{
    lemma_quotient_order(51 * poorer, 51 * history, 1024);
}

/// What a noisy move may lose is a loss, and a greater one at greater depth.
pub proof fn law_loss_allowed(depth: int, more: int)
    requires
        0 <= depth <= more,
    ensures
        loss_allowed(more) <= loss_allowed(depth) <= -35,
{
    lemma_square_order(depth, more, 123);
    assert(-123 * depth * depth == -(123 * depth * depth)) by (nonlinear_arith);
    assert(-123 * more * more == -(123 * more * more)) by (nonlinear_arith);
}

/// What makes a move less promising makes its search shallower: an expected cut, an evaluation
/// that does not improve, a low or shallow score in the table, a worse history. What speaks for
/// it makes it deeper: a place on the expected line before, and a direct check.
pub proof fn law_reductions(l: Lateness, poorer: i32)
    requires
        poorer <= l.history,
    ensures
        reduction_for(Lateness { cutnode: true, ..l }) == reduction_for(
            Lateness { cutnode: false, ..l },
        ) + 1200,
        reduction_for(Lateness { was_pv: true, ..l }) == reduction_for(
            Lateness { was_pv: false, ..l },
        ) - 1200,
        reduction_for(Lateness { direct_check: true, ..l }) == reduction_for(
            Lateness { direct_check: false, ..l },
        ) - 800,
        reduction_for(Lateness { improving: true, ..l }) == reduction_for(
            Lateness { improving: false, ..l },
        ) - 215,
        reduction_for(Lateness { table_low: true, ..l }) == reduction_for(
            Lateness { table_low: false, ..l },
        ) + 454,
        reduction_for(Lateness { table_shallow: true, ..l }) == reduction_for(
            Lateness { table_shallow: false, ..l },
        ) + 303,
        -4096 < 4096 * (reduction_for(Lateness { history: 0, ..l }) - reduction_for(l)) - 439
            * l.history < 4096,
        reduction_for(
            Lateness {
                cutnode: false,
                was_pv: false,
                direct_check: false,
                improving: true,
                table_low: false,
                table_shallow: false,
                history: 0,
                ..l
            },
        ) == l.base,
        reduction_for(Lateness { history: poorer, ..l }) >= reduction_for(l),
{
    lemma_quotient_order(439 * poorer, 439 * l.history, 4096);
}

/// A reduced search is the shallower the greater the reduction, a ply for each 1024, but at
/// least one ply deep; on the expected line it is a ply deeper.
pub proof fn law_reduced_depth(depth: int, reduction: int, greater: int, plies: int, pv: bool)
    requires
        reduction <= greater,
        0 <= plies < depth,
    ensures
        reduced_depth(depth, greater, pv) <= reduced_depth(depth, reduction, pv),
        reduced_depth(depth, reduction, pv) >= 1,
        reduced_depth(depth, reduction, true) == reduced_depth(depth, reduction, false) + 1,
        reduced_depth(depth, 1024 * plies, false) == depth - plies,
        reduction >= 0 ==> reduced_depth(depth, reduction, false) <= depth,
{
    lemma_quotient_order(reduction, greater, 1024);
    lemma_quotient_order(0, if reduction >= 0 {
        reduction
    } else {
        0
    }, 1024);
}

/// A look back extends a search only if the opponent's last move was much reduced and the two
/// evaluations now add up in the opponent's favour, and shortens one only if they add up in
/// favour of the side to move; by one ply at most.
pub proof fn law_hindsight(depth: int, reduction: int, eval: int, before: int)
    requires
        1 <= depth <= 127,
    ensures
        depth - 1 <= hindsight_depth(depth, reduction, eval, before) <= depth + 1,
        hindsight_depth(depth, reduction, eval, before) >= 1,
        hindsight_depth(depth, reduction, eval, before) > depth ==> eval <= -before && reduction
            >= 3093,
        hindsight_depth(depth, reduction, eval, before) < depth ==> eval > -before && reduction
            >= 2078,
        reduction < 2078 ==> hindsight_depth(depth, reduction, eval, before) == depth,
{
}

/// The position improves if the evaluation is greater than at the last turn of the same side
/// for which there is one.
pub proof fn law_improvement(eval: int, two: int, four: int)
    ensures
        two != 32001 ==> (improvement_of(false, eval, two, four) > 0 <==> eval > two),
        two == 32001 && four != 32001 ==> (improvement_of(false, eval, two, four) > 0 <==> eval
            > four),
        improvement_of(true, eval, two, four) <= 0,
{
}

/// The last move gets a bonus if the evaluations before and after it add up against the side
/// that is to move now, and a malus if they add up for it: the better the outcome for the mover
/// the greater the bonus.
pub proof fn law_swing(before: int, eval: int, better: int, depth: int)
    requires
        eval <= better,
        0 <= depth,
    ensures
        swing_bonus(before, eval, depth) > 0 ==> before + eval < 0,
        swing_bonus(before, eval, depth) < 0 ==> before + eval > 0,
        swing_bonus(before, better, depth) <= swing_bonus(before, eval, depth),
        -1200 <= swing_bonus(before, eval, depth) <= 1200,
{
    lemma_quotient_order(512 * (-before - better), 512 * (-before - eval), 128);
    if before + eval >= 0 {
        lemma_quotient_order(512 * (-before - eval), 0, 128);
    }
    if before + eval <= 0 {
        lemma_quotient_order(0, 512 * (-before - eval), 128);
    }
    if before + better >= 0 {
        lemma_quotient_order(512 * (-before - better), 0, 128);
    }
    if before + better <= 0 {
        lemma_quotient_order(0, 512 * (-before - better), 128);
    }
}

} // verus!
