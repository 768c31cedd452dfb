//! How wide the margins of the search are: the edges at which its decisions turn, for every
//! window, depth and evaluation.

use crate::search::pruning::{
    blend, done_badly, futile_above, futile_below, hindsight_depth, late, loss_allowed, passable,
    passing_depth, razored, singular_extension, swing_bonus,
};
use crate::types::history::quotient;
use crate::types::transposition::Bound;
use vstd::prelude::*;

verus! {

/// Only captures are searched from 243 below the window on, and by 254 times the square of the
/// depth more.
pub proof fn law_razor_edge(bound: Option<Bound>, margin: int, alpha: int, depth: int)
    requires
        alpha < 2000,
        bound != Some(Bound::Lower),
        0 <= depth,
    ensures
        razored(bound, alpha - margin, alpha, depth) <==> margin - 242 > (depth * depth) * 254,
{
    assert(254 * depth * depth == (depth * depth) * 254) by (nonlinear_arith);
}

/// An evaluation stands for a node from 87 above the window for each ply on, with six for the
/// square of the depth, and 73 less where the position improves.
pub proof fn law_rest_edge(margin: int, beta: int, depth: int)
    requires
        0 <= depth,
        -30744 < beta < 30744,
        -30744 < beta + margin < 30744,
    ensures
        futile_above(beta + margin, beta, depth, false) <==> margin >= 87 * depth + (depth * depth)
            * 6,
        futile_above(beta + margin, beta, depth, true) <==> margin + 73 >= 87 * depth + (depth
            * depth) * 6,
{
    assert(6 * depth * depth == (depth * depth) * 6) by (nonlinear_arith);
}

/// A mate in sight forbids that an evaluation stands for a node.
pub proof fn law_rest_without_mate(eval: int, beta: int, depth: int, improving: bool)
    requires
        beta >= 30744 || beta <= -30744 || eval >= 30744 || eval <= -30744,
    ensures
        !futile_above(eval, beta, depth, improving),
{
}

/// The score that stands for such a node lies at 686 1024ths of the way from the evaluation to
/// the window.
pub proof fn law_rest_score(eval: int, beta: int)
    ensures
        -1024 < 1024 * (blend(eval, beta, 686) - eval) - 686 * (beta - eval) < 1024,
{
}

/// The turn is passed with a margin of 199 above the window, less about nine and a half for
/// each ply, and less 64 where the position improves, but never below the window.
pub proof fn law_pass_edge(margin: int, beta: int, depth: int)
    requires
        0 <= depth,
    ensures
        passable(beta + margin, beta, depth, false) <==> margin >= 0 && 1214 * depth >= 128 * (199
            - margin),
        passable(beta + margin, beta, depth, true) <==> margin >= 0 && 1214 * depth >= 128 * (135
            - margin),
{
}

/// After a pass the search is shallower by six plies and 124 640ths of the depth.
pub proof fn law_pass_depth_edge(depth: int)
    requires
        0 <= depth,
    ensures
        640 * (passing_depth(depth) - 6) <= 124 * depth < 640 * (passing_depth(depth) - 5),
{
}

/// A quiet move is late from the number on that the square of the depth gives, with more room
/// where the position improves.
pub proof fn law_late_edge(count: int, depth: int)
    requires
        0 <= depth,
    ensures
        late(count, depth, false) <==> 1024 * count > 2976 + (depth * depth) * 1363,
        late(count, depth, true) <==> 1024 * count > 2976 + (depth * depth) * 1626,
{
    assert((1363 + 263 * 0) * depth * depth == (depth * depth) * 1363) by (nonlinear_arith);
    assert((1363 + 263 * 1) * depth * depth == (depth * depth) * 1626) by (nonlinear_arith);
    assert(0 <= depth * depth) by (nonlinear_arith);
}

/// A quiet move is futile up to depth seven where the evaluation misses the window by 142 and
/// 93 for each ply. A history of 1024 is worth 51 of the evaluation.
pub proof fn law_futile_edge(margin: int, depth: int, k: int, alpha: int)
    requires
        0 <= depth,
    ensures
        futile_below(alpha - margin, depth, 0, alpha) <==> depth <= 7 && margin >= 142 + 93 * depth,
        futile_below(alpha - margin, depth, 1024 * k, alpha) <==> futile_below(
            alpha - margin + 51 * k,
            depth,
            0,
            alpha,
        ),
{
    assert(quotient(51 * (1024 * k), 1024) == 51 * k) by {
        if k >= 0 {
            assert((51 * k * 1024) / 1024 == 51 * k);
        } else {
            assert((51 * (-k) * 1024) / 1024 == 51 * (-k));
        }
    }
    assert(quotient(0, 1024) == 0);
}

/// A quiet move has done badly up to depth six, where its history lies more than 1481 below zero
/// for each ply; one that has done well never has.
pub proof fn law_done_badly(depth: int, history: int, poorer: int)
    requires
        0 <= depth,
        poorer <= history,
    ensures
        done_badly(depth, history) ==> done_badly(depth, poorer),
        done_badly(depth, history) ==> history < 0 && depth <= 6,
        depth <= 6 ==> done_badly(depth, -1481 * depth - 1) && !done_badly(depth, -1481 * depth),
{
}

/// What a noisy move may lose grows with the square of the depth, from 153 at the first ply on,
/// by 290 at first and by 246 more with each further ply.
pub proof fn law_loss_steps(depth: int)
    requires
        1 <= depth,
    ensures
        loss_allowed(0) == -35,
        loss_allowed(1) == -153,
        loss_allowed(depth) - loss_allowed(depth + 1) == 246 * depth + 167,
{
    let next = depth + 1;
    assert(-123 * next * next == -123 * depth * depth - 246 * depth - 123) by (nonlinear_arith)
        requires
            next == depth + 1,
    ;
    assert(-123 * depth * depth <= -123) by (nonlinear_arith)
        requires
            1 <= depth,
    ;
}

/// A look back extends a search exactly if the last move was reduced by at least 3093 1024ths
/// and the evaluations do not add up for the side to move; it shortens one exactly if the move
/// was reduced by at least 2078 and they add up to 211 or more.
pub proof fn law_hindsight_edges(depth: int, reduction: int, eval: int, before: int)
    requires
        2 <= depth <= 127,
    ensures
        hindsight_depth(depth, reduction, eval, before) == depth + 1 <==> reduction >= 3093 && eval
            + before <= 0,
        hindsight_depth(depth, reduction, eval, before) == depth - 1 <==> reduction >= 2078 && eval
            + before >= 211,
{
}

/// The bonus for the last move is four times the swing of the evaluation, up to 1200, less 200
/// for each ply of depth, and of the sign of the swing.
pub proof fn law_swing_size(before: int, eval: int, depth: int)
    requires
        0 <= depth,
    ensures
        -300 <= before + eval <= 0 && 200 * depth <= -4 * (before + eval) ==> swing_bonus(
            before,
            eval,
            depth,
        ) == -4 * (before + eval) - 200 * depth,
        0 <= before + eval <= 300 && 200 * depth <= 4 * (before + eval) ==> swing_bonus(
            before,
            eval,
            depth,
        ) == -4 * (before + eval) + 200 * depth,
        before + eval <= -300 && depth <= 6 ==> swing_bonus(before, eval, depth) == 1200 - 200
            * depth,
        before + eval >= 300 && depth <= 6 ==> swing_bonus(before, eval, depth) == 200 * depth
            - 1200,
        depth >= 6 ==> swing_bonus(before, eval, depth) == 0,
{
    let x = 512 * (-before - eval);
    assert(quotient(x, 128) == -4 * (before + eval)) by {
        if x >= 0 {
            assert((4 * (-before - eval) * 128) / 128 == 4 * (-before - eval));
        } else {
            assert((4 * (before + eval) * 128) / 128 == 4 * (before + eval));
        }
    }
}

/// How far the other moves must fall below the mark for the move from the table to be searched
/// one, two or three plies deeper: off the expected line more than nothing, ten and a hundred;
/// on it more than nothing, 160 and 451, or 210 and 506 where the position is new there.
pub proof fn law_singular_edges(
    short: int,
    mark: int,
    tt_score: int,
    beta: int,
    cutnode: bool,
    was: bool,
)
    requires
        short > 0,
    ensures
        singular_extension(false, was, cutnode, mark - short, mark, tt_score, beta) == if short
            <= 10 {
            1int
        } else if short <= 100 {
            2
        } else {
            3
        },
        singular_extension(true, true, cutnode, mark - short, mark, tt_score, beta) == if short
            <= 160 {
            1int
        } else if short <= 451 {
            2
        } else {
            3
        },
        singular_extension(true, false, cutnode, mark - short, mark, tt_score, beta) == if short
            <= 210 {
            1int
        } else if short <= 506 {
            2
        } else {
            3
        },
        tt_score >= beta || cutnode ==> singular_extension(
            false,
            was,
            cutnode,
            mark,
            mark,
            tt_score,
            beta,
        ) == -3,
{
}

} // verus!
