//! The decisions of the search, as functions of plain values.

use crate::types::history::{clamped, magnitude, quotient};
use crate::types::score::{is_decisive, losing, winning, NO_SCORE, TIMEOUT};
use crate::types::transposition::Bound;
use vstd::prelude::*;

verus! {

/// The greatest depth of a search.
pub const MAX_DEPTH: i32 = 127;

/// One or zero.
pub open spec fn flag(b: bool) -> int {
    if b {
        1
    } else {
        0
    }
}

fn count(b: bool) -> (res: i32)
    ensures
        res == flag(b),
{
    if b {
        1
    } else {
        0
    }
}

/// The greater and the smaller of two numbers.
pub open spec fn larger(a: int, b: int) -> int {
    if a >= b {
        a
    } else {
        b
    }
}

pub open spec fn lesser(a: int, b: int) -> int {
    if a <= b {
        a
    } else {
        b
    }
}

pub fn max(a: i32, b: i32) -> (res: i32)
    ensures
        res == larger(a as int, b as int),
{
    if a >= b {
        a
    } else {
        b
    }
}

pub fn min(a: i32, b: i32) -> (res: i32)
    ensures
        res == lesser(a as int, b as int),
{
    if a <= b {
        a
    } else {
        b
    }
}

/// Divides, rounding towards zero.
pub fn truncated(a: i32, b: i32) -> (res: i32)
    requires
        a > i32::MIN,
        b > 0,
    ensures
        res == quotient(a as int, b as int),
{
    if a >= 0 {
        a / b
    } else {
        -((-a) / b)
    }
}

pub fn clamp(x: i32, low: i32, high: i32) -> (res: i32)
    requires
        low <= high,
    ensures
        res == clamped(x as int, low as int, high as int),
{
    if x < low {
        low
    } else if x > high {
        high
    } else {
        x
    }
}

/// The score in the table settles the question: it is exact, or it lies beyond the side of
/// the window that its bound speaks of.
pub open spec fn conclusive(bound: Option<Bound>, score: int, alpha: int, beta: int) -> bool {
    match bound {
        Some(Bound::Lower) => score >= beta,
        Some(Bound::Upper) => score < alpha,
        Some(Bound::Exact) => true,
        _ => false,
    }
}

pub fn is_conclusive(bound: Option<Bound>, score: i32, alpha: i32, beta: i32) -> (res: bool)
    ensures
        res == conclusive(bound, score as int, alpha as int, beta as int),
{
    match bound {
        Some(Bound::Lower) => score >= beta,
        Some(Bound::Upper) => score < alpha,
        Some(Bound::Exact) => true,
        _ => false,
    }
}

/// How much better the position has become for the side to move since its last turns.
pub open spec fn improvement_of(in_check: bool, eval: int, two: int, four: int) -> int {
    if in_check {
        0
    } else if two != NO_SCORE {
        eval - two
    } else if four != NO_SCORE {
        eval - four
    } else {
        0
    }
}

pub fn improvement(in_check: bool, eval: i32, two: i32, four: i32) -> (res: i32)
    requires
        -40000 <= eval <= 40000,
        -40000 <= two <= 40000,
        -40000 <= four <= 40000,
    ensures
        res == improvement_of(in_check, eval as int, two as int, four as int),
{
    if in_check {
        0
    } else if two != NO_SCORE {
        eval - two
    } else if four != NO_SCORE {
        eval - four
    } else {
        0
    }
}

/// The depth after a look at the reduction and the evaluation before the last move.
pub open spec fn hindsight_depth(depth: int, reduction: int, eval: int, before: int) -> int {
    let extended = if depth < 128 && reduction >= 3093 && eval + before <= 0 {
        depth + 1
    } else {
        depth
    };
    if extended >= 2 && reduction >= 2078 && eval + before >= 211 {
        extended - 1
    } else {
        extended
    }
}

pub fn hindsight(depth: i32, reduction: i32, eval: i32, before: i32) -> (res: i32)
    requires
        1 <= depth <= 127,
        -40000 <= eval <= 40000,
        -40000 <= before <= 40000,
    ensures
        res == hindsight_depth(depth as int, reduction as int, eval as int, before as int),
        1 <= res <= depth + 1,
{
    let mut depth: i32 = depth;
    if depth < 128 && reduction >= 3093 && eval + before <= 0 {
        depth = depth + 1;
    }
    if depth >= 2 && reduction >= 2078 && eval + before >= 211 {
        depth = depth - 1;
    }
    depth
}

/// The bonus for the last quiet move, by how the evaluation has changed with it.
pub open spec fn swing_bonus(before: int, eval: int, depth: int) -> int {
    let bonus = clamped(quotient(512 * (-before - eval), 128), -1200, 1200);
    let size = larger(magnitude(bonus) - depth * 200, 0);
    if bonus > 0 {
        size
    } else if bonus < 0 {
        -size
    } else {
        0
    }
}

pub fn swing(before: i32, eval: i32, depth: i32) -> (res: i32)
    requires
        -40000 <= eval <= 40000,
        -40000 <= before <= 40000,
        0 <= depth <= 128,
    ensures
        res == swing_bonus(before as int, eval as int, depth as int),
        -1200 <= res <= 1200,
{
    let bonus: i32 = clamp(truncated(512 * (-before - eval), 128), -1200, 1200);
    let size: i32 = if bonus < 0 { -bonus } else { bonus };
    let rest: i32 = max(size - depth * 200, 0);
    if bonus > 0 {
        rest
    } else if bonus < 0 {
        -rest
    } else {
        0
    }
}

/// The evaluation is so far below the window that only captures can help.
pub open spec fn razored(bound: Option<Bound>, eval: int, alpha: int, depth: int) -> bool {
    bound != Some(Bound::Lower) && eval < alpha - 242 - 254 * depth * depth && alpha < 2000
}

pub fn razors(bound: Option<Bound>, eval: i32, alpha: i32, depth: i32) -> (res: bool)
    requires
        0 <= depth <= 128,
        -40000 <= alpha <= 40000,
    ensures
        res == razored(bound, eval as int, alpha as int, depth as int),
{
    assert(0 <= depth * depth <= 16384) by (nonlinear_arith)
        requires
            0 <= depth <= 128,
    ;
    assert(254 * depth * depth == 254 * (depth * depth)) by (nonlinear_arith);
    let lower: bool = match bound {
        Some(Bound::Lower) => true,
        _ => false,
    };
    !lower && eval < alpha - 242 - 254 * (depth * depth) && alpha < 2000
}

/// The evaluation is so far above the window that the opponent will not come back.
pub open spec fn futile_above(eval: int, beta: int, depth: int, improving: bool) -> bool {
    &&& eval >= beta + 87 * depth + 6 * depth * depth - 73 * flag(improving)
    &&& !winning(beta) && !losing(beta)
    &&& !winning(eval) && !losing(eval)
}

pub fn reverse_futility(eval: i32, beta: i32, depth: i32, improving: bool) -> (res: bool)
    requires
        0 <= depth <= 128,
        -40000 <= beta <= 40000,
    ensures
        res == futile_above(eval as int, beta as int, depth as int, improving),
{
    assert(0 <= depth * depth <= 16384) by (nonlinear_arith)
        requires
            0 <= depth <= 128,
    ;
    assert(6 * depth * depth == 6 * (depth * depth)) by (nonlinear_arith);
    eval >= beta + 87 * depth + 6 * (depth * depth) - 73 * count(improving) && !is_decisive(beta)
        && !is_decisive(eval)
}

/// The point at `t` 1024ths of the way from `a` to `b`.
pub open spec fn blend(a: int, b: int, t: int) -> int {
    a + quotient((b - a) * t, 1024)
}

/// Interpolates between two scores.
pub fn ilerp(a: i32, b: i32, t: i32) -> (res: i32)
    requires
        -40000 <= a <= 40000,
        -40000 <= b <= 40000,
        0 <= t <= 1024,
    ensures
        res == blend(a as int, b as int, t as int),
        a <= b ==> a <= res <= b,
        b <= a ==> b <= res <= a,
{
    let d: i32 = b - a;
    assert(-81920000 <= d * t <= 81920000) by (nonlinear_arith)
        requires
            -80000 <= d <= 80000,
            0 <= t <= 1024,
    ;
    assert(d >= 0 ==> 0 <= d * t <= d * 1024) by (nonlinear_arith)
        requires
            0 <= t <= 1024,
    ;
    assert(d <= 0 ==> d * 1024 <= d * t <= 0) by (nonlinear_arith)
        requires
            0 <= t <= 1024,
    ;
    a + truncated(d * t, 1024)
}

/// The evaluation lets the side to move pass and still be above the window.
pub open spec fn passable(eval: int, beta: int, depth: int, improving: bool) -> bool {
    eval >= beta + larger(199 - quotient(1214 * depth, 128) - 64 * flag(improving), 0)
}

pub fn can_pass(eval: i32, beta: i32, depth: i32, improving: bool) -> (res: bool)
    requires
        0 <= depth <= 128,
        -40000 <= beta <= 40000,
    ensures
        res == passable(eval as int, beta as int, depth as int, improving),
{
    eval >= beta + max(199 - truncated(1214 * depth, 128) - 64 * count(improving), 0)
}

/// By how much the search after a pass is shallower.
pub open spec fn passing_depth(depth: int) -> int {
    6 + depth * 124 / 640
}

pub fn pass_reduction(depth: i32) -> (res: i32)
    requires
        0 <= depth <= 128,
    ensures
        res == passing_depth(depth as int),
        6 <= res <= 30,
{
    6 + depth * 124 / 640
}

/// What follows from the score after a pass.
#[derive(Debug, Clone, Copy, PartialEq, Eq, Structural)]
pub enum Passing {
    /// The score is the answer.
    Cut,
    /// A search without passing has to confirm it.
    Confirm,
    /// Nothing follows.
    Open,
}

/// A score above the window that tells of no mate is the answer, but at great depth it has
/// to be confirmed, unless it is part of a confirmation itself.
pub open spec fn passing_of(score: int, beta: int, depth: int, min_ply: int) -> Passing {
    if score < beta || winning(score) || losing(score) {
        Passing::Open
    } else if depth <= 14 || min_ply > 0 {
        Passing::Cut
    } else {
        Passing::Confirm
    }
}

pub fn pass_answer(score: i32, beta: i32, depth: i32, min_ply: i32) -> (res: Passing)
    ensures
        res == passing_of(score as int, beta as int, depth as int, min_ply as int),
{
    if score < beta || is_decisive(score) {
        Passing::Open
    } else if depth <= 14 || min_ply > 0 {
        Passing::Cut
    } else {
        Passing::Confirm
    }
}

/// What a search without passing says: its score if that is above the window too, that the
/// search was stopped, or nothing.
pub open spec fn confirmation_of(stopped: bool, score: int, beta: int) -> Option<int> {
    if stopped {
        Some(TIMEOUT as int)
    } else if score >= beta {
        Some(score)
    } else {
        None
    }
}

pub fn confirmation(stopped: bool, score: i32, beta: i32) -> (res: Option<i32>)
    ensures
        same_score(res, confirmation_of(stopped, score as int, beta as int)),
{
    if stopped {
        Some(TIMEOUT)
    } else if score >= beta {
        Some(score)
    } else {
        None
    }
}

/// The two are the same number, or neither is one.
pub open spec fn same_score(a: Option<i32>, b: Option<int>) -> bool {
    match a {
        Some(x) => b == Some(x as int),
        None => b is None,
    }
}

/// The score says something about the evaluation: it is exact, or bounds the evaluation from
/// the side on which it lies.
pub open spec fn telling(bound: Bound, score: int, eval: int) -> bool {
    match bound {
        Bound::Lower => score >= eval,
        Bound::Upper => score <= eval,
        Bound::Exact => true,
        Bound::Unset => false,
    }
}

pub fn is_telling(bound: Bound, score: i32, eval: i32) -> (res: bool)
    ensures
        res == telling(bound, score as int, eval as int),
{
    match bound {
        Bound::Lower => score >= eval,
        Bound::Upper => score <= eval,
        Bound::Exact => true,
        Bound::Unset => false,
    }
}

/// How much deeper the move from the table is searched, by the best score without it.
pub open spec fn singular_extension(
    pv: bool,
    was_pv: bool,
    cutnode: bool,
    score: int,
    singular_beta: int,
    tt_score: int,
    beta: int,
) -> int {
    if score < singular_beta {
        let double = 10 + 150 * flag(pv) + 50 * flag(pv && !was_pv);
        let triple = 100 + 351 * flag(pv) + 55 * flag(pv && !was_pv);
        1 + flag(score < singular_beta - double) + flag(score < singular_beta - triple)
    } else if tt_score >= beta || cutnode {
        -3
    } else {
        0
    }
}

pub fn extension_for(
    pv: bool,
    was_pv: bool,
    cutnode: bool,
    score: i32,
    singular_beta: i32,
    tt_score: i32,
    beta: i32,
) -> (res: i32)
    requires
        -40000 <= singular_beta <= 40000,
    ensures
        res == singular_extension(
            pv,
            was_pv,
            cutnode,
            score as int,
            singular_beta as int,
            tt_score as int,
            beta as int,
        ),
        -3 <= res <= 3,
{
    if score < singular_beta {
        let double_margin: i32 = 10 + 150 * count(pv) + 50 * count(pv && !was_pv);
        let triple_margin: i32 = 100 + 351 * count(pv) + 55 * count(pv && !was_pv);
        1 + count(score < singular_beta - double_margin) + count(
            score < singular_beta - triple_margin,
        )
    } else if tt_score >= beta || cutnode {
        -3
    } else {
        0
    }
}

/// The extension that follows from a search without the move from the table; none if that
/// search was stopped.
pub fn singular_answer(
    stopped: bool,
    pv: bool,
    was_pv: bool,
    cutnode: bool,
    score: i32,
    singular_beta: i32,
    tt_score: i32,
    beta: i32,
) -> (res: Option<i32>)
    requires
        -40000 <= singular_beta <= 40000,
    ensures
        stopped ==> res is None,
        !stopped ==> same_score(
            res,
            Some(
                singular_extension(
                    pv,
                    was_pv,
                    cutnode,
                    score as int,
                    singular_beta as int,
                    tt_score as int,
                    beta as int,
                ),
            ),
        ),
{
    if stopped {
        None
    } else {
        Some(extension_for(pv, was_pv, cutnode, score, singular_beta, tt_score, beta))
    }
}

/// Enough moves have been tried.
pub open spec fn late(move_count: int, depth: int, improving: bool) -> bool {
    move_count > (2976 + (1363 + 263 * flag(improving)) * depth * depth) / 1024
}

pub fn is_late(move_count: i32, depth: i32, improving: bool) -> (res: bool)
    requires
        0 <= depth <= 128,
    ensures
        res == late(move_count as int, depth as int, improving),
{
    let factor: i32 = 1363 + 263 * count(improving);
    assert(0 <= factor * depth <= 208128) by (nonlinear_arith)
        requires
            0 <= factor <= 1626,
            0 <= depth <= 128,
    ;
    let part: i32 = factor * depth;
    assert(0 <= part * depth <= 26640384) by (nonlinear_arith)
        requires
            0 <= part <= 208128,
            0 <= depth <= 128,
    ;
    move_count > (2976 + part * depth) / 1024
}

/// A quiet move cannot bring the score up to the window.
pub open spec fn futile_below(eval: int, depth: int, history: int, alpha: int) -> bool {
    depth < 8 && eval + 93 * depth + 142 + quotient(51 * history, 1024) <= alpha
}

pub fn is_futile(eval: i32, depth: i32, history: i32, alpha: i32) -> (res: bool)
    requires
        0 <= depth <= 128,
        -40000 <= eval <= 40000,
        -30000 <= history <= 30000,
    ensures
        res == futile_below(eval as int, depth as int, history as int, alpha as int),
{
    depth < 8 && eval + 93 * depth + 142 + truncated(51 * history, 1024) <= alpha
}

/// A quiet move has done so badly so far that it is passed over.
pub open spec fn done_badly(depth: int, history: int) -> bool {
    depth <= 6 && history < -1481 * depth
}

/// A quiet move has done too badly before.
pub fn has_done_badly(depth: i32, history: i32) -> (res: bool)
    requires
        0 <= depth <= 128,
    ensures
        res == done_badly(depth as int, history as int),
{
    assert(-1481 * 128 <= -1481 * depth <= 0);
    depth <= 6 && history < -1481 * depth
}

/// What a noisy move may lose.
pub open spec fn loss_allowed(depth: int) -> int {
    lesser(-123 * depth * depth - 44 * depth + 14, -35)
}

pub fn exchange_threshold(depth: i32) -> (res: i32)
    requires
        0 <= depth <= 128,
    ensures
        res == loss_allowed(depth as int),
        -3000000 <= res <= -35,
{
    assert(0 <= depth * depth <= 16384) by (nonlinear_arith)
        requires
            0 <= depth <= 128,
    ;
    assert(-123 * depth * depth == -123 * (depth * depth)) by (nonlinear_arith);
    min(-123 * (depth * depth) - 44 * depth + 14, -35)
}

/// What decides how much shallower a late move is searched.
pub struct Lateness {
    pub base: i32,
    pub cutnode: bool,
    pub was_pv: bool,
    pub direct_check: bool,
    pub improving: bool,
    pub table_low: bool,
    pub table_shallow: bool,
    pub history: i32,
}

/// The reduction in 1024ths of a ply.
pub open spec fn reduction_for(l: Lateness) -> int {
    l.base + 1200 * flag(l.cutnode) - 1200 * flag(l.was_pv) - 800 * flag(l.direct_check) + 215
        * flag(!l.improving) + 454 * flag(l.table_low) + 303 * flag(l.table_shallow) - quotient(
        439 * l.history,
        4096,
    )
}

pub fn late_reduction(l: &Lateness) -> (res: i32)
    requires
        -1000000 <= l.base <= 1000000,
        -30000 <= l.history <= 30000,
    ensures
        res == reduction_for(*l),
        -1010000 <= res <= 1010000,
{
    l.base + 1200 * count(l.cutnode) - 1200 * count(l.was_pv) - 800 * count(l.direct_check) + 215
        * count(!l.improving) + 454 * count(l.table_low) + 303 * count(l.table_shallow)
        - truncated(439 * l.history, 4096)
}

/// The depth at which a late move is searched first.
pub open spec fn reduced_depth(new_depth: int, reduction: int, pv: bool) -> int {
    larger(new_depth - quotient(reduction, 1024), 1) + flag(pv)
}

pub fn reduce(new_depth: i32, reduction: i32, pv: bool) -> (res: i32)
    requires
        -1000 <= new_depth <= 1000,
        -1010000 <= reduction <= 1010000,
    ensures
        res == reduced_depth(new_depth as int, reduction as int, pv),
        1 <= res <= 2000,
{
    max(new_depth - truncated(reduction, 1024), 1) + count(pv)
}

/// A bonus that grows with the depth up to a limit, less an amount.
pub fn depth_bonus(factor: i32, depth: i32, limit: i32, less: i32) -> (res: i32)
    requires
        0 <= depth <= 130,
        0 <= factor <= 1000,
        0 <= limit <= 2000,
        0 <= less <= 1000,
    ensures
        res == lesser(factor * depth, limit as int) - less,
        -1000 <= res <= 2000,
{
    assert(0 <= factor * depth <= 130000) by (nonlinear_arith)
        requires
            0 <= factor <= 1000,
            0 <= depth <= 130,
    ;
    min(factor * depth, limit) - less
}

/// A bonus that grows with the depth from below zero up to a limit.
pub fn capped_bonus(factor: i32, depth: i32, less: i32, limit: i32) -> (res: i32)
    requires
        0 <= depth <= 130,
        0 <= factor <= 1000,
        0 <= limit <= 2000,
        0 <= less <= 1000,
    ensures
        res == lesser(factor * depth - less, limit as int),
        -1000 <= res <= 2000,
{
    assert(0 <= factor * depth <= 130000) by (nonlinear_arith)
        requires
            0 <= factor <= 1000,
            0 <= depth <= 130,
    ;
    min(factor * depth - less, limit)
}

} // verus!
