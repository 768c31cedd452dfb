//! Scores of positions.

use vstd::prelude::*;

verus! {

/// The score of a drawn position.
pub const DRAW: i32 = 0;

/// The score of mating at once.
pub const MATE: i32 = 31000;

/// Above every score.
pub const INFINITE: i32 = 32000;

/// The mark of a score that is not known.
pub const NO_SCORE: i32 = 32001;

/// The mark of a search that was stopped.
pub const TIMEOUT: i32 = 32002;

/// The lowest score that announces a mate.
pub const MATE_IN_MAX: i32 = 30744;

pub open spec fn winning(score: int) -> bool {
    score >= MATE_IN_MAX
}

pub open spec fn losing(score: int) -> bool {
    score <= -MATE_IN_MAX
}

pub fn is_win(score: i32) -> (res: bool)
    ensures
        res == winning(score as int),
{
    score >= MATE_IN_MAX
}

pub fn is_loss(score: i32) -> (res: bool)
    ensures
        res == losing(score as int),
{
    score <= -MATE_IN_MAX
}

pub fn is_decisive(score: i32) -> (res: bool)
    ensures
        res == (winning(score as int) || losing(score as int)),
{
    is_win(score) || is_loss(score)
}

/// A mate score counted from the position at `ply` instead of from the root.
pub open spec fn stored(score: int, ply: int) -> int {
    if score == NO_SCORE {
        score
    } else if winning(score) {
        score + ply
    } else if losing(score) {
        score - ply
    } else {
        score
    }
}

/// The score that was stored, counted from the root again.
pub open spec fn restored(score: int, ply: int) -> int {
    if score == NO_SCORE {
        score
    } else if winning(score) {
        score - ply
    } else if losing(score) {
        score + ply
    } else {
        score
    }
}

/// Counts a stored mate score from the root.
pub fn from_tt(score: i16, ply: u8) -> (res: i16)
    ensures
        res == restored(score as int, ply as int),
{
    let s: i32 = score as i32;
    let p: i32 = ply as i32;
    if s == NO_SCORE {
        score
    } else if is_win(s) {
        (s - p) as i16
    } else if is_loss(s) {
        (s + p) as i16
    } else {
        score
    }
}

/// Storing a score and reading it back at the same ply gives the score, unless it collides
/// with the mark of an unknown score.
pub proof fn law_score_round_trip(score: int, ply: int)
    requires
        0 <= ply,
        stored(score, ply) != NO_SCORE || score == NO_SCORE,
    ensures
        restored(stored(score, ply), ply) == score,
{
}

} // verus!
