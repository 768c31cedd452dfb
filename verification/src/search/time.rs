//! Limits on how long a search may take.

use std::time::Instant;
use vstd::prelude::*;

verus! {

/// Milliseconds that are set aside for sending a move.
pub const MOVE_OVERHEAD: u64 = 20;

/// The clock is looked at once in so many nodes.
pub const CHECK_INTERVAL: u64 = 2048;

/// `std::time::Instant`, a reading of the monotonic clock.
#[verifier::external_type_specification]
#[verifier::external_body]
pub struct ExInstant(Instant);

/// `Instant::now`: the current reading of the clock. Nothing is claimed of it.
pub assume_specification[ Instant::now ]() -> Instant;

/// `Instant::elapsed`: the time since a reading of the clock, in nanoseconds. Nothing is
/// claimed of it.
#[verifier::external_body]
fn nanos_since(start: &Instant) -> u128 {
    start.elapsed().as_nanos()
}

/// A limit on the number of nodes: one that ends the search between two iterations, or
/// one that ends it at once.
#[derive(Debug, Clone, Copy, PartialEq)]
pub enum Nodes {
    Soft(u64),
    Hard(u64),
}

/// What was asked of a search, with times in milliseconds.
#[derive(Debug, Clone, Copy, PartialEq)]
pub struct TimeSettings {
    pub time: Option<u64>,
    pub inc: u64,
    pub movestogo: Option<u64>,
    pub depth: Option<i32>,
    pub nodes: Option<Nodes>,
    pub mate: Option<u64>,
    pub movetime: Option<u64>,
}

impl TimeSettings {
    /// Nothing is asked.
    pub open spec fn unlimited() -> TimeSettings {
        TimeSettings {
            time: None,
            inc: 0,
            movestogo: None,
            depth: None,
            nodes: None,
            mate: None,
            movetime: None,
        }
    }
}

impl Default for TimeSettings {
    fn default() -> (res: Self)
        ensures
            res == TimeSettings::unlimited(),
    {
        TimeSettings {
            time: None,
            inc: 0,
            movestogo: None,
            depth: None,
            nodes: None,
            mate: None,
            movetime: None,
        }
    }
}

/// How much of the remaining time a search should use, and how much it may use, in
/// milliseconds.
#[derive(Debug, Clone, Copy, PartialEq)]
pub struct TimeLimit {
    pub soft: u64,
    pub hard: u64,
}

#[derive(Debug, Clone, Copy, PartialEq)]
pub struct Limits {
    pub depth: Option<i32>,
    pub time: Option<TimeLimit>,
    pub exact: Option<u64>,
    pub nodes: Option<Nodes>,
    pub mate: Option<u64>,
}

/// `a` less `b`, but not below zero.
pub open spec fn less(a: u64, b: u64) -> u64 {
    if a >= b {
        (a - b) as u64
    } else {
        0
    }
}

pub open spec fn smaller(a: u64, b: u64) -> u64 {
    if a <= b {
        a
    } else {
        b
    }
}

/// The limits of a search for which `soft` and `hard` milliseconds were worked out.
pub open spec fn limits_for(settings: TimeSettings, soft: u64, hard: u64) -> Limits {
    Limits {
        depth: settings.depth,
        time: match settings.time {
            Some(t) => Some(
                TimeLimit {
                    soft: smaller(soft, less(t, MOVE_OVERHEAD)),
                    hard: smaller(hard, less(t, MOVE_OVERHEAD)),
                },
            ),
            None => None,
        },
        exact: match settings.movetime {
            Some(t) => Some(less(t, MOVE_OVERHEAD)),
            None => None,
        },
        nodes: settings.nodes,
        mate: settings.mate,
    }
}

impl Limits {
    /// The limits of a search. The time to use and the time that may be used are given;
    /// neither becomes longer than the time that is left.
    pub fn new(settings: &TimeSettings, soft: u64, hard: u64) -> (res: Self)
        ensures
            res == limits_for(*settings, soft, hard),
    {
        let time: Option<TimeLimit> = match settings.time {
            Some(remaining_time) => {
                let max_time: u64 = remaining_time.saturating_sub(MOVE_OVERHEAD);
                Some(
                    TimeLimit {
                        soft: if soft <= max_time { soft } else { max_time },
                        hard: if hard <= max_time { hard } else { max_time },
                    },
                )
            },
            None => None,
        };
        let exact: Option<u64> = match settings.movetime {
            Some(movetime) => Some(movetime.saturating_sub(MOVE_OVERHEAD)),
            None => None,
        };
        Limits { depth: settings.depth, time, exact, nodes: settings.nodes, mate: settings.mate }
    }
}

/// More than `ms` milliseconds have gone by.
pub open spec fn past(elapsed: u128, ms: u64) -> bool {
    elapsed > ms * 1000000
}

fn is_past(elapsed: u128, ms: u64) -> (res: bool)
    ensures
        res == past(elapsed, ms),
{
    elapsed > ms as u128 * 1000000
}

/// The first worker must stop at once: the node limit is reached, or the clock is due and
/// the time is used up. The first iteration is never cut short.
pub open spec fn hard_reached(
    limits: Limits,
    id: usize,
    root_depth: i32,
    nodes: u64,
    elapsed: u128,
) -> bool {
    &&& id == 0
    &&& root_depth > 1
    &&& {
        ||| nodes as int % CHECK_INTERVAL as int == 0 && limits.time is Some && past(
            elapsed,
            limits.time->0.hard,
        )
        ||| nodes as int % CHECK_INTERVAL as int == 0 && limits.exact is Some && past(
            elapsed,
            limits.exact->0,
        )
        ||| limits.nodes matches Some(Nodes::Hard(limit)) && nodes >= limit
    }
}

/// No limit can stop the worker in the middle of a search: it is not the first, it is in the
/// first iteration, or nothing limits its time and its nodes.
pub open spec fn unbounded(limits: Limits, id: usize, root_depth: i32) -> bool {
    ||| id != 0
    ||| root_depth <= 1
    ||| limits.time is None && limits.exact is None && !(limits.nodes matches Some(Nodes::Hard(_)))
}

/// No further iteration should be started: the time to use, scaled to `scaled`
/// nanoseconds, or the node limit is used up.
pub open spec fn soft_reached(limits: Limits, nodes: u64, elapsed: u128, scaled: u128) -> bool {
    ||| limits.time is Some && elapsed > scaled
    ||| limits.exact is Some && past(elapsed, limits.exact->0)
    ||| limits.nodes matches Some(Nodes::Soft(limit)) && nodes >= limit
    ||| limits.nodes matches Some(Nodes::Hard(limit)) && nodes >= limit
}

impl Limits {
    pub fn hard_limit_at(&self, id: usize, root_depth: i32, nodes: u64, elapsed: u128) -> (res:
        bool)
        ensures
            res == hard_reached(*self, id, root_depth, nodes, elapsed),
    {
        if id != 0 || root_depth <= 1 {
            return false;
        }
        let check_time: bool = nodes % CHECK_INTERVAL == 0;
        let time: bool = match &self.time {
            Some(limit) => check_time && is_past(elapsed, limit.hard),
            None => false,
        };
        let exact: bool = match self.exact {
            Some(limit) => check_time && is_past(elapsed, limit),
            None => false,
        };
        let reached: bool = match self.nodes {
            Some(Nodes::Hard(limit)) => nodes >= limit,
            _ => false,
        };
        time || exact || reached
    }

    pub fn soft_limit_at(&self, nodes: u64, elapsed: u128, scaled: u128) -> (res: bool)
        ensures
            res == soft_reached(*self, nodes, elapsed, scaled),
    {
        let time: bool = match self.time {
            Some(_) => elapsed > scaled,
            None => false,
        };
        let exact: bool = match self.exact {
            Some(limit) => is_past(elapsed, limit),
            None => false,
        };
        let reached: bool = match self.nodes {
            Some(Nodes::Hard(limit)) => nodes >= limit,
            Some(Nodes::Soft(limit)) => nodes >= limit,
            None => false,
        };
        time || exact || reached
    }
}

/// A clock with the limits of a search.
#[derive(Debug, Clone, Copy)]
pub struct TimeManager {
    pub clock: Instant,
    pub limits: Limits,
}

impl TimeManager {
    pub fn new(limits: Limits) -> (res: Self)
        ensures
            res.limits == limits,
    {
        TimeManager { clock: Instant::now(), limits }
    }

    /// Starts to measure from now.
    pub fn start_clock(&mut self)
        ensures
            final(self).limits == old(self).limits,
    {
        self.clock = Instant::now();
    }

    /// The time since the clock was started, in nanoseconds. What it is rests with the
    /// clock of the machine.
    pub fn elapsed(&self) -> u128 {
        nanos_since(&self.clock)
    }

    /// Whether the search must stop at once, by the time that the clock shows.
    pub fn hard_limit(&self, id: usize, root_depth: i32, nodes: u64) -> (res: bool)
        ensures
            exists|elapsed: u128| #[trigger]
                hard_reached(self.limits, id, root_depth, nodes, elapsed) == res,
    {
        let elapsed: u128 = if nodes % CHECK_INTERVAL == 0 { self.elapsed() } else { 0 };
        self.limits.hard_limit_at(id, root_depth, nodes, elapsed)
    }

    /// Whether no further iteration should be started, by the time that the clock shows.
    pub fn soft_limit(&self, nodes: u64, scaled: u128) -> (res: bool)
        ensures
            exists|elapsed: u128| #[trigger]
                soft_reached(self.limits, nodes, elapsed, scaled) == res,
    {
        let elapsed: u128 = self.elapsed();
        self.limits.soft_limit_at(nodes, elapsed, scaled)
    }
}

} // verus!
