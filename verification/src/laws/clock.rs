//! When a search ends, in nanoseconds and nodes.

use crate::search::time::{hard_reached, limits_for, soft_reached, Limits, Nodes, TimeSettings};
use vstd::prelude::*;

verus! {

/// A search for a fixed number of milliseconds goes on until twenty milliseconds before that
/// time is up, and no longer: then it starts no other iteration, and the first worker stops as
/// soon as it looks at the clock, which it does once in 2048 nodes after the first iteration.
pub proof fn law_movetime(
    t: u64,
    soft: u64,
    hard: u64,
    id: usize,
    root_depth: i32,
    nodes: u64,
    elapsed: u128,
    scaled: u128,
)
    ensures
        ({
            let settings = TimeSettings {
                time: None,
                inc: 0,
                movestogo: None,
                depth: None,
                nodes: None,
                mate: None,
                movetime: Some(t),
            };
            let l = limits_for(settings, soft, hard);
            let whole: int = if t > 20 {
                (t - 20) * 1_000_000
            } else {
                0
            };
            &&& elapsed <= whole ==> !soft_reached(l, nodes, elapsed, scaled) && !hard_reached(
                l,
                id,
                root_depth,
                nodes,
                elapsed,
            )
            &&& elapsed > whole ==> soft_reached(l, nodes, elapsed, scaled)
            &&& elapsed > whole && id == 0 && root_depth >= 2 && nodes % 2048 == 0 ==> hard_reached(
                l,
                id,
                root_depth,
                nodes,
                elapsed,
            )
            &&& nodes % 2048 != 0 ==> !hard_reached(l, id, root_depth, nodes, elapsed)
        }),
{
}

/// With time on the clock the search ends by the time that was worked out for it, and in any
/// case twenty milliseconds before the clock runs out; not before.
pub proof fn law_time_on_the_clock(
    settings: TimeSettings,
    t: u64,
    soft: u64,
    hard: u64,
    root_depth: i32,
    nodes: u64,
    elapsed: u128,
)
    requires
        settings.time == Some(t),
        settings.movetime is None,
        settings.nodes is None,
        root_depth >= 2,
        nodes % 2048 == 0,
    ensures
        ({
            let stops = hard_reached(
                limits_for(settings, soft, hard),
                0,
                root_depth,
                nodes,
                elapsed,
            );
            &&& t >= 20 && elapsed > (t - 20) * 1_000_000 ==> stops
            &&& elapsed > hard * 1_000_000 ==> stops
            &&& t >= 20 && elapsed <= (t - 20) * 1_000_000 && elapsed <= hard * 1_000_000 ==> !stops
        }),
{
}

/// The time to use that is noted is what was worked out, unless the clock has less.
pub proof fn law_time_to_use(settings: TimeSettings, t: u64, soft: u64, hard: u64)
    requires
        settings.time == Some(t),
    ensures
        limits_for(settings, soft, hard).time matches Some(x) && {
            &&& x.soft <= soft && x.soft + 20 <= t || x.soft == 0
            &&& soft + 20 <= t ==> x.soft == soft
            &&& hard + 20 <= t ==> x.hard == hard
            &&& soft <= hard ==> x.soft <= x.hard
        },
{
}

/// A limit on the nodes that is hard ends the search at that number of nodes, whatever the
/// clock shows; a soft one only keeps the next iteration from being started.
pub proof fn law_node_limits(
    n: u64,
    soft: u64,
    hard: u64,
    root_depth: i32,
    nodes: u64,
    elapsed: u128,
    scaled: u128,
)
    requires
        root_depth >= 2,
    ensures
        ({
            let asked = TimeSettings {
                time: None,
                inc: 0,
                movestogo: None,
                depth: None,
                nodes: None,
                mate: None,
                movetime: None,
            };
            let strict = limits_for(
                TimeSettings { nodes: Some(Nodes::Hard(n)), ..asked },
                soft,
                hard,
            );
            let loose = limits_for(
                TimeSettings { nodes: Some(Nodes::Soft(n)), ..asked },
                soft,
                hard,
            );
            &&& hard_reached(strict, 0, root_depth, nodes, elapsed) <==> n <= nodes
            &&& soft_reached(strict, nodes, elapsed, scaled) <==> n <= nodes
            &&& soft_reached(loose, nodes, elapsed, scaled) <==> n <= nodes
            &&& !hard_reached(loose, 0, root_depth, nodes, elapsed)
        }),
{
}

/// Without limits nothing ends a search; the first iteration and the workers after the first
/// are never stopped by a limit.
pub proof fn law_never_stopped(
    settings: TimeSettings,
    soft: u64,
    hard: u64,
    id: usize,
    root_depth: i32,
    nodes: u64,
    elapsed: u128,
    scaled: u128,
)
    ensures
        ({
            let l = limits_for(settings, soft, hard);
            &&& id > 0 || root_depth <= 1 ==> !hard_reached(l, id, root_depth, nodes, elapsed)
            &&& settings.time is None && settings.movetime is None && settings.nodes is None ==> {
                &&& !hard_reached(l, id, root_depth, nodes, elapsed)
                &&& !soft_reached(l, nodes, elapsed, scaled)
            }
        }),
{
}

/// What has ended a search would end it later as well: with more time gone by, or more nodes
/// when the clock is due again.
pub proof fn law_once_over(
    l: Limits,
    id: usize,
    root_depth: i32,
    nodes: u64,
    more: u64,
    elapsed: u128,
    longer: u128,
    scaled: u128,
)
    requires
        elapsed <= longer,
        nodes <= more,
        more % 2048 == 0,
    ensures
        hard_reached(l, id, root_depth, nodes, elapsed) ==> hard_reached(
            l,
            id,
            root_depth,
            more,
            longer,
        ),
        soft_reached(l, nodes, elapsed, scaled) ==> soft_reached(l, more, longer, scaled),
{
}

/// A limit on the depth or on the moves to a mate is kept as it was asked for.
pub proof fn law_depth_and_mate_kept(settings: TimeSettings, soft: u64, hard: u64)
    ensures
        limits_for(settings, soft, hard).depth == settings.depth,
        limits_for(settings, soft, hard).mate == settings.mate,
{
}

} // verus!
