//! In which order moves are given.

use crate::board::BoardState;
use crate::search::movepicker::{
    holds_up, is_last_best, last_best, picked_quiet, sifted, taken, Picking,
};
use crate::types::moves::Step;
use vstd::prelude::*;

verus! {

/// A list that is not empty has a last entry among those with the greatest score.
proof fn lemma_last_best_exists(list: Seq<(Step, int)>) -> (i: int)
    requires
        list.len() > 0,
    ensures
        is_last_best(list, i),
    decreases list.len(),
{
    let n = list.len() - 1;
    if n == 0 {
        assert(is_last_best(list, 0));
        0
    } else {
        let before = list.drop_last();
        let k = lemma_last_best_exists(before);
        if before[k].1 <= list[n].1 {
            assert forall|j: int| 0 <= j < list.len() implies (#[trigger] list[j]).1
                <= list[n].1 by {
                if j < n {
                    assert(before[j] == list[j]);
                }
            }
            n
        } else {
            assert forall|j: int| 0 <= j < list.len() implies (#[trigger] list[j]).1
                <= list[k].1 by {
                if j < n {
                    assert(before[j] == list[j]);
                }
            }
            assert forall|j: int| k < j < list.len() implies (#[trigger] list[j]).1 < list[k].1 by {
                if j < n {
                    assert(before[j] == list[j]);
                }
            }
            k
        }
    }
}

/// The move that is taken next has the greatest score, and of several it is the last.
pub proof fn law_best_first(list: Seq<(Step, int)>, j: int)
    requires
        0 <= j < list.len(),
    ensures
        0 <= last_best(list) < list.len(),
        list[j].1 <= list[last_best(list)].1,
        list[j].1 == list[last_best(list)].1 ==> j <= last_best(list),
{
    let i = lemma_last_best_exists(list);
    assert(is_last_best(list, last_best(list)));
}

/// Taking a move out of a list leaves all the others.
pub proof fn law_taken(list: Seq<(Step, int)>, i: int, j: int)
    requires
        0 <= i < list.len(),
        0 <= j < list.len(),
    ensures
        taken(list, i).len() == list.len() - 1,
        j != i ==> taken(list, i).contains(list[j]),
{
    let rest = taken(list, i);
    if j != i {
        if j < list.len() - 1 {
            assert(rest[j] == list[j]);
        } else {
            assert(rest[i] == list[j]);
        }
    }
}

/// The next of the noisy moves is the best of those that do not lose too much. There is none only
/// if all of them do.
pub proof fn law_best_that_holds_up(st: BoardState, list: Seq<(Step, int)>, j: int)
    requires
        0 <= j < list.len(),
        holds_up(st, list[j].0, list[j].1),
    ensures
        sifted(st, list).good is Some,
        exists|k: int|
            0 <= k < list.len() && (#[trigger] list[k]).0 == sifted(st, list).good->0 && holds_up(
                st,
                list[k].0,
                list[k].1,
            ) && list[j].1 <= list[k].1,
    decreases list.len(),
{
    let b = last_best(list);
    law_best_first(list, j);
    let rest = taken(list, b);
    if !holds_up(st, list[b].0, list[b].1) {
        law_taken(list, b, j);
        let i = choose|i: int| 0 <= i < rest.len() && rest[i] == list[j];
        law_best_that_holds_up(st, rest, i);
        let k = choose|k: int|
            0 <= k < rest.len() && (#[trigger] rest[k]).0 == sifted(st, rest).good->0 && holds_up(
                st,
                rest[k].0,
                rest[k].1,
            ) && rest[i].1 <= rest[k].1;
        let l = if k == b {
            list.len() - 1
        } else {
            k
        };
        assert(list[l] == rest[k]);
    } else {
        assert(list[b].0 == sifted(st, list).good->0);
    }
}

/// A noisy move that is set aside loses too much, and none is set aside twice or lost.
pub proof fn law_set_aside(st: BoardState, list: Seq<(Step, int)>)
    ensures
        sifted(st, list).good is Some ==> sifted(st, list).list.len() + sifted(
            st,
            list,
        ).aside.len() + 1 == list.len(),
        sifted(st, list).good is None ==> sifted(st, list).list.len() == 0 && sifted(
            st,
            list,
        ).aside.len() == list.len(),
        forall|i: int|
            0 <= i < sifted(st, list).aside.len() ==> exists|k: int|
                0 <= k < list.len() && (#[trigger] list[k]).0 == #[trigger] sifted(
                    st,
                    list,
                ).aside[i] && !holds_up(st, list[k].0, list[k].1),
    decreases list.len(),
{
    if list.len() > 0 {
        let b = last_best(list);
        law_best_first(list, 0);
        let rest = taken(list, b);
        if !holds_up(st, list[b].0, list[b].1) {
            law_set_aside(st, rest);
            let f = sifted(st, list);
            assert forall|i: int| 0 <= i < f.aside.len() implies exists|k: int|
                0 <= k < list.len() && (#[trigger] list[k]).0 == #[trigger] f.aside[i] && !holds_up(
                    st,
                    list[k].0,
                    list[k].1,
                ) by {
                if i == 0 {
                    assert(list[b].0 == f.aside[0]);
                } else {
                    let more = sifted(st, rest);
                    assert(f.aside[i] == more.aside[i - 1]);
                    let k = choose|k: int|
                        0 <= k < rest.len() && (#[trigger] rest[k]).0 == more.aside[i - 1]
                            && !holds_up(st, rest[k].0, rest[k].1);
                    let l = if k == b {
                        list.len() - 1
                    } else {
                        k
                    };
                    assert(list[l] == rest[k]);
                }
            }
        }
    }
}

/// Of the quiet moves the best comes first, and the noisy moves that lose too much come after
/// the last of them, in the order in which they were set aside. Where quiet moves are skipped
/// none is given.
pub proof fn law_quiet_then_aside(a: Picking, skip: bool, j: int)
    requires
        a.stage is Quiet || a.stage is BadNoisy,
    ensures
        a.stage is Quiet && !skip && 0 <= j < a.list.len() ==> picked_quiet(a, skip).1 is Some
            && exists|k: int|
            0 <= k < a.list.len() && (#[trigger] a.list[k]).0 == picked_quiet(a, skip).1->0
                && a.list[j].1 <= a.list[k].1,
        (a.stage is BadNoisy || skip || a.list.len() == 0) && a.aside.len() > 0 ==> picked_quiet(
            a,
            skip,
        ).1 == Some(a.aside[0]) && picked_quiet(a, skip).0.aside == a.aside.skip(1),
        (a.stage is BadNoisy || skip || a.list.len() == 0) && a.aside.len() == 0 ==> picked_quiet(
            a,
            skip,
        ).1 is None,
{
    if 0 <= j < a.list.len() {
        law_best_first(a.list, j);
        let k = last_best(a.list);
        assert(a.list[k].1 >= a.list[j].1);
    }
    if a.aside.len() > 0 {
        assert(a.aside.drop_first() =~= a.aside.skip(1));
    }
}

} // verus!
