//! What the tables of positions keep, give up and say of themselves.

use crate::transposition::{move_known, put_down, NodeType};
use crate::types::moves::Move;
use crate::types::transposition::{
    answers, clusters_in, expendable, fresh_in, fresh_upto, fullness, next_age, place_of,
    written_at, Bound, Cluster, Entry, Record, TranspositionTable,
};
use vstd::prelude::*;

verus! {

/// What is given up is worth the least: an entry without a bound, or else one such that no
/// other has a smaller depth once four plies are taken off for each search that has passed
/// since it was written.
pub proof fn law_least_given_up(entries: Seq<Entry>, tt_age: int, j: int)
    requires
        entries.len() == 3,
        0 <= j < 3,
    ensures
        ({
            let i = expendable(entries, tt_age);
            let given_up = entries[i];
            &&& 0 <= i < 3
            &&& given_up.flags.bound_of() != Bound::Unset ==> entries[j].flags.bound_of()
                != Bound::Unset && given_up.depth - 4 * ((tt_age - given_up.flags.age_of()) % 32)
                <= entries[j].depth - 4 * ((tt_age - entries[j].flags.age_of()) % 32)
        }),
{
}

/// An entry that was written `k` searches ago is worth its depth less four plies for each.
pub proof fn law_worth_of_age(e: Entry, tt_age: int, k: int)
    requires
        0 <= k < 32,
        e.flags.age_of() == (tt_age - k) % 32,
    ensures
        e.quality(tt_age) == e.depth - 4 * k,
{
}

/// With a new search every entry grows older by one search, until ages begin anew.
pub proof fn law_growing_older(e: Entry, tt_age: int)
    requires
        0 <= tt_age < 32,
        e.age_behind(tt_age) < 31,
    ensures
        0 <= next_age(tt_age) < 32,
        e.age_behind(next_age(tt_age)) == e.age_behind(tt_age) + 1,
        e.quality(next_age(tt_age)) == e.quality(tt_age) - 4,
{
}

/// A position that the table does not know takes the place of what is worth the least, and the
/// other two entries stay.
pub proof fn law_new_position_placed(
    before: Seq<Entry>,
    after: Seq<Entry>,
    key: u16,
    tt_age: int,
    r: Record,
    ply: int,
    i: int,
    j: int,
)
    requires
        written_at(before, after, key, tt_age, r, ply, i),
        forall|k: int| !#[trigger] answers(before, key, k),
        0 <= j < 3,
        before[i].key != key,
    ensures
        j != i ==> after[j] == before[j],
        before[i].flags.bound_of() != Bound::Unset ==> before[i].quality(tt_age)
            <= before[j].quality(tt_age),
        after[i].key == key,
        after[i].best_move == r.best_move,
        after[i].depth == r.depth,
        after[i].flags.bound_of() == r.bound,
        after[i].flags.age_of() == tt_age,
        after[i].quality(tt_age) == r.depth,
{
    law_least_given_up(before, tt_age, j);
    assert(i == expendable(before, tt_age));
}

/// The places of the keys divide them into ranges of the same size, in their order.
pub proof fn law_places(hash: u64, higher: u64, len: int)
    requires
        0 < len,
        hash <= higher,
    ensures
        0 <= place_of(hash, len) < len,
        place_of(hash, len) <= place_of(higher, len),
        place_of(hash, len) * 0x1_0000_0000_0000_0000 <= hash * len,
        hash * len < (place_of(hash, len) + 1) * 0x1_0000_0000_0000_0000,
{
    let w = 0x1_0000_0000_0000_0000int;
    assert(0 <= hash * len < len * w && hash * len <= higher * len) by (nonlinear_arith)
        requires
            0 <= hash <= higher < w,
            0 < len,
    ;
}

/// A table of so many megabytes has 32768 clusters for each.
pub proof fn law_table_size(size_mb: int)
    requires
        1 <= size_mb,
    ensures
        clusters_in(size_mb) == 32768 * size_mb,
{
}

proof fn lemma_fresh_in(entries: Seq<Entry>, age: int, n: int)
    requires
        0 <= n <= 3,
        entries.len() == 3,
    ensures
        0 <= fresh_in(entries, age, n) <= n,
        (forall|j: int| 0 <= j < 3 ==> (#[trigger] entries[j]).flags.bound_of() == Bound::Unset)
            ==> fresh_in(entries, age, n) == 0,
        (forall|j: int| 0 <= j < 3 ==> (#[trigger] entries[j]).flags.age_of() != age) ==> fresh_in(
            entries,
            age,
            n,
        ) == 0,
        (forall|j: int|
            0 <= j < 3 ==> (#[trigger] entries[j]).flags.bound_of() != Bound::Unset
                && entries[j].flags.age_of() == age) ==> fresh_in(entries, age, n) == n,
    decreases n,
{
    if n > 0 {
        lemma_fresh_in(entries, age, n - 1);
        assert(entries[n - 1].flags.age_of() == age || entries[n - 1].flags.age_of() != age);
    }
}

/// All the entries of a cluster are of a search.
pub open spec fn all_fresh(c: Cluster, age: int) -> bool {
    forall|j: int|
        0 <= j < 3 ==> (#[trigger] c.entries@[j]).flags.bound_of() != Bound::Unset
            && c.entries@[j].flags.age_of() == age
}

/// No entry of a cluster is of a search.
pub open spec fn none_fresh(c: Cluster, age: int) -> bool {
    (forall|j: int| 0 <= j < 3 ==> (#[trigger] c.entries@[j]).flags.bound_of() == Bound::Unset) || (
    forall|j: int| 0 <= j < 3 ==> (#[trigger] c.entries@[j]).flags.age_of() != age)
}

proof fn lemma_fresh_upto(table: Seq<Cluster>, age: int, n: int)
    requires
        0 <= n <= table.len(),
    ensures
        0 <= fresh_upto(table, age, n) <= 3 * n,
        (forall|i: int| 0 <= i < n ==> none_fresh(#[trigger] table[i], age)) ==> fresh_upto(
            table,
            age,
            n,
        ) == 0,
        (forall|i: int| 0 <= i < n ==> all_fresh(#[trigger] table[i], age)) ==> fresh_upto(
            table,
            age,
            n,
        ) == 3 * n,
    decreases n,
{
    if n > 0 {
        lemma_fresh_upto(table, age, n - 1);
        lemma_fresh_in(table[n - 1].entries@, age, 3);
        assert(none_fresh(table[n - 1], age) || !none_fresh(table[n - 1], age));
    }
}

/// How full a table is lies between nothing and a thousand thousandths: nothing where none of
/// its entries is of this search, and a thousand where all are, if it has as many clusters.
pub proof fn law_fullness(table: Seq<Cluster>, age: int)
    ensures
        0 <= fullness(table, age) <= 1000,
        (forall|i: int| 0 <= i < table.len() ==> none_fresh(#[trigger] table[i], age)) ==> fullness(
            table,
            age,
        ) == 0,
        (forall|i: int| 0 <= i < table.len() ==> all_fresh(#[trigger] table[i], age)) && table.len()
            >= 1000 ==> fullness(table, age) == 1000,
        (forall|i: int| 0 <= i < table.len() ==> all_fresh(#[trigger] table[i], age)) && table.len()
            < 1000 ==> fullness(table, age) == table.len(),
{
    let n = if table.len() < 1000 {
        table.len() as int
    } else {
        1000
    };
    lemma_fresh_upto(table, age, n);
}

/// A cleared table holds nothing of any search.
pub proof fn law_cleared_is_empty(t: TranspositionTable)
    requires
        t.is_clear(),
    ensures
        fullness(t.table(), t.age_spec()) == 0,
{
    assert forall|i: int| 0 <= i < t.table().len() implies none_fresh(
        #[trigger] t.table()[i],
        t.age_spec(),
    ) by {
        assert forall|j: int|
            0 <= j < 3 implies (#[trigger] t.table()[i].entries@[j]).flags.bound_of()
            == Bound::Unset by {
            assert(t.table()[i].entries@[j].is_blank());
        }
    }
    law_fullness(t.table(), t.age_spec());
}

/// The small table gives back the move that was put down last for a position, and still gives
/// the same for every position with another place.
pub proof fn law_put_down(
    before: Seq<Option<crate::transposition::Entry>>,
    after: Seq<Option<crate::transposition::Entry>>,
    hash: u64,
    best_move: Move,
    score: i32,
    node: NodeType,
    other: u64,
)
    requires
        put_down(before, after, hash, best_move, score, node),
    ensures
        move_known(after, hash) == Some(best_move),
        after[crate::transposition::place_of(hash)]->0.score_spec() == score,
        after[crate::transposition::place_of(hash)]->0.node_spec() == node,
        after[crate::transposition::place_of(hash)]->0.key_spec() == hash,
        other / 0x800_0000_0000 != hash / 0x800_0000_0000 ==> move_known(after, other)
            == move_known(before, other),
        0 <= crate::transposition::place_of(hash) < 2097152,
{
    assert(crate::transposition::place_of(hash) == hash / 0x800_0000_0000);
    assert(crate::transposition::place_of(other) == other / 0x800_0000_0000);
}

} // verus!
