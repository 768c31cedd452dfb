//! The transposition table: what earlier searches found out about positions.

use crate::types::moves::{law_move_injective, Move, Step};
use crate::types::score::{
    from_tt, is_decisive, law_score_round_trip, losing, restored, stored, winning, NO_SCORE,
};
use vstd::prelude::*;

verus! {

pub const TT_DEFAULT_SIZE: usize = 16;

pub const MEGABYTE: usize = 1048576;

pub const MAX_AGE: u8 = 31;

/// The bytes that a cluster takes.
pub const SIZE_OF_CLUSTER: usize = 32;

pub const NUM_ENTRIES_PER_CLUSTER: usize = 3;

/// What a stored score says about the true one.
#[derive(Clone, Copy, Debug, PartialEq, Eq, Structural)]
pub enum Bound {
    Unset,
    Exact,
    Upper,
    Lower,
}

impl Bound {
    pub open spec fn numbered(n: int) -> Bound {
        if n == 0 {
            Bound::Unset
        } else if n == 1 {
            Bound::Exact
        } else if n == 2 {
            Bound::Upper
        } else {
            Bound::Lower
        }
    }
}

proof fn flags_raw(p: u8, b: u8, a: u8)
    by (bit_vector)
    requires
        p <= 1,
        b <= 3,
        a <= 31,
    ensures
        ((p | (b << 1) | (a << 3)) & 1 != 0) == (p == 1),
        ((p | (b << 1) | (a << 3)) & 6) >> 1 == b,
        (p | (b << 1) | (a << 3)) >> 3 == a,
{
}

proof fn flags_range(f: u8)
    by (bit_vector)
    ensures
        (f & 6) >> 1 <= 3,
        f >> 3 <= 31,
{
}

/// Whether a position was on the principal variation, the bound and the age, in one byte.
#[derive(Clone, Copy, Debug, PartialEq, Eq, Structural)]
pub struct Flags(u8);

impl Flags {
    pub closed spec fn bound_of(self) -> Bound {
        Bound::numbered(((self.0 & 6) >> 1) as int)
    }

    pub closed spec fn pv_of(self) -> bool {
        self.0 & 1 != 0
    }

    pub closed spec fn age_of(self) -> int {
        (self.0 >> 3) as int
    }

    pub fn new(pv: bool, bound: Bound, age: u8) -> (res: Self)
        requires
            age <= MAX_AGE,
        ensures
            res.pv_of() == pv,
            res.bound_of() == bound,
            res.age_of() == age,
    {
        let p: u8 = if pv { 1 } else { 0 };
        let b: u8 = bound as u8;
        proof {
            flags_raw(p, b, age);
        }
        Flags(p | (b << 1) | (age << 3))
    }

    pub fn bound(&self) -> (res: Bound)
        ensures
            res == self.bound_of(),
    {
        proof {
            flags_range(self.0);
        }
        match (self.0 & 6) >> 1 {
            0 => Bound::Unset,
            1 => Bound::Exact,
            2 => Bound::Upper,
            _ => Bound::Lower,
        }
    }

    pub fn pv(&self) -> (res: bool)
        ensures
            res == self.pv_of(),
    {
        (self.0 & 1) != 0
    }

    pub fn age(&self) -> (res: u8)
        ensures
            res == self.age_of(),
            res <= MAX_AGE,
    {
        proof {
            flags_range(self.0);
        }
        self.0 >> 3
    }
}

/// What is stored about a position.
#[derive(Clone, Copy, Debug, PartialEq)]
pub struct Entry {
    pub key: u16,
    pub best_move: Move,
    pub score: i16,
    pub eval: i16,
    pub depth: u8,
    pub flags: Flags,
}

impl Entry {
    /// The entry is taken, or holds an evaluation only.
    pub open spec fn in_use(self) -> bool {
        self.flags.bound_of() != Bound::Unset || self.score == NO_SCORE
    }

    /// The number of searches since the entry was written, as far as ages tell.
    pub open spec fn age_behind(self, tt_age: int) -> int {
        (tt_age - self.flags.age_of()) % 32
    }

    /// How much the entry is worth keeping.
    pub open spec fn quality(self, tt_age: int) -> int {
        self.depth - 4 * self.age_behind(tt_age)
    }

    pub fn new(key: u16, best_move: Move, score: i16, eval: i16, depth: u8, flags: Flags) -> (res:
        Self)
        ensures
            res == (Entry { key, best_move, score, eval, depth, flags }),
    {
        Entry { key, best_move, score, eval, depth, flags }
    }

    /// The entry says nothing.
    pub open spec fn is_blank(self) -> bool {
        &&& self.key == 0
        &&& self.best_move.null()
        &&& self.best_move.valid()
        &&& self.score == 0
        &&& self.eval == 0
        &&& self.depth == 0
        &&& self.flags.bound_of() == Bound::Unset
        &&& self.flags.age_of() == 0
        &&& !self.flags.pv_of()
    }

    /// The entry of a cleared table.
    pub fn empty() -> (res: Self)
        ensures
            res.is_blank(),
    {
        Entry {
            key: 0,
            best_move: Move::none(),
            score: 0,
            eval: 0,
            depth: 0,
            flags: Flags::new(false, Bound::Unset, 0),
        }
    }

    pub fn relative_age(&self, tt_age: u8) -> (res: i32)
        requires
            tt_age <= MAX_AGE,
        ensures
            res == self.age_behind(tt_age as int),
            0 <= res < 32,
    {
        let d: u8 = 32 + tt_age - self.flags.age();
        assert(d & 31 == d % 32) by (bit_vector);
        (d & 31) as i32
    }

    pub fn key(&self) -> (res: u16)
        ensures
            res == self.key,
    {
        self.key
    }

    pub fn bound(&self) -> (res: Bound)
        ensures
            res == self.flags.bound_of(),
    {
        self.flags.bound()
    }

    pub fn is_pv(&self) -> (res: bool)
        ensures
            res == self.flags.pv_of(),
    {
        self.flags.pv()
    }

    pub fn best_move(&self) -> (res: Move)
        ensures
            res == self.best_move,
    {
        self.best_move
    }

    pub fn score(&self) -> (res: i32)
        ensures
            res == self.score,
    {
        self.score as i32
    }

    pub fn depth(&self) -> (res: i32)
        ensures
            res == self.depth,
    {
        self.depth as i32
    }

    pub fn eval(&self) -> (res: i32)
        ensures
            res == self.eval,
    {
        self.eval as i32
    }
}

/// Three entries that share a place in the table.
#[derive(Clone, Copy, Debug, PartialEq)]
pub struct Cluster {
    pub entries: [Entry; 3],
}

/// Entry `i` of the cluster answers to the key.
pub open spec fn answers(entries: Seq<Entry>, key: u16, i: int) -> bool {
    0 <= i < 3 && entries[i].key == key && entries[i].in_use()
}

/// `i` is the first entry that answers to the key.
pub open spec fn first_answer(entries: Seq<Entry>, key: u16, i: int) -> bool {
    answers(entries, key, i) && forall|j: int| 0 <= j < i ==> !#[trigger] answers(entries, key, j)
}

/// The entry to overwrite where none answers to the key: the first one without a bound, or
/// else the first of the lowest quality.
pub open spec fn expendable(entries: Seq<Entry>, tt_age: int) -> int {
    let q0 = entries[0].quality(tt_age);
    let q1 = entries[1].quality(tt_age);
    let q2 = entries[2].quality(tt_age);
    if entries[0].flags.bound_of() == Bound::Unset {
        0
    } else if entries[1].flags.bound_of() == Bound::Unset {
        1
    } else if entries[2].flags.bound_of() == Bound::Unset {
        2
    } else if q1 < q0 {
        if q2 < q1 {
            2
        } else {
            1
        }
    } else if q2 < q0 {
        2
    } else {
        0
    }
}

impl Cluster {
    pub fn lookup_key(&self, key: u16) -> (res: Option<usize>)
        ensures
            match res {
                Some(i) => first_answer(self.entries@, key, i as int),
                None => forall|i: int| !answers(self.entries@, key, i),
            },
    {
        let mut i: usize = 0;
        while i < 3
            invariant
                i <= 3,
                forall|j: int| 0 <= j < i ==> !#[trigger] answers(self.entries@, key, j),
            decreases 3 - i,
        {
            let e = self.entries[i];
            let used: bool = match e.bound() {
                Bound::Unset => e.score() == NO_SCORE,
                _ => true,
            };
            if e.key() == key && used {
                return Some(i);
            }
            i += 1;
        }
        None
    }

    /// The entry to overwrite where none answers to the key.
    fn worst(&self, tt_age: u8) -> (res: usize)
        requires
            tt_age <= MAX_AGE,
        ensures
            res == expendable(self.entries@, tt_age as int),
            res < 3,
    {
        let mut index: usize = 0;
        let mut worst_quality: i32 = i32::MAX;
        let ghost s = self.entries@;
        let ghost a = tt_age as int;
        let mut i: usize = 0;
        while i < 3
            invariant
                i <= 3,
                index < 3,
                i > 0 ==> index < i,
                tt_age <= MAX_AGE,
                s == self.entries@,
                a == tt_age as int,
                i == 0 ==> worst_quality == i32::MAX,
                i > 0 ==> worst_quality == s[index as int].quality(a),
                forall|j: int| 0 <= j < i ==> (#[trigger] s[j]).flags.bound_of() != Bound::Unset,
                i == 1 ==> index == 0,
                i >= 2 ==> (index == 1 || index == 0 || index == 2),
                i == 2 ==> index == (if s[1].quality(a) < s[0].quality(a) {
                    1int
                } else {
                    0
                }),
                i == 3 ==> index == expendable(s, a),
            decreases 3 - i,
        {
            let entry = self.entries[i];
            if let Bound::Unset = entry.bound() {
                return i;
            }
            let quality: i32 = entry.depth as i32 - 4 * entry.relative_age(tt_age);
            if quality < worst_quality {
                index = i;
                worst_quality = quality;
            }
            i += 1;
        }
        index
    }
}

/// The place of a key in a table of `len` clusters.
pub open spec fn place_of(hash: u64, len: int) -> int {
    (hash * len) / 0x1_0000_0000_0000_0000
}

/// The part of a key that an entry keeps.
pub open spec fn key_of(hash: u64) -> u16 {
    hash as u16
}

/// Spreads keys evenly over the table, without a division.
fn index(hash: u64, len: usize) -> (res: usize)
    requires
        len > 0,
    ensures
        res == place_of(hash, len as int),
        res < len,
{
    let h: u128 = hash as u128;
    let n: u128 = len as u128;
    proof {
        assert(h * n <= 0xFFFF_FFFF_FFFF_FFFF * 0xFFFF_FFFF_FFFF_FFFF) by (nonlinear_arith)
            requires
                0 <= h <= 0xFFFF_FFFF_FFFF_FFFF,
                0 <= n <= 0xFFFF_FFFF_FFFF_FFFF,
        ;
        assert(h * n < n * 0x1_0000_0000_0000_0000) by (nonlinear_arith)
            requires
                0 <= h <= 0xFFFF_FFFF_FFFF_FFFF,
                n > 0,
        ;
    }
    let product: u128 = h * n;
    assert(product >> 64 == product / 0x1_0000_0000_0000_0000) by (bit_vector);
    (product >> 64) as usize
}

/// The number of clusters in so many megabytes.
pub open spec fn clusters_in(size_mb: int) -> int {
    size_mb * MEGABYTE / SIZE_OF_CLUSTER as int
}

/// The age of the search after one of the given age.
pub open spec fn next_age(age: int) -> int {
    (age + 1) % 32
}

/// A table of clusters with an age that counts searches.
#[derive(Debug)]
pub struct TranspositionTable {
    clusters: Vec<Cluster>,
    age: u8,
}

/// What is written about a position.
pub struct Record {
    pub best_move: Move,
    pub score: int,
    pub eval: int,
    pub bound: Bound,
    pub depth: int,
    pub pv: bool,
}

/// The entry after a record has been written over `old`. The move of the same position is
/// kept if the new one is null; a deeper entry of the same position and age is kept but
/// for its move.
pub open spec fn overwritten(
    old_entry: Entry,
    key: u16,
    tt_age: int,
    r: Record,
    ply: int,
    new_entry: Entry,
) -> bool {
    let same_key = key == old_entry.key;
    let null = r.best_move@ == (Step { from: 0, to: 0, kind: crate::types::moves::MoveKind::QuietMove });
    let mv = if same_key && null {
        old_entry.best_move
    } else {
        r.best_move
    };
    let extra: int = if r.pv {
        2
    } else {
        0
    };
    if same_key && r.depth + 4 + extra <= old_entry.depth && old_entry.flags.age_of() == tt_age {
        new_entry == (Entry { best_move: mv, ..old_entry })
    } else {
        &&& new_entry.key == key
        &&& new_entry.best_move == mv
        &&& new_entry.score == stored(r.score, ply)
        &&& new_entry.eval == r.eval
        &&& new_entry.depth == r.depth
        &&& new_entry.flags.pv_of() == r.pv
        &&& new_entry.flags.bound_of() == r.bound
        &&& new_entry.flags.age_of() == tt_age
    }
}

impl TranspositionTable {
    pub closed spec fn table(self) -> Seq<Cluster> {
        self.clusters@
    }

    pub closed spec fn age_spec(self) -> int {
        self.age as int
    }

    pub open spec fn wf(self) -> bool {
        self.table().len() > 0 && 0 <= self.age_spec() <= MAX_AGE
    }

    /// The entries that share the place of a key.
    pub open spec fn entries_at(self, hash: u64) -> Seq<Entry> {
        self.table()[place_of(hash, self.table().len() as int)].entries@
    }

    /// Whether no cluster holds anything.
    pub open spec fn is_clear(self) -> bool {
        forall|i: int, j: int|
            #![trigger self.table()[i].entries@[j]]
            0 <= i < self.table().len() && 0 <= j < 3 ==> self.table()[i].entries@[j].is_blank()
    }

    /// A cleared table of the given size in megabytes.
    pub fn new(size_mb: usize) -> (res: Self)
        requires
            1 <= size_mb <= usize::MAX / MEGABYTE,
        ensures
            res.wf(),
            res.is_clear(),
            res.table().len() == clusters_in(size_mb as int),
            res.age_spec() == 0,
    {
        let count: usize = size_mb * MEGABYTE / SIZE_OF_CLUSTER;
        let empty = Entry::empty();
        let cluster = Cluster { entries: [empty, empty, empty] };
        let mut clusters: Vec<Cluster> = Vec::new();
        let mut i: usize = 0;
        while i < count
            invariant
                i <= count,
                clusters@.len() == i,
                cluster.entries@.len() == 3,
                forall|j: int| 0 <= j < 3 ==> (#[trigger] cluster.entries@[j]).is_blank(),
                forall|j: int| 0 <= j < i ==> #[trigger] clusters@[j] == cluster,
            decreases count - i,
        {
            clusters.push(cluster);
            i += 1;
        }
        TranspositionTable { clusters, age: 0 }
    }

    /// Replaces the table by a cleared one of another size.
    pub fn resize(&mut self, size_mb: usize)
        requires
            1 <= size_mb <= usize::MAX / MEGABYTE,
        ensures
            final(self).wf(),
            final(self).is_clear(),
            final(self).table().len() == clusters_in(size_mb as int),
            final(self).age_spec() == 0,
    {
        *self = TranspositionTable::new(size_mb);
    }

    /// Writes down what was found out about a position.
    pub fn add_entry(
        &mut self,
        best_move: Move,
        score: i32,
        eval: i32,
        bound: Bound,
        hash: u64,
        depth: i32,
        ply: u8,
        pv: bool,
    )
        requires
            old(self).wf(),
            i16::MIN <= stored(score as int, ply as int) <= i16::MAX,
            i16::MIN <= eval <= i16::MAX,
            0 <= depth <= 255,
        ensures
            final(self).wf(),
            written(
                *old(self),
                *final(self),
                hash,
                Record {
                    best_move,
                    score: score as int,
                    eval: eval as int,
                    bound,
                    depth: depth as int,
                    pv,
                },
                ply as int,
            ),
    {
        let place = index(hash, self.clusters.len());
        let mut cluster = self.clusters[place];
        let key: u16 = hash as u16;
        let tt_age: u8 = self.age;
        let ghost before = cluster.entries@;
        let ghost r = Record {
            best_move,
            score: score as int,
            eval: eval as int,
            bound,
            depth: depth as int,
            pv,
        };
        let replacement_index: usize = match cluster.lookup_key(key) {
            Some(i) => i,
            None => cluster.worst(tt_age),
        };
        let old_entry = cluster.entries[replacement_index];
        let mut entry = old_entry;
        let same_key: bool = key == entry.key();
        if !(same_key && best_move.is_null()) {
            entry.best_move = best_move;
        }
        let extra: i32 = if pv { 2 } else { 0 };
        if same_key && depth + 4 + extra <= entry.depth() && entry.flags.age() == tt_age {
            cluster.entries[replacement_index] = entry;
        } else {
            let mut adjusted: i32 = score;
            if is_decisive(score) && score != NO_SCORE {
                if score > 0 {
                    adjusted = adjusted + ply as i32;
                } else {
                    adjusted = adjusted - ply as i32;
                }
            }
            entry.key = key;
            entry.score = adjusted as i16;
            entry.eval = eval as i16;
            entry.depth = depth as u8;
            entry.flags = Flags::new(pv, bound, tt_age);
            cluster.entries[replacement_index] = entry;
        }
        self.clusters.set(place, cluster);
        proof {
            let i = replacement_index as int;
            let after = self.entries_at(hash);
            assert(after =~= before.update(i, entry));
            assert(overwritten(old_entry, key, tt_age as int, r, ply as int, entry));
            assert(before == old(self).entries_at(hash));
            assert(written_at(
                old(self).entries_at(hash),
                after,
                key_of(hash),
                old(self).age_spec(),
                r,
                ply as int,
                i,
            ));
        }
    }

    /// Forgets everything.
    pub fn clear(&mut self)
        requires
            old(self).wf(),
        ensures
            final(self).wf(),
            final(self).is_clear(),
            final(self).table().len() == old(self).table().len(),
            final(self).age_spec() == 0,
    {
        let empty = Entry::empty();
        let cluster = Cluster { entries: [empty, empty, empty] };
        let n: usize = self.clusters.len();
        self.age = 0;
        let mut i: usize = 0;
        while i < n
            invariant
                i <= n,
                n > 0,
                self.age == 0,
                self.clusters@.len() == n,
                cluster.entries@.len() == 3,
                n == old(self).table().len(),
                forall|j: int| 0 <= j < 3 ==> (#[trigger] cluster.entries@[j]).is_blank(),
                forall|j: int| 0 <= j < i ==> #[trigger] self.clusters@[j] == cluster,
            decreases n - i,
        {
            self.clusters.set(i, cluster);
            i += 1;
        }
    }

    /// What is known about a position, mate scores counted from the root.
    pub fn entry(&self, hash: u64, ply: u8) -> (res: Option<Entry>)
        requires
            self.wf(),
        ensures
            reads(*self, hash, ply as int, res),
    {
        let place = index(hash, self.clusters.len());
        let cluster = self.clusters[place];
        match cluster.lookup_key(hash as u16) {
            None => None,
            Some(i) => {
                let s = cluster.entries[i];
                assert(first_answer(self.entries_at(hash), key_of(hash), i as int));
                Some(
                    Entry {
                        key: s.key,
                        best_move: s.best_move,
                        score: from_tt(s.score, ply),
                        eval: s.eval,
                        depth: s.depth,
                        flags: s.flags,
                    },
                )
            },
        }
    }

    pub fn age(&self) -> (res: u8)
        ensures
            res == self.age_spec(),
    {
        self.age
    }

    /// Begins a new search.
    pub fn increase_age(&mut self)
        requires
            old(self).wf(),
        ensures
            final(self).wf(),
            final(self).table() == old(self).table(),
            final(self).age_spec() == next_age(old(self).age_spec()),
    {
        let a: u8 = self.age + 1;
        assert(a & 31 == a % 32) by (bit_vector);
        self.age = a & MAX_AGE;
    }

    /// The number of clusters.
    pub fn len(&self) -> (res: usize)
        ensures
            res == self.table().len(),
    {
        self.clusters.len()
    }
}

/// A record has been written into entry `i` of a cluster: the first one that answers to
/// the key, or else an expendable one.
pub open spec fn written_at(
    before: Seq<Entry>,
    after: Seq<Entry>,
    key: u16,
    tt_age: int,
    r: Record,
    ply: int,
    i: int,
) -> bool {
    &&& 0 <= i < 3
    &&& before.len() == 3
    &&& after.len() == 3
    &&& first_answer(before, key, i) || (i == expendable(before, tt_age) && forall|j: int|
        !answers(before, key, j))
    &&& forall|j: int| 0 <= j < 3 && j != i ==> #[trigger] after[j] == before[j]
    &&& overwritten(before[i], key, tt_age, r, ply, after[i])
}

/// The record has been written into the place of the position, as far as what is there does
/// not count for more; the other places are as before.
pub open spec fn written(
    a: TranspositionTable,
    b: TranspositionTable,
    hash: u64,
    r: Record,
    ply: int,
) -> bool {
    &&& b.age_spec() == a.age_spec()
    &&& b.table().len() == a.table().len()
    &&& forall|p: int|
        0 <= p < a.table().len() && p != place_of(hash, a.table().len() as int)
            ==> #[trigger] b.table()[p] == a.table()[p]
    &&& exists|i: int| #[trigger]
        written_at(
            a.entries_at(hash),
            b.entries_at(hash),
            key_of(hash),
            a.age_spec(),
            r,
            ply,
            i,
        )
}

/// What a table gives for a position at a ply: the first entry that answers to its key, with
/// mate scores counted from the root, or none.
pub open spec fn reads(t: TranspositionTable, hash: u64, ply: int, res: Option<Entry>) -> bool {
    match res {
        Some(e) => exists|i: int| #[trigger]
            first_answer(t.entries_at(hash), key_of(hash), i) && {
                let s = t.entries_at(hash)[i];
                &&& e.key == s.key
                &&& e.best_move == s.best_move
                &&& e.score == restored(s.score as int, ply)
                &&& e.eval == s.eval
                &&& e.depth == s.depth
                &&& e.flags == s.flags
            },
        None => forall|i: int| !answers(t.entries_at(hash), key_of(hash), i),
    }
}

/// What is read after a write over an entry of the same position: the move that was written,
/// or the one from before where none was; and of the rest what was there before, if that is of
/// this search and so much deeper, or else what was written.
pub proof fn law_read_after_overwrite(
    a: TranspositionTable,
    b: TranspositionTable,
    hash: u64,
    r: Record,
    ply: int,
    before: Entry,
    after: Option<Entry>,
)
    requires
        written(a, b, hash, r, ply),
        0 <= ply,
        r.bound != Bound::Unset || r.score == NO_SCORE,
        stored(r.score, ply) != NO_SCORE || r.score == NO_SCORE,
        reads(a, hash, ply, Some(before)),
        reads(b, hash, ply, after),
    ensures
        after matches Some(e) && {
            let extra: int = if r.pv {
                2
            } else {
                0
            };
            &&& e.key == key_of(hash)
            &&& e.best_move == if r.best_move.null() {
                before.best_move
            } else {
                r.best_move
            }
            &&& if before.flags.age_of() == a.age_spec() && r.depth + 4 + extra <= before.depth {
                &&& e.score == before.score
                &&& e.eval == before.eval
                &&& e.depth == before.depth
                &&& e.flags == before.flags
            } else {
                &&& e.score == r.score
                &&& e.eval == r.eval
                &&& e.depth == r.depth
                &&& e.flags.bound_of() == r.bound
                &&& e.flags.pv_of() == r.pv
                &&& e.flags.age_of() == a.age_spec()
            }
        },
{
    let (old_entries, new_entries, key) = (a.entries_at(hash), b.entries_at(hash), key_of(hash));
    let i = choose|i: int| #[trigger]
        written_at(old_entries, new_entries, key, a.age_spec(), r, ply, i);
    let k = choose|k: int| #[trigger]
        first_answer(old_entries, key, k) && before.key == old_entries[k].key && before.best_move
            == old_entries[k].best_move && before.score == restored(
            old_entries[k].score as int,
            ply,
        ) && before.eval == old_entries[k].eval && before.depth == old_entries[k].depth
            && before.flags == old_entries[k].flags;
    assert(i == k) by {
        assert(answers(old_entries, key, k));
        assert(first_answer(old_entries, key, i));
        if i < k {
            assert(!answers(old_entries, key, i));
        }
        if k < i {
            assert(!answers(old_entries, key, k));
        }
    }
    law_score_round_trip(r.score, ply);
    assert(answers(new_entries, key, i));
    assert forall|j: int| 0 <= j < i implies !#[trigger] answers(new_entries, key, j) by {
        assert(!answers(old_entries, key, j));
        assert(new_entries[j] == old_entries[j]);
    }
    assert(first_answer(new_entries, key, i));
    if let Some(e) = after {
        let j = choose|j: int| #[trigger]
            first_answer(new_entries, key, j) && e.key == new_entries[j].key && e.best_move
                == new_entries[j].best_move && e.score == restored(
                new_entries[j].score as int,
                ply,
            ) && e.eval == new_entries[j].eval && e.depth == new_entries[j].depth && e.flags
                == new_entries[j].flags;
        assert(i == j) by {
            if i < j {
                assert(!answers(new_entries, key, i));
            }
            if j < i {
                assert(!answers(new_entries, key, j));
            }
        }
    }
}

/// A write over an entry of a position changes nothing of what is read for a position with
/// another key or another place.
pub proof fn law_overwrite_others(
    a: TranspositionTable,
    b: TranspositionTable,
    hash: u64,
    r: Record,
    ply: int,
    before: Entry,
    other: u64,
    other_ply: int,
    res: Option<Entry>,
)
    requires
        a.wf(),
        written(a, b, hash, r, ply),
        reads(a, hash, ply, Some(before)),
        key_of(other) != key_of(hash) || place_of(other, a.table().len() as int) != place_of(
            hash,
            a.table().len() as int,
        ),
        reads(a, other, other_ply, res),
    ensures
        reads(b, other, other_ply, res),
{
    let (key, here) = (key_of(hash), place_of(hash, a.table().len() as int));
    let there = place_of(other, a.table().len() as int);
    if there == here {
        let i = choose|i: int| #[trigger]
            written_at(a.entries_at(hash), b.entries_at(hash), key, a.age_spec(), r, ply, i);
        assert(answers(a.entries_at(hash), key, i)) by {
            let k = choose|k: int| #[trigger] first_answer(a.entries_at(hash), key, k);
            assert(answers(a.entries_at(hash), key, k));
        }
        assert forall|j: int| #[trigger]
            answers(b.entries_at(other), key_of(other), j) == answers(
                a.entries_at(other),
                key_of(other),
                j,
            ) by {
            if 0 <= j < 3 && j != i {
                assert(b.entries_at(other)[j] == a.entries_at(other)[j]);
            }
        }
        assert(res is None ==> reads(b, other, other_ply, res));
        if let Some(e) = res {
            let k = choose|k: int| #[trigger]
                first_answer(a.entries_at(other), key_of(other), k) && e.key == a.entries_at(
                    other,
                )[k].key && e.best_move == a.entries_at(other)[k].best_move && e.score == restored(
                    a.entries_at(other)[k].score as int,
                    other_ply,
                ) && e.eval == a.entries_at(other)[k].eval && e.depth == a.entries_at(
                    other,
                )[k].depth && e.flags == a.entries_at(other)[k].flags;
            assert(answers(a.entries_at(other), key_of(other), k));
            assert(first_answer(b.entries_at(other), key_of(other), k));
            assert(b.entries_at(other)[k] == a.entries_at(other)[k]);
            assert(reads(b, other, other_ply, res));
        }
    } else {
        let size = a.table().len() as int;
        assert(0 <= other * size < 0x1_0000_0000_0000_0000 * size) by (nonlinear_arith)
            requires
                0 <= other <= u64::MAX,
                size > 0,
        ;
        assert(0 <= there < size);
        assert(b.table()[there] == a.table()[there]);
        assert(b.entries_at(other) == a.entries_at(other));
        if let Some(e) = res {
            let k = choose|k: int| #[trigger]
                first_answer(a.entries_at(other), key_of(other), k) && e.key == a.entries_at(
                    other,
                )[k].key && e.best_move == a.entries_at(other)[k].best_move && e.score == restored(
                    a.entries_at(other)[k].score as int,
                    other_ply,
                ) && e.eval == a.entries_at(other)[k].eval && e.depth == a.entries_at(
                    other,
                )[k].depth && e.flags == a.entries_at(other)[k].flags;
            assert(first_answer(b.entries_at(other), key_of(other), k));
        }
    }
}

/// What was written about a position is read back, unless a deeper entry of the same
/// position and age was kept.
pub proof fn law_read_after_write(
    before: Seq<Entry>,
    after: Seq<Entry>,
    key: u16,
    tt_age: int,
    r: Record,
    ply: int,
    i: int,
)
    requires
        written_at(before, after, key, tt_age, r, ply, i),
        0 <= ply,
        r.bound != Bound::Unset || r.score == NO_SCORE,
        stored(r.score, ply) != NO_SCORE || r.score == NO_SCORE,
        before[i].key != key || before[i].depth < r.depth + 4 || before[i].flags.age_of() != tt_age,
    ensures
        first_answer(after, key, i),
        restored(after[i].score as int, ply) == r.score,
        after[i].eval == r.eval,
        after[i].depth == r.depth,
        after[i].flags.bound_of() == r.bound,
        after[i].flags.pv_of() == r.pv,
        after[i].best_move == r.best_move || (before[i].key == key && after[i].best_move
            == before[i].best_move),
{
    law_score_round_trip(r.score, ply);
    assert forall|j: int| 0 <= j < i implies !#[trigger] answers(after, key, j) by {
        assert(!answers(before, key, j));
        assert(after[j] == before[j]);
    }
}

/// What is written first into a cleared table is read back; a score that tells of no mate is
/// read back at any ply.
pub proof fn law_read_after_clear(
    a: TranspositionTable,
    b: TranspositionTable,
    hash: u64,
    r: Record,
    ply: int,
    other_ply: int,
    res: Option<Entry>,
)
    requires
        a.wf(),
        a.is_clear(),
        written(a, b, hash, r, ply),
        0 <= ply,
        0 <= r.depth,
        r.best_move.valid(),
        r.bound != Bound::Unset,
        stored(r.score, ply) != NO_SCORE,
        reads(b, hash, other_ply, res),
    ensures
        res matches Some(e) && {
            &&& e.key == key_of(hash)
            &&& e.best_move == r.best_move
            &&& other_ply == ply || !winning(r.score) && !losing(r.score) ==> e.score == r.score
            &&& e.eval == r.eval
            &&& e.depth == r.depth
            &&& e.flags.bound_of() == r.bound
            &&& e.flags.pv_of() == r.pv
            &&& e.flags.age_of() == a.age_spec()
        },
{
    let (before, after, key) = (a.entries_at(hash), b.entries_at(hash), key_of(hash));
    let size = a.table().len() as int;
    assert(0 <= hash * size < 0x1_0000_0000_0000_0000 * size) by (nonlinear_arith)
        requires
            0 <= hash <= u64::MAX,
            size > 0,
    ;
    assert(0 <= place_of(hash, size) < size);
    let i = choose|i: int| #[trigger]
        written_at(before, after, key, a.age_spec(), r, ply, i);
    assert(before[i].is_blank());
    law_read_after_write(before, after, key, a.age_spec(), r, ply, i);
    if after[i].best_move != r.best_move {
        law_move_injective(before[i].best_move, r.best_move);
    }
    if let Some(e) = res {
        let j = choose|j: int| #[trigger]
            first_answer(after, key, j) && e.key == after[j].key && e.best_move
                == after[j].best_move && e.score == restored(after[j].score as int, other_ply)
                && e.eval == after[j].eval && e.depth == after[j].depth && e.flags
                == after[j].flags;
        assert(i == j) by {
            if i < j {
                assert(!answers(after, key, i));
            }
            if j < i {
                assert(!answers(after, key, j));
            }
        }
    }
}

impl TranspositionTable {
    /// How full the table is with entries of this search, in thousandths, judged by its
    /// first thousand clusters.
    pub fn hashfull(&self) -> (res: usize)
        requires
            self.wf(),
        ensures
            res == fullness(self.table(), self.age_spec()),
    {
        let mut count: usize = 0;
        let n: usize = if self.clusters.len() < 1000 { self.clusters.len() } else { 1000 };
        let mut i: usize = 0;
        while i < n
            invariant
                i <= n <= 1000,
                n <= self.clusters@.len(),
                count == fresh_upto(self.clusters@, self.age as int, i as int),
                count <= 3 * i,
            decreases n - i,
        {
            let cluster = self.clusters[i];
            let mut j: usize = 0;
            while j < 3
                invariant
                    i < n <= 1000,
                    n <= self.clusters@.len(),
                    cluster == self.clusters@[i as int],
                    j <= 3,
                    count == fresh_upto(self.clusters@, self.age as int, i as int) + fresh_in(
                        cluster.entries@,
                        self.age as int,
                        j as int,
                    ),
                    count <= 3 * i + j,
                decreases 3 - j,
            {
                let e = cluster.entries[j];
                let set: bool = match e.bound() {
                    Bound::Unset => false,
                    _ => true,
                };
                if set && e.flags.age() == self.age {
                    count += 1;
                }
                j += 1;
            }
            i += 1;
        }
        count / NUM_ENTRIES_PER_CLUSTER
    }
}

/// The number of entries of this search among the first `n` of a cluster.
pub open spec fn fresh_in(entries: Seq<Entry>, age: int, n: int) -> int
    decreases n,
{
    if n <= 0 {
        0
    } else {
        fresh_in(entries, age, n - 1) + if entries[n - 1].flags.bound_of() != Bound::Unset
            && entries[n - 1].flags.age_of() == age {
            1int
        } else {
            0
        }
    }
}

/// How full a table is with entries of this search, in thousandths, judged by its first
/// thousand clusters.
pub open spec fn fullness(table: Seq<Cluster>, age: int) -> int {
    fresh_upto(
        table,
        age,
        if table.len() < 1000 {
            table.len() as int
        } else {
            1000
        },
    ) / 3
}

/// The number of entries of this search in the first `n` clusters.
pub open spec fn fresh_upto(table: Seq<Cluster>, age: int, n: int) -> int
    decreases n,
{
    if n <= 0 {
        0
    } else {
        fresh_upto(table, age, n - 1) + fresh_in(table[n - 1].entries@, age, 3)
    }
}

impl Default for TranspositionTable {
    fn default() -> (res: Self)
        ensures
            res.wf(),
            res.is_clear(),
            res.table().len() == 524288,
            res.age_spec() == 0,
    {
        TranspositionTable::new(TT_DEFAULT_SIZE)
    }
}

} // verus!
