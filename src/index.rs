//! Index tables: per entity and timeline, the `(time, row id)` pairs of the rows
//! logged there, in buckets that cover consecutive time ranges and sort lazily.
use vstd::prelude::*;

use crate::types::{EntityPath, Timeline};

verus! {

/// One row's coordinate in an index: its time on the timeline and its row id.
#[derive(Clone, Copy, Debug, PartialEq, Eq, Structural)]
pub struct IndexEntry {
    pub time: i64,
    pub row_id: u64,
}

/// Order by time, then by row id.
pub open spec fn entry_lt(a: IndexEntry, b: IndexEntry) -> bool {
    a.time < b.time || (a.time == b.time && a.row_id < b.row_id)
}

pub open spec fn entry_le(a: IndexEntry, b: IndexEntry) -> bool {
    entry_lt(a, b) || a == b
}

pub fn entry_less(a: IndexEntry, b: IndexEntry) -> (r: bool)
    ensures
        r == entry_lt(a, b),
{
    a.time < b.time || (a.time == b.time && a.row_id < b.row_id)
}

/// Strictly ascending by time, then row id.
pub open spec fn sorted_entries(s: Seq<IndexEntry>) -> bool {
    forall|i: int, j: int| 0 <= i < j < s.len() ==> entry_lt(#[trigger] s[i], #[trigger] s[j])
}

/// No row id occurs twice.
pub open spec fn distinct_rows(s: Seq<IndexEntry>) -> bool {
    forall|i: int, j: int| 0 <= i < s.len() && 0 <= j < s.len() && i != j ==> (#[trigger] s[i]).row_id != (#[trigger] s[j]).row_id
}

/// A run of index entries, sorted lazily.
#[derive(Debug)]
pub struct IndexBucket {
    pub entries: Vec<IndexEntry>,
    /// Set while the entries are known to be in order.
    pub sorted: bool,
}

impl IndexBucket {
    pub open spec fn wf(&self) -> bool {
        &&& distinct_rows(self.entries@)
        &&& self.sorted ==> sorted_entries(self.entries@)
    }

    pub fn new() -> (t: IndexBucket)
        ensures
            t.wf(),
            t.entries@ == Seq::<IndexEntry>::empty(),
    {
        IndexBucket { entries: Vec::new(), sorted: true }
    }

    /// Records a new row; its id is above every id already here.
    pub fn push(&mut self, e: IndexEntry)
        requires
            old(self).wf(),
            forall|k: int| 0 <= k < old(self).entries@.len() ==> (#[trigger] old(self).entries@[k]).row_id < e.row_id,
        ensures
            final(self).wf(),
            final(self).entries@ == old(self).entries@.push(e),
    {
        let n = self.entries.len();
        if n > 0 && !entry_less(self.entries[n - 1], e) {
            self.sorted = false;
        }
        let ghost before = self.entries@;
        self.entries.push(e);
        proof {
            if self.sorted {
                assert forall|i: int, j: int| 0 <= i < j < self.entries@.len() implies entry_lt(
                    #[trigger] self.entries@[i],
                    #[trigger] self.entries@[j],
                ) by {
                    if j == before.len() && i < before.len() - 1 {
                        assert(entry_lt(before[i], before[before.len() - 1]));
                    }
                }
            }
        }
    }

    /// Puts the entries in order, keeping the same entries.
    pub fn sort(&mut self)
        requires
            old(self).wf(),
        ensures
            final(self).wf(),
            final(self).sorted,
            final(self).entries@.len() == old(self).entries@.len(),
            forall|e: IndexEntry| final(self).entries@.contains(e) <==> old(self).entries@.contains(e),
    {
        if self.sorted {
            return;
        }
        let mut out: Vec<IndexEntry> = Vec::new();
        let mut i: usize = 0;
        while i < self.entries.len()
            invariant
                i <= self.entries@.len(),
                distinct_rows(self.entries@),
                sorted_entries(out@),
                out@.len() == i,
                forall|e: IndexEntry| out@.contains(e) <==> self.entries@.take(i as int).contains(e),
            decreases self.entries.len() - i,
        {
            let e = self.entries[i];
            let mut p: usize = 0;
            while p < out.len() && !entry_less(e, out[p])
                invariant
                    p <= out@.len(),
                    forall|q: int| 0 <= q < p ==> !entry_lt(e, #[trigger] out@[q]),
                decreases out.len() - p,
            {
                p = p + 1;
            }
            let ghost prev = out@;
            proof {
                prev.insert_ensures(p as int, e);
                // `e` differs from every entry taken so far: its row id is new.
                assert forall|q: int| 0 <= q < p implies entry_lt(#[trigger] prev[q], e) by {
                    assert(prev[q] == prev[q]);
                    assert(prev.contains(prev[q]));
                    assert(self.entries@.take(i as int).contains(prev[q]));
                    let w = choose|w: int| 0 <= w < i && self.entries@.take(i as int)[w] == prev[q];
                    assert(self.entries@[w] == prev[q]);
                    assert(self.entries@[w].row_id != self.entries@[i as int].row_id);
                }
            }
            out.insert(p, e);
            proof {
                assert forall|a: int, b: int| 0 <= a < b < out@.len() implies entry_lt(
                    #[trigger] out@[a],
                    #[trigger] out@[b],
                ) by {
                    if b < p {
                    } else if b == p {
                    } else if a < p {
                        assert(entry_lt(prev[a], e));
                        assert(entry_lt(e, prev[p as int]) || p == prev.len());
                        if p < prev.len() {
                            assert(prev[p as int] == out@[p as int + 1]);
                            if b - 1 > p {
                                assert(entry_lt(prev[p as int], prev[b - 1]));
                            }
                        }
                    } else if a == p {
                        assert(entry_lt(e, prev[p as int]));
                        if b - 1 > p {
                            assert(entry_lt(prev[p as int], prev[b - 1]));
                        }
                    } else {
                        assert(entry_lt(prev[a - 1], prev[b - 1]));
                    }
                }
                assert(self.entries@.take(i as int + 1) =~= self.entries@.take(i as int).push(e));
                assert forall|x: IndexEntry| out@.contains(x) <==> self.entries@.take(i as int + 1).contains(x) by {
                    if out@.contains(x) {
                        let w = choose|w: int| 0 <= w < out@.len() && out@[w] == x;
                        if w < p {
                            assert(prev[w] == x);
                            assert(prev.contains(x));
                        } else if w > p {
                            assert(prev[w - 1] == x);
                            assert(prev.contains(x));
                        }
                        if x != e {
                            assert(self.entries@.take(i as int).contains(x));
                            let z = choose|z: int| 0 <= z < i && self.entries@.take(i as int)[z] == x;
                            assert(self.entries@.take(i as int + 1)[z] == x);
                        } else {
                            assert(self.entries@.take(i as int + 1)[i as int] == x);
                        }
                    }
                    if self.entries@.take(i as int + 1).contains(x) {
                        let z = choose|z: int| 0 <= z <= i && #[trigger] self.entries@.take(i as int + 1)[z] == x;
                        if z < i {
                            assert(self.entries@.take(i as int)[z] == x);
                            assert(prev.contains(x));
                            let w = choose|w: int| 0 <= w < prev.len() && prev[w] == x;
                            if w < p {
                                assert(out@[w] == x);
                            } else {
                                assert(out@[w + 1] == x);
                            }
                        } else {
                            assert(out@[p as int] == x);
                        }
                    }
                }
            }
            i = i + 1;
        }
        proof {
            assert(self.entries@.take(i as int) =~= self.entries@);
            assert forall|a: int, b: int| 0 <= a < out@.len() && 0 <= b < out@.len() && a != b implies (#[trigger] out@[a]).row_id
                != (#[trigger] out@[b]).row_id by {
                if a < b {
                    assert(entry_lt(out@[a], out@[b]));
                } else {
                    assert(entry_lt(out@[b], out@[a]));
                }
                if out@[a].row_id == out@[b].row_id {
                    assert(out@.contains(out@[a]));
                    assert(out@.contains(out@[b]));
                    assert(self.entries@.contains(out@[a]));
                    assert(self.entries@.contains(out@[b]));
                    let wa = choose|w: int| 0 <= w < self.entries@.len() && self.entries@[w] == out@[a];
                    let wb = choose|w: int| 0 <= w < self.entries@.len() && self.entries@[w] == out@[b];
                    assert(wa != wb);
                }
            }
        }
        self.entries = out;
        self.sorted = true;
    }
}

/// Whether some entry of `s` is at time `t` or before.
pub open spec fn some_time_at_most(s: Seq<IndexEntry>, t: i64) -> bool {
    exists|k: int| 0 <= k < s.len() && (#[trigger] s[k]).time <= t
}

fn has_time_at_most(bucket: &IndexBucket, t: i64) -> (r: bool)
    ensures
        r == some_time_at_most(bucket.entries@, t),
{
    let mut k: usize = 0;
    while k < bucket.entries.len()
        invariant
            k <= bucket.entries@.len(),
            forall|j: int| 0 <= j < k ==> (#[trigger] bucket.entries@[j]).time > t,
        decreases bucket.entries.len() - k,
    {
        if bucket.entries[k].time <= t {
            return true;
        }
        k = k + 1;
    }
    false
}

/// The index of one entity on one timeline: buckets that split time into consecutive
/// ranges, oldest first. A bucket that grows past `max_entries` is split where time
/// changes; a later time that finds the newest bucket full starts a new one.
#[derive(Debug)]
pub struct IndexTable {
    pub ent_path: EntityPath,
    pub timeline: Timeline,
    pub buckets: Vec<IndexBucket>,
}

impl IndexTable {
    pub open spec fn loc_ok(&self, b: int, k: int) -> bool {
        0 <= b < self.buckets@.len() && 0 <= k < self.buckets@[b].entries@.len()
    }

    pub open spec fn entry_at(&self, b: int, k: int) -> IndexEntry {
        self.buckets@[b].entries@[k]
    }

    /// The index holds `e`.
    pub open spec fn has(&self, e: IndexEntry) -> bool {
        exists|b: int, k: int| self.loc_ok(b, k) && #[trigger] self.entry_at(b, k) == e
    }

    pub open spec fn ids_below(&self, bound: nat) -> bool {
        forall|b: int, k: int| self.loc_ok(b, k) ==> (#[trigger] self.entry_at(b, k)).row_id < bound
    }

    /// Every bucket is in order.
    pub open spec fn all_sorted(&self) -> bool {
        forall|b: int| 0 <= b < self.buckets@.len() ==> (#[trigger] self.buckets@[b]).sorted
    }

    /// At least one bucket; each well formed; no row twice; each bucket's times below
    /// the next one's.
    pub open spec fn wf(&self) -> bool {
        &&& self.buckets@.len() > 0
        &&& forall|b: int| 0 <= b < self.buckets@.len() ==> (#[trigger] self.buckets@[b]).wf()
        &&& forall|b1: int, k1: int, b2: int, k2: int| self.loc_ok(b1, k1) && self.loc_ok(b2, k2) && b1 != b2
            ==> (#[trigger] self.entry_at(b1, k1)).row_id != (#[trigger] self.entry_at(b2, k2)).row_id
        &&& forall|b1: int, k1: int, b2: int, k2: int| self.loc_ok(b1, k1) && self.loc_ok(b2, k2) && b1 < b2
            ==> (#[trigger] self.entry_at(b1, k1)).time < (#[trigger] self.entry_at(b2, k2)).time
    }

    pub fn new(ent_path: EntityPath, timeline: Timeline) -> (t: IndexTable)
        ensures
            t.wf(),
            t.ent_path@ == ent_path@,
            t.timeline@ == timeline@,
            forall|e: IndexEntry| !#[trigger] t.has(e),
            forall|bound: nat| t.ids_below(bound),
    {
        let mut buckets: Vec<IndexBucket> = Vec::new();
        buckets.push(IndexBucket::new());
        IndexTable { ent_path, timeline, buckets }
    }

    /// Records a new row, whose id is above every id already here, in the bucket that
    /// covers its time; a bucket that grows past `max_entries` splits.
    pub fn push(&mut self, e: IndexEntry, max_entries: usize)
        requires
            old(self).wf(),
            forall|b: int, k: int| old(self).loc_ok(b, k) ==> (#[trigger] old(self).entry_at(b, k)).row_id < e.row_id,
        ensures
            final(self).wf(),
            final(self).ent_path == old(self).ent_path,
            final(self).timeline == old(self).timeline,
            forall|x: IndexEntry| #[trigger] final(self).has(x) <==> (old(self).has(x) || x == e),
            forall|bound: nat| old(self).ids_below(bound) && e.row_id < bound ==> final(self).ids_below(bound),
    {
        let ghost before = *self;
        let n = self.buckets.len();
        let last = n - 1;
        let mut target: usize = 0;
        let mut b: usize = 0;
        while b < n
            invariant
                n == self.buckets@.len(),
                *self == before,
                b <= n,
                target < n,
                target > 0 ==> some_time_at_most(self.buckets@[target as int].entries@, e.time),
                target < b || target == 0,
                forall|b2: int| target < b2 < b ==> !some_time_at_most(#[trigger] self.buckets@[b2].entries@, e.time),
                target == 0 && b > 0 && !some_time_at_most(self.buckets@[0].entries@, e.time)
                    ==> forall|b2: int| 0 <= b2 < b ==> !some_time_at_most(#[trigger] self.buckets@[b2].entries@, e.time),
            decreases n - b,
        {
            if has_time_at_most(&self.buckets[b], e.time) {
                target = b;
            }
            b = b + 1;
        }
        // Entries of buckets after `target` are all later than `e`.
        assert forall|b2: int, k2: int| before.loc_ok(b2, k2) && b2 > target implies
            (#[trigger] before.entry_at(b2, k2)).time > e.time by {
            if before.entry_at(b2, k2).time <= e.time {
                assert(some_time_at_most(before.buckets@[b2].entries@, e.time));
            }
        }
        // Entries of buckets before `target` are all earlier than `e`.
        assert forall|b1: int, k1: int| before.loc_ok(b1, k1) && b1 < target implies
            (#[trigger] before.entry_at(b1, k1)).time < e.time by {
            let k = choose|k: int| 0 <= k < before.buckets@[target as int].entries@.len()
                && (#[trigger] before.buckets@[target as int].entries@[k]).time <= e.time;
            assert(before.loc_ok(target as int, k));
            assert(before.entry_at(b1, k1).time < before.entry_at(target as int, k).time);
        }
        let len_last = self.buckets[last].entries.len();
        let mut later = len_last > 0;
        let mut k: usize = 0;
        while k < len_last
            invariant
                *self == before,
                last == n - 1,
                n == self.buckets@.len(),
                len_last == self.buckets@[last as int].entries@.len(),
                k <= len_last,
                later ==> forall|j: int| 0 <= j < k ==> (#[trigger] self.buckets@[last as int].entries@[j]).time < e.time,
                later ==> len_last > 0,
            decreases len_last - k,
        {
            if self.buckets[last].entries[k].time >= e.time {
                later = false;
            }
            k = k + 1;
        }
        if target == last && later && len_last >= max_entries {
            let mut bucket = IndexBucket::new();
            bucket.push(e);
            self.buckets.push(bucket);
            proof {
                assert(self.buckets@ == before.buckets@.push(bucket));
                assert(self.loc_ok(n as int, 0) && self.entry_at(n as int, 0) == e);
                assert forall|b1: int, k1: int| before.loc_ok(b1, k1) implies
                    (#[trigger] before.entry_at(b1, k1)).time < e.time by {
                    if b1 < last {
                        assert(before.loc_ok(last as int, 0));
                        assert(before.entry_at(b1, k1).time < before.entry_at(last as int, 0).time);
                    } else {
                        assert(before.buckets@[last as int].entries@[k1] == before.entry_at(b1, k1));
                    }
                }
                lemma_table_one_more(before, *self, n as int, 0, e);
            }
        } else {
            let ghost old_len: int = self.buckets@[target as int].entries@.len() as int;
            proof {
                assert forall|k2: int| 0 <= k2 < self.buckets@[target as int].entries@.len() implies
                    (#[trigger] self.buckets@[target as int].entries@[k2]).row_id < e.row_id by {
                    assert(before.loc_ok(target as int, k2));
                    assert(before.entry_at(target as int, k2) == self.buckets@[target as int].entries@[k2]);
                }
            }
            self.buckets[target].push(e);
            proof {
                assert(self.buckets@ == before.buckets@.update(target as int, self.buckets@[target as int]));
                assert(self.loc_ok(target as int, old_len) && self.entry_at(target as int, old_len) == e);
                lemma_table_one_more(before, *self, target as int, old_len, e);
            }
            if self.buckets[target].entries.len() > max_entries {
                self.split(target);
            }
        }
    }

    /// Splits bucket `b` in two where time changes, at its middle or after; a bucket
    /// whose upper half holds a single time stays whole.
    fn split(&mut self, b: usize)
        requires
            old(self).wf(),
            b < old(self).buckets@.len(),
        ensures
            final(self).wf(),
            final(self).ent_path == old(self).ent_path,
            final(self).timeline == old(self).timeline,
            forall|x: IndexEntry| #[trigger] final(self).has(x) <==> old(self).has(x),
            forall|bound: nat| old(self).ids_below(bound) ==> final(self).ids_below(bound),
    {
        let ghost before = *self;
        let ghost pre_buckets = self.buckets@;
        self.buckets[b].sort();
        proof {
            assert forall|b2: int, x: IndexEntry| 0 <= b2 < self.buckets@.len() implies
                (#[trigger] self.buckets@[b2].entries@.contains(x) <==> before.buckets@[b2].entries@.contains(x)) by {
                if b2 != b {
                    assert(self.buckets@[b2] == pre_buckets[b2]);
                }
            }
            assert forall|b2: int| 0 <= b2 < self.buckets@.len() implies (#[trigger] self.buckets@[b2]).wf() by {
                if b2 != b {
                    assert(self.buckets@[b2] == pre_buckets[b2]);
                }
            }
            lemma_same_contents(before, *self);
        }
        let ghost sorted = *self;
        let n = self.buckets[b].entries.len();
        if n < 2 {
            return;
        }
        let mut m: usize = n / 2;
        while m < n && self.buckets[b].entries[m - 1].time == self.buckets[b].entries[m].time
            invariant
                *self == sorted,
                n == self.buckets@[b as int].entries@.len(),
                b < self.buckets@.len(),
                1 <= m <= n,
            decreases n - m,
        {
            m = m + 1;
        }
        if m == n {
            return;
        }
        let ghost whole = self.buckets@[b as int].entries@;
        proof {
            assert(sorted.buckets@[b as int].sorted);
            assert(whole[m - 1].time < whole[m as int].time) by {
                assert(entry_lt(whole[m - 1], whole[m as int]));
            }
        }
        let tail = self.buckets[b].entries.split_off(m);
        let upper = IndexBucket { entries: tail, sorted: true };
        let nb = self.buckets.len();
        assert(b < nb);
        self.buckets.insert(b + 1, upper);
        proof {
            let lower = self.buckets@[b as int];
            assert(lower.entries@ == whole.subrange(0, m as int));
            assert(upper.entries@ == whole.subrange(m as int, n as int));
            assert(self.buckets@.len() == sorted.buckets@.len() + 1);
            // Where each entry of the split table came from.
            assert forall|b2: int, k: int| #[trigger] self.loc_ok(b2, k) implies {
                &&& b2 < b ==> sorted.loc_ok(b2, k) && self.entry_at(b2, k) == sorted.entry_at(b2, k)
                &&& b2 == b ==> k < m && sorted.loc_ok(b as int, k) && self.entry_at(b2, k) == sorted.entry_at(b as int, k)
                &&& b2 == b + 1 ==> sorted.loc_ok(b as int, k + m) && self.entry_at(b2, k) == sorted.entry_at(b as int, k + m)
                &&& b2 > b + 1 ==> sorted.loc_ok(b2 - 1, k) && self.entry_at(b2, k) == sorted.entry_at(b2 - 1, k)
            } by {
                if b2 < b {
                    assert(self.buckets@[b2] == sorted.buckets@[b2]);
                } else if b2 > b + 1 {
                    assert(self.buckets@[b2] == sorted.buckets@[b2 - 1]);
                }
            }
            assert forall|b2: int| 0 <= b2 < self.buckets@.len() implies (#[trigger] self.buckets@[b2]).wf() by {
                if b2 < b {
                    assert(self.buckets@[b2] == sorted.buckets@[b2]);
                } else if b2 > b + 1 {
                    assert(self.buckets@[b2] == sorted.buckets@[b2 - 1]);
                } else if b2 == b {
                    assert(sorted.buckets@[b as int].wf());
                    assert forall|i: int, j: int| 0 <= i < lower.entries@.len() && 0 <= j < lower.entries@.len() && i != j
                        implies (#[trigger] lower.entries@[i]).row_id != (#[trigger] lower.entries@[j]).row_id by {
                        assert(whole[i].row_id != whole[j].row_id);
                    }
                    assert forall|i: int, j: int| 0 <= i < j < lower.entries@.len()
                        implies entry_lt(#[trigger] lower.entries@[i], #[trigger] lower.entries@[j]) by {
                        assert(entry_lt(whole[i], whole[j]));
                    }
                } else {
                    assert(sorted.buckets@[b as int].wf());
                    assert forall|i: int, j: int| 0 <= i < upper.entries@.len() && 0 <= j < upper.entries@.len() && i != j
                        implies (#[trigger] upper.entries@[i]).row_id != (#[trigger] upper.entries@[j]).row_id by {
                        assert(whole[i + m].row_id != whole[j + m].row_id);
                    }
                    assert forall|i: int, j: int| 0 <= i < j < upper.entries@.len()
                        implies entry_lt(#[trigger] upper.entries@[i], #[trigger] upper.entries@[j]) by {
                        assert(entry_lt(whole[i + m], whole[j + m]));
                    }
                }
            }
            // The lower half ends before the upper half starts.
            assert forall|i: int, j: int| 0 <= i < m && m <= j < n implies (#[trigger] whole[i]).time < (#[trigger] whole[j]).time by {
                if i < m - 1 {
                    assert(entry_lt(whole[i], whole[m - 1]));
                }
                if j > m {
                    assert(entry_lt(whole[m as int], whole[j]));
                }
            }
            assert forall|b1: int, k1: int, b2: int, k2: int| self.loc_ok(b1, k1) && self.loc_ok(b2, k2) && b1 != b2
                implies (#[trigger] self.entry_at(b1, k1)).row_id != (#[trigger] self.entry_at(b2, k2)).row_id by {
                let o1 = if b1 <= b { b1 } else if b1 == b + 1 { b as int } else { b1 - 1 };
                let j1 = if b1 == b + 1 { k1 + m } else { k1 };
                let o2 = if b2 <= b { b2 } else if b2 == b + 1 { b as int } else { b2 - 1 };
                let j2 = if b2 == b + 1 { k2 + m } else { k2 };
                assert(self.entry_at(b1, k1) == sorted.entry_at(o1, j1));
                assert(self.entry_at(b2, k2) == sorted.entry_at(o2, j2));
                if o1 != o2 {
                    assert(sorted.entry_at(o1, j1).row_id != sorted.entry_at(o2, j2).row_id);
                } else {
                    assert(j1 != j2);
                    assert(sorted.buckets@[o1].wf());
                    assert(sorted.buckets@[o1].entries@[j1].row_id != sorted.buckets@[o1].entries@[j2].row_id);
                }
            }
            assert forall|b1: int, k1: int, b2: int, k2: int| self.loc_ok(b1, k1) && self.loc_ok(b2, k2) && b1 < b2
                implies (#[trigger] self.entry_at(b1, k1)).time < (#[trigger] self.entry_at(b2, k2)).time by {
                let o1 = if b1 <= b { b1 } else if b1 == b + 1 { b as int } else { b1 - 1 };
                let j1 = if b1 == b + 1 { k1 + m } else { k1 };
                let o2 = if b2 <= b { b2 } else if b2 == b + 1 { b as int } else { b2 - 1 };
                let j2 = if b2 == b + 1 { k2 + m } else { k2 };
                assert(self.entry_at(b1, k1) == sorted.entry_at(o1, j1));
                assert(self.entry_at(b2, k2) == sorted.entry_at(o2, j2));
                if o1 != o2 {
                    assert(sorted.entry_at(o1, j1).time < sorted.entry_at(o2, j2).time);
                } else {
                    assert(b1 == b && b2 == b + 1);
                    assert(whole[j1].time < whole[j2].time);
                }
            }
            assert forall|x: IndexEntry| #[trigger] self.has(x) <==> sorted.has(x) by {
                if self.has(x) {
                    let (b1, k1) = choose|b1: int, k1: int| self.loc_ok(b1, k1) && #[trigger] self.entry_at(b1, k1) == x;
                    let o1 = if b1 <= b { b1 } else if b1 == b + 1 { b as int } else { b1 - 1 };
                    let j1 = if b1 == b + 1 { k1 + m } else { k1 };
                    assert(sorted.entry_at(o1, j1) == x);
                }
                if sorted.has(x) {
                    let (o, j) = choose|o: int, j: int| sorted.loc_ok(o, j) && #[trigger] sorted.entry_at(o, j) == x;
                    if o < b {
                        assert(self.loc_ok(o, j) && self.entry_at(o, j) == x);
                    } else if o > b {
                        assert(self.loc_ok(o + 1, j) && self.entry_at(o + 1, j) == x);
                    } else if j < m {
                        assert(self.loc_ok(o, j) && self.entry_at(o, j) == x);
                    } else {
                        assert(self.loc_ok(o + 1, j - m) && self.entry_at(o + 1, j - m) == x);
                    }
                }
            }
            assert forall|bound: nat| sorted.ids_below(bound) implies self.ids_below(bound) by {
                assert forall|b1: int, k1: int| self.loc_ok(b1, k1) implies (#[trigger] self.entry_at(b1, k1)).row_id < bound by {
                    let o1 = if b1 <= b { b1 } else if b1 == b + 1 { b as int } else { b1 - 1 };
                    let j1 = if b1 == b + 1 { k1 + m } else { k1 };
                    assert(sorted.entry_at(o1, j1).row_id < bound);
                }
            }
        }
    }

    /// Puts every bucket in order, keeping the same entries.
    pub fn sort(&mut self)
        requires
            old(self).wf(),
        ensures
            final(self).wf(),
            final(self).all_sorted(),
            final(self).ent_path == old(self).ent_path,
            final(self).timeline == old(self).timeline,
            forall|x: IndexEntry| #[trigger] final(self).has(x) <==> old(self).has(x),
            forall|bound: nat| old(self).ids_below(bound) ==> final(self).ids_below(bound),
    {
        let ghost before = *self;
        let mut b: usize = 0;
        while b < self.buckets.len()
            invariant
                self.buckets@.len() == before.buckets@.len(),
                self.ent_path == before.ent_path,
                self.timeline == before.timeline,
                before.wf(),
                b <= self.buckets@.len(),
                forall|b2: int| 0 <= b2 < self.buckets@.len() ==> (#[trigger] self.buckets@[b2]).wf(),
                forall|b2: int| 0 <= b2 < b ==> (#[trigger] self.buckets@[b2]).sorted,
                forall|b2: int, x: IndexEntry| 0 <= b2 < self.buckets@.len() ==>
                    (#[trigger] self.buckets@[b2].entries@.contains(x) <==> before.buckets@[b2].entries@.contains(x)),
            decreases self.buckets.len() - b,
        {
            let ghost pre = self.buckets@;
            self.buckets[b].sort();
            proof {
                assert forall|b2: int, x: IndexEntry| 0 <= b2 < self.buckets@.len() implies
                    (#[trigger] self.buckets@[b2].entries@.contains(x) <==> before.buckets@[b2].entries@.contains(x)) by {
                    if b2 != b {
                        assert(self.buckets@[b2] == pre[b2]);
                    }
                }
                assert forall|b2: int| 0 <= b2 < b + 1 implies (#[trigger] self.buckets@[b2]).sorted by {
                    if b2 != b {
                        assert(self.buckets@[b2] == pre[b2]);
                    }
                }
                assert forall|b2: int| 0 <= b2 < self.buckets@.len() implies (#[trigger] self.buckets@[b2]).wf() by {
                    if b2 != b {
                        assert(self.buckets@[b2] == pre[b2]);
                    }
                }
            }
            b = b + 1;
        }
        proof {
            lemma_same_contents(before, *self);
        }
    }

    /// All entries, bucket after bucket; in order once every bucket is.
    pub fn collect(&self) -> (r: Vec<IndexEntry>)
        requires
            self.wf(),
        ensures
            forall|x: IndexEntry| r@.contains(x) <==> #[trigger] self.has(x),
            self.all_sorted() ==> sorted_entries(r@),
    {
        let mut out: Vec<IndexEntry> = Vec::new();
        let mut b: usize = 0;
        while b < self.buckets.len()
            invariant
                self.wf(),
                b <= self.buckets@.len(),
                forall|x: IndexEntry| out@.contains(x) <==> exists|b2: int, k: int| self.loc_ok(b2, k) && b2 < b
                    && #[trigger] self.entry_at(b2, k) == x,
                self.all_sorted() ==> sorted_entries(out@),
                forall|j: int, b2: int, k: int| 0 <= j < out@.len() && self.loc_ok(b2, k) && b2 >= b
                    ==> (#[trigger] out@[j]).time < (#[trigger] self.entry_at(b2, k)).time,
            decreases self.buckets.len() - b,
        {
            let bucket = &self.buckets[b];
            proof {
                assert forall|j: int, k2: int| 0 <= j < out@.len() && 0 <= k2 < bucket.entries@.len()
                    implies entry_lt(#[trigger] out@[j], #[trigger] bucket.entries@[k2]) by {
                    assert(self.loc_ok(b as int, k2));
                    assert(self.entry_at(b as int, k2) == bucket.entries@[k2]);
                }
            }
            let mut k: usize = 0;
            while k < bucket.entries.len()
                invariant
                    self.wf(),
                    b < self.buckets@.len(),
                    *bucket == self.buckets@[b as int],
                    k <= bucket.entries@.len(),
                    forall|x: IndexEntry| out@.contains(x) <==> exists|b2: int, k2: int| self.loc_ok(b2, k2)
                        && (b2 < b || (b2 == b && k2 < k)) && #[trigger] self.entry_at(b2, k2) == x,
                    self.all_sorted() ==> sorted_entries(out@),
                    self.all_sorted() ==> forall|j: int, k2: int| 0 <= j < out@.len() && k <= k2 < bucket.entries@.len()
                        ==> entry_lt(#[trigger] out@[j], #[trigger] bucket.entries@[k2]),
                    forall|j: int, b2: int, k2: int| 0 <= j < out@.len() && self.loc_ok(b2, k2) && b2 > b
                        ==> (#[trigger] out@[j]).time < (#[trigger] self.entry_at(b2, k2)).time,
                decreases bucket.entries.len() - k,
            {
                let e = bucket.entries[k];
                let ghost prev = out@;
                out.push(e);
                proof {
                    assert(self.entry_at(b as int, k as int) == e);
                    assert forall|x: IndexEntry| out@.contains(x) <==> exists|b2: int, k2: int| self.loc_ok(b2, k2)
                        && (b2 < b || (b2 == b && k2 < k + 1)) && #[trigger] self.entry_at(b2, k2) == x by {
                        if out@.contains(x) {
                            let j = choose|j: int| 0 <= j < out@.len() && out@[j] == x;
                            if j < prev.len() {
                                assert(prev[j] == x);
                                assert(prev.contains(x));
                            } else {
                                assert(self.loc_ok(b as int, k as int));
                            }
                        }
                        if exists|b2: int, k2: int| self.loc_ok(b2, k2) && (b2 < b || (b2 == b && k2 < k + 1))
                            && #[trigger] self.entry_at(b2, k2) == x {
                            let (b2, k2) = choose|b2: int, k2: int| self.loc_ok(b2, k2) && (b2 < b || (b2 == b && k2 < k + 1))
                                && #[trigger] self.entry_at(b2, k2) == x;
                            if b2 == b && k2 == k {
                                assert(out@[prev.len() as int] == x);
                            } else {
                                assert(prev.contains(x));
                                let j = choose|j: int| 0 <= j < prev.len() && prev[j] == x;
                                assert(out@[j] == x);
                            }
                        }
                    }
                    if self.all_sorted() {
                        assert(self.buckets@[b as int].sorted);
                        assert forall|i: int, j: int| 0 <= i < j < out@.len() implies entry_lt(#[trigger] out@[i], #[trigger] out@[j]) by {
                            if j == prev.len() {
                                assert(entry_lt(prev[i], bucket.entries@[k as int]));
                            } else {
                                assert(out@[i] == prev[i] && out@[j] == prev[j]);
                            }
                        }
                        assert forall|j: int, k2: int| 0 <= j < out@.len() && k + 1 <= k2 < bucket.entries@.len()
                            implies entry_lt(#[trigger] out@[j], #[trigger] bucket.entries@[k2]) by {
                            if j == prev.len() {
                                assert(entry_lt(bucket.entries@[k as int], bucket.entries@[k2]));
                            } else {
                                assert(out@[j] == prev[j]);
                            }
                        }
                    }
                    assert forall|j: int, b2: int, k2: int| 0 <= j < out@.len() && self.loc_ok(b2, k2) && b2 > b
                        implies (#[trigger] out@[j]).time < (#[trigger] self.entry_at(b2, k2)).time by {
                        if j == prev.len() {
                            assert(self.loc_ok(b as int, k as int));
                        } else {
                            assert(out@[j] == prev[j]);
                        }
                    }
                }
                k = k + 1;
            }
            proof {
                if self.all_sorted() {
                    assert(sorted_entries(out@));
                }
                assert forall|x: IndexEntry| out@.contains(x) <==> exists|b2: int, k2: int| self.loc_ok(b2, k2) && b2 < b + 1
                    && #[trigger] self.entry_at(b2, k2) == x by {
                    if exists|b2: int, k2: int| self.loc_ok(b2, k2) && b2 < b + 1 && #[trigger] self.entry_at(b2, k2) == x {
                        let (b2, k2) = choose|b2: int, k2: int| self.loc_ok(b2, k2) && b2 < b + 1 && #[trigger] self.entry_at(b2, k2) == x;
                        assert(b2 < b || (b2 == b && k2 < k));
                    }
                }
            }
            b = b + 1;
        }
        proof {
            assert forall|x: IndexEntry| out@.contains(x) <==> #[trigger] self.has(x) by {
                if self.has(x) {
                    let (b2, k2) = choose|b2: int, k2: int| self.loc_ok(b2, k2) && #[trigger] self.entry_at(b2, k2) == x;
                    assert(b2 < b);
                }
            }
        }
        out
    }
}

/// `after` is `before` with the entry `e` added at `(n, kk)`, which keeps the buckets'
/// time ranges apart.
proof fn lemma_table_one_more(before: IndexTable, after: IndexTable, n: int, kk: int, e: IndexEntry)
    requires
        before.wf(),
        forall|b: int, k: int| before.loc_ok(b, k) ==> (#[trigger] before.entry_at(b, k)).row_id < e.row_id,
        forall|b: int, k: int| before.loc_ok(b, k) && b < n ==> (#[trigger] before.entry_at(b, k)).time < e.time,
        forall|b: int, k: int| before.loc_ok(b, k) && b > n ==> (#[trigger] before.entry_at(b, k)).time > e.time,
        after.ent_path == before.ent_path,
        after.timeline == before.timeline,
        after.loc_ok(n, kk) && after.entry_at(n, kk) == e,
        after.buckets@.len() >= before.buckets@.len(),
        forall|b: int| 0 <= b < after.buckets@.len() ==> (#[trigger] after.buckets@[b]).wf(),
        forall|b: int, k: int| before.loc_ok(b, k) ==> after.loc_ok(b, k) && #[trigger] after.entry_at(b, k) == before.entry_at(b, k),
        forall|b: int, k: int| #[trigger] after.loc_ok(b, k) ==> (b == n && k == kk) || (before.loc_ok(b, k)
            && after.entry_at(b, k) == before.entry_at(b, k)),
    ensures
        after.wf(),
        forall|x: IndexEntry| #[trigger] after.has(x) <==> (before.has(x) || x == e),
        forall|bound: nat| before.ids_below(bound) && e.row_id < bound ==> after.ids_below(bound),
{
    assert forall|b1: int, k1: int, b2: int, k2: int| after.loc_ok(b1, k1) && after.loc_ok(b2, k2) && b1 != b2
        implies (#[trigger] after.entry_at(b1, k1)).row_id != (#[trigger] after.entry_at(b2, k2)).row_id by {
        if !(b1 == n && k1 == kk) && !(b2 == n && k2 == kk) {
            assert(before.entry_at(b1, k1).row_id != before.entry_at(b2, k2).row_id);
        } else if !(b1 == n && k1 == kk) {
            assert(before.entry_at(b1, k1).row_id < e.row_id);
        } else if !(b2 == n && k2 == kk) {
            assert(before.entry_at(b2, k2).row_id < e.row_id);
        }
    }
    assert forall|b1: int, k1: int, b2: int, k2: int| after.loc_ok(b1, k1) && after.loc_ok(b2, k2) && b1 < b2
        implies (#[trigger] after.entry_at(b1, k1)).time < (#[trigger] after.entry_at(b2, k2)).time by {
        if !(b1 == n && k1 == kk) && !(b2 == n && k2 == kk) {
            assert(before.entry_at(b1, k1).time < before.entry_at(b2, k2).time);
        } else if !(b1 == n && k1 == kk) {
            assert(before.entry_at(b1, k1).time < e.time);
        } else if !(b2 == n && k2 == kk) {
            assert(before.entry_at(b2, k2).time > e.time);
        }
    }
    assert forall|x: IndexEntry| #[trigger] after.has(x) <==> (before.has(x) || x == e) by {
        if after.has(x) {
            let (b, k) = choose|b: int, k: int| after.loc_ok(b, k) && #[trigger] after.entry_at(b, k) == x;
            if !(b == n && k == kk) {
                assert(before.entry_at(b, k) == x);
            }
        }
        if before.has(x) {
            let (b, k) = choose|b: int, k: int| before.loc_ok(b, k) && #[trigger] before.entry_at(b, k) == x;
            assert(after.entry_at(b, k) == x);
        }
    }
    assert forall|bound: nat| before.ids_below(bound) && e.row_id < bound implies after.ids_below(bound) by {
        assert forall|b: int, k: int| after.loc_ok(b, k) implies (#[trigger] after.entry_at(b, k)).row_id < bound by {
            if !(b == n && k == kk) {
                assert(before.entry_at(b, k).row_id < bound);
            }
        }
    }
}

/// Two tables whose buckets hold the same entries, bucket by bucket.
proof fn lemma_same_contents(before: IndexTable, after: IndexTable)
    requires
        before.wf(),
        after.buckets@.len() == before.buckets@.len(),
        forall|b: int| 0 <= b < after.buckets@.len() ==> (#[trigger] after.buckets@[b]).wf(),
        forall|b: int, x: IndexEntry| 0 <= b < after.buckets@.len() ==>
            (#[trigger] after.buckets@[b].entries@.contains(x) <==> before.buckets@[b].entries@.contains(x)),
    ensures
        after.wf(),
        forall|x: IndexEntry| #[trigger] after.has(x) <==> before.has(x),
        forall|bound: nat| before.ids_below(bound) ==> after.ids_below(bound),
{
    // Each entry of `after` sits in the same bucket of `before`.
    assert forall|b: int, k: int| after.loc_ok(b, k) implies exists|k2: int| before.loc_ok(b, k2)
        && #[trigger] before.entry_at(b, k2) == after.entry_at(b, k) by {
        let x = after.entry_at(b, k);
        assert(after.buckets@[b].entries@.contains(x));
        let k2 = choose|k2: int| 0 <= k2 < before.buckets@[b].entries@.len() && before.buckets@[b].entries@[k2] == x;
        assert(before.entry_at(b, k2) == x);
    }
    assert forall|b1: int, k1: int, b2: int, k2: int| after.loc_ok(b1, k1) && after.loc_ok(b2, k2) && b1 != b2
        implies (#[trigger] after.entry_at(b1, k1)).row_id != (#[trigger] after.entry_at(b2, k2)).row_id by {
        let j1 = choose|j: int| before.loc_ok(b1, j) && #[trigger] before.entry_at(b1, j) == after.entry_at(b1, k1);
        let j2 = choose|j: int| before.loc_ok(b2, j) && #[trigger] before.entry_at(b2, j) == after.entry_at(b2, k2);
        assert(before.entry_at(b1, j1).row_id != before.entry_at(b2, j2).row_id);
    }
    assert forall|b1: int, k1: int, b2: int, k2: int| after.loc_ok(b1, k1) && after.loc_ok(b2, k2) && b1 < b2
        implies (#[trigger] after.entry_at(b1, k1)).time < (#[trigger] after.entry_at(b2, k2)).time by {
        let j1 = choose|j: int| before.loc_ok(b1, j) && #[trigger] before.entry_at(b1, j) == after.entry_at(b1, k1);
        let j2 = choose|j: int| before.loc_ok(b2, j) && #[trigger] before.entry_at(b2, j) == after.entry_at(b2, k2);
        assert(before.entry_at(b1, j1).time < before.entry_at(b2, j2).time);
    }
    assert forall|x: IndexEntry| #[trigger] after.has(x) <==> before.has(x) by {
        if after.has(x) {
            let (b, k) = choose|b: int, k: int| after.loc_ok(b, k) && #[trigger] after.entry_at(b, k) == x;
            let j = choose|j: int| before.loc_ok(b, j) && #[trigger] before.entry_at(b, j) == after.entry_at(b, k);
        }
        if before.has(x) {
            let (b, k) = choose|b: int, k: int| before.loc_ok(b, k) && #[trigger] before.entry_at(b, k) == x;
            assert(before.buckets@[b].entries@.contains(x)) by {
                assert(before.buckets@[b].entries@[k] == x);
            }
            assert(after.buckets@[b].entries@.contains(x));
            let j = choose|j: int| 0 <= j < after.buckets@[b].entries@.len() && after.buckets@[b].entries@[j] == x;
            assert(after.entry_at(b, j) == x);
        }
    }
    assert forall|bound: nat| before.ids_below(bound) implies after.ids_below(bound) by {
        assert forall|b: int, k: int| after.loc_ok(b, k) implies (#[trigger] after.entry_at(b, k)).row_id < bound by {
            let j = choose|j: int| before.loc_ok(b, j) && #[trigger] before.entry_at(b, j) == after.entry_at(b, k);
            assert(before.entry_at(b, j).row_id < bound);
        }
    }
}

} // verus!
