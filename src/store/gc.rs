//! Garbage collection by whole component buckets, and row metadata.
use vstd::prelude::*;

use crate::component::rows_in;
use crate::index::IndexEntry;
use crate::types::{ComponentName, RowId, Timeline, TimelineView};
use super::{DataStore, RowMetadata, lemma_agree_frame, lemma_same_components, lemma_same_indices, lemma_tables_rows_update, tables_rows};

verus! {

/// How much a garbage collection has to evict.
#[derive(Clone, Copy, Debug, PartialEq, Eq, Structural)]
pub enum GarbageCollectionTarget {
    /// Evict at least this percentage of all cells; 100 or more evicts every bucket
    /// that can go.
    DropAtLeastPercentage(u64),
}

/// The number of cells a collection aims at: the percentage of `total`, rounded up.
pub open spec fn gc_goal(total: nat, pct: u64) -> int {
    let t = if total > usize::MAX { usize::MAX as int } else { total as int };
    let p = if pct > 100 { 100int } else { pct as int };
    (t * p + 99) / 100
}

/// Whether some chunk holds `r`.
pub open spec fn reported(chunks: Seq<Vec<RowId>>, r: u64) -> bool {
    exists|i: int, j: int| 0 <= i < chunks.len() && 0 <= j < chunks[i]@.len() && (#[trigger] chunks[i]@[j]).0 == r
}

impl DataStore {
    pub closed spec fn droppable(&self, t: int) -> bool {
        0 <= t < self.components@.len() && self.components@[t].buckets@.len() >= 2
    }

    /// The id of the first row of the oldest bucket of table `t`.
    pub closed spec fn age(&self, t: int) -> u64 {
        self.components@[t].buckets@[0].row_ids@[0]
    }

    /// The table whose oldest bucket is the oldest of all buckets that can go.
    fn oldest_droppable(&self) -> (r: Option<usize>)
        requires
            self.wf(),
        ensures
            r matches Some(t) ==> self.droppable(t as int)
                && forall|t2: int| #[trigger] self.droppable(t2) ==> self.age(t as int) <= self.age(t2),
            r is None ==> self.settled(),
    {
        let mut best: Option<usize> = None;
        let mut t: usize = 0;
        while t < self.components.len()
            invariant
                self.wf(),
                t <= self.components@.len(),
                best matches Some(b) ==> b < t && self.droppable(b as int)
                    && forall|t2: int| 0 <= t2 < t && #[trigger] self.droppable(t2) ==> self.age(b as int) <= self.age(t2),
                best is None ==> forall|t2: int| 0 <= t2 < t ==> !#[trigger] self.droppable(t2),
            decreases self.components.len() - t,
        {
            let table = &self.components[t];
            if table.buckets.len() >= 2 {
                assert(self.components@[t as int].wf());
                let age = table.buckets[0].row_ids[0];
                let better = match best {
                    None => true,
                    Some(b) => age < self.components[b].buckets[0].row_ids[0],
                };
                if better {
                    best = Some(t);
                }
            }
            t = t + 1;
        }
        proof {
            if best is None {
                assert forall|t2: int| 0 <= t2 < self.components@.len() implies (#[trigger] self.components@[t2]).buckets@.len() == 1 by {
                    assert(!self.droppable(t2));
                    assert(self.components@[t2].wf());
                }
            }
        }
        best
    }

    /// Evicts the oldest bucket of table `t`.
    fn evict(&mut self, t: usize) -> (dropped: Vec<u64>)
        requires
            old(self).wf(),
            old(self).droppable(t as int),
        ensures
            final(self).wf(),
            final(self).indices == old(self).indices,
            final(self).metadata == old(self).metadata,
            final(self).cluster_key == old(self).cluster_key,
            final(self).config == old(self).config,
            final(self).components@.len() == old(self).components@.len(),
            final(self).total_rows() + dropped@.len() == old(self).total_rows(),
            dropped@.len() >= 1,
            dropped@ == old(self).components@[t as int].buckets@[0].row_ids@,
            forall|j: int, r2: u64| 0 <= j < dropped@.len() && #[trigger] final(self).live(old(self).components@[t as int].name@, r2)
                ==> #[trigger] dropped@[j] < r2,
            forall|c: Seq<char>, r: u64, v: Seq<Option<u64>>| final(self).holds(c, r, v) <==>
                (old(self).holds(c, r, v) && !(c == old(self).components@[t as int].name@ && dropped@.contains(r))),
            forall|c: Seq<char>, r: u64| final(self).live(c, r) <==>
                (old(self).live(c, r) && !(c == old(self).components@[t as int].name@ && dropped@.contains(r))),
            forall|t2: int| 0 <= t2 < old(self).components@.len() && t2 != t ==> #[trigger] final(self).components@[t2] == old(self).components@[t2],
            final(self).components@[t as int].buckets@.len() == old(self).components@[t as int].buckets@.len() - 1,
            final(self).components@[t as int].name == old(self).components@[t as int].name,
    {
        let ghost before = *self;
        let ghost name = self.components@[t as int].name@;
        proof {
            assert(self.components@[t as int].wf());
        }
        let bucket = self.components[t].pop_oldest();
        proof {
            assert(self.components@ == before.components@.update(t as int, self.components@[t as int]));
            lemma_tables_rows_update(before.components@, t as int, self.components@[t as int]);
            assert(bucket.row_ids@.len() >= 1) by {
                assert(before.components@[t as int].buckets@[0] == bucket);
            }
            assert forall|t2: int| 0 <= t2 < self.components@.len() implies {
                &&& (#[trigger] self.components@[t2]).wf()
                &&& self.components@[t2].ids_below(self.num_rows())
            } by {
                assert(before.components@[t2].ids_below(before.num_rows()));
            }
            assert forall|t1: int, t2: int| 0 <= t1 < self.components@.len() && 0 <= t2 < self.components@.len()
                && t1 != t2 implies (#[trigger] self.components@[t1]).name@ != (#[trigger] self.components@[t2]).name@ by {
                assert(before.components@[t1].name@ != before.components@[t2].name@);
            }
            before.lemma_table_at(t as int, name);
            assert forall|c: Seq<char>, r: u64, v: Seq<Option<u64>>| self.holds(c, r, v) <==>
                (before.holds(c, r, v) && !(c == name && bucket.row_ids@.contains(r))) by {
                if self.holds(c, r, v) {
                    let t2 = choose|t2: int| #[trigger] self.table_is(t2, c) && self.components@[t2].holds(r, v);
                    assert(before.table_is(t2, c));
                    if c == name {
                        assert(t2 == t);
                    }
                }
                if before.holds(c, r, v) && !(c == name && bucket.row_ids@.contains(r)) {
                    let t2 = choose|t2: int| #[trigger] before.table_is(t2, c) && before.components@[t2].holds(r, v);
                    assert(self.table_is(t2, c));
                }
            }
            assert forall|c: Seq<char>, r: u64| self.live(c, r) <==>
                (before.live(c, r) && !(c == name && bucket.row_ids@.contains(r))) by {
                if self.live(c, r) {
                    let t2 = choose|t2: int| #[trigger] self.table_is(t2, c) && self.components@[t2].live(r);
                    assert(before.table_is(t2, c));
                    if c == name {
                        assert(t2 == t);
                    }
                }
                if before.live(c, r) && !(c == name && bucket.row_ids@.contains(r)) {
                    let t2 = choose|t2: int| #[trigger] before.table_is(t2, c) && before.components@[t2].live(r);
                    assert(self.table_is(t2, c));
                }
            }
            lemma_agree_frame(*self, before);
            self.lemma_table_at(t as int, name);
        }
        bucket.row_ids
    }

    /// Evicts whole component buckets, oldest first, until the target is met or only the
    /// newest bucket of each component is left. Returns, bucket by bucket, the ids of the
    /// rows whose `primary` cell was evicted. Row metadata stays until
    /// `clear_msg_metadata`. Buckets age by insertion, whatever the timeline.
    pub fn gc(&mut self, target: GarbageCollectionTarget, _timeline: &Timeline, primary: &ComponentName) -> (res: Vec<Vec<RowId>>)
        requires
            old(self).wf(),
        ensures
            gc_post(*old(self), *final(self), target, primary@, res@),
    {
        let GarbageCollectionTarget::DropAtLeastPercentage(pct) = target;
        let total = self.total_temporal_component_rows();
        let p: u128 = if pct > 100 { 100 } else { pct as u128 };
        assert((total as u128) * p <= 100 * (usize::MAX as u128)) by (nonlinear_arith)
            requires
                total <= usize::MAX,
                p <= 100,
        ;
        let goal: u128 = (total as u128 * p + 99) / 100;
        let ghost before = *self;
        let mut dropped_rows: u128 = 0;
        let mut out: Vec<Vec<RowId>> = Vec::new();
        loop
            invariant_except_break
                self.wf(),
                self.indices == before.indices,
                self.metadata == before.metadata,
                self.cluster_key == before.cluster_key,
                self.config == before.config,
                goal == gc_goal(before.total_rows(), pct),
                self.total_rows() <= before.total_rows(),
                dropped_rows as int == if before.total_rows() - self.total_rows() > u128::MAX {
                    u128::MAX as int
                } else {
                    before.total_rows() - self.total_rows()
                },
                forall|c: Seq<char>, r: u64, v: Seq<Option<u64>>| self.holds(c, r, v) ==> before.holds(c, r, v),
                forall|c: Seq<char>, r: u64| self.live(c, r) ==> before.live(c, r),
                forall|r: u64| reported(out@, r) <==> (before.live(primary@, r) && !self.live(primary@, r)),
                forall|c: Seq<char>, r1: u64, r2: u64| #[trigger] before.live(c, r1) && !self.live(c, r1) && #[trigger] self.live(c, r2)
                    ==> r1 < r2,
                before.settled() ==> out@.len() == 0 && *self == before,
            ensures
                self.wf(),
                self.indices == before.indices,
                self.metadata == before.metadata,
                self.cluster_key == before.cluster_key,
                self.config == before.config,
                self.total_rows() <= before.total_rows(),
                forall|c: Seq<char>, r: u64, v: Seq<Option<u64>>| self.holds(c, r, v) ==> before.holds(c, r, v),
                forall|c: Seq<char>, r: u64| self.live(c, r) ==> before.live(c, r),
                forall|r: u64| reported(out@, r) <==> (before.live(primary@, r) && !self.live(primary@, r)),
                forall|c: Seq<char>, r1: u64, r2: u64| #[trigger] before.live(c, r1) && !self.live(c, r1) && #[trigger] self.live(c, r2)
                    ==> r1 < r2,
                pct >= 100 ==> self.settled(),
                self.settled() || before.total_rows() - self.total_rows() >= gc_goal(before.total_rows(), pct),
                before.settled() ==> out@.len() == 0 && *self == before,
            decreases self.total_rows(),
        {
            if pct < 100 && dropped_rows >= goal {
                break;
            }
            let t = match self.oldest_droppable() {
                None => break,
                Some(t) => t,
            };
            let ghost pre = *self;
            let ghost name = self.components@[t as int].name@;
            let is_primary = self.components[t].name.same_as(primary);
            let ids = self.evict(t);
            proof {
                assert forall|c: Seq<char>, r1: u64, r2: u64| #[trigger] before.live(c, r1) && !self.live(c, r1) && #[trigger] self.live(c, r2)
                    implies r1 < r2 by {
                    if pre.live(c, r1) {
                        let j = choose|j: int| 0 <= j < ids@.len() && ids@[j] == r1;
                    }
                }
            }
            dropped_rows = dropped_rows.saturating_add(ids.len() as u128);
            if is_primary {
                let mut chunk: Vec<RowId> = Vec::new();
                let mut j: usize = 0;
                while j < ids.len()
                    invariant
                        j <= ids@.len(),
                        chunk@.len() == j,
                        forall|q: int| 0 <= q < j ==> (#[trigger] chunk@[q]).0 == ids@[q],
                    decreases ids.len() - j,
                {
                    chunk.push(RowId(ids[j]));
                    j = j + 1;
                }
                let ghost prev = out@;
                out.push(chunk);
                proof {
                    assert forall|r: u64| reported(out@, r) <==> (before.live(primary@, r) && !self.live(primary@, r)) by {
                        if reported(out@, r) {
                            let (i, j2) = choose|i: int, j2: int| 0 <= i < out@.len() && 0 <= j2 < out@[i]@.len() && (#[trigger] out@[i]@[j2]).0 == r;
                            if i < prev.len() {
                                assert(prev[i] == out@[i]);
                                assert(reported(prev, r));
                            } else {
                                assert(ids@[j2] == r);
                                assert(ids@.contains(r));
                                assert(pre.live(primary@, r)) by {
                                    assert(pre.table_is(t as int, primary@));
                                    assert(pre.components@[t as int].loc_ok(0, j2));
                                    assert(pre.components@[t as int].id_at(0, j2) == r);
                                }
                            }
                        }
                        if before.live(primary@, r) && !self.live(primary@, r) {
                            if pre.live(primary@, r) {
                                let j2 = choose|j2: int| 0 <= j2 < ids@.len() && ids@[j2] == r;
                                assert(out@[prev.len() as int]@[j2].0 == r);
                            } else {
                                assert(reported(prev, r));
                                let (i, j2) = choose|i: int, j2: int| 0 <= i < prev.len() && 0 <= j2 < prev[i]@.len() && (#[trigger] prev[i]@[j2]).0 == r;
                                assert(out@[i] == prev[i]);
                                assert(out@[i]@[j2].0 == r);
                            }
                        }
                    }
                }
            } else {
                proof {
                    assert forall|r: u64| reported(out@, r) <==> (before.live(primary@, r) && !self.live(primary@, r)) by {
                        assert(self.live(primary@, r) == pre.live(primary@, r));
                    }
                }
            }
        }
        proof {
            lemma_same_indices(*self, before);
            if before.settled() {
                assert(self.same_data(&before));
            }
        }
        out
    }

    /// The number of cells across all component tables, saturated at `usize::MAX`.
    pub fn total_temporal_component_rows(&self) -> (r: usize)
        requires
            self.wf(),
        ensures
            r == if self.total_rows() > usize::MAX { usize::MAX as int } else { self.total_rows() as int },
    {
        let mut acc: usize = 0;
        let mut t: usize = 0;
        while t < self.components.len()
            invariant
                t <= self.components@.len(),
                acc == min_usize(tables_rows(self.components@.take(t as int))),
            decreases self.components.len() - t,
        {
            let table = &self.components[t];
            let mut inner: usize = acc;
            let mut b: usize = 0;
            while b < table.buckets.len()
                invariant
                    *table == self.components@[t as int],
                    b <= table.buckets@.len(),
                    inner == min_usize(tables_rows(self.components@.take(t as int)) + rows_in(table.buckets@.take(b as int))),
                decreases table.buckets.len() - b,
            {
                inner = inner.saturating_add(table.buckets[b].row_ids.len());
                proof {
                    assert(table.buckets@.take(b as int + 1).drop_last() =~= table.buckets@.take(b as int));
                }
                b = b + 1;
            }
            proof {
                assert(table.buckets@.take(b as int) =~= table.buckets@);
                assert(self.components@.take(t as int + 1).drop_last() =~= self.components@.take(t as int));
            }
            acc = inner;
            t = t + 1;
        }
        proof {
            assert(self.components@.take(t as int) =~= self.components@);
        }
        acc
    }

    /// The metadata of row `r`, until it is cleared.
    pub fn get_msg_metadata(&self, r: &RowId) -> (res: Option<&RowMetadata>)
        ensures
            res is Some <==> self.has_metadata(r.0),
            res matches Some(m) ==> *m == self.metadata_of(r.0),
    {
        if r.0 < self.metadata.len() as u64 {
            match &self.metadata[r.0 as usize] {
                Some(m) => Some(m),
                None => None,
            }
        } else {
            None
        }
    }

    /// Forgets the metadata of the given rows; cells and indices stay as they are.
    pub fn clear_msg_metadata(&mut self, ids: &Vec<RowId>)
        requires
            old(self).wf(),
        ensures
            clear_post(*old(self), *final(self), ids@),
    {
        let ghost before = *self;
        let mut j: usize = 0;
        while j < ids.len()
            invariant
                before.wf(),
                j <= ids@.len(),
                self.metadata@.len() == before.metadata@.len(),
                self.components == before.components,
                self.indices == before.indices,
                self.cluster_key == before.cluster_key,
                self.config == before.config,
                forall|r: u64| #[trigger] self.has_metadata(r) <==> (before.has_metadata(r)
                    && !(exists|q: int| 0 <= q < j && (#[trigger] ids@[q]).0 == r)),
                forall|r: u64| #[trigger] self.has_metadata(r) ==> self.metadata_of(r) == before.metadata_of(r),
            decreases ids.len() - j,
        {
            let r = ids[j].0;
            let ghost pre = *self;
            if r < self.metadata.len() as u64 {
                self.metadata.set(r as usize, None);
            }
            proof {
                assert forall|r2: u64| #[trigger] self.has_metadata(r2) <==> (before.has_metadata(r2)
                    && !(exists|q: int| 0 <= q < j + 1 && (#[trigger] ids@[q]).0 == r2)) by {
                    if r2 != r && r2 < self.metadata@.len() {
                        assert(self.metadata@[r2 as int] == pre.metadata@[r2 as int]);
                    }
                    assert(pre.has_metadata(r2) <==> (before.has_metadata(r2)
                        && !(exists|q: int| 0 <= q < j && (#[trigger] ids@[q]).0 == r2)));
                    if r2 == r {
                        assert(ids@[j as int].0 == r2);
                    } else if exists|q: int| 0 <= q < j + 1 && (#[trigger] ids@[q]).0 == r2 {
                        let q = choose|q: int| 0 <= q < j + 1 && (#[trigger] ids@[q]).0 == r2;
                        assert(q < j);
                    }
                }
            }
            proof {
                assert forall|r2: u64| #[trigger] self.has_metadata(r2) implies self.metadata_of(r2) == before.metadata_of(r2) by {
                    assert(r2 != r || r >= pre.metadata@.len());
                    assert(self.metadata@[r2 as int] == pre.metadata@[r2 as int]);
                    assert(pre.has_metadata(r2));
                }
            }
            j = j + 1;
        }
        proof {
            assert(self.same_cells(&before));
            lemma_same_components(*self, before);
            lemma_agree_frame(*self, before);
        }
    }

}

pub open spec fn min_usize(n: nat) -> int {
    if n > usize::MAX { usize::MAX as int } else { n as int }
}

/// What a collection towards `target` leaves: `s1` is `s0` without some buckets, and
/// `res` names the rows whose `primary` cell went.
pub open spec fn gc_post(s0: DataStore, s1: DataStore, target: GarbageCollectionTarget, primary: Seq<char>, res: Seq<Vec<RowId>>) -> bool {
    &&& s1.wf()
    &&& s1.num_rows() == s0.num_rows()
    &&& s1.cluster() == s0.cluster()
    &&& s1.one_row_buckets() == s0.one_row_buckets()
    &&& forall|r: u64| s1.has_metadata(r) == s0.has_metadata(r)
    &&& forall|r: u64| s1.metadata_of(r) == s0.metadata_of(r)
    &&& forall|ent: Seq<char>, tl: TimelineView, e: IndexEntry| s1.indexed(ent, tl, e) == s0.indexed(ent, tl, e)
    &&& forall|ent: Seq<char>, tl: TimelineView| s1.has_index(ent, tl) == s0.has_index(ent, tl)
    &&& forall|c: Seq<char>, r: u64, v: Seq<Option<u64>>| s1.holds(c, r, v) ==> s0.holds(c, r, v)
    &&& forall|c: Seq<char>, r: u64| s1.live(c, r) ==> s0.live(c, r)
    &&& forall|r: u64| reported(res, r) <==> (s0.live(primary, r) && !s1.live(primary, r))
    &&& forall|c: Seq<char>, r1: u64, r2: u64| #[trigger] s0.live(c, r1) && !s1.live(c, r1) && #[trigger] s1.live(c, r2)
        ==> r1 < r2
    &&& s1.total_rows() <= s0.total_rows()
    &&& match target {
        GarbageCollectionTarget::DropAtLeastPercentage(pct) => {
            &&& pct >= 100 ==> s1.settled()
            &&& s1.settled() || s0.total_rows() - s1.total_rows() >= gc_goal(s0.total_rows(), pct)
        },
    }
    &&& s0.settled() ==> res.len() == 0 && s1.same_data(&s0)
}

/// What clearing the metadata of `ids` leaves.
pub open spec fn clear_post(s0: DataStore, s1: DataStore, ids: Seq<RowId>) -> bool {
    &&& s1.wf()
    &&& forall|r: u64| s1.has_metadata(r) ==> s1.metadata_of(r) == s0.metadata_of(r)
    &&& forall|r: u64| #[trigger] s1.has_metadata(r) <==> (s0.has_metadata(r)
        && !(exists|j: int| 0 <= j < ids.len() && (#[trigger] ids[j]).0 == r))
    &&& s1.same_cells(&s0)
}

} // verus!
