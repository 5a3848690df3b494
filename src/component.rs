//! Component tables: per component, a run of buckets that hold the cells of rows.
use vstd::prelude::*;

use crate::types::ComponentName;

verus! {

/// A contiguous arena of one component's cells, with the id of the row each came from.
#[derive(Debug)]
pub struct ComponentBucket {
    pub row_ids: Vec<u64>,
    pub data: Vec<Vec<Option<u64>>>,
    pub size_bytes: u64,
}

/// All the cells of one component, bucket by bucket, oldest bucket first.
#[derive(Debug)]
pub struct ComponentTable {
    pub name: ComponentName,
    pub buckets: Vec<ComponentBucket>,
}

/// The bytes that a cell of `n` slots accounts for.
pub open spec fn cell_size(n: nat) -> int {
    if 8 * n > u64::MAX {
        u64::MAX as int
    } else {
        8 * n as int
    }
}

pub fn cell_size_bytes(values: &Vec<Option<u64>>) -> (r: u64)
    ensures
        r == cell_size(values@.len()),
{
    let n = values.len() as u64;
    match n.checked_mul(8) {
        Some(s) => s,
        None => u64::MAX,
    }
}

/// The number of cells in a run of buckets.
pub open spec fn rows_in(buckets: Seq<ComponentBucket>) -> nat
    decreases buckets.len(),
{
    if buckets.len() == 0 {
        0
    } else {
        rows_in(buckets.drop_last()) + buckets.last().row_ids@.len()
    }
}

pub proof fn lemma_rows_in_push(buckets: Seq<ComponentBucket>, b: ComponentBucket)
    ensures
        rows_in(buckets.push(b)) == rows_in(buckets) + b.row_ids@.len(),
{
    assert(buckets.push(b).drop_last() =~= buckets);
}

pub proof fn lemma_rows_in_front(buckets: Seq<ComponentBucket>)
    requires
        buckets.len() > 0,
    ensures
        rows_in(buckets) == buckets[0].row_ids@.len() + rows_in(buckets.remove(0)),
    decreases buckets.len(),
{
    if buckets.len() > 1 {
        lemma_rows_in_front(buckets.drop_last());
        assert(buckets.drop_last().remove(0) =~= buckets.remove(0).drop_last());
    } else {
        assert(buckets.drop_last() =~= Seq::<ComponentBucket>::empty());
        assert(buckets.remove(0) =~= Seq::<ComponentBucket>::empty());
    }
}

/// Position `(b1, k1)` comes before `(b2, k2)`: in an older bucket, or earlier in the same one.
pub open spec fn pos_lt(b1: int, k1: int, b2: int, k2: int) -> bool {
    b1 < b2 || (b1 == b2 && k1 < k2)
}

/// `after` is `before` with one more cell, for row `r`, at `(n, kk)`.
proof fn lemma_one_more(before: ComponentTable, after: ComponentTable, n: int, kk: int, r: u64, v: Seq<Option<u64>>)
    requires
        after.loc_ok(n, kk) && after.id_at(n, kk) == r && after.cell_at(n, kk) == v,
        forall|b: int, k: int| before.loc_ok(b, k) ==> after.loc_ok(b, k)
            && after.id_at(b, k) == before.id_at(b, k) && after.cell_at(b, k) == before.cell_at(b, k),
        forall|b: int, k: int| after.loc_ok(b, k) && !(b == n && k == kk) ==> before.loc_ok(b, k)
            && after.id_at(b, k) == before.id_at(b, k) && after.cell_at(b, k) == before.cell_at(b, k),
        forall|b: int, k: int| after.loc_ok(b, k) && !(b == n && k == kk) ==> pos_lt(b, k, n, kk),
    ensures
        before.ascending_ids() && before.ids_below(r as nat) ==> after.ascending_ids(),
        forall|r2: u64, v2: Seq<Option<u64>>|
            after.holds(r2, v2) <==> (before.holds(r2, v2) || (r2 == r && v2 == v)),
        forall|r2: u64| after.live(r2) <==> (before.live(r2) || r2 == r),
        forall|bound: nat| before.ids_below(bound) && r < bound ==> after.ids_below(bound),
        before.wf() && !before.live(r) ==> forall|b1: int, k1: int, b2: int, k2: int|
            after.loc_ok(b1, k1) && after.loc_ok(b2, k2) && #[trigger] after.id_at(b1, k1) == #[trigger] after.id_at(b2, k2)
                ==> b1 == b2 && k1 == k2,
{
    if before.ascending_ids() && before.ids_below(r as nat) {
        assert forall|b1: int, k1: int, b2: int, k2: int|
            after.loc_ok(b1, k1) && after.loc_ok(b2, k2) && pos_lt(b1, k1, b2, k2)
                implies #[trigger] after.id_at(b1, k1) < #[trigger] after.id_at(b2, k2) by {
            if !(b1 == n && k1 == kk) && !(b2 == n && k2 == kk) {
                assert(before.id_at(b1, k1) < before.id_at(b2, k2));
            } else if !(b1 == n && k1 == kk) {
                assert(before.id_at(b1, k1) < r);
            } else if !(b2 == n && k2 == kk) {
                assert(pos_lt(b2, k2, n, kk));
            }
        }
    }
    if before.wf() && !before.live(r) {
        assert forall|b1: int, k1: int, b2: int, k2: int|
            after.loc_ok(b1, k1) && after.loc_ok(b2, k2) && #[trigger] after.id_at(b1, k1) == #[trigger] after.id_at(b2, k2)
                implies b1 == b2 && k1 == k2 by {
            if !(b1 == n && k1 == kk) && !(b2 == n && k2 == kk) {
                assert(before.id_at(b1, k1) == before.id_at(b2, k2));
            } else if !(b1 == n && k1 == kk) {
                assert(before.id_at(b1, k1) == r);
            } else if !(b2 == n && k2 == kk) {
                assert(before.id_at(b2, k2) == r);
            }
        }
    }
    assert forall|r2: u64, v2: Seq<Option<u64>>|
        after.holds(r2, v2) <==> (before.holds(r2, v2) || (r2 == r && v2 == v)) by {
        if after.holds(r2, v2) {
            let (b, k) = choose|b: int, k: int| after.loc_ok(b, k) && #[trigger] after.id_at(b, k) == r2 && after.cell_at(b, k) == v2;
            if !(b == n && k == kk) {
                assert(before.id_at(b, k) == r2);
            }
        }
        if before.holds(r2, v2) {
            let (b, k) = choose|b: int, k: int| before.loc_ok(b, k) && #[trigger] before.id_at(b, k) == r2 && before.cell_at(b, k) == v2;
            assert(after.id_at(b, k) == r2);
        }
    }
    assert forall|r2: u64| after.live(r2) <==> (before.live(r2) || r2 == r) by {
        if after.live(r2) {
            let (b, k) = choose|b: int, k: int| after.loc_ok(b, k) && #[trigger] after.id_at(b, k) == r2;
            if !(b == n && k == kk) {
                assert(before.id_at(b, k) == r2);
            }
        }
        if before.live(r2) {
            let (b, k) = choose|b: int, k: int| before.loc_ok(b, k) && #[trigger] before.id_at(b, k) == r2;
            assert(after.id_at(b, k) == r2);
        }
    }
    assert forall|bound: nat| before.ids_below(bound) && r < bound implies after.ids_below(bound) by {
        assert forall|b: int, k: int| after.loc_ok(b, k) implies #[trigger] after.id_at(b, k) < bound by {
            if !(b == n && k == kk) {
                assert(before.id_at(b, k) < bound);
            }
        }
    }
}

impl ComponentTable {
    pub open spec fn loc_ok(&self, b: int, k: int) -> bool {
        0 <= b < self.buckets@.len() && 0 <= k < self.buckets@[b].row_ids@.len()
    }

    pub open spec fn id_at(&self, b: int, k: int) -> u64 {
        self.buckets@[b].row_ids@[k]
    }

    pub open spec fn cell_at(&self, b: int, k: int) -> Seq<Option<u64>> {
        self.buckets@[b].data@[k]@
    }

    /// The table holds a cell for row `r`.
    pub open spec fn live(&self, r: u64) -> bool {
        exists|b: int, k: int| self.loc_ok(b, k) && #[trigger] self.id_at(b, k) == r
    }

    /// The table holds the cell `v` for row `r`.
    pub open spec fn holds(&self, r: u64, v: Seq<Option<u64>>) -> bool {
        exists|b: int, k: int| self.loc_ok(b, k) && #[trigger] self.id_at(b, k) == r && self.cell_at(b, k) == v
    }

    pub open spec fn num_rows(&self) -> nat {
        rows_in(self.buckets@)
    }

    /// No bucket is empty, each row id has its cell, and no row id occurs twice.
    pub open spec fn wf(&self) -> bool {
        &&& self.buckets@.len() > 0
        &&& forall|b: int| 0 <= b < self.buckets@.len() ==> {
            &&& (#[trigger] self.buckets@[b]).row_ids@.len() > 0
            &&& self.buckets@[b].row_ids@.len() == self.buckets@[b].data@.len()
        }
        &&& forall|b1: int, k1: int, b2: int, k2: int|
            self.loc_ok(b1, k1) && self.loc_ok(b2, k2) && #[trigger] self.id_at(b1, k1) == #[trigger] self.id_at(b2, k2)
                ==> b1 == b2 && k1 == k2
        &&& self.ascending_ids()
    }

    /// Row ids grow from the oldest bucket to the newest and along each bucket.
    pub open spec fn ascending_ids(&self) -> bool {
        forall|b1: int, k1: int, b2: int, k2: int|
            self.loc_ok(b1, k1) && self.loc_ok(b2, k2) && pos_lt(b1, k1, b2, k2)
                ==> #[trigger] self.id_at(b1, k1) < #[trigger] self.id_at(b2, k2)
    }

    /// Every bucket holds exactly one cell.
    pub open spec fn single_rows(&self) -> bool {
        forall|b: int| 0 <= b < self.buckets@.len() ==> (#[trigger] self.buckets@[b]).row_ids@.len() == 1
    }

    /// Every row id in the table is below `bound`.
    pub open spec fn ids_below(&self, bound: nat) -> bool {
        forall|b: int, k: int| self.loc_ok(b, k) ==> #[trigger] self.id_at(b, k) < bound
    }

    pub proof fn lemma_holds_unique(&self, r: u64, v1: Seq<Option<u64>>, v2: Seq<Option<u64>>)
        requires
            self.wf(),
            self.holds(r, v1),
            self.holds(r, v2),
        ensures
            v1 == v2,
    {
    }

    /// A table with one bucket holding one cell.
    pub fn new(name: ComponentName, r: u64, v: Vec<Option<u64>>) -> (t: ComponentTable)
        ensures
            t.wf(),
            t.name@ == name@,
            forall|r2: u64, v2: Seq<Option<u64>>| t.holds(r2, v2) <==> (r2 == r && v2 == v@),
            forall|r2: u64| t.live(r2) <==> r2 == r,
            forall|bound: nat| r < bound ==> t.ids_below(bound),
            t.num_rows() == 1,
            t.single_rows(),
    {
        let size = cell_size_bytes(&v);
        let mut row_ids: Vec<u64> = Vec::new();
        row_ids.push(r);
        let mut data: Vec<Vec<Option<u64>>> = Vec::new();
        data.push(v);
        let bucket = ComponentBucket { row_ids, data, size_bytes: size };
        let mut buckets: Vec<ComponentBucket> = Vec::new();
        buckets.push(bucket);
        let t = ComponentTable { name, buckets };
        assert(t.loc_ok(0, 0) && t.id_at(0, 0) == r);
        assert(t.cell_at(0, 0) == v@);
        proof {
            lemma_rows_in_push(Seq::<ComponentBucket>::empty(), bucket);
            assert(buckets@ =~= Seq::<ComponentBucket>::empty().push(bucket));
        }
        t
    }

    /// Appends the cell of a new row: to the newest bucket while it has room for
    /// another row and for the cell's bytes, else to a new bucket.
    pub fn append(&mut self, r: u64, v: Vec<Option<u64>>, max_rows: u64, max_bytes: u64)
        requires
            old(self).wf(),
            old(self).ids_below(r as nat),
        ensures
            final(self).wf(),
            final(self).name == old(self).name,
            forall|r2: u64, v2: Seq<Option<u64>>|
                final(self).holds(r2, v2) <==> (old(self).holds(r2, v2) || (r2 == r && v2 == v@)),
            forall|r2: u64| final(self).live(r2) <==> (old(self).live(r2) || r2 == r),
            final(self).num_rows() == old(self).num_rows() + 1,
            forall|bound: nat| old(self).ids_below(bound) && r < bound ==> final(self).ids_below(bound),
            max_rows == 0 && old(self).single_rows() ==> final(self).single_rows(),
    {
        let ghost before = *self;
        let size = cell_size_bytes(&v);
        let last = self.buckets.len() - 1;
        let used_rows = self.buckets[last].row_ids.len() as u64;
        let used_bytes = self.buckets[last].size_bytes;
        if used_rows < max_rows && size <= max_bytes && used_bytes <= max_bytes - size {
            let mut bucket = self.buckets.pop().unwrap();
            proof {
                assert(self.buckets@ =~= before.buckets@.drop_last());
            }
            bucket.row_ids.push(r);
            bucket.data.push(v);
            bucket.size_bytes = used_bytes + size;
            let ghost old_len = bucket.row_ids@.len() - 1;
            self.buckets.push(bucket);
            proof {
                let n = before.buckets@.len() - 1;
                lemma_rows_in_push(self.buckets@.drop_last(), bucket);
                lemma_rows_in_push(before.buckets@.drop_last(), before.buckets@[n]);
                assert(before.buckets@.drop_last().push(before.buckets@[n]) =~= before.buckets@);
                assert(self.buckets@.drop_last() =~= before.buckets@.drop_last());
                assert(self.loc_ok(n, old_len) && self.id_at(n, old_len) == r);
                assert(self.cell_at(n, old_len) == v@);
                assert forall|b: int, k: int| before.loc_ok(b, k) implies self.loc_ok(b, k)
                    && self.id_at(b, k) == before.id_at(b, k) && self.cell_at(b, k) == before.cell_at(b, k) by {
                }
                assert forall|b: int, k: int| self.loc_ok(b, k) && !(b == n && k == old_len) implies before.loc_ok(b, k)
                    && self.id_at(b, k) == before.id_at(b, k) && self.cell_at(b, k) == before.cell_at(b, k) by {
                }
                lemma_one_more(before, *self, n, old_len, r, v@);
            }
        } else {
            let mut row_ids: Vec<u64> = Vec::new();
            row_ids.push(r);
            let mut data: Vec<Vec<Option<u64>>> = Vec::new();
            data.push(v);
            let bucket = ComponentBucket { row_ids, data, size_bytes: size };
            self.buckets.push(bucket);
            proof {
                let n = before.buckets@.len() as int;
                lemma_rows_in_push(before.buckets@, bucket);
                assert(self.buckets@ =~= before.buckets@.push(bucket));
                assert(self.loc_ok(n, 0) && self.id_at(n, 0) == r);
                assert(self.cell_at(n, 0) == v@);
                assert forall|b: int, k: int| before.loc_ok(b, k) implies self.loc_ok(b, k)
                    && self.id_at(b, k) == before.id_at(b, k) && self.cell_at(b, k) == before.cell_at(b, k) by {
                }
                assert forall|b: int, k: int| self.loc_ok(b, k) && !(b == n && k == 0) implies before.loc_ok(b, k)
                    && self.id_at(b, k) == before.id_at(b, k) && self.cell_at(b, k) == before.cell_at(b, k) by {
                }
                lemma_one_more(before, *self, n, 0, r, v@);
            }
        }
    }

    /// The cell of row `r`, if the table holds one.
    pub fn find(&self, r: u64) -> (res: Option<&Vec<Option<u64>>>)
        requires
            self.wf(),
        ensures
            res matches Some(v) ==> self.holds(r, v@),
            res is None ==> !self.live(r),
    {
        let mut b: usize = 0;
        while b < self.buckets.len()
            invariant
                b <= self.buckets@.len(),
                self.wf(),
                forall|b2: int, k: int| 0 <= b2 < b && self.loc_ok(b2, k) ==> #[trigger] self.id_at(b2, k) != r,
            decreases self.buckets.len() - b,
        {
            let bucket = &self.buckets[b];
            let mut k: usize = 0;
            while k < bucket.row_ids.len()
                invariant
                    b < self.buckets@.len(),
                    *bucket == self.buckets@[b as int],
                    k <= bucket.row_ids@.len(),
                    self.wf(),
                    forall|k2: int| 0 <= k2 < k ==> #[trigger] self.id_at(b as int, k2) != r,
                decreases bucket.row_ids.len() - k,
            {
                if bucket.row_ids[k] == r {
                    assert(self.loc_ok(b as int, k as int) && self.id_at(b as int, k as int) == r);
                    assert(self.cell_at(b as int, k as int) == bucket.data@[k as int]@);
                    return Some(&bucket.data[k]);
                }
                k = k + 1;
            }
            b = b + 1;
        }
        None
    }

    /// Evicts the oldest bucket; the newest one always stays.
    pub fn pop_oldest(&mut self) -> (dropped: ComponentBucket)
        requires
            old(self).wf(),
            old(self).buckets@.len() >= 2,
        ensures
            final(self).wf(),
            final(self).name == old(self).name,
            dropped == old(self).buckets@[0],
            final(self).buckets@ == old(self).buckets@.remove(0),
            final(self).num_rows() + dropped.row_ids@.len() == old(self).num_rows(),
            forall|r2: u64, v2: Seq<Option<u64>>|
                final(self).holds(r2, v2) <==> (old(self).holds(r2, v2) && !dropped.row_ids@.contains(r2)),
            forall|r2: u64| final(self).live(r2) <==> (old(self).live(r2) && !dropped.row_ids@.contains(r2)),
            forall|bound: nat| old(self).ids_below(bound) ==> final(self).ids_below(bound),
            old(self).single_rows() ==> final(self).single_rows(),
            forall|j: int, r2: u64| 0 <= j < dropped.row_ids@.len() && #[trigger] final(self).live(r2)
                ==> #[trigger] dropped.row_ids@[j] < r2,
    {
        let ghost before = *self;
        let dropped = self.buckets.remove(0);
        proof {
            lemma_rows_in_front(before.buckets@);
            assert forall|b: int, k: int| self.loc_ok(b, k) implies before.loc_ok(b + 1, k)
                && self.id_at(b, k) == before.id_at(b + 1, k) && self.cell_at(b, k) == before.cell_at(b + 1, k) by {
            }
            assert forall|b: int, k: int| before.loc_ok(b, k) && b > 0 implies self.loc_ok(b - 1, k)
                && self.id_at(b - 1, k) == before.id_at(b, k) && self.cell_at(b - 1, k) == before.cell_at(b, k) by {
            }
            assert forall|r2: u64, v2: Seq<Option<u64>>|
                self.holds(r2, v2) <==> (before.holds(r2, v2) && !dropped.row_ids@.contains(r2)) by {
                if self.holds(r2, v2) {
                    let (b, k) = choose|b: int, k: int| self.loc_ok(b, k) && #[trigger] self.id_at(b, k) == r2 && self.cell_at(b, k) == v2;
                    assert(before.id_at(b + 1, k) == r2);
                    if dropped.row_ids@.contains(r2) {
                        let k0 = choose|k0: int| 0 <= k0 < dropped.row_ids@.len() && dropped.row_ids@[k0] == r2;
                        assert(before.id_at(0, k0) == r2);
                    }
                }
                if before.holds(r2, v2) && !dropped.row_ids@.contains(r2) {
                    let (b, k) = choose|b: int, k: int| before.loc_ok(b, k) && #[trigger] before.id_at(b, k) == r2 && before.cell_at(b, k) == v2;
                    if b == 0 {
                        assert(dropped.row_ids@[k] == r2);
                    } else {
                        assert(self.id_at(b - 1, k) == r2);
                    }
                }
            }
            assert forall|r2: u64| self.live(r2) <==> (before.live(r2) && !dropped.row_ids@.contains(r2)) by {
                if self.live(r2) {
                    let (b, k) = choose|b: int, k: int| self.loc_ok(b, k) && #[trigger] self.id_at(b, k) == r2;
                    assert(before.id_at(b + 1, k) == r2);
                    if dropped.row_ids@.contains(r2) {
                        let k0 = choose|k0: int| 0 <= k0 < dropped.row_ids@.len() && dropped.row_ids@[k0] == r2;
                        assert(before.id_at(0, k0) == r2);
                    }
                }
                if before.live(r2) && !dropped.row_ids@.contains(r2) {
                    let (b, k) = choose|b: int, k: int| before.loc_ok(b, k) && #[trigger] before.id_at(b, k) == r2;
                    if b == 0 {
                        assert(dropped.row_ids@[k] == r2);
                    } else {
                        assert(self.id_at(b - 1, k) == r2);
                    }
                }
            }
            assert forall|b1: int, k1: int, b2: int, k2: int|
                self.loc_ok(b1, k1) && self.loc_ok(b2, k2) && #[trigger] self.id_at(b1, k1) == #[trigger] self.id_at(b2, k2)
                    implies b1 == b2 && k1 == k2 by {
                assert(before.id_at(b1 + 1, k1) == before.id_at(b2 + 1, k2));
            }
            assert forall|b: int| 0 <= b < self.buckets@.len() implies {
                &&& (#[trigger] self.buckets@[b]).row_ids@.len() > 0
                &&& self.buckets@[b].row_ids@.len() == self.buckets@[b].data@.len()
            } by {
                assert(self.buckets@[b] == before.buckets@[b + 1]);
            }
            assert forall|b1: int, k1: int, b2: int, k2: int|
                self.loc_ok(b1, k1) && self.loc_ok(b2, k2) && pos_lt(b1, k1, b2, k2)
                    implies #[trigger] self.id_at(b1, k1) < #[trigger] self.id_at(b2, k2) by {
                assert(pos_lt(b1 + 1, k1, b2 + 1, k2));
                assert(before.id_at(b1 + 1, k1) < before.id_at(b2 + 1, k2));
            }
            assert forall|j: int, r2: u64| 0 <= j < dropped.row_ids@.len() && #[trigger] self.live(r2)
                implies #[trigger] dropped.row_ids@[j] < r2 by {
                let (b, k) = choose|b: int, k: int| self.loc_ok(b, k) && #[trigger] self.id_at(b, k) == r2;
                assert(before.loc_ok(0, j) && before.loc_ok(b + 1, k) && pos_lt(0, j, b + 1, k));
                assert(before.id_at(0, j) < before.id_at(b + 1, k));
            }
        }
        dropped
    }
}

} // verus!
