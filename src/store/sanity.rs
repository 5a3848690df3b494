//! A full check of the store's invariants.
use vstd::prelude::*;

use crate::component::{ComponentTable, pos_lt};
use crate::index::{IndexBucket, IndexTable, entry_less, entry_lt};
use crate::types::{ComponentName, EntityPath, RowId, Timeline};
use super::DataStore;

verus! {

/// The first violation of the store's invariants that a sanity check met.
#[derive(Debug)]
pub enum SanityError {
    /// A component table has no bucket.
    EmptyTable { component: ComponentName },
    /// A bucket is empty, or its row ids and cells differ in number.
    MalformedBucket { component: ComponentName, bucket: usize },
    /// A bucket holds more than one row where the configuration asks for one.
    OversizedBucket { component: ComponentName, bucket: usize },
    /// A bucket refers to a row the store never accepted.
    UnknownRow { component: ComponentName, bucket: usize, offset: usize },
    /// A component's row ids do not grow from older cells to newer ones.
    UnorderedRows { component: ComponentName, bucket: usize, offset: usize },
    /// A component holds two cells for one row.
    DuplicateRow { component: ComponentName, row_id: RowId },
    /// Two tables share a component.
    DuplicateTable { component: ComponentName },
    /// An index refers to a row the store never accepted.
    IndexUnknownRow { ent_path: EntityPath, timeline: Timeline, offset: usize },
    /// An index holds a row twice.
    IndexDuplicateRow { ent_path: EntityPath, timeline: Timeline, row_id: RowId },
    /// An index has no bucket.
    EmptyIndex { ent_path: EntityPath, timeline: Timeline },
    /// A bucket of an index holds a time that an earlier bucket reaches.
    OverlappingBuckets { ent_path: EntityPath, timeline: Timeline, bucket: usize },
    /// An index marked as sorted is out of order.
    UnsortedIndex { ent_path: EntityPath, timeline: Timeline, offset: usize },
    /// Two indices share an entity and a timeline.
    DuplicateIndex { ent_path: EntityPath, timeline: Timeline },
    /// A row's instance keys and its declared instance count differ.
    InstanceCountMismatch { row_id: RowId, expected: u32, found: usize },
}

fn check_table(table: &ComponentTable, num_rows: usize, one_row: bool) -> (r: Result<(), SanityError>)
    ensures
        r is Ok <==> table.wf() && table.ids_below(num_rows as nat) && (one_row ==> table.single_rows()),
{
    if table.buckets.len() == 0 {
        return Err(SanityError::EmptyTable { component: table.name.duplicate() });
    }
    if one_row {
        let mut b: usize = 0;
        while b < table.buckets.len()
            invariant
                one_row,
                b <= table.buckets@.len(),
                forall|b2: int| 0 <= b2 < b ==> (#[trigger] table.buckets@[b2]).row_ids@.len() == 1,
            decreases table.buckets.len() - b,
        {
            if table.buckets[b].row_ids.len() != 1 {
                assert(table.buckets@[b as int].row_ids@.len() != 1);
                return Err(SanityError::OversizedBucket { component: table.name.duplicate(), bucket: b });
            }
            b = b + 1;
        }
    }
    let mut b: usize = 0;
    while b < table.buckets.len()
        invariant
            b <= table.buckets@.len(),
            forall|b2: int| 0 <= b2 < b ==> {
                &&& (#[trigger] table.buckets@[b2]).row_ids@.len() > 0
                &&& table.buckets@[b2].row_ids@.len() == table.buckets@[b2].data@.len()
            },
            forall|b2: int, k: int| 0 <= b2 < b && table.loc_ok(b2, k) ==> #[trigger] table.id_at(b2, k) < num_rows,
        decreases table.buckets.len() - b,
    {
        let bucket = &table.buckets[b];
        if bucket.row_ids.len() == 0 || bucket.row_ids.len() != bucket.data.len() {
            return Err(SanityError::MalformedBucket { component: table.name.duplicate(), bucket: b });
        }
        let mut k: usize = 0;
        while k < bucket.row_ids.len()
            invariant
                b < table.buckets@.len(),
                *bucket == table.buckets@[b as int],
                k <= bucket.row_ids@.len(),
                forall|k2: int| 0 <= k2 < k ==> #[trigger] table.id_at(b as int, k2) < num_rows,
            decreases bucket.row_ids.len() - k,
        {
            if bucket.row_ids[k] >= num_rows as u64 {
                assert(table.loc_ok(b as int, k as int));
                assert(table.id_at(b as int, k as int) >= num_rows);
                assert(!table.ids_below(num_rows as nat));
                return Err(SanityError::UnknownRow { component: table.name.duplicate(), bucket: b, offset: k });
            }
            k = k + 1;
        }
        b = b + 1;
    }
    let mut b1: usize = 0;
    while b1 < table.buckets.len()
        invariant
            b1 <= table.buckets@.len(),
            forall|x1: int, y1: int, x2: int, y2: int| 0 <= x1 < b1 && table.loc_ok(x1, y1) && table.loc_ok(x2, y2)
                && #[trigger] table.id_at(x1, y1) == #[trigger] table.id_at(x2, y2) ==> x1 == x2 && y1 == y2,
            forall|x1: int, y1: int, x2: int, y2: int| 0 <= x1 < b1 && table.loc_ok(x1, y1) && table.loc_ok(x2, y2)
                && pos_lt(x1, y1, x2, y2) ==> #[trigger] table.id_at(x1, y1) < #[trigger] table.id_at(x2, y2),
        decreases table.buckets.len() - b1,
    {
        let mut k1: usize = 0;
        while k1 < table.buckets[b1].row_ids.len()
            invariant
                b1 < table.buckets@.len(),
                k1 <= table.buckets@[b1 as int].row_ids@.len(),
                forall|x1: int, y1: int, x2: int, y2: int| 0 <= x1 < b1 && table.loc_ok(x1, y1) && table.loc_ok(x2, y2)
                    && #[trigger] table.id_at(x1, y1) == #[trigger] table.id_at(x2, y2) ==> x1 == x2 && y1 == y2,
                forall|x1: int, y1: int, x2: int, y2: int| 0 <= x1 < b1 && table.loc_ok(x1, y1) && table.loc_ok(x2, y2)
                    && pos_lt(x1, y1, x2, y2) ==> #[trigger] table.id_at(x1, y1) < #[trigger] table.id_at(x2, y2),
                forall|y1: int, x2: int, y2: int| 0 <= y1 < k1 && table.loc_ok(x2, y2)
                    && #[trigger] table.id_at(b1 as int, y1) == #[trigger] table.id_at(x2, y2) ==> b1 == x2 && y1 == y2,
                forall|y1: int, x2: int, y2: int| 0 <= y1 < k1 && table.loc_ok(x2, y2)
                    && pos_lt(b1 as int, y1, x2, y2) ==> #[trigger] table.id_at(b1 as int, y1) < #[trigger] table.id_at(x2, y2),
            decreases table.buckets@[b1 as int].row_ids@.len() - k1,
        {
            let id = table.buckets[b1].row_ids[k1];
            let mut b2: usize = 0;
            while b2 < table.buckets.len()
                invariant
                    b1 < table.buckets@.len(),
                    k1 < table.buckets@[b1 as int].row_ids@.len(),
                    id == table.id_at(b1 as int, k1 as int),
                    b2 <= table.buckets@.len(),
                    forall|x2: int, y2: int| 0 <= x2 < b2 && table.loc_ok(x2, y2) && id == #[trigger] table.id_at(x2, y2)
                        ==> b1 == x2 && k1 == y2,
                    forall|x2: int, y2: int| 0 <= x2 < b2 && table.loc_ok(x2, y2) && pos_lt(b1 as int, k1 as int, x2, y2)
                        ==> id < #[trigger] table.id_at(x2, y2),
                decreases table.buckets.len() - b2,
            {
                let mut k2: usize = 0;
                while k2 < table.buckets[b2].row_ids.len()
                    invariant
                        b1 < table.buckets@.len(),
                        k1 < table.buckets@[b1 as int].row_ids@.len(),
                        id == table.id_at(b1 as int, k1 as int),
                        b2 < table.buckets@.len(),
                        k2 <= table.buckets@[b2 as int].row_ids@.len(),
                        forall|y2: int| 0 <= y2 < k2 && id == #[trigger] table.id_at(b2 as int, y2) ==> b1 == b2 && k1 == y2,
                        forall|y2: int| 0 <= y2 < k2 && pos_lt(b1 as int, k1 as int, b2 as int, y2)
                            ==> id < #[trigger] table.id_at(b2 as int, y2),
                    decreases table.buckets@[b2 as int].row_ids@.len() - k2,
                {
                    let other = table.buckets[b2].row_ids[k2];
                    if (b1 != b2 || k1 != k2) && other == id {
                        assert(table.loc_ok(b1 as int, k1 as int) && table.loc_ok(b2 as int, k2 as int));
                        assert(table.id_at(b1 as int, k1 as int) == table.id_at(b2 as int, k2 as int));
                        assert(!table.wf());
                        return Err(SanityError::DuplicateRow { component: table.name.duplicate(), row_id: RowId(id) });
                    }
                    if (b1 < b2 || (b1 == b2 && k1 < k2)) && other <= id {
                        assert(table.loc_ok(b1 as int, k1 as int) && table.loc_ok(b2 as int, k2 as int));
                        assert(pos_lt(b1 as int, k1 as int, b2 as int, k2 as int));
                        assert(table.id_at(b2 as int, k2 as int) == other);
                        assert(!(table.id_at(b1 as int, k1 as int) < table.id_at(b2 as int, k2 as int)));
                        assert(!table.ascending_ids());
                        return Err(SanityError::UnorderedRows { component: table.name.duplicate(), bucket: b2, offset: k2 });
                    }
                    k2 = k2 + 1;
                }
                b2 = b2 + 1;
            }
            k1 = k1 + 1;
        }
        b1 = b1 + 1;
    }
    Ok(())
}

fn check_bucket(index: &IndexTable, bucket: &IndexBucket, num_rows: usize) -> (r: Result<(), SanityError>)
    ensures
        r is Ok <==> bucket.wf() && forall|k: int| 0 <= k < bucket.entries@.len() ==> (#[trigger] bucket.entries@[k]).row_id < num_rows,
{
    let n = bucket.entries.len();
    let mut i: usize = 0;
    while i < n
        invariant
            n == bucket.entries@.len(),
            i <= n,
            forall|k: int| 0 <= k < i ==> (#[trigger] bucket.entries@[k]).row_id < num_rows,
            forall|a: int, b: int| 0 <= a < i && 0 <= b < n && a != b
                ==> (#[trigger] bucket.entries@[a]).row_id != (#[trigger] bucket.entries@[b]).row_id,
            bucket.sorted ==> forall|a: int, b: int| 0 <= a < i && a < b < n
                ==> entry_lt(#[trigger] bucket.entries@[a], #[trigger] bucket.entries@[b]),
        decreases n - i,
    {
        let e = bucket.entries[i];
        if e.row_id >= num_rows as u64 {
            return Err(SanityError::IndexUnknownRow {
                ent_path: index.ent_path.duplicate(),
                timeline: index.timeline.duplicate(),
                offset: i,
            });
        }
        let mut j: usize = 0;
        while j < n
            invariant
                n == bucket.entries@.len(),
                i < n,
                e == bucket.entries@[i as int],
                j <= n,
                forall|b: int| 0 <= b < j && b != i ==> e.row_id != (#[trigger] bucket.entries@[b]).row_id,
                bucket.sorted ==> forall|b: int| i < b < j ==> entry_lt(e, #[trigger] bucket.entries@[b]),
            decreases n - j,
        {
            let f = bucket.entries[j];
            if j != i && f.row_id == e.row_id {
                return Err(SanityError::IndexDuplicateRow {
                    ent_path: index.ent_path.duplicate(),
                    timeline: index.timeline.duplicate(),
                    row_id: RowId(e.row_id),
                });
            }
            if bucket.sorted && j > i && !entry_less(e, f) {
                return Err(SanityError::UnsortedIndex {
                    ent_path: index.ent_path.duplicate(),
                    timeline: index.timeline.duplicate(),
                    offset: j,
                });
            }
            j = j + 1;
        }
        proof {
            assert forall|a: int, b: int| 0 <= a < i + 1 && 0 <= b < n && a != b
                implies (#[trigger] bucket.entries@[a]).row_id != (#[trigger] bucket.entries@[b]).row_id by {
                if a < i {
                } else {
                    assert(a == i);
                }
            }
        }
        i = i + 1;
    }
    proof {
        assert forall|a: int, b: int| 0 <= a < n && 0 <= b < n && a != b
            implies (#[trigger] bucket.entries@[a]).row_id != (#[trigger] bucket.entries@[b]).row_id by {
        }
    }
    Ok(())
}

fn check_index(index: &IndexTable, num_rows: usize) -> (r: Result<(), SanityError>)
    ensures
        r is Ok <==> index.wf() && index.ids_below(num_rows as nat),
{
    if index.buckets.len() == 0 {
        return Err(SanityError::EmptyIndex { ent_path: index.ent_path.duplicate(), timeline: index.timeline.duplicate() });
    }
    let mut b: usize = 0;
    while b < index.buckets.len()
        invariant
            b <= index.buckets@.len(),
            forall|b2: int| 0 <= b2 < b ==> (#[trigger] index.buckets@[b2]).wf(),
            forall|b2: int, k: int| 0 <= b2 < b && index.loc_ok(b2, k) ==> (#[trigger] index.entry_at(b2, k)).row_id < num_rows,
        decreases index.buckets.len() - b,
    {
        match check_bucket(index, &index.buckets[b], num_rows) {
            Err(e) => {
                proof {
                    if index.buckets@[b as int].wf() {
                        let k = choose|k: int| 0 <= k < index.buckets@[b as int].entries@.len()
                            && !((#[trigger] index.buckets@[b as int].entries@[k]).row_id < num_rows);
                        assert(index.loc_ok(b as int, k));
                        assert(index.entry_at(b as int, k) == index.buckets@[b as int].entries@[k]);
                        assert(!index.ids_below(num_rows as nat));
                    }
                }
                return Err(e);
            },
            Ok(()) => {},
        }
        proof {
            assert forall|b2: int, k: int| 0 <= b2 < b + 1 && index.loc_ok(b2, k) implies (#[trigger] index.entry_at(b2, k)).row_id < num_rows by {
                if b2 == b {
                    assert(index.buckets@[b as int].entries@[k] == index.entry_at(b2, k));
                }
            }
        }
        b = b + 1;
    }
    let mut b1: usize = 0;
    while b1 < index.buckets.len()
        invariant
            b1 <= index.buckets@.len(),
            forall|x1: int, y1: int, x2: int, y2: int| 0 <= x1 < b1 && index.loc_ok(x1, y1) && index.loc_ok(x2, y2) && x1 != x2
                ==> (#[trigger] index.entry_at(x1, y1)).row_id != (#[trigger] index.entry_at(x2, y2)).row_id,
            forall|x1: int, y1: int, x2: int, y2: int| 0 <= x1 < b1 && index.loc_ok(x1, y1) && index.loc_ok(x2, y2) && x1 < x2
                ==> (#[trigger] index.entry_at(x1, y1)).time < (#[trigger] index.entry_at(x2, y2)).time,
            forall|x1: int, y1: int, x2: int, y2: int| 0 <= x2 < b1 && index.loc_ok(x1, y1) && index.loc_ok(x2, y2) && x1 != x2
                ==> (#[trigger] index.entry_at(x1, y1)).row_id != (#[trigger] index.entry_at(x2, y2)).row_id,
        decreases index.buckets.len() - b1,
    {
        let mut k1: usize = 0;
        while k1 < index.buckets[b1].entries.len()
            invariant
                b1 < index.buckets@.len(),
                k1 <= index.buckets@[b1 as int].entries@.len(),
                forall|x1: int, y1: int, x2: int, y2: int| 0 <= x1 < b1 && index.loc_ok(x1, y1) && index.loc_ok(x2, y2) && x1 != x2
                    ==> (#[trigger] index.entry_at(x1, y1)).row_id != (#[trigger] index.entry_at(x2, y2)).row_id,
                forall|x1: int, y1: int, x2: int, y2: int| 0 <= x1 < b1 && index.loc_ok(x1, y1) && index.loc_ok(x2, y2) && x1 < x2
                    ==> (#[trigger] index.entry_at(x1, y1)).time < (#[trigger] index.entry_at(x2, y2)).time,
                forall|x1: int, y1: int, x2: int, y2: int| 0 <= x2 < b1 && index.loc_ok(x1, y1) && index.loc_ok(x2, y2) && x1 != x2
                    ==> (#[trigger] index.entry_at(x1, y1)).row_id != (#[trigger] index.entry_at(x2, y2)).row_id,
                forall|y1: int, x2: int, y2: int| 0 <= y1 < k1 && index.loc_ok(x2, y2) && x2 != b1
                    ==> (#[trigger] index.entry_at(b1 as int, y1)).row_id != (#[trigger] index.entry_at(x2, y2)).row_id,
                forall|y1: int, x2: int, y2: int| 0 <= y1 < k1 && index.loc_ok(x2, y2) && b1 < x2
                    ==> (#[trigger] index.entry_at(b1 as int, y1)).time < (#[trigger] index.entry_at(x2, y2)).time,
            decreases index.buckets@[b1 as int].entries@.len() - k1,
        {
            let e = index.buckets[b1].entries[k1];
            let mut b2: usize = 0;
            while b2 < index.buckets.len()
                invariant
                    b1 < index.buckets@.len(),
                    k1 < index.buckets@[b1 as int].entries@.len(),
                    e == index.entry_at(b1 as int, k1 as int),
                    b2 <= index.buckets@.len(),
                    forall|x2: int, y2: int| 0 <= x2 < b2 && index.loc_ok(x2, y2) && x2 != b1
                        ==> e.row_id != (#[trigger] index.entry_at(x2, y2)).row_id,
                    forall|x2: int, y2: int| 0 <= x2 < b2 && index.loc_ok(x2, y2) && b1 < x2
                        ==> e.time < (#[trigger] index.entry_at(x2, y2)).time,
                decreases index.buckets.len() - b2,
            {
                let mut k2: usize = 0;
                while k2 < index.buckets[b2].entries.len()
                    invariant
                        b1 < index.buckets@.len(),
                        k1 < index.buckets@[b1 as int].entries@.len(),
                        e == index.entry_at(b1 as int, k1 as int),
                        b2 < index.buckets@.len(),
                        k2 <= index.buckets@[b2 as int].entries@.len(),
                        forall|y2: int| 0 <= y2 < k2 && b2 != b1 ==> e.row_id != (#[trigger] index.entry_at(b2 as int, y2)).row_id,
                        forall|y2: int| 0 <= y2 < k2 && b1 < b2 ==> e.time < (#[trigger] index.entry_at(b2 as int, y2)).time,
                    decreases index.buckets@[b2 as int].entries@.len() - k2,
                {
                    let f = index.buckets[b2].entries[k2];
                    if b1 != b2 && f.row_id == e.row_id {
                        assert(index.loc_ok(b1 as int, k1 as int) && index.loc_ok(b2 as int, k2 as int));
                        assert(index.entry_at(b2 as int, k2 as int) == f);
                        return Err(SanityError::IndexDuplicateRow {
                            ent_path: index.ent_path.duplicate(),
                            timeline: index.timeline.duplicate(),
                            row_id: RowId(e.row_id),
                        });
                    }
                    if b1 < b2 && f.time <= e.time {
                        assert(index.loc_ok(b1 as int, k1 as int) && index.loc_ok(b2 as int, k2 as int));
                        assert(index.entry_at(b2 as int, k2 as int) == f);
                        return Err(SanityError::OverlappingBuckets {
                            ent_path: index.ent_path.duplicate(),
                            timeline: index.timeline.duplicate(),
                            bucket: b2,
                        });
                    }
                    k2 = k2 + 1;
                }
                b2 = b2 + 1;
            }
            k1 = k1 + 1;
        }
        b1 = b1 + 1;
    }
    Ok(())
}

impl DataStore {
    fn check_instances(&self) -> (r: Result<(), SanityError>)
        requires
            forall|t: int| 0 <= t < self.components@.len() ==> (#[trigger] self.components@[t]).wf(),
        ensures
            r is Ok <==> self.instances_agree(),
    {
        let mut t: usize = 0;
        while t < self.components.len()
            invariant
                forall|t2: int| 0 <= t2 < self.components@.len() ==> (#[trigger] self.components@[t2]).wf(),
                t <= self.components@.len(),
                forall|t2: int, b: int, k: int| 0 <= t2 < t && #[trigger] self.table_is(t2, self.cluster_key@)
                    && self.components@[t2].loc_ok(b, k) && self.has_metadata(#[trigger] self.components@[t2].id_at(b, k))
                    ==> self.components@[t2].cell_at(b, k).len() == self.metadata_of(self.components@[t2].id_at(b, k)).num_instances,
            decreases self.components.len() - t,
        {
            if self.components[t].name.same_as(&self.cluster_key) {
                let table = &self.components[t];
                proof {
                    assert(table.wf());
                }
                let mut b: usize = 0;
                while b < table.buckets.len()
                    invariant
                        *table == self.components@[t as int],
                        table.wf(),
                        self.table_is(t as int, self.cluster_key@),
                        b <= table.buckets@.len(),
                        forall|b2: int, k: int| 0 <= b2 < b && table.loc_ok(b2, k) && self.has_metadata(#[trigger] table.id_at(b2, k))
                            ==> table.cell_at(b2, k).len() == self.metadata_of(table.id_at(b2, k)).num_instances,
                    decreases table.buckets.len() - b,
                {
                    let bucket = &table.buckets[b];
                    proof {
                        assert(bucket.row_ids@.len() == bucket.data@.len());
                    }
                    let mut k: usize = 0;
                    while k < bucket.row_ids.len()
                        invariant
                            *table == self.components@[t as int],
                            b < table.buckets@.len(),
                            *bucket == table.buckets@[b as int],
                            bucket.row_ids@.len() == bucket.data@.len(),
                            self.table_is(t as int, self.cluster_key@),
                            k <= bucket.row_ids@.len(),
                            forall|k2: int| 0 <= k2 < k && self.has_metadata(#[trigger] table.id_at(b as int, k2))
                                ==> table.cell_at(b as int, k2).len() == self.metadata_of(table.id_at(b as int, k2)).num_instances,
                        decreases bucket.row_ids.len() - k,
                    {
                        let id = bucket.row_ids[k];
                        if id < self.metadata.len() as u64 {
                            if let Some(m) = &self.metadata[id as usize] {
                                let found = bucket.data[k].len();
                                if found != m.num_instances as usize {
                                    proof {
                                        assert(table.loc_ok(b as int, k as int) && table.id_at(b as int, k as int) == id);
                                        assert(table.holds(id, table.cell_at(b as int, k as int)));
                                        assert(self.holds(self.cluster_key@, id, table.cell_at(b as int, k as int)));
                                        assert(self.has_metadata(id));
                                    }
                                    return Err(SanityError::InstanceCountMismatch {
                                        row_id: RowId(id),
                                        expected: m.num_instances,
                                        found,
                                    });
                                }
                            }
                        }
                        k = k + 1;
                    }
                    b = b + 1;
                }
            }
            t = t + 1;
        }
        proof {
            assert forall|r: u64, v: Seq<Option<u64>>| #[trigger] self.holds(self.cluster_key@, r, v) && self.has_metadata(r)
                implies v.len() == self.metadata_of(r).num_instances by {
                let t2 = choose|t2: int| #[trigger] self.table_is(t2, self.cluster_key@) && self.components@[t2].holds(r, v);
                let (b, k) = choose|b: int, k: int| self.components@[t2].loc_ok(b, k)
                    && #[trigger] self.components@[t2].id_at(b, k) == r && self.components@[t2].cell_at(b, k) == v;
            }
        }
        Ok(())
    }

    /// Checks every invariant of the store; `Ok` exactly when all hold.
    pub fn sanity_check(&self) -> (r: Result<(), SanityError>)
        ensures
            r is Ok <==> self.wf(),
    {
        let num_rows = self.metadata.len();
        let one_row = self.config.component_bucket_nb_rows == 0;
        let mut t: usize = 0;
        while t < self.components.len()
            invariant
                num_rows == self.num_rows(),
                one_row == (self.config.component_bucket_nb_rows == 0),
                t <= self.components@.len(),
                forall|t2: int| 0 <= t2 < t ==> {
                    &&& (#[trigger] self.components@[t2]).wf()
                    &&& self.components@[t2].ids_below(self.num_rows())
                    &&& one_row ==> self.components@[t2].single_rows()
                },
            decreases self.components.len() - t,
        {
            match check_table(&self.components[t], num_rows, one_row) {
                Err(e) => {
                    return Err(e);
                },
                Ok(()) => {},
            }
            t = t + 1;
        }
        let mut t1: usize = 0;
        while t1 < self.components.len()
            invariant
                t1 <= self.components@.len(),
                forall|a: int, b: int| 0 <= a < t1 && 0 <= b < self.components@.len() && a != b
                    ==> (#[trigger] self.components@[a]).name@ != (#[trigger] self.components@[b]).name@,
            decreases self.components.len() - t1,
        {
            let mut t2: usize = 0;
            while t2 < self.components.len()
                invariant
                    t1 < self.components@.len(),
                    t2 <= self.components@.len(),
                    forall|b: int| 0 <= b < t2 && b != t1
                        ==> self.components@[t1 as int].name@ != (#[trigger] self.components@[b]).name@,
                decreases self.components.len() - t2,
            {
                if t1 != t2 && self.components[t1].name.same_as(&self.components[t2].name) {
                    return Err(SanityError::DuplicateTable { component: self.components[t1].name.duplicate() });
                }
                t2 = t2 + 1;
            }
            proof {
                assert forall|a: int, b: int| 0 <= a < t1 + 1 && 0 <= b < self.components@.len() && a != b
                    implies (#[trigger] self.components@[a]).name@ != (#[trigger] self.components@[b]).name@ by {
                    if a == t1 {
                        assert(self.components@[t1 as int].name@ != self.components@[b].name@);
                    }
                }
            }
            t1 = t1 + 1;
        }
        let mut t: usize = 0;
        while t < self.indices.len()
            invariant
                num_rows == self.num_rows(),
                t <= self.indices@.len(),
                forall|t2: int| 0 <= t2 < t ==> {
                    &&& (#[trigger] self.indices@[t2]).wf()
                    &&& self.indices@[t2].ids_below(self.num_rows())
                },
            decreases self.indices.len() - t,
        {
            match check_index(&self.indices[t], num_rows) {
                Err(e) => {
                    return Err(e);
                },
                Ok(()) => {},
            }
            t = t + 1;
        }
        let mut t1: usize = 0;
        while t1 < self.indices.len()
            invariant
                t1 <= self.indices@.len(),
                forall|a: int, b: int| 0 <= a < t1 && 0 <= b < self.indices@.len() && a != b
                    ==> !((#[trigger] self.indices@[a]).ent_path@ == (#[trigger] self.indices@[b]).ent_path@
                        && self.indices@[a].timeline@ == self.indices@[b].timeline@),
            decreases self.indices.len() - t1,
        {
            let mut t2: usize = 0;
            while t2 < self.indices.len()
                invariant
                    t1 < self.indices@.len(),
                    t2 <= self.indices@.len(),
                    forall|b: int| 0 <= b < t2 && b != t1
                        ==> !(self.indices@[t1 as int].ent_path@ == (#[trigger] self.indices@[b]).ent_path@
                            && self.indices@[t1 as int].timeline@ == self.indices@[b].timeline@),
                decreases self.indices.len() - t2,
            {
                if t1 != t2 && self.indices[t1].ent_path.same_as(&self.indices[t2].ent_path)
                    && self.indices[t1].timeline.same_as(&self.indices[t2].timeline) {
                    return Err(SanityError::DuplicateIndex {
                        ent_path: self.indices[t1].ent_path.duplicate(),
                        timeline: self.indices[t1].timeline.duplicate(),
                    });
                }
                t2 = t2 + 1;
            }
            proof {
                assert forall|a: int, b: int| 0 <= a < t1 + 1 && 0 <= b < self.indices@.len() && a != b
                    implies !((#[trigger] self.indices@[a]).ent_path@ == (#[trigger] self.indices@[b]).ent_path@
                        && self.indices@[a].timeline@ == self.indices@[b].timeline@) by {
                    if a == t1 {
                        assert(!(self.indices@[t1 as int].ent_path@ == self.indices@[b].ent_path@
                            && self.indices@[t1 as int].timeline@ == self.indices@[b].timeline@));
                    }
                }
            }
            t1 = t1 + 1;
        }
        self.check_instances()
    }
}

} // verus!
