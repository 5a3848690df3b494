//! What the store's operations guarantee together, proved from their contracts.
use vstd::prelude::*;

use crate::component::{ComponentBucket, ComponentTable, rows_in};
use crate::index::{IndexEntry, entry_le, entry_lt};
use crate::row::{RowView, distinct_timelines};
use crate::types::{ComponentName, RowId, TimelineView};
use super::{DataStore, tables_rows};
use super::gc::{GarbageCollectionTarget, clear_post, gc_post};
use super::latest::upto_time;
use super::range::{RangeItem, item_entry, range_post};
use super::write::{has_name_before, has_time_before, insert_post};

verus! {

impl DataStore {
    /// Every index entry refers to a row the store accepted.
    proof fn lemma_indexed_below(&self)
        requires
            self.wf(),
        ensures
            forall|ent: Seq<char>, tl: TimelineView, e: IndexEntry| #[trigger] self.indexed(ent, tl, e) ==> e.row_id < self.num_rows(),
    {
        assert forall|ent: Seq<char>, tl: TimelineView, e: IndexEntry| #[trigger] self.indexed(ent, tl, e) implies e.row_id < self.num_rows() by {
            let t = choose|t: int| #[trigger] self.index_is(t, ent, tl) && self.indices@[t].has(e);
            let (b, k) = choose|b: int, k: int| self.indices@[t].loc_ok(b, k) && #[trigger] self.indices@[t].entry_at(b, k) == e;
            assert(self.indices@[t].ids_below(self.num_rows()));
        }
    }

    /// A component holds at most one cell per row.
    pub proof fn lemma_holds_unique(&self, c: Seq<char>, r: u64, v1: Seq<Option<u64>>, v2: Seq<Option<u64>>)
        requires
            self.wf(),
            self.holds(c, r, v1),
            self.holds(c, r, v2),
        ensures
            v1 == v2,
    {
        let t1 = choose|t: int| #[trigger] self.table_is(t, c) && self.components@[t].holds(r, v1);
        let t2 = choose|t: int| #[trigger] self.table_is(t, c) && self.components@[t].holds(r, v2);
        if t1 != t2 {
            assert(self.components@[t1].name@ != self.components@[t2].name@);
        }
        assert(self.components@[t1].wf());
        self.components@[t1].lemma_holds_unique(r, v1, v2);
    }

    /// A store where every bucket takes one row and only the newest bucket of each
    /// component is left holds one cell per component.
    proof fn lemma_settled_rows(&self)
        requires
            self.wf(),
            self.one_row_buckets(),
            self.settled(),
        ensures
            self.total_rows() == self.num_components(),
    {
        lemma_tables_rows_single(self.components@);
    }
}

proof fn lemma_tables_rows_single(tables: Seq<ComponentTable>)
    requires
        forall|t: int| 0 <= t < tables.len() ==> (#[trigger] tables[t]).buckets@.len() == 1 && tables[t].single_rows(),
    ensures
        tables_rows(tables) == tables.len(),
    decreases tables.len(),
{
    if tables.len() > 0 {
        let last = tables.last();
        assert(tables[tables.len() - 1] == last);
        assert(last.buckets@.len() == 1 && last.single_rows());
        assert(last.buckets@.drop_last() =~= Seq::<ComponentBucket>::empty());
        assert(last.buckets@[0].row_ids@.len() == 1);
        assert(rows_in(last.buckets@) == rows_in(last.buckets@.drop_last()) + last.buckets@.last().row_ids@.len());
        assert forall|t: int| 0 <= t < tables.drop_last().len() implies (#[trigger] tables.drop_last()[t]).buckets@.len() == 1
            && tables.drop_last()[t].single_rows() by {
            assert(tables.drop_last()[t] == tables[t]);
        }
        lemma_tables_rows_single(tables.drop_last());
    }
}

/// Right after a row is stored, a latest-at lookup at any of its time points finds
/// it for each of its components, the instance keys included, and the cells stored
/// for it are the row's own.
pub proof fn law_latest_at_finds_new_row(s0: DataStore, s1: DataStore, row: RowView, id: u64, k: int, c: Seq<char>)
    requires
        s0.wf(),
        insert_post(s0, s1, row, id),
        0 <= k < row.timepoint.len(),
        c == s0.cluster() || has_name_before(row.cells, row.cells.len() as int, c),
    ensures
        s1.has_candidate(row.ent_path, row.timepoint[k].0, upto_time(row.timepoint[k].1), s1.cluster()),
        s1.is_latest(row.ent_path, row.timepoint[k].0, upto_time(row.timepoint[k].1), c,
            IndexEntry { time: row.timepoint[k].1, row_id: id }),
        forall|j: int, v: Seq<Option<u64>>| 0 <= j < row.cells.len() && row.cells[j].0 == c && #[trigger] s1.holds(c, id, v)
            ==> v == #[trigger] row.cells[j].1,
{
    let tl = row.timepoint[k].0;
    let t = row.timepoint[k].1;
    let e = IndexEntry { time: t, row_id: id };
    let bound = upto_time(t);
    assert(has_time_before(row.timepoint, row.timepoint.len() as int, tl, t)) by {
        assert(row.timepoint[k] == (tl, t));
    }
    assert(s1.indexed(row.ent_path, tl, e));
    assert(s1.live(s1.cluster(), id));
    assert(s1.live(c, id));
    s1.lemma_indexed_below();
    assert forall|e2: IndexEntry| #[trigger] s1.indexed(row.ent_path, tl, e2) && entry_le(e2, bound) && s1.live(c, e2.row_id)
        implies entry_le(e2, e) by {
        assert(e2.row_id < s1.num_rows());
    }
    assert forall|j: int, v: Seq<Option<u64>>| 0 <= j < row.cells.len() && row.cells[j].0 == c && #[trigger] s1.holds(c, id, v)
        implies v == #[trigger] row.cells[j].1 by {
        assert(s1.holds(row.cells[j].0, id, row.cells[j].1));
        s1.lemma_holds_unique(c, id, v, row.cells[j].1);
    }
}

/// Storing the same row twice gives two rows with their own ids; a range over a
/// time of the row emits both, each joined with its own cells.
pub proof fn law_same_row_twice(
    s0: DataStore,
    s1: DataStore,
    s2: DataStore,
    row: RowView,
    id1: u64,
    id2: u64,
    k: int,
    lo: i64,
    hi: i64,
    primary: Seq<char>,
    c: Seq<char>,
)
    requires
        s0.wf(),
        insert_post(s0, s1, row, id1),
        insert_post(s1, s2, row, id2),
        0 <= k < row.timepoint.len(),
        lo <= row.timepoint[k].1 <= hi,
        primary == s0.cluster() || has_name_before(row.cells, row.cells.len() as int, primary),
        c == s0.cluster() || has_name_before(row.cells, row.cells.len() as int, c),
    ensures
        id1 != id2,
        s2.emits(row.ent_path, row.timepoint[k].0, lo, hi, primary, IndexEntry { time: row.timepoint[k].1, row_id: id1 }),
        s2.emits(row.ent_path, row.timepoint[k].0, lo, hi, primary, IndexEntry { time: row.timepoint[k].1, row_id: id2 }),
        s2.is_latest(row.ent_path, row.timepoint[k].0, IndexEntry { time: row.timepoint[k].1, row_id: id1 }, c,
            IndexEntry { time: row.timepoint[k].1, row_id: id1 }),
        s2.is_latest(row.ent_path, row.timepoint[k].0, IndexEntry { time: row.timepoint[k].1, row_id: id2 }, c,
            IndexEntry { time: row.timepoint[k].1, row_id: id2 }),
{
    let tl = row.timepoint[k].0;
    let t = row.timepoint[k].1;
    let e1 = IndexEntry { time: t, row_id: id1 };
    let e2 = IndexEntry { time: t, row_id: id2 };
    assert(has_time_before(row.timepoint, row.timepoint.len() as int, tl, t)) by {
        assert(row.timepoint[k] == (tl, t));
    }
    assert(s1.indexed(row.ent_path, tl, e1));
    assert(s2.indexed(row.ent_path, tl, e1));
    assert(s2.indexed(row.ent_path, tl, e2));
    assert(s1.live(primary, id1));
    assert(s2.live(primary, id1));
    assert(s2.live(primary, id2));
    assert(s1.live(c, id1));
    assert(s2.live(c, id1));
    assert(s2.live(c, id2));
}

/// A full collection leaves nothing that a later collection could evict, even after
/// the metadata of the evicted rows is cleared.
pub proof fn law_second_gc_is_empty(
    s0: DataStore,
    s1: DataStore,
    res1: Seq<Vec<RowId>>,
    pct: u64,
    s2: DataStore,
    ids: Seq<RowId>,
    s3: DataStore,
    target: GarbageCollectionTarget,
    res3: Seq<Vec<RowId>>,
    primary: Seq<char>,
)
    requires
        s0.wf(),
        pct >= 100,
        gc_post(s0, s1, GarbageCollectionTarget::DropAtLeastPercentage(pct), primary, res1),
        clear_post(s1, s2, ids),
        gc_post(s2, s3, target, primary, res3),
    ensures
        res3.len() == 0,
{
    s2.lemma_same_cells(&s1);
}

/// When each bucket takes one row, a full collection leaves one cell per component.
pub proof fn law_full_gc_leaves_one_cell_per_component(
    s0: DataStore,
    s1: DataStore,
    res: Seq<Vec<RowId>>,
    pct: u64,
    primary: Seq<char>,
)
    requires
        s0.wf(),
        s0.one_row_buckets(),
        pct >= 100,
        gc_post(s0, s1, GarbageCollectionTarget::DropAtLeastPercentage(pct), primary, res),
    ensures
        s1.total_rows() == s1.num_components(),
{
    s1.lemma_settled_rows();
}

/// A range over all of time, on an entity that had no row on that timeline, returns
/// the one row just stored, with the row's own cells.
pub proof fn law_range_over_single_row(
    s0: DataStore,
    s1: DataStore,
    row: RowView,
    id: u64,
    k: int,
    primary: Seq<char>,
    components: Seq<ComponentName>,
    s2: DataStore,
    res: Seq<RangeItem>,
)
    requires
        s0.wf(),
        distinct_timelines(row.timepoint),
        !s0.has_index(row.ent_path, row.timepoint[k].0),
        insert_post(s0, s1, row, id),
        0 <= k < row.timepoint.len(),
        primary == s0.cluster() || has_name_before(row.cells, row.cells.len() as int, primary),
        range_post(s1, s2, row.ent_path, row.timepoint[k].0, i64::MIN, i64::MAX, primary, components, res),
    ensures
        res.len() == 1,
        item_entry(res[0]) == (IndexEntry { time: row.timepoint[k].1, row_id: id }),
        forall|j: int, q: int| 0 <= j < components.len() && 0 <= q < row.cells.len() && row.cells[q].0 == components[j]@
            ==> ((#[trigger] res[0].2@[j]) matches Some(cell) && cell@ == #[trigger] row.cells[q]),
{
    let tl = row.timepoint[k].0;
    let t = row.timepoint[k].1;
    let e = IndexEntry { time: t, row_id: id };
    s2.lemma_same_data(&s1);
    assert(has_time_before(row.timepoint, row.timepoint.len() as int, tl, t)) by {
        assert(row.timepoint[k] == (tl, t));
    }
    assert(!s0.indexed(row.ent_path, tl, e)) by {
        if s0.indexed(row.ent_path, tl, e) {
            let t0 = choose|t0: int| #[trigger] s0.index_is(t0, row.ent_path, tl) && s0.indices@[t0].has(e);
        }
    }
    // The entity's index on this timeline holds exactly this row.
    assert forall|x: IndexEntry| #[trigger] s2.indexed(row.ent_path, tl, x) implies x == e by {
        assert(s1.indexed(row.ent_path, tl, x));
        if !s0.indexed(row.ent_path, tl, x) {
            let j = choose|j: int| 0 <= j < row.timepoint.len() && #[trigger] row.timepoint[j] == (tl, x.time);
            if j != k {
                assert(row.timepoint[j].0 != row.timepoint[k].0);
            }
        } else {
            let t0 = choose|t0: int| #[trigger] s0.index_is(t0, row.ent_path, tl) && s0.indices@[t0].has(x);
        }
    }
    assert(s2.indexed(row.ent_path, tl, e));
    assert(s2.live(primary, id));
    assert(s2.emits(row.ent_path, tl, i64::MIN, i64::MAX, primary, e));
    let m = choose|m: int| 0 <= m < res.len() && item_entry(#[trigger] res[m]) == e;
    assert forall|m2: int| 0 <= m2 < res.len() implies #[trigger] item_entry(res[m2]) == e && m2 == m by {
        assert(s2.emits(row.ent_path, tl, i64::MIN, i64::MAX, primary, item_entry(res[m2])));
        if m2 < m {
            assert(entry_lt(item_entry(res[m2]), item_entry(res[m])));
        } else if m2 > m {
            assert(entry_lt(item_entry(res[m]), item_entry(res[m2])));
        }
    }
    assert(res.len() == 1) by {
        if res.len() > 1 {
            assert(item_entry(res[0]) == e);
            assert(item_entry(res[1]) == e);
        }
    }
    assert forall|j: int, q: int| 0 <= j < components.len() && 0 <= q < row.cells.len() && row.cells[q].0 == components[j]@
        implies ((#[trigger] res[0].2@[j]) matches Some(cell) && cell@ == #[trigger] row.cells[q]) by {
        let c = components[j]@;
        assert(has_name_before(row.cells, row.cells.len() as int, c));
        assert(s1.live(c, id));
        assert(s2.live(c, id));
        assert(s2.joined_cell(row.ent_path, tl, item_entry(res[0]), c, res[0].2@[j]));
        assert(s2.has_candidate(row.ent_path, tl, e, c));
        let cell = res[0].2@[j].unwrap();
        let w = choose|w: IndexEntry| #[trigger] s2.is_latest(row.ent_path, tl, e, c, w) && s2.holds(c, w.row_id, cell@.1);
        assert(w == e);
        assert(s1.holds(row.cells[q].0, id, row.cells[q].1));
        assert(s2.holds(c, id, row.cells[q].1));
        s2.lemma_holds_unique(c, id, cell@.1, row.cells[q].1);
    }
}

} // verus!
