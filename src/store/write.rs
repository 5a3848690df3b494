//! Storing rows: validation, ids, index entries, cells and metadata.
use vstd::prelude::*;

use crate::component::ComponentTable;
use crate::index::{IndexEntry, IndexTable};
use crate::row::{
    DataRow, RowCheck, RowView, WriteError, auto_instance_keys, check_of, check_row, copy_values, length_fits,
    timepoint_view, validate_row,
};
use crate::types::{ComponentName, EntityPath, RowId, TimeInt, Timeline, TimelineView};
use super::{DataStore, RowMetadata, lemma_agree_frame, lemma_agree_frame_one, lemma_same_components, lemma_same_indices, lemma_tables_rows_update};

verus! {

impl DataStore {
    /// How many entries an index bucket takes before a later time starts a new one.
    fn index_capacity(&self) -> (r: usize) {
        let by_bytes = self.config.index_bucket_size_bytes / 16;
        let cap = if self.config.index_bucket_nb_rows < by_bytes { self.config.index_bucket_nb_rows } else { by_bytes };
        if cap > usize::MAX as u64 {
            usize::MAX
        } else {
            cap as usize
        }
    }

    /// Records `e` in the index of `ent` on `tl`, creating the index if needed.
    fn index_row(&mut self, ent: &EntityPath, tl: &Timeline, e: IndexEntry)
        requires
            old(self).wf(),
            e.row_id < old(self).num_rows(),
            forall|t: int| #[trigger] old(self).index_is(t, ent@, tl@) ==> old(self).indices@[t].ids_below(e.row_id as nat),
        ensures
            final(self).wf(),
            final(self).components == old(self).components,
            final(self).metadata == old(self).metadata,
            final(self).cluster_key == old(self).cluster_key,
            final(self).config == old(self).config,
            final(self).indices@.len() >= old(self).indices@.len(),
            forall|t: int| 0 <= t < old(self).indices@.len() && !old(self).index_is(t, ent@, tl@)
                ==> final(self).indices@[t] == #[trigger] old(self).indices@[t],
            forall|t: int| 0 <= t < old(self).indices@.len() ==> (#[trigger] final(self).indices@[t]).ent_path
                == old(self).indices@[t].ent_path && final(self).indices@[t].timeline == old(self).indices@[t].timeline,
            forall|t: int| old(self).indices@.len() <= t < final(self).indices@.len()
                ==> #[trigger] final(self).index_is(t, ent@, tl@),
            forall|ent2: Seq<char>, tl2: TimelineView, e2: IndexEntry|
                final(self).indexed(ent2, tl2, e2) <==> (old(self).indexed(ent2, tl2, e2) || (ent2 == ent@ && tl2 == tl@ && e2 == e)),
            forall|ent2: Seq<char>, tl2: TimelineView|
                final(self).has_index(ent2, tl2) <==> (old(self).has_index(ent2, tl2) || (ent2 == ent@ && tl2 == tl@)),
    {
        let ghost before = *self;
        let t = match self.find_index(ent, tl) {
            Some(t) => t,
            None => {
                let table = IndexTable::new(ent.duplicate(), tl.duplicate());
                self.indices.push(table);
                proof {
                    let n = before.indices@.len() as int;
                    assert(self.index_is(n, ent@, tl@));
                    assert(self.indices@[n].ids_below(e.row_id as nat));
                    assert forall|t1: int, t2: int| 0 <= t1 < self.indices@.len() && 0 <= t2 < self.indices@.len() && t1 != t2
                        implies !((#[trigger] self.indices@[t1]).ent_path@ == (#[trigger] self.indices@[t2]).ent_path@
                            && self.indices@[t1].timeline@ == self.indices@[t2].timeline@) by {
                        if t1 == n {
                            assert(!before.index_is(t2, ent@, tl@));
                        } else if t2 == n {
                            assert(!before.index_is(t1, ent@, tl@));
                        }
                    }
                    assert forall|ent2: Seq<char>, tl2: TimelineView, e2: IndexEntry|
                        self.indexed(ent2, tl2, e2) == before.indexed(ent2, tl2, e2) by {
                        if self.indexed(ent2, tl2, e2) {
                            let t2 = choose|t2: int| #[trigger] self.index_is(t2, ent2, tl2) && self.indices@[t2].has(e2);
                            if t2 == n {
                                let (b, k) = choose|b: int, k: int| self.indices@[t2].loc_ok(b, k) && #[trigger] self.indices@[t2].entry_at(b, k) == e2;
                            }
                            assert(before.index_is(t2, ent2, tl2));
                        }
                        if before.indexed(ent2, tl2, e2) {
                            let t2 = choose|t2: int| #[trigger] before.index_is(t2, ent2, tl2) && before.indices@[t2].has(e2);
                            assert(self.index_is(t2, ent2, tl2));
                        }
                    }
                    assert forall|ent2: Seq<char>, tl2: TimelineView|
                        self.has_index(ent2, tl2) == (before.has_index(ent2, tl2) || (ent2 == ent@ && tl2 == tl@)) by {
                        if self.has_index(ent2, tl2) {
                            let t2 = choose|t2: int| #[trigger] self.index_is(t2, ent2, tl2);
                            if t2 < n {
                                assert(before.index_is(t2, ent2, tl2));
                            }
                        }
                        if before.has_index(ent2, tl2) {
                            let t2 = choose|t2: int| #[trigger] before.index_is(t2, ent2, tl2);
                            assert(self.index_is(t2, ent2, tl2));
                        }
                    }
                }
                self.indices.len() - 1
            },
        };
        let ghost mid = *self;
        proof {
            assert(mid.index_is(t as int, ent@, tl@));
            assert(mid.has_index(ent@, tl@));
            assert(mid.indices@[t as int].ids_below(e.row_id as nat)) by {
                if (t as int) < before.indices@.len() {
                    assert(before.index_is(t as int, ent@, tl@));
                }
            }
        }
        let cap = self.index_capacity();
        self.indices[t].push(e, cap);
        proof {
            assert(self.indices@ == mid.indices@.update(t as int, self.indices@[t as int]));
            assert forall|ent2: Seq<char>, tl2: TimelineView, e2: IndexEntry|
                self.indexed(ent2, tl2, e2) <==> (mid.indexed(ent2, tl2, e2) || (ent2 == ent@ && tl2 == tl@ && e2 == e)) by {
                if self.indexed(ent2, tl2, e2) {
                    let t2 = choose|t2: int| #[trigger] self.index_is(t2, ent2, tl2) && self.indices@[t2].has(e2);
                    assert(mid.index_is(t2, ent2, tl2));
                }
                if mid.indexed(ent2, tl2, e2) {
                    let t2 = choose|t2: int| #[trigger] mid.index_is(t2, ent2, tl2) && mid.indices@[t2].has(e2);
                    assert(self.index_is(t2, ent2, tl2));
                }
                if ent2 == ent@ && tl2 == tl@ && e2 == e {
                    assert(self.index_is(t as int, ent2, tl2));
                    assert(self.indices@[t as int].has(e2));
                }
            }
            assert forall|ent2: Seq<char>, tl2: TimelineView| self.has_index(ent2, tl2) == mid.has_index(ent2, tl2) by {
                if self.has_index(ent2, tl2) {
                    let t2 = choose|t2: int| #[trigger] self.index_is(t2, ent2, tl2);
                    assert(mid.index_is(t2, ent2, tl2));
                }
                if mid.has_index(ent2, tl2) {
                    let t2 = choose|t2: int| #[trigger] mid.index_is(t2, ent2, tl2);
                    assert(self.index_is(t2, ent2, tl2));
                }
            }
            assert forall|t1: int, t2: int| 0 <= t1 < self.indices@.len() && 0 <= t2 < self.indices@.len() && t1 != t2
                implies !((#[trigger] self.indices@[t1]).ent_path@ == (#[trigger] self.indices@[t2]).ent_path@
                    && self.indices@[t1].timeline@ == self.indices@[t2].timeline@) by {
                assert(mid.indices@[t1].ent_path == self.indices@[t1].ent_path);
                assert(mid.indices@[t2].ent_path == self.indices@[t2].ent_path);
                assert(mid.indices@[t1].timeline == self.indices@[t1].timeline);
                assert(mid.indices@[t2].timeline == self.indices@[t2].timeline);
            }
            assert forall|t2: int| 0 <= t2 < self.indices@.len() implies {
                &&& (#[trigger] self.indices@[t2]).wf()
                &&& self.indices@[t2].ids_below(self.num_rows())
            } by {
                if t2 != t {
                    assert(self.indices@[t2] == mid.indices@[t2]);
                }
            }
            lemma_same_components(*self, before);
            lemma_agree_frame(*self, before);
        }
    }

    /// Stores the cell `v` of component `c` for row `r`, creating the table if needed.
    fn store_cell(&mut self, c: &ComponentName, r: u64, v: Vec<Option<u64>>)
        requires
            old(self).wf(),
            r + 1 == old(self).num_rows(),
            !old(self).live(c@, r),
            c@ == old(self).cluster() && old(self).has_metadata(r) ==> v@.len() == old(self).metadata_of(r).num_instances,
        ensures
            final(self).wf(),
            final(self).indices == old(self).indices,
            final(self).metadata == old(self).metadata,
            final(self).cluster_key == old(self).cluster_key,
            final(self).config == old(self).config,
            final(self).total_rows() == old(self).total_rows() + 1,
            forall|c2: Seq<char>, r2: u64, v2: Seq<Option<u64>>|
                final(self).holds(c2, r2, v2) <==> (old(self).holds(c2, r2, v2) || (c2 == c@ && r2 == r && v2 == v@)),
            forall|c2: Seq<char>, r2: u64|
                final(self).live(c2, r2) <==> (old(self).live(c2, r2) || (c2 == c@ && r2 == r)),
    {
        let ghost before = *self;
        let ghost vv = v@;
        match self.find_table(c) {
            Some(t) => {
                proof {
                    if self.components@[t as int].live(r) {
                        assert(self.table_is(t as int, c@));
                    }
                    let table = self.components@[t as int];
                    assert(table.ids_below(self.num_rows()));
                    assert forall|b: int, k: int| table.loc_ok(b, k) implies #[trigger] table.id_at(b, k) < r by {
                        if table.id_at(b, k) == r {
                            assert(table.live(r));
                        }
                    }
                }
                let max_rows = self.config.component_bucket_nb_rows;
                let max_bytes = self.config.component_bucket_size_bytes;
                self.components[t].append(r, v, max_rows, max_bytes);
                proof {
                    assert(self.components@ == before.components@.update(t as int, self.components@[t as int]));
                    if max_rows == 0 {
                        assert(before.components@[t as int].single_rows());
                    }
                    lemma_tables_rows_update(before.components@, t as int, self.components@[t as int]);
                    self.lemma_frame_one_table(before, t as int, c@, r, vv);
                }
            },
            None => {
                let table = ComponentTable::new(c.duplicate(), r, v);
                self.components.push(table);
                proof {
                    let t = before.components@.len() as int;
                    assert(self.components@ == before.components@.push(table));
                    assert(self.components@.drop_last() =~= before.components@);
                    assert(self.table_is(t, c@));
                    self.lemma_frame_one_table(before, t, c@, r, vv);
                }
            },
        }
    }

    /// `self` is `before` with one table, at `t`, that gained the cell `v` of row `r`.
    proof fn lemma_frame_one_table(&self, before: DataStore, t: int, c: Seq<char>, r: u64, v: Seq<Option<u64>>)
        requires
            before.wf(),
            r < before.num_rows(),
            self.indices == before.indices,
            self.metadata == before.metadata,
            self.config == before.config,
            self.cluster_key == before.cluster_key,
            c == before.cluster_key@ && before.has_metadata(r) ==> v.len() == before.metadata_of(r).num_instances,
            self.config.component_bucket_nb_rows == 0 ==> self.components@[t].single_rows(),
            self.table_is(t, c),
            self.components@.len() == before.components@.len() || (self.components@.len() == before.components@.len() + 1
                && t == before.components@.len() && forall|t2: int| !before.table_is(t2, c)),
            forall|t2: int| 0 <= t2 < before.components@.len() && t2 != t ==> self.components@[t2] == #[trigger] before.components@[t2],
            self.components@.len() == before.components@.len() ==> self.components@[t].name == before.components@[t].name,
            self.components@[t].wf(),
            self.components@[t].ids_below(self.num_rows()),
            forall|r2: u64, v2: Seq<Option<u64>>|
                self.components@[t].holds(r2, v2) <==> ((t < before.components@.len() && before.components@[t].holds(r2, v2)) || (r2 == r && v2 == v)),
            forall|r2: u64| self.components@[t].live(r2) <==> ((t < before.components@.len() && before.components@[t].live(r2)) || r2 == r),
        ensures
            self.wf(),
            forall|c2: Seq<char>, r2: u64, v2: Seq<Option<u64>>|
                self.holds(c2, r2, v2) <==> (before.holds(c2, r2, v2) || (c2 == c && r2 == r && v2 == v)),
            forall|c2: Seq<char>, r2: u64|
                self.live(c2, r2) <==> (before.live(c2, r2) || (c2 == c && r2 == r)),
    {
        assert forall|t2: int| 0 <= t2 < self.components@.len() implies {
            &&& (#[trigger] self.components@[t2]).wf()
            &&& self.components@[t2].ids_below(self.num_rows())
            &&& self.config.component_bucket_nb_rows == 0 ==> self.components@[t2].single_rows()
        } by {
            if t2 != t {
                assert(self.components@[t2] == before.components@[t2]);
            }
        }
        assert forall|c2: Seq<char>, r2: u64, v2: Seq<Option<u64>>|
            self.holds(c2, r2, v2) <==> (before.holds(c2, r2, v2) || (c2 == c && r2 == r && v2 == v)) by {
            if self.holds(c2, r2, v2) {
                let t2 = choose|t2: int| #[trigger] self.table_is(t2, c2) && self.components@[t2].holds(r2, v2);
                if t2 != t {
                    assert(before.table_is(t2, c2));
                } else if t < before.components@.len() && before.components@[t].holds(r2, v2) {
                    assert(before.table_is(t, c2));
                }
            }
            if before.holds(c2, r2, v2) {
                let t2 = choose|t2: int| #[trigger] before.table_is(t2, c2) && before.components@[t2].holds(r2, v2);
                assert(self.table_is(t2, c2));
            }
            if c2 == c && r2 == r && v2 == v {
                assert(self.table_is(t, c2));
            }
        }
        assert forall|c2: Seq<char>, r2: u64| self.live(c2, r2) <==> (before.live(c2, r2) || (c2 == c && r2 == r)) by {
            if self.live(c2, r2) {
                let t2 = choose|t2: int| #[trigger] self.table_is(t2, c2) && self.components@[t2].live(r2);
                if t2 != t {
                    assert(before.table_is(t2, c2));
                } else if t < before.components@.len() && before.components@[t].live(r2) {
                    assert(before.table_is(t, c2));
                }
            }
            if before.live(c2, r2) {
                let t2 = choose|t2: int| #[trigger] before.table_is(t2, c2) && before.components@[t2].live(r2);
                assert(self.table_is(t2, c2));
            }
            if c2 == c && r2 == r {
                assert(self.table_is(t, c2));
            }
        }
        lemma_agree_frame_one(*self, before, c, r, v);
        assert forall|t1: int, t2: int| 0 <= t1 < self.components@.len() && 0 <= t2 < self.components@.len()
            && t1 != t2 implies (#[trigger] self.components@[t1]).name@ != (#[trigger] self.components@[t2]).name@ by {
            if t1 != t && t2 != t {
                assert(before.components@[t1].name@ != before.components@[t2].name@);
            } else if t1 == t {
                if t < before.components@.len() {
                    assert(before.components@[t1].name@ != before.components@[t2].name@);
                } else {
                    assert(!before.table_is(t2, c));
                }
            } else {
                if t < before.components@.len() {
                    assert(before.components@[t1].name@ != before.components@[t2].name@);
                } else {
                    assert(!before.table_is(t1, c));
                }
            }
        }
    }
}

impl DataStore {
    /// Validates `row` and stores it under the next row id.
    ///
    /// A row without an instance-key cell gets one that numbers its instances `0..n`.
    pub fn insert_row(&mut self, row: &DataRow) -> (res: Result<RowId, WriteError>)
        requires
            old(self).wf(),
            old(self).num_rows() < u64::MAX,
        ensures
            final(self).wf(),
            final(self).cluster() == old(self).cluster(),
            res is Ok <==> check_row(row@, old(self).cluster()) == RowCheck::Accepted,
            res matches Err(e) ==> check_of(Err(e)) == check_row(row@, old(self).cluster()),
            res is Err ==> *final(self) == *old(self),
            res matches Ok(id) ==> insert_post(*old(self), *final(self), row@, id.0),
    {
        proof {
            use_type_invariant(row);
        }
        match validate_row(row, &self.cluster_key) {
            Err(e) => {
                return Err(e);
            },
            Ok(()) => {},
        }
        let ghost before = *self;
        let id = self.metadata.len() as u64;
        let meta = RowMetadata {
            ent_path: row.ent_path().duplicate(),
            timepoint: copy_timepoint(row),
            num_instances: row.num_instances(),
        };
        self.metadata.push(Some(meta));
        proof {
            assert forall|t: int| 0 <= t < self.components@.len() implies {
                &&& (#[trigger] self.components@[t]).wf()
                &&& self.components@[t].ids_below(self.num_rows())
            } by {
                assert(before.components@[t].ids_below(before.num_rows()));
            }
            assert forall|t: int| 0 <= t < self.indices@.len() implies {
                &&& (#[trigger] self.indices@[t]).wf()
                &&& self.indices@[t].ids_below(self.num_rows())
                &&& self.indices@[t].ids_below(id as nat)
            } by {
                assert(before.indices@[t].wf());
                assert(before.indices@[t].ids_below(before.num_rows()));
            }
        }
        let ghost after_meta = *self;
        proof {
            lemma_same_indices(*self, before);
            lemma_same_components(*self, before);
            before.lemma_fresh(id);
            assert forall|r: u64, v: Seq<Option<u64>>| #[trigger] self.holds(self.cluster_key@, r, v) && self.has_metadata(r)
                implies before.holds(before.cluster_key@, r, v) && before.has_metadata(r)
                    && self.metadata_of(r).num_instances == before.metadata_of(r).num_instances by {
                if r == id {
                    assert(self.live(self.cluster_key@, r)) by {
                        let t = choose|t: int| #[trigger] self.table_is(t, self.cluster_key@) && self.components@[t].holds(r, v);
                        assert(self.table_is(t, self.cluster_key@));
                    }
                }
            }
            lemma_agree_frame(*self, before);
        }
        let ent = row.ent_path();
        let n_tl = row.num_timelines();
        let mut k: usize = 0;
        while k < n_tl
            invariant
                row.inv(),
                n_tl == row@.timepoint.len(),
                ent@ == row@.ent_path,
                k <= n_tl,
                before.wf(),
                self.wf(),
                id == before.num_rows(),
                self.num_rows() == id + 1,
                self.components == before.components,
                self.metadata == after_meta.metadata,
                self.cluster_key == before.cluster_key,
                self.config == before.config,
                forall|t: int| 0 <= t < self.indices@.len() ==> #[trigger] self.indices@[t].ids_below(id as nat)
                    || exists|j: int| 0 <= j < k && #[trigger] self.index_is(t, ent@, row@.timepoint[j].0),
                forall|ent2: Seq<char>, tl2: TimelineView, e2: IndexEntry| self.indexed(ent2, tl2, e2) <==>
                    (before.indexed(ent2, tl2, e2) || (ent2 == row@.ent_path && e2.row_id == id
                        && has_time_before(row@.timepoint, k as int, tl2, e2.time))),
                forall|ent2: Seq<char>, tl2: TimelineView| self.has_index(ent2, tl2) <==>
                    (before.has_index(ent2, tl2) || (ent2 == row@.ent_path
                        && has_timeline_before(row@.timepoint, k as int, tl2))),
            decreases n_tl - k,
        {
            let (tl, time) = row.time_at(k);
            let e = IndexEntry { time: time.as_i64(), row_id: id };
            let ghost pre = *self;
            proof {
                assert forall|t: int| #[trigger] self.index_is(t, ent@, tl@) implies self.indices@[t].ids_below(e.row_id as nat) by {
                    if !self.indices@[t].ids_below(id as nat) {
                        let j = choose|j: int| 0 <= j < k && #[trigger] self.index_is(t, ent@, row@.timepoint[j].0);
                        assert(row@.timepoint[j].0 == row@.timepoint[k as int].0);
                    }
                }
            }
            self.index_row(ent, tl, e);
            proof {
                lemma_time_step(row@.timepoint, k as int);
                lemma_index_step(before, pre, *self, ent@, tl@, e, row@.timepoint, k as int);
                assert forall|t: int| 0 <= t < self.indices@.len() implies #[trigger] self.indices@[t].ids_below(id as nat)
                    || exists|j: int| 0 <= j < k + 1 && #[trigger] self.index_is(t, ent@, row@.timepoint[j].0) by {
                    if t >= pre.indices@.len() || pre.index_is(t, ent@, tl@) {
                        assert(self.index_is(t, ent@, tl@));
                        assert(self.index_is(t, ent@, row@.timepoint[k as int].0));
                    } else {
                        assert(self.indices@[t] == pre.indices@[t]);
                        if !pre.indices@[t].ids_below(id as nat) {
                            let j = choose|j: int| 0 <= j < k && #[trigger] pre.index_is(t, ent@, row@.timepoint[j].0);
                            assert(self.index_is(t, ent@, row@.timepoint[j].0));
                        }
                    }
                }
            }
            let ghost k1: int = k + 1;
            k = k + 1;
            assert(k == k1);
        }
        assert(k == n_tl);
        let ghost after_index = *self;
        proof {
            assert(forall|ent2: Seq<char>, tl2: TimelineView, e2: IndexEntry| after_index.indexed(ent2, tl2, e2) <==>
                (before.indexed(ent2, tl2, e2) || (ent2 == row@.ent_path && e2.row_id == id
                    && has_time_before(row@.timepoint, row@.timepoint.len() as int, tl2, e2.time))));
            assert(forall|ent2: Seq<char>, tl2: TimelineView| after_index.has_index(ent2, tl2) <==>
                (before.has_index(ent2, tl2) || (ent2 == row@.ent_path
                    && has_timeline_before(row@.timepoint, row@.timepoint.len() as int, tl2))));
        }
        proof {
            lemma_same_components(*self, before);
        }
        let n_cells = row.num_cells();
        let mut k: usize = 0;
        while k < n_cells
            invariant
                row.inv(),
                n_cells == row@.cells.len(),
                k <= n_cells,
                before.wf(),
                self.wf(),
                id == before.num_rows(),
                self.num_rows() == id + 1,
                self.indices == after_index.indices,
                self.metadata == after_meta.metadata,
                self.cluster_key == before.cluster_key,
                self.config == before.config,
                self.total_rows() >= before.total_rows(),
                check_row(row@, before.cluster()) == RowCheck::Accepted,
                self.has_metadata(id),
                self.metadata_of(id).num_instances == row@.num_instances,
                forall|c: Seq<char>, r2: u64, v: Seq<Option<u64>>| self.holds(c, r2, v) <==>
                    (before.holds(c, r2, v) || (r2 == id && has_cell_before(row@.cells, k as int, c, v))),
                forall|c: Seq<char>, r2: u64| self.live(c, r2) <==>
                    (before.live(c, r2) || (r2 == id && has_name_before(row@.cells, k as int, c))),
            decreases n_cells - k,
        {
            let cell = row.cell(k);
            proof {
                if self.live(cell@.0, id) {
                    if before.live(cell@.0, id) {
                        let t = choose|t: int| #[trigger] before.table_is(t, cell@.0) && before.components@[t].live(id);
                        let (b, kk) = choose|b: int, kk: int| before.components@[t].loc_ok(b, kk) && #[trigger] before.components@[t].id_at(b, kk) == id;
                        assert(before.components@[t].ids_below(before.num_rows()));
                    } else {
                        let j = choose|j: int| 0 <= j < k && (#[trigger] row@.cells[j]).0 == cell@.0;
                        assert(row@.cells[j].0 != row@.cells[k as int].0);
                    }
                }
            }
            let ghost pre_cell = *self;
            proof {
                assert(length_fits(row@.cells[k as int], row@.num_instances, before.cluster()));
            }
            self.store_cell(&cell.component, id, copy_values(&cell.values));
            proof {
                lemma_cells_step(before, pre_cell, *self, cell@.0, cell@.1, id, row@.cells, k as int);
            }
            let ghost k1: int = k + 1;
            k = k + 1;
            assert(k == k1);
        }
        assert(k == n_cells);
        let ghost after_cells = *self;
        proof {
            before.lemma_fresh(id);
            assert(forall|c: Seq<char>| after_cells.live(c, id) <==>
                (before.live(c, id) || has_name_before(row@.cells, row@.cells.len() as int, c)));
            lemma_all_cells(before, *self, id, row@.cells);
        }
        if row.cell_index(&self.cluster_key).is_none() {
            let keys = auto_keys(row.num_instances());
            proof {
                if self.live(self.cluster_key@, id) {
                    if before.live(self.cluster_key@, id) {
                        let t = choose|t: int| #[trigger] before.table_is(t, self.cluster_key@) && before.components@[t].live(id);
                        let (b, kk) = choose|b: int, kk: int| before.components@[t].loc_ok(b, kk) && #[trigger] before.components@[t].id_at(b, kk) == id;
                        assert(before.components@[t].ids_below(before.num_rows()));
                    } else {
                        let j = choose|j: int| 0 <= j < n_cells && (#[trigger] row@.cells[j]).0 == self.cluster_key@;
                        assert(row@.cells[j].0 == self.cluster_key@);
                    }
                }
            }
            let cluster = self.cluster_key.duplicate();
            self.store_cell(&cluster, id, keys);
        } else {
            proof {
                let j = choose|j: int| 0 <= j < row@.cells.len() && #[trigger] row@.cells[j].0 == self.cluster_key@;
                assert(has_name_before(row@.cells, n_cells as int, self.cluster_key@));
            }
        }
        proof {
            assert forall|k2: int| 0 <= k2 < row@.cells.len()
                implies self.holds(row@.cells[k2].0, id, #[trigger] row@.cells[k2].1) by {
                assert(after_cells.holds(row@.cells[k2].0, id, row@.cells[k2].1));
            }
            lemma_same_indices(*self, after_index);
            before.lemma_fresh(id);
            assert forall|c: Seq<char>| self.live(c, id) <==>
                    (c == before.cluster() || has_name_before(row@.cells, row@.cells.len() as int, c)) by {
                assert(after_cells.live(c, id) <==> has_name_before(row@.cells, row@.cells.len() as int, c));
            }
        }
        Ok(RowId(id))
    }
}

pub open spec fn has_cell_before(cells: Seq<(Seq<char>, Seq<Option<u64>>)>, k: int, c: Seq<char>, v: Seq<Option<u64>>) -> bool {
    exists|j: int| 0 <= j < k && #[trigger] cells[j] == (c, v)
}

pub open spec fn has_name_before(cells: Seq<(Seq<char>, Seq<Option<u64>>)>, k: int, c: Seq<char>) -> bool {
    exists|j: int| 0 <= j < k && (#[trigger] cells[j]).0 == c
}

pub open spec fn has_time_before(tp: Seq<(TimelineView, i64)>, k: int, tl: TimelineView, t: i64) -> bool {
    exists|j: int| 0 <= j < k && #[trigger] tp[j] == (tl, t)
}

pub open spec fn has_timeline_before(tp: Seq<(TimelineView, i64)>, k: int, tl: TimelineView) -> bool {
    exists|j: int| 0 <= j < k && (#[trigger] tp[j]).0 == tl
}

proof fn lemma_cell_step(cells: Seq<(Seq<char>, Seq<Option<u64>>)>, k: int)
    requires
        0 <= k < cells.len(),
    ensures
        forall|c: Seq<char>, v: Seq<Option<u64>>| has_cell_before(cells, k + 1, c, v)
            <==> (has_cell_before(cells, k, c, v) || cells[k] == (c, v)),
        forall|c: Seq<char>| has_name_before(cells, k + 1, c) <==> (has_name_before(cells, k, c) || cells[k].0 == c),
{
    assert forall|c: Seq<char>, v: Seq<Option<u64>>| has_cell_before(cells, k + 1, c, v)
        <==> (has_cell_before(cells, k, c, v) || cells[k] == (c, v)) by {
        if has_cell_before(cells, k + 1, c, v) {
            let j = choose|j: int| 0 <= j < k + 1 && #[trigger] cells[j] == (c, v);
        }
        if has_cell_before(cells, k, c, v) {
            let j = choose|j: int| 0 <= j < k && #[trigger] cells[j] == (c, v);
        }
    }
    assert forall|c: Seq<char>| has_name_before(cells, k + 1, c) <==> (has_name_before(cells, k, c) || cells[k].0 == c) by {
        if has_name_before(cells, k + 1, c) {
            let j = choose|j: int| 0 <= j < k + 1 && (#[trigger] cells[j]).0 == c;
        }
        if has_name_before(cells, k, c) {
            let j = choose|j: int| 0 <= j < k && (#[trigger] cells[j]).0 == c;
        }
    }
}

proof fn lemma_time_step(tp: Seq<(TimelineView, i64)>, k: int)
    requires
        0 <= k < tp.len(),
    ensures
        forall|tl: TimelineView, t: i64| has_time_before(tp, k + 1, tl, t)
            <==> (has_time_before(tp, k, tl, t) || tp[k] == (tl, t)),
        forall|tl: TimelineView| has_timeline_before(tp, k + 1, tl) <==> (has_timeline_before(tp, k, tl) || tp[k].0 == tl),
{
    assert forall|tl: TimelineView, t: i64| has_time_before(tp, k + 1, tl, t)
        <==> (has_time_before(tp, k, tl, t) || tp[k] == (tl, t)) by {
        if has_time_before(tp, k + 1, tl, t) {
            let j = choose|j: int| 0 <= j < k + 1 && #[trigger] tp[j] == (tl, t);
        }
        if has_time_before(tp, k, tl, t) {
            let j = choose|j: int| 0 <= j < k && #[trigger] tp[j] == (tl, t);
        }
    }
    assert forall|tl: TimelineView| has_timeline_before(tp, k + 1, tl) <==> (has_timeline_before(tp, k, tl) || tp[k].0 == tl) by {
        if has_timeline_before(tp, k + 1, tl) {
            let j = choose|j: int| 0 <= j < k + 1 && (#[trigger] tp[j]).0 == tl;
        }
        if has_timeline_before(tp, k, tl) {
            let j = choose|j: int| 0 <= j < k && (#[trigger] tp[j]).0 == tl;
        }
    }
}

/// Instance keys numbered `0..n`.
fn auto_keys(n: u32) -> (r: Vec<Option<u64>>)
    ensures
        r@ == auto_instance_keys(n as nat),
{
    let mut r: Vec<Option<u64>> = Vec::new();
    let mut i: u32 = 0;
    while i < n
        invariant
            i <= n,
            r@ == auto_instance_keys(i as nat),
        decreases n - i,
    {
        r.push(Some(i as u64));
        i = i + 1;
        assert(r@ =~= auto_instance_keys(i as nat));
    }
    r
}

fn copy_timepoint(row: &DataRow) -> (r: Vec<(Timeline, TimeInt)>)
    ensures
        timepoint_view(r@) == row@.timepoint,
{
    let mut r: Vec<(Timeline, TimeInt)> = Vec::new();
    let mut k: usize = 0;
    while k < row.num_timelines()
        invariant
            k <= row@.timepoint.len(),
            r@.len() == k,
            timepoint_view(r@) == row@.timepoint.take(k as int),
        decreases row@.timepoint.len() - k,
    {
        let (tl, t) = row.time_at(k);
        let ghost prev = r@;
        let entry = (tl.duplicate(), t);
        r.push(entry);
        proof {
            assert(r@ == prev.push(entry));
            assert(prev.len() == k);
            assert(r@[k as int] == entry);
            assert((entry.0@, entry.1.0) == row@.timepoint[k as int]);
            assert(timepoint_view(r@)[k as int] == (r@[k as int].0@, r@[k as int].1.0));
            assert forall|j: int| 0 <= j < k + 1 implies #[trigger] timepoint_view(r@)[j] == row@.timepoint.take(k as int + 1)[j] by {
                if j < k {
                    assert(timepoint_view(prev)[j] == row@.timepoint.take(k as int)[j]);
                }
            }
            assert(timepoint_view(r@) =~= row@.timepoint.take(k as int + 1));
        }
        k = k + 1;
    }
    assert(row@.timepoint.take(k as int) =~= row@.timepoint);
    r
}

/// What a successful insertion of `row` under `id` leaves: `s1` is `s0` with the row's
/// cells, index entries and metadata added.
pub open spec fn insert_post(s0: DataStore, s1: DataStore, row: RowView, id: u64) -> bool {
    &&& s1.wf()
    &&& s1.cluster() == s0.cluster()
    &&& s1.one_row_buckets() == s0.one_row_buckets()
    &&& id == s0.num_rows()
    &&& s1.num_rows() == s0.num_rows() + 1
    &&& s1.has_metadata(id)
    &&& s1.metadata_of(id).ent_path@ == row.ent_path
    &&& timepoint_view(s1.metadata_of(id).timepoint@) == row.timepoint
    &&& s1.metadata_of(id).num_instances == row.num_instances
    &&& forall|r2: u64| r2 != id ==> s1.has_metadata(r2) == s0.has_metadata(r2)
    &&& forall|r2: u64| r2 != id && s1.has_metadata(r2) ==> s1.metadata_of(r2) == s0.metadata_of(r2)
    &&& forall|c: Seq<char>, r2: u64, v: Seq<Option<u64>>| r2 != id
        ==> (s1.holds(c, r2, v) <==> s0.holds(c, r2, v))
    &&& forall|c: Seq<char>, r2: u64| r2 != id ==> (s1.live(c, r2) <==> s0.live(c, r2))
    &&& forall|k: int| 0 <= k < row.cells.len()
        ==> s1.holds(row.cells[k].0, id, #[trigger] row.cells[k].1)
    &&& (forall|k: int| 0 <= k < row.cells.len() ==> (#[trigger] row.cells[k]).0 != s0.cluster())
        ==> s1.holds(s0.cluster(), id, auto_instance_keys(row.num_instances as nat))
    &&& forall|c: Seq<char>| s1.live(c, id) <==>
        (c == s0.cluster() || has_name_before(row.cells, row.cells.len() as int, c))
    &&& forall|ent: Seq<char>, tl: TimelineView, e: IndexEntry| s1.indexed(ent, tl, e) <==>
        (s0.indexed(ent, tl, e) || (ent == row.ent_path && e.row_id == id
        && has_time_before(row.timepoint, row.timepoint.len() as int, tl, e.time)))
    &&& forall|ent: Seq<char>, tl: TimelineView| s1.has_index(ent, tl) <==>
        (s0.has_index(ent, tl) || (ent == row.ent_path
        && has_timeline_before(row.timepoint, row.timepoint.len() as int, tl)))
    &&& s1.total_rows() >= s0.total_rows()
}

impl DataStore {
    /// No component holds a cell for the id that the next row gets.
    proof fn lemma_fresh(&self, r: u64)
        requires
            self.wf(),
            r == self.num_rows(),
        ensures
            forall|c: Seq<char>| !#[trigger] self.live(c, r),
    {
        assert forall|c: Seq<char>| !#[trigger] self.live(c, r) by {
            if self.live(c, r) {
                let t = choose|t: int| #[trigger] self.table_is(t, c) && self.components@[t].live(r);
                let (b, k) = choose|b: int, k: int| self.components@[t].loc_ok(b, k)
                    && #[trigger] self.components@[t].id_at(b, k) == r;
                assert(self.components@[t].ids_below(self.num_rows()));
            }
        }
    }
}

proof fn lemma_index_step(
    before: DataStore,
    pre: DataStore,
    post: DataStore,
    ent: Seq<char>,
    tl: TimelineView,
    e: IndexEntry,
    tp: Seq<(TimelineView, i64)>,
    k: int,
)
    requires
        0 <= k < tp.len(),
        tp[k] == (tl, e.time),
        forall|ent2: Seq<char>, tl2: TimelineView, e2: IndexEntry| pre.indexed(ent2, tl2, e2) <==>
            (before.indexed(ent2, tl2, e2) || (ent2 == ent && e2.row_id == e.row_id && has_time_before(tp, k, tl2, e2.time))),
        forall|ent2: Seq<char>, tl2: TimelineView, e2: IndexEntry|
            post.indexed(ent2, tl2, e2) <==> (pre.indexed(ent2, tl2, e2) || (ent2 == ent && tl2 == tl && e2 == e)),
    ensures
        forall|ent2: Seq<char>, tl2: TimelineView, e2: IndexEntry| post.indexed(ent2, tl2, e2) <==>
            (before.indexed(ent2, tl2, e2) || (ent2 == ent && e2.row_id == e.row_id && has_time_before(tp, k + 1, tl2, e2.time))),
{
    lemma_time_step(tp, k);
    assert forall|ent2: Seq<char>, tl2: TimelineView, e2: IndexEntry| post.indexed(ent2, tl2, e2) <==>
        (before.indexed(ent2, tl2, e2) || (ent2 == ent && e2.row_id == e.row_id && has_time_before(tp, k + 1, tl2, e2.time))) by {
        if ent2 == ent && e2.row_id == e.row_id && tp[k] == (tl2, e2.time) {
            assert(e2 == e);
        }
        if ent2 == ent && tl2 == tl && e2 == e {
            assert(has_time_before(tp, k + 1, tl2, e2.time));
        }
    }
}

proof fn lemma_cells_step(
    before: DataStore,
    pre: DataStore,
    post: DataStore,
    c: Seq<char>,
    v: Seq<Option<u64>>,
    id: u64,
    cells: Seq<(Seq<char>, Seq<Option<u64>>)>,
    k: int,
)
    requires
        0 <= k < cells.len(),
        cells[k] == (c, v),
        forall|c2: Seq<char>, r2: u64, v2: Seq<Option<u64>>| pre.holds(c2, r2, v2) <==>
            (before.holds(c2, r2, v2) || (r2 == id && has_cell_before(cells, k, c2, v2))),
        forall|c2: Seq<char>, r2: u64| pre.live(c2, r2) <==>
            (before.live(c2, r2) || (r2 == id && has_name_before(cells, k, c2))),
        forall|c2: Seq<char>, r2: u64, v2: Seq<Option<u64>>|
            post.holds(c2, r2, v2) <==> (pre.holds(c2, r2, v2) || (c2 == c && r2 == id && v2 == v)),
        forall|c2: Seq<char>, r2: u64| post.live(c2, r2) <==> (pre.live(c2, r2) || (c2 == c && r2 == id)),
    ensures
        forall|c2: Seq<char>, r2: u64, v2: Seq<Option<u64>>| post.holds(c2, r2, v2) <==>
            (before.holds(c2, r2, v2) || (r2 == id && has_cell_before(cells, k + 1, c2, v2))),
        forall|c2: Seq<char>, r2: u64| post.live(c2, r2) <==>
            (before.live(c2, r2) || (r2 == id && has_name_before(cells, k + 1, c2))),
{
    lemma_cell_step(cells, k);
}

proof fn lemma_all_cells(before: DataStore, post: DataStore, id: u64, cells: Seq<(Seq<char>, Seq<Option<u64>>)>)
    requires
        forall|c2: Seq<char>, r2: u64, v2: Seq<Option<u64>>| post.holds(c2, r2, v2) <==>
            (before.holds(c2, r2, v2) || (r2 == id && has_cell_before(cells, cells.len() as int, c2, v2))),
    ensures
        forall|k: int| 0 <= k < cells.len() ==> post.holds(cells[k].0, id, #[trigger] cells[k].1),
{
    assert forall|k: int| 0 <= k < cells.len() implies post.holds(cells[k].0, id, #[trigger] cells[k].1) by {
        assert(cells[k] == (cells[k].0, cells[k].1));
        assert(has_cell_before(cells, cells.len() as int, cells[k].0, cells[k].1));
    }
}

} // verus!
