//! Latest-at lookups and cell retrieval.
use vstd::prelude::*;

use crate::index::{IndexEntry, entry_le, entry_less};
use crate::row::{DataCell, copy_values};
use crate::types::{ComponentName, EntityPath, RowId, TimeInt, Timeline, TimelineView};
use super::DataStore;

verus! {

/// A point query: the state of each component at `at` on `timeline`.
#[derive(Debug)]
pub struct LatestAtQuery {
    pub timeline: Timeline,
    pub at: TimeInt,
}

impl LatestAtQuery {
    pub fn new(timeline: Timeline, at: TimeInt) -> (q: LatestAtQuery)
        ensures
            q.timeline@ == timeline@,
            q.at == at,
    {
        LatestAtQuery { timeline, at }
    }
}

/// The greatest index entry at or below `(t, row)` is one whose time is at most `t`.
pub open spec fn upto_time(t: i64) -> IndexEntry {
    IndexEntry { time: t, row_id: u64::MAX }
}

impl DataStore {
    /// Some entry of the index of `ent` on `tl`, at or below `bound`, has a cell of `c`.
    pub open spec fn has_candidate(&self, ent: Seq<char>, tl: TimelineView, bound: IndexEntry, c: Seq<char>) -> bool {
        exists|e: IndexEntry| #[trigger] self.indexed(ent, tl, e) && entry_le(e, bound) && self.live(c, e.row_id)
    }

    /// `e` is the greatest entry of the index of `ent` on `tl`, at or below `bound`,
    /// whose row has a cell of `c`.
    pub open spec fn is_latest(&self, ent: Seq<char>, tl: TimelineView, bound: IndexEntry, c: Seq<char>, e: IndexEntry) -> bool {
        &&& self.indexed(ent, tl, e)
        &&& entry_le(e, bound)
        &&& self.live(c, e.row_id)
        &&& forall|e2: IndexEntry| #[trigger] self.indexed(ent, tl, e2) && entry_le(e2, bound) && self.live(c, e2.row_id)
            ==> entry_le(e2, e)
    }

    /// What a latest-at lookup of `c` gives: the row of the latest entry, if any.
    pub open spec fn latest_row(&self, ent: Seq<char>, tl: TimelineView, bound: IndexEntry, c: Seq<char>, r: Option<RowId>) -> bool {
        match r {
            Some(id) => exists|e: IndexEntry| #[trigger] self.is_latest(ent, tl, bound, c, e) && e.row_id == id.0,
            None => !self.has_candidate(ent, tl, bound, c),
        }
    }

    /// The cell of component `c` for row `r`.
    pub fn get_cell(&self, c: &ComponentName, r: RowId) -> (res: Option<DataCell>)
        requires
            self.wf(),
        ensures
            res is Some <==> self.live(c@, r.0),
            res matches Some(cell) ==> cell@.0 == c@ && self.holds(c@, r.0, cell@.1),
    {
        match self.find_table(c) {
            None => None,
            Some(t) => {
                proof {
                    self.lemma_table_at(t as int, c@);
                }
                match self.components[t].find(r.0) {
                    None => None,
                    Some(v) => Some(DataCell { component: c.duplicate(), values: copy_values(v) }),
                }
            },
        }
    }

    /// The greatest entry of index `it` at or below `bound` with a cell of `c`.
    fn latest_in_index(&self, it: usize, c: &ComponentName, bound: IndexEntry) -> (res: Option<IndexEntry>)
        requires
            self.wf(),
            it < self.indices@.len(),
        ensures
            res matches Some(e) ==> self.is_latest(self.indices@[it as int].ent_path@, self.indices@[it as int].timeline@, bound, c@, e),
            res is None ==> !self.has_candidate(self.indices@[it as int].ent_path@, self.indices@[it as int].timeline@, bound, c@),
    {
        let ghost ent = self.indices@[it as int].ent_path@;
        let ghost tl = self.indices@[it as int].timeline@;
        proof {
            assert(self.index_is(it as int, ent, tl));
            self.lemma_index_at(it as int, ent, tl);
        }
        let table = self.find_table(c);
        proof {
            if let Some(t) = table {
                self.lemma_table_at(t as int, c@);
            }
        }
        let entries = self.indices[it].collect();
        let mut best: Option<IndexEntry> = None;
        let mut k: usize = 0;
        while k < entries.len()
            invariant
                self.wf(),
                forall|x: IndexEntry| entries@.contains(x) <==> #[trigger] self.indexed(ent, tl, x),
                k <= entries@.len(),
                table matches Some(t) ==> t < self.components@.len() && forall|r: u64| #[trigger] self.live(c@, r) <==> self.components@[t as int].live(r),
                table is None ==> forall|r: u64| !#[trigger] self.live(c@, r),
                best matches Some(b) ==> entries@.contains(b) && entry_le(b, bound) && self.live(c@, b.row_id),
                best matches Some(b) ==> forall|j: int| 0 <= j < k && entry_le(#[trigger] entries@[j], bound) && self.live(c@, entries@[j].row_id)
                    ==> entry_le(entries@[j], b),
                best is None ==> forall|j: int| 0 <= j < k ==> !(entry_le(#[trigger] entries@[j], bound) && self.live(c@, entries@[j].row_id)),
            decreases entries.len() - k,
        {
            let e = entries[k];
            let below = !entry_less(bound, e);
            let live = match table {
                Some(t) => self.components[t].find(e.row_id).is_some(),
                None => false,
            };
            if below && live {
                let better = match best {
                    None => true,
                    Some(b) => entry_less(b, e),
                };
                if better {
                    proof {
                        assert(entries@.contains(e)) by {
                            assert(entries@[k as int] == e);
                        }
                    }
                    best = Some(e);
                }
            }
            k = k + 1;
        }
        proof {
            if let Some(b) = best {
                assert forall|e2: IndexEntry| #[trigger] self.indexed(ent, tl, e2) && entry_le(e2, bound) && self.live(c@, e2.row_id)
                    implies entry_le(e2, b) by {
                    let j = choose|j: int| 0 <= j < entries@.len() && entries@[j] == e2;
                }
            } else {
                if self.has_candidate(ent, tl, bound, c@) {
                    let e2 = choose|e2: IndexEntry| #[trigger] self.indexed(ent, tl, e2) && entry_le(e2, bound) && self.live(c@, e2.row_id);
                    let j = choose|j: int| 0 <= j < entries@.len() && entries@[j] == e2;
                }
            }
        }
        best
    }

    /// For each component, the row of its latest cell at `query.at` on `query.timeline`.
    ///
    /// `None` when no row of the entity at or before that time has a cell of `primary`.
    pub fn latest_at(
        &self,
        query: &LatestAtQuery,
        ent_path: &EntityPath,
        primary: &ComponentName,
        components: &Vec<ComponentName>,
    ) -> (res: Option<Vec<Option<RowId>>>)
        requires
            self.wf(),
        ensures
            res is None <==> !self.has_candidate(ent_path@, query.timeline@, upto_time(query.at.0), primary@),
            res matches Some(v) ==> v@.len() == components@.len() && forall|i: int| 0 <= i < v@.len()
                ==> self.latest_row(ent_path@, query.timeline@, upto_time(query.at.0), components@[i]@, #[trigger] v@[i]),
    {
        let bound = IndexEntry { time: query.at.0, row_id: u64::MAX };
        let it = match self.find_index(ent_path, &query.timeline) {
            Some(it) => it,
            None => {
                proof {
                    self.lemma_no_index(ent_path@, query.timeline@);
                }
                return None;
            },
        };
        let ghost ent = ent_path@;
        let ghost tl = query.timeline@;
        if self.latest_in_index(it, primary, bound).is_none() {
            return None;
        }
        let mut out: Vec<Option<RowId>> = Vec::new();
        let mut i: usize = 0;
        while i < components.len()
            invariant
                self.wf(),
                it < self.indices@.len(),
                self.index_is(it as int, ent, tl),
                bound == upto_time(query.at.0),
                i <= components@.len(),
                out@.len() == i,
                forall|j: int| 0 <= j < i ==> self.latest_row(ent, tl, bound, components@[j]@, #[trigger] out@[j]),
            decreases components.len() - i,
        {
            let found = self.latest_in_index(it, &components[i], bound);
            let r = match found {
                Some(e) => Some(RowId(e.row_id)),
                None => None,
            };
            proof {
                if let Some(e) = found {
                    assert(self.is_latest(ent, tl, bound, components@[i as int]@, e));
                }
            }
            out.push(r);
            i = i + 1;
        }
        Some(out)
    }

    /// The cells that `row_ids` point at, component by component.
    pub fn get(&self, components: &Vec<ComponentName>, row_ids: &Vec<Option<RowId>>) -> (res: Vec<Option<DataCell>>)
        requires
            self.wf(),
            components@.len() == row_ids@.len(),
        ensures
            res@.len() == components@.len(),
            forall|i: int| 0 <= i < res@.len() ==> match row_ids@[i] {
                None => (#[trigger] res@[i]) is None,
                Some(id) => {
                    &&& res@[i] is Some <==> self.live(components@[i]@, id.0)
                    &&& res@[i] matches Some(cell) ==> cell@.0 == components@[i]@ && self.holds(components@[i]@, id.0, cell@.1)
                },
            },
    {
        let mut out: Vec<Option<DataCell>> = Vec::new();
        let mut i: usize = 0;
        while i < components.len()
            invariant
                self.wf(),
                components@.len() == row_ids@.len(),
                i <= components@.len(),
                out@.len() == i,
                forall|j: int| 0 <= j < i ==> match row_ids@[j] {
                    None => (#[trigger] out@[j]) is None,
                    Some(id) => {
                        &&& out@[j] is Some <==> self.live(components@[j]@, id.0)
                        &&& out@[j] matches Some(cell) ==> cell@.0 == components@[j]@ && self.holds(components@[j]@, id.0, cell@.1)
                    },
                },
            decreases components.len() - i,
        {
            let cell = match row_ids[i] {
                None => None,
                Some(id) => self.get_cell(&components[i], id),
            };
            out.push(cell);
            i = i + 1;
        }
        out
    }
}

} // verus!
