//! Range queries: a stream join of component columns over an interval.
use vstd::prelude::*;

use crate::index::{IndexEntry, entry_le, entry_lt, sorted_entries};
use crate::row::DataCell;
use crate::types::{ComponentName, EntityPath, RowId, TimeInt, Timeline, TimelineView};
use super::{DataStore, lemma_agree_frame, lemma_same_components};

verus! {

/// An inclusive interval of time.
#[derive(Clone, Copy, Debug, PartialEq, Eq, Structural)]
pub struct TimeRange {
    pub min: TimeInt,
    pub max: TimeInt,
}

impl TimeRange {
    pub fn new(min: TimeInt, max: TimeInt) -> (r: TimeRange)
        ensures
            r.min == min,
            r.max == max,
    {
        TimeRange { min, max }
    }
}

/// An interval query on a timeline.
#[derive(Debug)]
pub struct RangeQuery {
    pub timeline: Timeline,
    pub range: TimeRange,
}

impl RangeQuery {
    pub fn new(timeline: Timeline, range: TimeRange) -> (q: RangeQuery)
        ensures
            q.timeline@ == timeline@,
            q.range == range,
    {
        RangeQuery { timeline, range }
    }
}

/// One emission of a range query: the primary's time and row, and the joined cells.
pub type RangeItem = (TimeInt, RowId, Vec<Option<DataCell>>);

pub open spec fn item_entry(item: RangeItem) -> IndexEntry {
    IndexEntry { time: item.0.0, row_id: item.1.0 }
}

impl DataStore {
    /// Sorts index `it` in place.
    fn sort_index(&mut self, it: usize)
        requires
            old(self).wf(),
            it < old(self).indices@.len(),
        ensures
            final(self).wf(),
            final(self).same_data(&*old(self)),
            final(self).indices@[it as int].all_sorted(),
            forall|t: int| 0 <= t < final(self).indices@.len() && t != it ==> #[trigger] final(self).indices@[t] == old(self).indices@[t],
    {
        let ghost before = *self;
        self.indices[it].sort();
        proof {
            lemma_same_components(*self, before);
            lemma_agree_frame(*self, before);
            assert forall|t: int| 0 <= t < self.indices@.len() implies {
                &&& (#[trigger] self.indices@[t]).wf()
                &&& self.indices@[t].ids_below(self.num_rows())
            } by {
                if t == it {
                    assert(before.indices@[t].ids_below(before.num_rows()));
                }
            }
            assert forall|t1: int, t2: int| 0 <= t1 < self.indices@.len() && 0 <= t2 < self.indices@.len() && t1 != t2
                implies !((#[trigger] self.indices@[t1]).ent_path@ == (#[trigger] self.indices@[t2]).ent_path@
                    && self.indices@[t1].timeline@ == self.indices@[t2].timeline@) by {
                assert(!((before.indices@[t1]).ent_path@ == (before.indices@[t2]).ent_path@
                    && before.indices@[t1].timeline@ == before.indices@[t2].timeline@));
            }
        }
    }

    /// Sorts every index that insertions left out of order.
    pub fn sort_indices_if_needed(&mut self)
        requires
            old(self).wf(),
        ensures
            final(self).wf(),
            final(self).same_data(&*old(self)),
            final(self).indices_sorted(),
    {
        let ghost before = *self;
        let mut it: usize = 0;
        while it < self.indices.len()
            invariant
                self.wf(),
                self.same_data(&before),
                it <= self.indices@.len(),
                forall|t: int| 0 <= t < it ==> (#[trigger] self.indices@[t]).all_sorted(),
            decreases self.indices@.len() - it,
        {
            let ghost pre = *self;
            self.sort_index(it);
            proof {
                assert forall|t: int| 0 <= t < self.indices@.len() implies {
                    &&& (#[trigger] self.indices@[t]).ent_path == before.indices@[t].ent_path
                    &&& self.indices@[t].timeline == before.indices@[t].timeline
                    &&& forall|e: IndexEntry| self.indices@[t].has(e) <==> before.indices@[t].has(e)
                } by {
                    assert(pre.indices@[t].ent_path == before.indices@[t].ent_path);
                    assert(forall|e: IndexEntry| pre.indices@[t].has(e) <==> before.indices@[t].has(e));
                }
                assert forall|t: int| 0 <= t < it + 1 implies (#[trigger] self.indices@[t]).all_sorted() by {
                    if t != it {
                        assert(self.indices@[t] == pre.indices@[t]);
                    }
                }
            }
            it = it + 1;
        }
    }

    /// Every index is in order.
    pub closed spec fn indices_sorted(&self) -> bool {
        forall|t: int| 0 <= t < self.indices@.len() ==> (#[trigger] self.indices@[t]).all_sorted()
    }

    /// Entry `e` is one that a range query over `[lo, hi]` driven by `primary` emits.
    pub open spec fn emits(&self, ent: Seq<char>, tl: TimelineView, lo: i64, hi: i64, primary: Seq<char>, e: IndexEntry) -> bool {
        &&& self.indexed(ent, tl, e)
        &&& lo <= e.time <= hi
        &&& self.live(primary, e.row_id)
    }

    /// `cell` is the latest cell of `c` at or below `at`, or nothing if there is none.
    pub open spec fn joined_cell(&self, ent: Seq<char>, tl: TimelineView, at: IndexEntry, c: Seq<char>, cell: Option<DataCell>) -> bool {
        match cell {
            None => !self.has_candidate(ent, tl, at, c),
            Some(x) => x@.0 == c && exists|e: IndexEntry| #[trigger] self.is_latest(ent, tl, at, c, e) && self.holds(c, e.row_id, x@.1),
        }
    }
}

impl DataStore {
    /// Whether component table `table` (the one of `c`, if any) holds a cell for row `r`.
    fn table_live(&self, table: Option<usize>, c: Ghost<Seq<char>>, r: u64) -> (b: bool)
        requires
            self.wf(),
            table matches Some(t) ==> self.table_is(t as int, c@),
            table is None ==> forall|t: int| !self.table_is(t, c@),
        ensures
            b == self.live(c@, r),
    {
        match table {
            None => false,
            Some(t) => {
                proof {
                    self.lemma_table_at(t as int, c@);
                }
                self.components[t].find(r).is_some()
            },
        }
    }

    /// Joins the components over `query.range`: one item for each row of the entity
    /// in range that has a cell of `primary`, in `(time, row)` order, with each
    /// component's latest cell at or before that row. Cells of the same row count:
    /// the primary is joined after the other components of its own row.
    pub fn range(
        &mut self,
        query: &RangeQuery,
        ent_path: &EntityPath,
        primary: &ComponentName,
        components: &Vec<ComponentName>,
    ) -> (res: Vec<RangeItem>)
        requires
            old(self).wf(),
        ensures
            range_post(*old(self), *final(self), ent_path@, query.timeline@, query.range.min.0, query.range.max.0,
                primary@, components@, res@),
    {
        let ghost ent = ent_path@;
        let ghost tl = query.timeline@;
        let lo = query.range.min.0;
        let hi = query.range.max.0;
        let it = match self.find_index(ent_path, &query.timeline) {
            Some(it) => it,
            None => {
                proof {
                    self.lemma_no_index(ent, tl);
                }
                return Vec::new();
            },
        };
        self.sort_index(it);
        let ghost store = *self;
        proof {
            assert(self.index_is(it as int, ent, tl));
            self.lemma_index_at(it as int, ent, tl);
        }
        let primary_table = self.find_table(primary);
        let mut tables: Vec<Option<usize>> = Vec::new();
        let mut carry: Vec<Option<IndexEntry>> = Vec::new();
        let mut k: usize = 0;
        while k < components.len()
            invariant
                *self == store,
                k <= components@.len(),
                tables@.len() == k,
                carry@.len() == k,
                forall|j: int| 0 <= j < k ==> match #[trigger] tables@[j] {
                    Some(t) => self.table_is(t as int, components@[j]@),
                    None => forall|t: int| !self.table_is(t, components@[j]@),
                },
                forall|j: int| 0 <= j < k ==> (#[trigger] carry@[j]) is None,
            decreases components.len() - k,
        {
            tables.push(self.find_table(&components[k]));
            carry.push(None);
            k = k + 1;
        }
        let entries = self.indices[it].collect();
        let mut out: Vec<RangeItem> = Vec::new();
        let mut i: usize = 0;
        while i < entries.len()
            invariant
                *self == store,
                self.wf(),
                it < self.indices@.len(),
                sorted_entries(entries@),
                forall|e: IndexEntry| #[trigger] self.indexed(ent, tl, e) <==> entries@.contains(e),
                i <= entries@.len(),
                tables@.len() == components@.len(),
                carry@.len() == components@.len(),
                forall|j: int| 0 <= j < components@.len() ==> match #[trigger] tables@[j] {
                    Some(t) => self.table_is(t as int, components@[j]@),
                    None => forall|t: int| !self.table_is(t, components@[j]@),
                },
                primary_table matches Some(t) ==> self.table_is(t as int, primary@),
                primary_table is None ==> forall|t: int| !self.table_is(t, primary@),
                forall|j: int| 0 <= j < components@.len() ==> match #[trigger] carry@[j] {
                    Some(b) => {
                        &&& exists|p: int| 0 <= p < i && entries@[p] == b
                        &&& self.live(components@[j]@, b.row_id)
                        &&& forall|p: int| 0 <= p < i && self.live(components@[j]@, (#[trigger] entries@[p]).row_id) ==> entry_le(entries@[p], b)
                    },
                    None => forall|p: int| 0 <= p < i ==> !self.live(components@[j]@, (#[trigger] entries@[p]).row_id),
                },
                forall|m: int| 0 <= m < out@.len() ==> exists|p: int| 0 <= p < i && entries@[p] == item_entry(#[trigger] out@[m]),
                forall|m: int| 0 <= m < out@.len() ==> self.emits(ent, tl, lo, hi, primary@, item_entry(#[trigger] out@[m])),
                forall|m1: int, m2: int| 0 <= m1 < m2 < out@.len() ==> entry_lt(item_entry(#[trigger] out@[m1]), item_entry(#[trigger] out@[m2])),
                forall|p: int| 0 <= p < i && #[trigger] self.emits(ent, tl, lo, hi, primary@, entries@[p])
                    ==> exists|m: int| 0 <= m < out@.len() && item_entry(#[trigger] out@[m]) == entries@[p],
                forall|m: int| 0 <= m < out@.len() ==> (#[trigger] out@[m]).2@.len() == components@.len(),
                forall|m: int, j: int| 0 <= m < out@.len() && 0 <= j < components@.len() ==> self.joined_cell(
                    ent, tl, item_entry(out@[m]), components@[j]@, #[trigger] out@[m].2@[j]),
            decreases entries.len() - i,
        {
            let e = entries[i];
            proof {
                assert(entries@.contains(e)) by {
                    assert(entries@[i as int] == e);
                }
            }
            let ghost carry_before = carry@;
            // Every component of this row moves first: the primary is joined last.
            let mut j: usize = 0;
            while j < components.len()
                invariant
                    *self == store,
                    self.wf(),
                    sorted_entries(entries@),
                    i < entries@.len(),
                    e == entries@[i as int],
                    j <= components@.len(),
                    tables@.len() == components@.len(),
                    carry@.len() == components@.len(),
                    carry_before.len() == components@.len(),
                    forall|q: int| 0 <= q < components@.len() ==> match #[trigger] tables@[q] {
                        Some(t) => self.table_is(t as int, components@[q]@),
                        None => forall|t: int| !self.table_is(t, components@[q]@),
                    },
                    forall|q: int| j <= q < components@.len() ==> #[trigger] carry@[q] == carry_before[q],
                    forall|q: int| 0 <= q < j ==> #[trigger] carry@[q] == if self.live(components@[q]@, e.row_id) {
                        Some(e)
                    } else {
                        carry_before[q]
                    },
                decreases components.len() - j,
            {
                if self.table_live(tables[j], Ghost(components@[j as int]@), e.row_id) {
                    carry.set(j, Some(e));
                }
                j = j + 1;
            }
            proof {
                assert forall|q: int| 0 <= q < components@.len() implies match #[trigger] carry@[q] {
                    Some(b) => {
                        &&& exists|p: int| 0 <= p < i + 1 && entries@[p] == b
                        &&& self.live(components@[q]@, b.row_id)
                        &&& forall|p: int| 0 <= p < i + 1 && self.live(components@[q]@, (#[trigger] entries@[p]).row_id) ==> entry_le(entries@[p], b)
                    },
                    None => forall|p: int| 0 <= p < i + 1 ==> !self.live(components@[q]@, (#[trigger] entries@[p]).row_id),
                } by {
                    if self.live(components@[q]@, e.row_id) {
                        assert forall|p: int| 0 <= p < i + 1 && self.live(components@[q]@, (#[trigger] entries@[p]).row_id)
                            implies entry_le(entries@[p], e) by {
                            if p < i {
                                assert(entry_lt(entries@[p], entries@[i as int]));
                            }
                        }
                    } else {
                        if let Some(b) = carry_before[q] {
                            let p0 = choose|p: int| 0 <= p < i && entries@[p] == b;
                            assert(0 <= p0 < i + 1 && entries@[p0] == b);
                        }
                    }
                }
            }
            let in_range = lo <= e.time && e.time <= hi;
            if in_range && self.table_live(primary_table, Ghost(primary@), e.row_id) {
                let mut cells: Vec<Option<DataCell>> = Vec::new();
                let mut j: usize = 0;
                while j < components.len()
                    invariant
                        *self == store,
                        self.wf(),
                        sorted_entries(entries@),
                        forall|x: IndexEntry| #[trigger] self.indexed(ent, tl, x) <==> entries@.contains(x),
                        i < entries@.len(),
                        e == entries@[i as int],
                        j <= components@.len(),
                        carry@.len() == components@.len(),
                        cells@.len() == j,
                        forall|q: int| 0 <= q < components@.len() ==> match #[trigger] carry@[q] {
                            Some(b) => {
                                &&& exists|p: int| 0 <= p < i + 1 && entries@[p] == b
                                &&& self.live(components@[q]@, b.row_id)
                                &&& forall|p: int| 0 <= p < i + 1 && self.live(components@[q]@, (#[trigger] entries@[p]).row_id) ==> entry_le(entries@[p], b)
                            },
                            None => forall|p: int| 0 <= p < i + 1 ==> !self.live(components@[q]@, (#[trigger] entries@[p]).row_id),
                        },
                        forall|q: int| 0 <= q < j ==> self.joined_cell(ent, tl, e, components@[q]@, #[trigger] cells@[q]),
                    decreases components.len() - j,
                {
                    let cell = match carry[j] {
                        None => None,
                        Some(b) => self.get_cell(&components[j], RowId(b.row_id)),
                    };
                    proof {
                        self.lemma_carry_is_latest(ent, tl, entries@, i as int, components@[j as int]@, carry@[j as int]);
                    }
                    cells.push(cell);
                    j = j + 1;
                }
                let ghost prev = out@;
                out.push((TimeInt(e.time), RowId(e.row_id), cells));
                proof {
                    assert(item_entry(out@[prev.len() as int]) == e);
                    assert forall|m1: int, m2: int| 0 <= m1 < m2 < out@.len() implies entry_lt(item_entry(#[trigger] out@[m1]), item_entry(#[trigger] out@[m2])) by {
                        if m2 == prev.len() {
                            let p = choose|p: int| 0 <= p < i && entries@[p] == item_entry(prev[m1]);
                            assert(entry_lt(entries@[p], entries@[i as int]));
                        } else {
                            assert(out@[m1] == prev[m1] && out@[m2] == prev[m2]);
                        }
                    }
                    assert forall|m: int| 0 <= m < out@.len() implies exists|p: int| 0 <= p < i + 1 && entries@[p] == item_entry(#[trigger] out@[m]) by {
                        if m == prev.len() {
                            assert(entries@[i as int] == item_entry(out@[m]));
                        } else {
                            assert(out@[m] == prev[m]);
                            let p = choose|p: int| 0 <= p < i && entries@[p] == item_entry(prev[m]);
                        }
                    }
                    assert forall|m: int| 0 <= m < out@.len() implies self.emits(ent, tl, lo, hi, primary@, item_entry(#[trigger] out@[m])) by {
                        if m < prev.len() {
                            assert(out@[m] == prev[m]);
                        }
                    }
                    assert forall|p: int| 0 <= p < i + 1 && #[trigger] self.emits(ent, tl, lo, hi, primary@, entries@[p])
                        implies exists|m: int| 0 <= m < out@.len() && item_entry(#[trigger] out@[m]) == entries@[p] by {
                        if p == i {
                            assert(item_entry(out@[prev.len() as int]) == entries@[p]);
                        } else {
                            let m = choose|m: int| 0 <= m < prev.len() && item_entry(#[trigger] prev[m]) == entries@[p];
                            assert(out@[m] == prev[m]);
                        }
                    }
                    assert forall|m: int, q: int| 0 <= m < out@.len() && 0 <= q < components@.len() implies self.joined_cell(
                        ent, tl, item_entry(out@[m]), components@[q]@, #[trigger] out@[m].2@[q]) by {
                        if m < prev.len() {
                            assert(out@[m] == prev[m]);
                        }
                    }
                    assert forall|m: int| 0 <= m < out@.len() implies (#[trigger] out@[m]).2@.len() == components@.len() by {
                        if m < prev.len() {
                            assert(out@[m] == prev[m]);
                        }
                    }
                }
            } else {
                proof {
                    assert(!self.emits(ent, tl, lo, hi, primary@, entries@[i as int]));
                }
            }
            let ghost i1: int = i + 1;
            i = i + 1;
            assert(i == i1);
        }
        proof {
            assert forall|x: IndexEntry| #[trigger] self.emits(ent, tl, lo, hi, primary@, x)
                implies exists|m: int| 0 <= m < out@.len() && item_entry(#[trigger] out@[m]) == x by {
                let p = choose|p: int| 0 <= p < entries@.len() && entries@[p] == x;
            }
        }
        out
    }

    /// In a sorted index, the carried entry for `c` after `i` is the latest one at or
    /// below entry `i`.
    proof fn lemma_carry_is_latest(&self, ent: Seq<char>, tl: TimelineView, entries: Seq<IndexEntry>, i: int, c: Seq<char>, carried: Option<IndexEntry>)
        requires
            0 <= i < entries.len(),
            sorted_entries(entries),
            forall|x: IndexEntry| #[trigger] self.indexed(ent, tl, x) <==> entries.contains(x),
            match carried {
                Some(b) => {
                    &&& exists|p: int| 0 <= p < i + 1 && entries[p] == b
                    &&& self.live(c, b.row_id)
                    &&& forall|p: int| 0 <= p < i + 1 && self.live(c, (#[trigger] entries[p]).row_id) ==> entry_le(entries[p], b)
                },
                None => forall|p: int| 0 <= p < i + 1 ==> !self.live(c, (#[trigger] entries[p]).row_id),
            },
        ensures
            match carried {
                Some(b) => self.is_latest(ent, tl, entries[i], c, b),
                None => !self.has_candidate(ent, tl, entries[i], c),
            },
    {
        let at = entries[i];
        assert forall|x: IndexEntry| #[trigger] self.indexed(ent, tl, x) && entry_le(x, at) implies
            exists|p: int| 0 <= p < i + 1 && entries[p] == x by {
            let p = choose|p: int| 0 <= p < entries.len() && entries[p] == x;
            if p > i {
                assert(entry_lt(entries[i], entries[p]));
            }
        }
        match carried {
            Some(b) => {
                let p0 = choose|p: int| 0 <= p < i + 1 && entries[p] == b;
                assert(entries.contains(b));
                if p0 < i {
                    assert(entry_lt(entries[p0], entries[i]));
                }
                assert forall|x: IndexEntry| #[trigger] self.indexed(ent, tl, x) && entry_le(x, at) && self.live(c, x.row_id)
                    implies entry_le(x, b) by {
                    let p = choose|p: int| 0 <= p < i + 1 && entries[p] == x;
                }
            },
            None => {
                if self.has_candidate(ent, tl, at, c) {
                    let x = choose|x: IndexEntry| #[trigger] self.indexed(ent, tl, x) && entry_le(x, at) && self.live(c, x.row_id);
                    let p = choose|p: int| 0 <= p < i + 1 && entries[p] == x;
                }
            },
        }
    }
}

/// What a range query leaves: the store keeps its data, and `res` is the stream join
/// over `[lo, hi]` of the entity's index on `tl`, driven by `primary`.
pub open spec fn range_post(
    s0: DataStore,
    s1: DataStore,
    ent: Seq<char>,
    tl: TimelineView,
    lo: i64,
    hi: i64,
    primary: Seq<char>,
    components: Seq<ComponentName>,
    res: Seq<RangeItem>,
) -> bool {
    &&& s1.wf()
    &&& s1.same_data(&s0)
    &&& forall|m1: int, m2: int| 0 <= m1 < m2 < res.len() ==> entry_lt(item_entry(#[trigger] res[m1]), item_entry(#[trigger] res[m2]))
    &&& forall|m: int| 0 <= m < res.len() ==> s1.emits(ent, tl, lo, hi, primary, item_entry(#[trigger] res[m]))
    &&& forall|e: IndexEntry| #[trigger] s1.emits(ent, tl, lo, hi, primary, e)
        ==> exists|m: int| 0 <= m < res.len() && item_entry(#[trigger] res[m]) == e
    &&& forall|m: int| 0 <= m < res.len() ==> (#[trigger] res[m]).2@.len() == components.len()
    &&& forall|m: int, k: int| 0 <= m < res.len() && 0 <= k < components.len() ==> s1.joined_cell(
        ent, tl, item_entry(res[m]), components[k]@, #[trigger] res[m].2@[k])
}

} // verus!
