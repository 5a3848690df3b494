//! The store: row metadata, one index per entity and timeline, one table per component.
use vstd::prelude::*;

use crate::component::ComponentTable;
use crate::index::{IndexEntry, IndexTable};
use crate::types::{ComponentName, EntityPath, TimeInt, Timeline, TimelineView};

pub mod gc;
pub mod latest;
pub mod laws;
pub mod range;
pub mod sanity;
pub mod write;

pub use gc::GarbageCollectionTarget;
pub use latest::LatestAtQuery;
pub use range::{RangeItem, RangeQuery, TimeRange};
pub use sanity::SanityError;

verus! {

/// How component buckets roll over.
#[derive(Debug)]
pub struct DataStoreConfig {
    /// Rows a component bucket takes before a new one is started; 0 gives each row its own.
    pub component_bucket_nb_rows: u64,
    /// Bytes a component bucket takes before a new one is started.
    pub component_bucket_size_bytes: u64,
    /// Entries an index bucket takes before a later time starts a new one.
    pub index_bucket_nb_rows: u64,
    /// Bytes an index bucket takes before a later time starts a new one; an entry takes 16.
    pub index_bucket_size_bytes: u64,
}

impl Default for DataStoreConfig {
    fn default() -> (r: DataStoreConfig)
        ensures
            r.component_bucket_nb_rows == u64::MAX,
            r.component_bucket_size_bytes == 32 * 1024 * 1024,
            r.index_bucket_nb_rows == 1024,
            r.index_bucket_size_bytes == 32 * 1024,
    {
        DataStoreConfig {
            component_bucket_nb_rows: u64::MAX,
            component_bucket_size_bytes: 32 * 1024 * 1024,
            index_bucket_nb_rows: 1024,
            index_bucket_size_bytes: 32 * 1024,
        }
    }
}

/// A spread of configurations, from a bucket per row to buckets that never roll over.
pub fn all_configs() -> (r: Vec<DataStoreConfig>)
    ensures
        r@.len() == 4,
        r@[0] == (DataStoreConfig { component_bucket_nb_rows: 0, component_bucket_size_bytes: u64::MAX,
            index_bucket_nb_rows: 0, index_bucket_size_bytes: u64::MAX }),
        r@[1] == (DataStoreConfig { component_bucket_nb_rows: 2, component_bucket_size_bytes: u64::MAX,
            index_bucket_nb_rows: 2, index_bucket_size_bytes: u64::MAX }),
        r@[2] == (DataStoreConfig { component_bucket_nb_rows: u64::MAX, component_bucket_size_bytes: 0,
            index_bucket_nb_rows: u64::MAX, index_bucket_size_bytes: 0 }),
        r@[3] == (DataStoreConfig { component_bucket_nb_rows: u64::MAX, component_bucket_size_bytes: u64::MAX,
            index_bucket_nb_rows: u64::MAX, index_bucket_size_bytes: u64::MAX }),
{
    let mut r: Vec<DataStoreConfig> = Vec::new();
    r.push(DataStoreConfig { component_bucket_nb_rows: 0, component_bucket_size_bytes: u64::MAX,
        index_bucket_nb_rows: 0, index_bucket_size_bytes: u64::MAX });
    r.push(DataStoreConfig { component_bucket_nb_rows: 2, component_bucket_size_bytes: u64::MAX,
        index_bucket_nb_rows: 2, index_bucket_size_bytes: u64::MAX });
    r.push(DataStoreConfig { component_bucket_nb_rows: u64::MAX, component_bucket_size_bytes: 0,
        index_bucket_nb_rows: u64::MAX, index_bucket_size_bytes: 0 });
    r.push(DataStoreConfig { component_bucket_nb_rows: u64::MAX, component_bucket_size_bytes: u64::MAX,
        index_bucket_nb_rows: u64::MAX, index_bucket_size_bytes: u64::MAX });
    r
}

/// What the store remembers of a row until it is told to forget.
#[derive(Debug)]
pub struct RowMetadata {
    pub ent_path: EntityPath,
    pub timepoint: Vec<(Timeline, TimeInt)>,
    pub num_instances: u32,
}

/// A store of rows. Each accepted row gets the next row id; its metadata is kept until
/// cleared, its `(time, row id)` goes to the index of its entity on each of its
/// timelines, and each of its cells to the table of its component.
#[derive(Debug)]
pub struct DataStore {
    cluster_key: ComponentName,
    config: DataStoreConfig,
    metadata: Vec<Option<RowMetadata>>,
    indices: Vec<IndexTable>,
    components: Vec<ComponentTable>,
}

impl DataStore {
    /// The number of rows accepted so far; the next row gets this id.
    pub closed spec fn num_rows(&self) -> nat {
        self.metadata@.len()
    }

    /// The component whose cells number the instances of each row.
    pub closed spec fn cluster(&self) -> Seq<char> {
        self.cluster_key@
    }

    pub closed spec fn table_is(&self, t: int, c: Seq<char>) -> bool {
        0 <= t < self.components@.len() && self.components@[t].name@ == c
    }

    /// Component `c` holds a cell for row `r`.
    pub closed spec fn live(&self, c: Seq<char>, r: u64) -> bool {
        exists|t: int| #[trigger] self.table_is(t, c) && self.components@[t].live(r)
    }

    /// Component `c` holds the values `v` for row `r`.
    pub closed spec fn holds(&self, c: Seq<char>, r: u64, v: Seq<Option<u64>>) -> bool {
        exists|t: int| #[trigger] self.table_is(t, c) && self.components@[t].holds(r, v)
    }

    pub closed spec fn index_is(&self, t: int, ent: Seq<char>, tl: TimelineView) -> bool {
        0 <= t < self.indices@.len() && self.indices@[t].ent_path@ == ent && self.indices@[t].timeline@ == tl
    }

    /// Rows of entity `ent` have been logged on timeline `tl`.
    pub closed spec fn has_index(&self, ent: Seq<char>, tl: TimelineView) -> bool {
        exists|t: int| #[trigger] self.index_is(t, ent, tl)
    }

    /// The index of entity `ent` on timeline `tl` holds `e`.
    pub closed spec fn indexed(&self, ent: Seq<char>, tl: TimelineView, e: IndexEntry) -> bool {
        exists|t: int| #[trigger] self.index_is(t, ent, tl) && self.indices@[t].has(e)
    }

    /// The store still keeps the metadata of row `r`.
    pub closed spec fn has_metadata(&self, r: u64) -> bool {
        r < self.metadata@.len() && self.metadata@[r as int] is Some
    }

    /// The metadata kept for row `r`.
    pub closed spec fn metadata_of(&self, r: u64) -> RowMetadata {
        self.metadata@[r as int].unwrap()
    }

    /// The number of cells in all component tables.
    pub closed spec fn total_rows(&self) -> nat {
        tables_rows(self.components@)
    }

    /// No component table has a bucket left to evict.
    pub closed spec fn settled(&self) -> bool {
        forall|t: int| 0 <= t < self.components@.len() ==> (#[trigger] self.components@[t]).buckets@.len() == 1
    }

    /// The store's invariant: well-formed tables with known row ids that ascend, one table
    /// per component, well-formed indices with known row ids, one index per entity and
    /// timeline, one-row buckets where configured, and instance counts that agree.
    pub closed spec fn wf(&self) -> bool {
        &&& forall|t: int| 0 <= t < self.components@.len() ==> {
            &&& (#[trigger] self.components@[t]).wf()
            &&& self.components@[t].ids_below(self.num_rows())
        }
        &&& forall|t1: int, t2: int| 0 <= t1 < self.components@.len() && 0 <= t2 < self.components@.len()
            && t1 != t2 ==> (#[trigger] self.components@[t1]).name@ != (#[trigger] self.components@[t2]).name@
        &&& forall|t: int| 0 <= t < self.indices@.len() ==> {
            &&& (#[trigger] self.indices@[t]).wf()
            &&& self.indices@[t].ids_below(self.num_rows())
        }
        &&& forall|t1: int, t2: int| 0 <= t1 < self.indices@.len() && 0 <= t2 < self.indices@.len() && t1 != t2
            ==> !((#[trigger] self.indices@[t1]).ent_path@ == (#[trigger] self.indices@[t2]).ent_path@
                && self.indices@[t1].timeline@ == self.indices@[t2].timeline@)
        &&& self.config.component_bucket_nb_rows == 0 ==> forall|t: int| 0 <= t < self.components@.len()
            ==> (#[trigger] self.components@[t]).single_rows()
        &&& self.instances_agree()
    }

    /// Each row whose metadata is kept has as many instance keys as it declared.
    pub closed spec fn instances_agree(&self) -> bool {
        forall|r: u64, v: Seq<Option<u64>>| #[trigger] self.holds(self.cluster_key@, r, v) && self.has_metadata(r)
            ==> v.len() == self.metadata_of(r).num_instances
    }

    /// Each component bucket takes a single row.
    pub closed spec fn one_row_buckets(&self) -> bool {
        self.config.component_bucket_nb_rows == 0
    }

    /// The number of component tables.
    pub closed spec fn num_components(&self) -> nat {
        self.components@.len()
    }

    pub fn new(cluster_key: ComponentName, config: DataStoreConfig) -> (s: DataStore)
        ensures
            s.wf(),
            s.num_rows() == 0,
            s.cluster() == cluster_key@,
            s.total_rows() == 0,
            forall|c: Seq<char>, r: u64| !s.live(c, r),
            forall|ent: Seq<char>, tl: TimelineView| !s.has_index(ent, tl),
    {
        DataStore {
            cluster_key,
            config,
            metadata: Vec::new(),
            indices: Vec::new(),
            components: Vec::new(),
        }
    }

    pub fn cluster_key(&self) -> (r: &ComponentName)
        ensures
            r@ == self.cluster(),
    {
        &self.cluster_key
    }

    fn find_table(&self, c: &ComponentName) -> (r: Option<usize>)
        ensures
            r matches Some(t) ==> self.table_is(t as int, c@),
            r is None ==> forall|t: int| !self.table_is(t, c@),
    {
        let mut t: usize = 0;
        while t < self.components.len()
            invariant
                t <= self.components@.len(),
                forall|t2: int| 0 <= t2 < t ==> !self.table_is(t2, c@),
            decreases self.components.len() - t,
        {
            if self.components[t].name.same_as(c) {
                return Some(t);
            }
            t = t + 1;
        }
        None
    }

    fn find_index(&self, ent: &EntityPath, tl: &Timeline) -> (r: Option<usize>)
        ensures
            r matches Some(t) ==> self.index_is(t as int, ent@, tl@),
            r is None ==> forall|t: int| !self.index_is(t, ent@, tl@),
    {
        let mut t: usize = 0;
        while t < self.indices.len()
            invariant
                t <= self.indices@.len(),
                forall|t2: int| 0 <= t2 < t ==> !self.index_is(t2, ent@, tl@),
            decreases self.indices.len() - t,
        {
            if self.indices[t].ent_path.same_as(ent) && self.indices[t].timeline.same_as(tl) {
                return Some(t);
            }
            t = t + 1;
        }
        None
    }
}

/// The number of cells in a run of component tables.
pub open spec fn tables_rows(tables: Seq<ComponentTable>) -> nat
    decreases tables.len(),
{
    if tables.len() == 0 {
        0
    } else {
        tables_rows(tables.drop_last()) + tables.last().num_rows()
    }
}

pub proof fn lemma_tables_rows_update(tables: Seq<ComponentTable>, t: int, x: ComponentTable)
    requires
        0 <= t < tables.len(),
    ensures
        tables_rows(tables.update(t, x)) + tables[t].num_rows() == tables_rows(tables) + x.num_rows(),
    decreases tables.len(),
{
    if t == tables.len() - 1 {
        assert(tables.update(t, x).drop_last() =~= tables.drop_last());
    } else {
        lemma_tables_rows_update(tables.drop_last(), t, x);
        assert(tables.update(t, x).drop_last() =~= tables.drop_last().update(t, x));
    }
}

impl DataStore {
    /// Both stores hold the same rows, cells, index entries and metadata; only the
    /// order inside indices may differ.
    pub closed spec fn same_data(&self, other: &DataStore) -> bool {
        &&& self.components == other.components
        &&& self.metadata == other.metadata
        &&& self.cluster_key == other.cluster_key
        &&& self.config == other.config
        &&& self.indices@.len() == other.indices@.len()
        &&& forall|t: int| 0 <= t < self.indices@.len() ==> {
            &&& (#[trigger] self.indices@[t]).ent_path == other.indices@[t].ent_path
            &&& self.indices@[t].timeline == other.indices@[t].timeline
            &&& forall|e: IndexEntry| self.indices@[t].has(e) <==> other.indices@[t].has(e)
        }
    }

    /// Stores with the same data answer every question alike.
    pub proof fn lemma_same_data(&self, other: &DataStore)
        requires
            self.same_data(other),
        ensures
            self.num_rows() == other.num_rows(),
            self.cluster() == other.cluster(),
            self.total_rows() == other.total_rows(),
            self.settled() == other.settled(),
            forall|c: Seq<char>, r: u64, v: Seq<Option<u64>>| self.holds(c, r, v) == other.holds(c, r, v),
            forall|c: Seq<char>, r: u64| self.live(c, r) == other.live(c, r),
            forall|ent: Seq<char>, tl: TimelineView, e: IndexEntry| self.indexed(ent, tl, e) == other.indexed(ent, tl, e),
            forall|ent: Seq<char>, tl: TimelineView| self.has_index(ent, tl) == other.has_index(ent, tl),
            forall|r: u64| self.has_metadata(r) == other.has_metadata(r),
    {
        lemma_same_components(*self, *other);
        assert forall|ent: Seq<char>, tl: TimelineView, e: IndexEntry| self.indexed(ent, tl, e) == other.indexed(ent, tl, e) by {
            if self.indexed(ent, tl, e) {
                let t = choose|t: int| #[trigger] self.index_is(t, ent, tl) && self.indices@[t].has(e);
                assert(other.index_is(t, ent, tl));
            }
            if other.indexed(ent, tl, e) {
                let t = choose|t: int| #[trigger] other.index_is(t, ent, tl) && other.indices@[t].has(e);
                assert(self.index_is(t, ent, tl));
            }
        }
        assert forall|ent: Seq<char>, tl: TimelineView| self.has_index(ent, tl) == other.has_index(ent, tl) by {
            if self.has_index(ent, tl) {
                let t = choose|t: int| #[trigger] self.index_is(t, ent, tl);
                assert(other.index_is(t, ent, tl));
            }
            if other.has_index(ent, tl) {
                let t = choose|t: int| #[trigger] other.index_is(t, ent, tl);
                assert(self.index_is(t, ent, tl));
            }
        }
    }

    /// Both stores hold the same cells and index entries; their metadata may differ.
    pub closed spec fn same_cells(&self, other: &DataStore) -> bool {
        &&& self.components == other.components
        &&& self.metadata@.len() == other.metadata@.len()
        &&& self.cluster_key == other.cluster_key
        &&& self.config == other.config
        &&& self.indices@.len() == other.indices@.len()
        &&& forall|t: int| 0 <= t < self.indices@.len() ==> {
            &&& (#[trigger] self.indices@[t]).ent_path == other.indices@[t].ent_path
            &&& self.indices@[t].timeline == other.indices@[t].timeline
            &&& forall|e: IndexEntry| self.indices@[t].has(e) <==> other.indices@[t].has(e)
        }
    }

    /// Stores with the same cells answer every query alike.
    pub proof fn lemma_same_cells(&self, other: &DataStore)
        requires
            self.same_cells(other),
        ensures
            self.num_rows() == other.num_rows(),
            self.cluster() == other.cluster(),
            self.total_rows() == other.total_rows(),
            self.settled() == other.settled(),
            forall|c: Seq<char>, r: u64, v: Seq<Option<u64>>| self.holds(c, r, v) == other.holds(c, r, v),
            forall|c: Seq<char>, r: u64| self.live(c, r) == other.live(c, r),
            forall|ent: Seq<char>, tl: TimelineView, e: IndexEntry| self.indexed(ent, tl, e) == other.indexed(ent, tl, e),
            forall|ent: Seq<char>, tl: TimelineView| self.has_index(ent, tl) == other.has_index(ent, tl),
    {
        lemma_same_components(*self, *other);
        assert forall|ent: Seq<char>, tl: TimelineView, e: IndexEntry| self.indexed(ent, tl, e) == other.indexed(ent, tl, e) by {
            if self.indexed(ent, tl, e) {
                let t = choose|t: int| #[trigger] self.index_is(t, ent, tl) && self.indices@[t].has(e);
                assert(other.index_is(t, ent, tl));
            }
            if other.indexed(ent, tl, e) {
                let t = choose|t: int| #[trigger] other.index_is(t, ent, tl) && other.indices@[t].has(e);
                assert(self.index_is(t, ent, tl));
            }
        }
        assert forall|ent: Seq<char>, tl: TimelineView| self.has_index(ent, tl) == other.has_index(ent, tl) by {
            if self.has_index(ent, tl) {
                let t = choose|t: int| #[trigger] self.index_is(t, ent, tl);
                assert(other.index_is(t, ent, tl));
            }
            if other.has_index(ent, tl) {
                let t = choose|t: int| #[trigger] other.index_is(t, ent, tl);
                assert(self.index_is(t, ent, tl));
            }
        }
    }
}

impl DataStore {
    /// The index found at `it` is the only one of its entity and timeline.
    proof fn lemma_index_at(&self, it: int, ent: Seq<char>, tl: TimelineView)
        requires
            self.wf(),
            self.index_is(it, ent, tl),
        ensures
            forall|e: IndexEntry| #[trigger] self.indexed(ent, tl, e) <==> self.indices@[it].has(e),
    {
        assert forall|e: IndexEntry| #[trigger] self.indexed(ent, tl, e) <==> self.indices@[it].has(e) by {
            if self.indexed(ent, tl, e) {
                let t = choose|t: int| #[trigger] self.index_is(t, ent, tl) && self.indices@[t].has(e);
                if t != it {
                    assert(!(self.indices@[t].ent_path@ == self.indices@[it].ent_path@
                        && self.indices@[t].timeline@ == self.indices@[it].timeline@));
                }
            }
        }
    }

    proof fn lemma_no_index(&self, ent: Seq<char>, tl: TimelineView)
        requires
            forall|t: int| !self.index_is(t, ent, tl),
        ensures
            forall|e: IndexEntry| !#[trigger] self.indexed(ent, tl, e),
            !self.has_index(ent, tl),
    {
    }

    /// The table found at `t` is the only one of its component.
    proof fn lemma_table_at(&self, t: int, c: Seq<char>)
        requires
            self.wf(),
            self.table_is(t, c),
        ensures
            forall|r: u64| #[trigger] self.live(c, r) <==> self.components@[t].live(r),
            forall|r: u64, v: Seq<Option<u64>>| #[trigger] self.holds(c, r, v) <==> self.components@[t].holds(r, v),
    {
        assert forall|r: u64| #[trigger] self.live(c, r) <==> self.components@[t].live(r) by {
            if self.live(c, r) {
                let t2 = choose|t2: int| #[trigger] self.table_is(t2, c) && self.components@[t2].live(r);
                if t2 != t {
                    assert(self.components@[t2].name@ != self.components@[t].name@);
                }
            }
        }
        assert forall|r: u64, v: Seq<Option<u64>>| #[trigger] self.holds(c, r, v) <==> self.components@[t].holds(r, v) by {
            if self.holds(c, r, v) {
                let t2 = choose|t2: int| #[trigger] self.table_is(t2, c) && self.components@[t2].holds(r, v);
                if t2 != t {
                    assert(self.components@[t2].name@ != self.components@[t].name@);
                }
            }
        }
    }

}

/// `a` keeps the instance counts of `b` when each of its instance-key cells with
/// metadata is one of `b`'s, with the same metadata.
proof fn lemma_agree_frame(a: DataStore, b: DataStore)
    requires
        b.instances_agree(),
        a.cluster_key@ == b.cluster_key@,
        forall|r: u64, v: Seq<Option<u64>>| #[trigger] a.holds(a.cluster_key@, r, v) && a.has_metadata(r)
            ==> b.holds(b.cluster_key@, r, v) && b.has_metadata(r)
                && a.metadata_of(r).num_instances == b.metadata_of(r).num_instances,
    ensures
        a.instances_agree(),
{
    assert forall|r: u64, v: Seq<Option<u64>>| #[trigger] a.holds(a.cluster_key@, r, v) && a.has_metadata(r)
        implies v.len() == a.metadata_of(r).num_instances by {
        assert(b.holds(b.cluster_key@, r, v));
    }
}

/// `a` is `b` with the cell `v` of component `c` for row `r` added.
proof fn lemma_agree_frame_one(a: DataStore, b: DataStore, c: Seq<char>, r: u64, v: Seq<Option<u64>>)
    requires
        b.instances_agree(),
        a.cluster_key == b.cluster_key,
        a.metadata == b.metadata,
        c == b.cluster_key@ && b.has_metadata(r) ==> v.len() == b.metadata_of(r).num_instances,
        forall|c2: Seq<char>, r2: u64, v2: Seq<Option<u64>>|
            a.holds(c2, r2, v2) <==> (b.holds(c2, r2, v2) || (c2 == c && r2 == r && v2 == v)),
    ensures
        a.instances_agree(),
{
    assert forall|r2: u64, v2: Seq<Option<u64>>| #[trigger] a.holds(a.cluster_key@, r2, v2) && a.has_metadata(r2)
        implies v2.len() == a.metadata_of(r2).num_instances by {
        if b.holds(b.cluster_key@, r2, v2) {
        }
    }
}

proof fn lemma_same_indices(a: DataStore, b: DataStore)
    requires
        a.indices == b.indices,
    ensures
        forall|ent: Seq<char>, tl: TimelineView, e: IndexEntry| a.indexed(ent, tl, e) == b.indexed(ent, tl, e),
        forall|ent: Seq<char>, tl: TimelineView| a.has_index(ent, tl) == b.has_index(ent, tl),
{
    assert forall|ent: Seq<char>, tl: TimelineView, e: IndexEntry| a.indexed(ent, tl, e) == b.indexed(ent, tl, e) by {
        if a.indexed(ent, tl, e) {
            let t = choose|t: int| #[trigger] a.index_is(t, ent, tl) && a.indices@[t].has(e);
            assert(b.index_is(t, ent, tl));
        }
        if b.indexed(ent, tl, e) {
            let t = choose|t: int| #[trigger] b.index_is(t, ent, tl) && b.indices@[t].has(e);
            assert(a.index_is(t, ent, tl));
        }
    }
    assert forall|ent: Seq<char>, tl: TimelineView| a.has_index(ent, tl) == b.has_index(ent, tl) by {
        if a.has_index(ent, tl) {
            let t = choose|t: int| #[trigger] a.index_is(t, ent, tl);
            assert(b.index_is(t, ent, tl));
        }
        if b.has_index(ent, tl) {
            let t = choose|t: int| #[trigger] b.index_is(t, ent, tl);
            assert(a.index_is(t, ent, tl));
        }
    }
}

proof fn lemma_same_components(a: DataStore, b: DataStore)
    requires
        a.components == b.components,
    ensures
        forall|c: Seq<char>, r: u64, v: Seq<Option<u64>>| a.holds(c, r, v) == b.holds(c, r, v),
        forall|c: Seq<char>, r: u64| a.live(c, r) == b.live(c, r),
        a.total_rows() == b.total_rows(),
        a.settled() == b.settled(),
{
    assert forall|c: Seq<char>, r: u64, v: Seq<Option<u64>>| a.holds(c, r, v) == b.holds(c, r, v) by {
        if a.holds(c, r, v) {
            let t = choose|t: int| #[trigger] a.table_is(t, c) && a.components@[t].holds(r, v);
            assert(b.table_is(t, c));
        }
        if b.holds(c, r, v) {
            let t = choose|t: int| #[trigger] b.table_is(t, c) && b.components@[t].holds(r, v);
            assert(a.table_is(t, c));
        }
    }
    assert forall|c: Seq<char>, r: u64| a.live(c, r) == b.live(c, r) by {
        if a.live(c, r) {
            let t = choose|t: int| #[trigger] a.table_is(t, c) && a.components@[t].live(r);
            assert(b.table_is(t, c));
        }
        if b.live(c, r) {
            let t = choose|t: int| #[trigger] b.table_is(t, c) && b.components@[t].live(r);
            assert(a.table_is(t, c));
        }
    }
}

} // verus!
