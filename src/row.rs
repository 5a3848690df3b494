//! Cells, time points and rows, and the rules a row must meet to be stored.
use vstd::prelude::*;

use crate::types::{ComponentName, EntityPath, TimeInt, Timeline, TimelineView};

verus! {

/// One component's values for one row: a column of optional values.
#[derive(Debug)]
pub struct DataCell {
    pub component: ComponentName,
    pub values: Vec<Option<u64>>,
}

/// A cell as a value: its component's name and its slots.
pub type CellView = (Seq<char>, Seq<Option<u64>>);

impl View for DataCell {
    type V = CellView;

    open spec fn view(&self) -> CellView {
        (self.component@, self.values@)
    }
}

pub fn copy_values(values: &Vec<Option<u64>>) -> (r: Vec<Option<u64>>)
    ensures
        r@ == values@,
{
    let mut r: Vec<Option<u64>> = Vec::new();
    let mut i: usize = 0;
    while i < values.len()
        invariant
            i <= values.len(),
            r@ == values@.take(i as int),
        decreases values.len() - i,
    {
        r.push(values[i]);
        i = i + 1;
        assert(r@ =~= values@.take(i as int));
    }
    assert(values@.take(i as int) =~= values@);
    r
}

impl DataCell {
    /// A dense cell: every slot holds a value.
    pub fn from_component(component: ComponentName, values: Vec<u64>) -> (r: DataCell)
        ensures
            r@.0 == component@,
            r@.1 == values@.map_values(|v: u64| Some(v)),
    {
        let mut slots: Vec<Option<u64>> = Vec::new();
        let mut i: usize = 0;
        while i < values.len()
            invariant
                i <= values.len(),
                slots@ == values@.take(i as int).map_values(|v: u64| Some(v)),
            decreases values.len() - i,
        {
            slots.push(Some(values[i]));
            i = i + 1;
            assert(slots@ =~= values@.take(i as int).map_values(|v: u64| Some(v)));
        }
        assert(values@.take(i as int) =~= values@);
        DataCell { component, values: slots }
    }

    /// A cell whose slots may be empty.
    pub fn from_component_sparse(component: ComponentName, values: Vec<Option<u64>>) -> (r: DataCell)
        ensures
            r@ == (component@, values@),
    {
        DataCell { component, values }
    }

    pub fn num_instances(&self) -> (r: usize)
        ensures
            r == self@.1.len(),
    {
        self.values.len()
    }

    pub fn duplicate(&self) -> (r: DataCell)
        ensures
            r@ == self@,
    {
        DataCell { component: self.component.duplicate(), values: copy_values(&self.values) }
    }

    pub fn same_as(&self, other: &DataCell) -> (r: bool)
        ensures
            r == (self@ == other@),
    {
        if !self.component.same_as(&other.component) || self.values.len() != other.values.len() {
            return false;
        }
        let mut i: usize = 0;
        while i < self.values.len()
            invariant
                i <= self.values.len() == other.values.len(),
                forall|j: int| 0 <= j < i ==> self.values@[j] == other.values@[j],
            decreases self.values.len() - i,
        {
            if self.values[i] != other.values[i] {
                return false;
            }
            i = i + 1;
        }
        assert(self.values@ =~= other.values@);
        true
    }
}

/// The values of an instance-key cell numbered `0..n`.
pub open spec fn auto_instance_keys(n: nat) -> Seq<Option<u64>> {
    Seq::new(n, |i: int| Some(i as u64))
}

/// Whether no two entries of a time point share a timeline.
pub open spec fn distinct_timelines(tp: Seq<(TimelineView, i64)>) -> bool {
    forall|i: int, j: int| 0 <= i < tp.len() && 0 <= j < tp.len() && i != j ==> tp[i].0 != tp[j].0
}

/// Whether no two cells share a component.
pub open spec fn distinct_components(cells: Seq<CellView>) -> bool {
    forall|i: int, j: int|
        0 <= i < cells.len() && 0 <= j < cells.len() && i != j ==> cells[i].0 != cells[j].0
}

/// A row before the store accepts it.
#[derive(Debug)]
pub struct DataRow {
    ent_path: EntityPath,
    timepoint: Vec<(Timeline, TimeInt)>,
    num_instances: u32,
    cells: Vec<DataCell>,
}

/// A row as a value.
pub struct RowView {
    pub ent_path: Seq<char>,
    pub timepoint: Seq<(TimelineView, i64)>,
    pub num_instances: u32,
    pub cells: Seq<CellView>,
}

pub open spec fn timepoint_view(tp: Seq<(Timeline, TimeInt)>) -> Seq<(TimelineView, i64)> {
    tp.map_values(|e: (Timeline, TimeInt)| (e.0@, e.1.0))
}

pub open spec fn cells_view(cells: Seq<DataCell>) -> Seq<CellView> {
    cells.map_values(|c: DataCell| c@)
}

impl View for DataRow {
    type V = RowView;

    closed spec fn view(&self) -> RowView {
        RowView {
            ent_path: self.ent_path@,
            timepoint: timepoint_view(self.timepoint@),
            num_instances: self.num_instances,
            cells: cells_view(self.cells@),
        }
    }
}

impl DataRow {
    #[verifier::type_invariant]
    pub open spec fn inv(self) -> bool {
        &&& distinct_timelines(self@.timepoint)
        &&& distinct_components(self@.cells)
    }

    /// Builds a row; a time point holds each timeline once and a row each component once.
    pub fn new(
        ent_path: EntityPath,
        timepoint: Vec<(Timeline, TimeInt)>,
        num_instances: u32,
        cells: Vec<DataCell>,
    ) -> (r: DataRow)
        requires
            distinct_timelines(timepoint_view(timepoint@)),
            distinct_components(cells_view(cells@)),
        ensures
            r@.ent_path == ent_path@,
            r@.timepoint == timepoint_view(timepoint@),
            r@.num_instances == num_instances,
            r@.cells == cells_view(cells@),
    {
        DataRow { ent_path, timepoint, num_instances, cells }
    }

    pub fn ent_path(&self) -> (r: &EntityPath)
        ensures
            r@ == self@.ent_path,
    {
        &self.ent_path
    }

    pub fn num_instances(&self) -> (r: u32)
        ensures
            r == self@.num_instances,
    {
        self.num_instances
    }

    pub fn num_timelines(&self) -> (r: usize)
        ensures
            r == self@.timepoint.len(),
    {
        self.timepoint.len()
    }

    pub fn time_at(&self, i: usize) -> (r: (&Timeline, TimeInt))
        requires
            i < self@.timepoint.len(),
        ensures
            (r.0@, r.1.0) == self@.timepoint[i as int],
    {
        (&self.timepoint[i].0, self.timepoint[i].1)
    }

    pub fn num_cells(&self) -> (r: usize)
        ensures
            r == self@.cells.len(),
    {
        self.cells.len()
    }

    /// Where the cell of component `name` stands among the row's cells.
    pub fn cell_index(&self, name: &ComponentName) -> (r: Option<usize>)
        ensures
            r matches Some(k) ==> k < self@.cells.len() && self@.cells[k as int].0 == name@,
            r is None ==> forall|j: int| 0 <= j < self@.cells.len() ==> (#[trigger] self@.cells[j]).0 != name@,
    {
        let r = find_cell(&self.cells, name);
        proof {
            if r is None {
                assert forall|j: int| 0 <= j < self@.cells.len() implies (#[trigger] self@.cells[j]).0 != name@ by {
                    assert(self@.cells[j] == self.cells@[j]@);
                }
            }
        }
        r
    }

    pub fn cell(&self, i: usize) -> (r: &DataCell)
        requires
            i < self@.cells.len(),
        ensures
            r@ == self@.cells[i as int],
    {
        &self.cells[i]
    }
}

/// Why the store refused a row.
#[derive(Debug)]
pub enum WriteError {
    /// The instance-key cell has an empty slot.
    SparseClusteringComponent(DataCell),
    /// The instance keys are not strictly ascending: out of order or repeated.
    InvalidClusteringComponent(DataCell),
    /// A cell's length is neither the row's instance count nor, for a cell other
    /// than the instance keys, one.
    MismatchedInstances { component: ComponentName, expected: u32, found: usize },
}

/// The outcome of the row rules, as a value.
pub enum RowCheck {
    Accepted,
    Sparse,
    Unsorted,
    Mismatched,
}

pub open spec fn is_dense(v: Seq<Option<u64>>) -> bool {
    forall|i: int| 0 <= i < v.len() ==> (#[trigger] v[i]) is Some
}

pub open spec fn below_next(v: Seq<Option<u64>>, i: int) -> bool {
    v[i].unwrap() < v[i + 1].unwrap()
}

/// Each value is below the next one: sorted, with no value twice.
pub open spec fn strictly_ascending(v: Seq<Option<u64>>) -> bool {
    forall|i: int| 0 <= i && i + 1 < v.len() ==> #[trigger] below_next(v, i)
}

/// The instance keys hold as many values as the row has instances; another cell as many,
/// or one value that stands for all of them.
pub open spec fn length_fits(cell: CellView, n: u32, cluster: Seq<char>) -> bool {
    if cell.0 == cluster {
        cell.1.len() == n
    } else {
        cell.1.len() == n || cell.1.len() == 1
    }
}

pub open spec fn is_cluster_cell(cells: Seq<CellView>, k: int, cluster: Seq<char>) -> bool {
    0 <= k < cells.len() && cells[k].0 == cluster
}

/// The rules of a row, in the order in which they are applied.
pub open spec fn check_row(row: RowView, cluster: Seq<char>) -> RowCheck {
    if exists|k: int| #[trigger]
        is_cluster_cell(row.cells, k, cluster) && !is_dense(row.cells[k].1) {
        RowCheck::Sparse
    } else if exists|k: int| #[trigger]
        is_cluster_cell(row.cells, k, cluster) && !strictly_ascending(row.cells[k].1) {
        RowCheck::Unsorted
    } else if exists|k: int|
        0 <= k < row.cells.len() && !length_fits(#[trigger] row.cells[k], row.num_instances, cluster) {
        RowCheck::Mismatched
    } else {
        RowCheck::Accepted
    }
}

pub open spec fn check_of(r: Result<(), WriteError>) -> RowCheck {
    match r {
        Ok(()) => RowCheck::Accepted,
        Err(WriteError::SparseClusteringComponent(_)) => RowCheck::Sparse,
        Err(WriteError::InvalidClusteringComponent(_)) => RowCheck::Unsorted,
        Err(WriteError::MismatchedInstances { .. }) => RowCheck::Mismatched,
    }
}

fn first_gap(v: &Vec<Option<u64>>) -> (r: Option<usize>)
    ensures
        r is None <==> is_dense(v@),
{
    let mut i: usize = 0;
    while i < v.len()
        invariant
            i <= v.len(),
            forall|j: int| 0 <= j < i ==> (#[trigger] v@[j]) is Some,
        decreases v.len() - i,
    {
        if v[i].is_none() {
            return Some(i);
        }
        i = i + 1;
    }
    None
}

fn ascending(v: &Vec<Option<u64>>) -> (r: bool)
    requires
        is_dense(v@),
    ensures
        r == strictly_ascending(v@),
{
    let mut i: usize = 1;
    while i < v.len()
        invariant
            1 <= i,
            is_dense(v@),
            forall|j: int| 0 <= j && j + 1 < i && j + 1 < v.len() ==> #[trigger] below_next(v@, j),
        decreases v.len() - i,
    {
        let a = v[i - 1];
        let b = v[i];
        assert(a is Some && b is Some);
        if a.unwrap() >= b.unwrap() {
            assert(!below_next(v@, i - 1));
            return false;
        }
        i = i + 1;
    }
    true
}

/// Finds the cell of a component in a row's cells.
pub fn find_cell(cells: &Vec<DataCell>, name: &ComponentName) -> (r: Option<usize>)
    ensures
        r matches Some(k) ==> k < cells@.len() && cells@[k as int]@.0 == name@,
        r is None ==> forall|j: int| 0 <= j < cells@.len() ==> (#[trigger] cells@[j])@.0 != name@,
{
    let mut k: usize = 0;
    while k < cells.len()
        invariant
            k <= cells@.len(),
            forall|j: int| 0 <= j < k ==> (#[trigger] cells@[j])@.0 != name@,
        decreases cells.len() - k,
    {
        if cells[k].component.same_as(name) {
            return Some(k);
        }
        k = k + 1;
    }
    None
}

/// Applies the row rules; `cluster` names the instance-key component.
pub fn validate_row(row: &DataRow, cluster: &ComponentName) -> (r: Result<(), WriteError>)
    ensures
        check_of(r) == check_row(row@, cluster@),
        r matches Err(WriteError::SparseClusteringComponent(c)) ==> c@.0 == cluster@
            && row@.cells.contains(c@),
        r matches Err(WriteError::InvalidClusteringComponent(c)) ==> c@.0 == cluster@
            && row@.cells.contains(c@),
        r matches Err(WriteError::MismatchedInstances { component, expected, found }) ==> {
            &&& expected == row@.num_instances
            &&& exists|k: int| 0 <= k < row@.cells.len() && row@.cells[k].0 == component@
                && row@.cells[k].1.len() == found
        },
{
    proof {
        use_type_invariant(row);
    }
    let n = row.cells.len();
    assert(cells_view(row.cells@).len() == n);
    if let Some(k) = find_cell(&row.cells, cluster) {
        let c = &row.cells[k];
        assert(row@.cells[k as int] == c@);
        assert(is_cluster_cell(row@.cells, k as int, cluster@));
        assert forall|j: int| #[trigger] is_cluster_cell(row@.cells, j, cluster@) implies j == k by {
            if j != k {
                assert(row@.cells[j].0 != row@.cells[k as int].0);
            }
        }
        if first_gap(&c.values).is_some() {
            return Err(WriteError::SparseClusteringComponent(c.duplicate()));
        }
        if !ascending(&c.values) {
            return Err(WriteError::InvalidClusteringComponent(c.duplicate()));
        }
    } else {
        assert forall|j: int| !(#[trigger] is_cluster_cell(row@.cells, j, cluster@)) by {
            if 0 <= j < n {
                assert(row@.cells[j] == row.cells@[j]@);
            }
        }
    }
    let mut i: usize = 0;
    while i < n
        invariant
            n == row@.cells.len(),
            i <= n,
            !exists|k: int| #[trigger]
                is_cluster_cell(row@.cells, k, cluster@) && !is_dense(row@.cells[k].1),
            !exists|k: int| #[trigger]
                is_cluster_cell(row@.cells, k, cluster@) && !strictly_ascending(row@.cells[k].1),
            forall|j: int| 0 <= j < i ==> length_fits(#[trigger] row@.cells[j], row@.num_instances, cluster@),
        decreases n - i,
    {
        let c = &row.cells[i];
        let len = c.values.len();
        let fits = if c.component.same_as(cluster) {
            len == row.num_instances as usize
        } else {
            len == row.num_instances as usize || len == 1
        };
        assert(row@.cells[i as int] == c@);
        if !fits {
            assert(!length_fits(row@.cells[i as int], row@.num_instances, cluster@));
            return Err(WriteError::MismatchedInstances {
                component: c.component.duplicate(),
                expected: row.num_instances,
                found: len,
            });
        }
        i = i + 1;
    }
    Ok(())
}

} // verus!
