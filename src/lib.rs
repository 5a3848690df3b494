//! An in-memory, time-indexed, column-oriented store for entity data.
//!
//! Rows carry an entity path, a time point on one or more timelines and one
//! cell per component. The store answers latest-at and range queries and
//! evicts its oldest data on request.
use vstd::prelude::*;

pub mod component;
pub mod index;
pub mod row;
pub mod store;
pub mod types;

pub use index::IndexEntry;
pub use row::{DataCell, DataRow, WriteError};
pub use store::{
    DataStore, DataStoreConfig, GarbageCollectionTarget, LatestAtQuery, RangeItem, RangeQuery, RowMetadata,
    SanityError, TimeRange, all_configs,
};
pub use types::{ComponentName, EntityPath, RowId, TimeInt, TimeType, Timeline};

verus! {

} // verus!
