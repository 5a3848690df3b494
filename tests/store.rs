//! Scenarios for the store's rules, queries and collection.

use entity_store::{
    ComponentName, DataCell, DataRow, DataStore, DataStoreConfig, EntityPath,
    GarbageCollectionTarget, LatestAtQuery, RangeQuery, RowId, TimeInt, TimeRange, TimeType,
    Timeline, WriteError,
};

fn keys() -> ComponentName {
    ComponentName::new("instance_key")
}

fn points() -> ComponentName {
    ComponentName::new("point2d")
}

fn colors() -> ComponentName {
    ComponentName::new("color_rgba")
}

fn frame_nr() -> Timeline {
    Timeline::new("frame_nr", TimeType::Sequence)
}

fn at_frame(frame: i64) -> Vec<(Timeline, TimeInt)> {
    vec![(frame_nr(), TimeInt(frame))]
}

fn cell(name: ComponentName, values: &[u64]) -> DataCell {
    DataCell::from_component(name, values.to_vec())
}

fn row(ent: &str, timepoint: Vec<(Timeline, TimeInt)>, n: u32, cells: Vec<DataCell>) -> DataRow {
    DataRow::new(EntityPath::new(ent), timepoint, n, cells)
}

fn latest(store: &DataStore, ent: &str, frame: i64, components: &[ComponentName]) -> Option<Vec<Option<RowId>>> {
    let components: Vec<ComponentName> = components.iter().map(|c| c.duplicate()).collect();
    store.latest_at(
        &LatestAtQuery::new(frame_nr(), TimeInt(frame)),
        &EntityPath::new(ent),
        &keys(),
        &components,
    )
}

fn one_row_buckets() -> DataStoreConfig {
    DataStoreConfig { component_bucket_nb_rows: 0, ..Default::default() }
}

#[test]
fn mismatched_instances_is_refused() {
    let mut store = DataStore::new(keys(), Default::default());
    let r = row("a", at_frame(1), 3, vec![cell(keys(), &[0, 1, 2]), cell(points(), &[7, 8])]);
    match store.insert_row(&r) {
        Err(WriteError::MismatchedInstances { component, expected, found }) => {
            assert_eq!("point2d", component.name);
            assert_eq!(3, expected);
            assert_eq!(2, found);
        }
        other => panic!("unexpected {other:?}"),
    }
}

#[test]
fn instance_keys_of_wrong_length_are_refused() {
    let mut store = DataStore::new(keys(), Default::default());
    let r = row("a", at_frame(1), 3, vec![cell(keys(), &[0, 1])]);
    assert!(matches!(store.insert_row(&r), Err(WriteError::MismatchedInstances { .. })));
}

#[test]
fn sparse_keys_come_before_other_errors() {
    let mut store = DataStore::new(keys(), Default::default());
    let sparse = DataCell::from_component_sparse(keys(), vec![Some(2), None]);
    let r = row("a", at_frame(1), 3, vec![sparse, cell(points(), &[7, 8])]);
    match store.insert_row(&r) {
        Err(WriteError::SparseClusteringComponent(c)) => {
            assert_eq!(vec![Some(2), None], c.values);
        }
        other => panic!("unexpected {other:?}"),
    }
}

#[test]
fn splat_cell_is_accepted() {
    let mut store = DataStore::new(keys(), Default::default());
    let r = row("a", at_frame(1), 3, vec![cell(keys(), &[0, 4, 9]), cell(colors(), &[0xff])]);
    assert_eq!(RowId(0), store.insert_row(&r).unwrap());
    let ids = latest(&store, "a", 1, &[colors()]).unwrap();
    let cells = store.get(&vec![colors()], &ids);
    assert_eq!(vec![Some(0xff)], cells[0].as_ref().unwrap().values);
}

#[test]
fn refused_row_leaves_store_unchanged() {
    let mut store = DataStore::new(keys(), Default::default());
    let r = row("a", at_frame(1), 3, vec![cell(keys(), &[2, 1, 0])]);
    assert!(store.insert_row(&r).is_err());
    assert_eq!(0, store.total_temporal_component_rows());
    assert!(latest(&store, "a", 1, &[keys()]).is_none());
    assert!(store.get_msg_metadata(&RowId(0)).is_none());
    assert!(store.sanity_check().is_ok());
}

#[test]
fn row_ids_follow_insertion_order() {
    let mut store = DataStore::new(keys(), Default::default());
    for i in 0..3u64 {
        let r = row("a", at_frame(10 - i as i64), 1, vec![cell(colors(), &[i])]);
        assert_eq!(RowId(i), store.insert_row(&r).unwrap());
    }
}

#[test]
fn latest_at_resolves_inserted_row() {
    let mut store = DataStore::new(keys(), Default::default());
    let r = row(
        "this/that",
        vec![(Timeline::log_time(), TimeInt(1_700_000_000_000_000_000)), (frame_nr(), TimeInt(40))],
        3,
        vec![cell(keys(), &[0, 1, 2])],
    );
    let id = store.insert_row(&r).unwrap();
    assert!(latest(&store, "this/that", 39, &[keys()]).is_none());
    let ids = latest(&store, "this/that", 40, &[keys()]).unwrap();
    assert_eq!(vec![Some(id)], ids);
    let cells = store.get(&vec![keys()], &ids);
    assert!(cells[0].as_ref().unwrap().same_as(&cell(keys(), &[0, 1, 2])));
}

#[test]
fn latest_at_generates_instance_keys() {
    let mut store = DataStore::new(keys(), Default::default());
    let id = store.insert_row(&row("a", at_frame(5), 4, vec![cell(colors(), &[1, 2, 3, 4])])).unwrap();
    let got = store.get_cell(&keys(), id).unwrap();
    assert_eq!(vec![Some(0), Some(1), Some(2), Some(3)], got.values);
}

#[test]
fn latest_at_prefers_later_row_at_same_time() {
    let mut store = DataStore::new(keys(), Default::default());
    store.insert_row(&row("a", at_frame(7), 1, vec![cell(colors(), &[1])])).unwrap();
    let second = store.insert_row(&row("a", at_frame(7), 1, vec![cell(colors(), &[2])])).unwrap();
    let ids = latest(&store, "a", 7, &[colors()]).unwrap();
    assert_eq!(vec![Some(second)], ids);
    let cells = store.get(&vec![colors()], &ids);
    assert_eq!(vec![Some(2)], cells[0].as_ref().unwrap().values);
}

#[test]
fn latest_at_takes_each_component_from_its_own_row() {
    let mut store = DataStore::new(keys(), Default::default());
    let first = store.insert_row(&row("a", at_frame(1), 1, vec![cell(colors(), &[5])])).unwrap();
    let second = store.insert_row(&row("a", at_frame(2), 1, vec![cell(points(), &[6])])).unwrap();
    let ids = latest(&store, "a", 2, &[points(), colors(), ComponentName::new("missing")]).unwrap();
    assert_eq!(vec![Some(second), Some(first), None], ids);
    let ids = latest(&store, "a", 1, &[points(), colors()]).unwrap();
    assert_eq!(vec![None, Some(first)], ids);
}

#[test]
fn latest_at_on_other_entity_is_none() {
    let mut store = DataStore::new(keys(), Default::default());
    store.insert_row(&row("a", at_frame(1), 1, vec![cell(colors(), &[5])])).unwrap();
    assert!(latest(&store, "does/not/exist", 1, &[colors()]).is_none());
    assert!(latest(&store, "does/not/exist", i64::MAX, &[]).is_none());
}

#[test]
fn range_carries_cells_from_before_the_range() {
    let mut store = DataStore::new(keys(), Default::default());
    let first = store.insert_row(&row("a", at_frame(1), 1, vec![cell(colors(), &[5])])).unwrap();
    let second = store.insert_row(&row("a", at_frame(2), 1, vec![cell(points(), &[6])])).unwrap();
    let third = store.insert_row(&row("a", at_frame(3), 1, vec![cell(points(), &[7]), cell(colors(), &[8])])).unwrap();
    let query = RangeQuery::new(frame_nr(), TimeRange::new(TimeInt(2), TimeInt(3)));
    let items = store.range(&query, &EntityPath::new("a"), &points(), &vec![points(), colors()]);
    assert_eq!(2, items.len());
    assert_eq!((TimeInt(2), second), (items[0].0, items[0].1));
    assert_eq!(vec![Some(6)], items[0].2[0].as_ref().unwrap().values);
    assert_eq!(vec![Some(5)], items[0].2[1].as_ref().unwrap().values);
    assert_eq!((TimeInt(3), third), (items[1].0, items[1].1));
    assert_eq!(vec![Some(7)], items[1].2[0].as_ref().unwrap().values);
    assert_eq!(vec![Some(8)], items[1].2[1].as_ref().unwrap().values);
    assert_ne!(first, third);
}

#[test]
fn range_emits_same_row_twice() {
    let mut store = DataStore::new(keys(), Default::default());
    let r = row("a", at_frame(4), 2, vec![cell(points(), &[1, 2]), cell(colors(), &[3, 4])]);
    let first = store.insert_row(&r).unwrap();
    let second = store.insert_row(&r).unwrap();
    assert_ne!(first, second);
    let query = RangeQuery::new(frame_nr(), TimeRange::new(TimeInt(i64::MIN), TimeInt(i64::MAX)));
    let items = store.range(&query, &EntityPath::new("a"), &points(), &vec![colors()]);
    assert_eq!(2, items.len());
    assert_eq!(first, items[0].1);
    assert_eq!(second, items[1].1);
    for item in &items {
        assert_eq!(vec![Some(3), Some(4)], item.2[0].as_ref().unwrap().values);
    }
}

#[test]
fn range_without_primary_is_empty() {
    let mut store = DataStore::new(keys(), Default::default());
    store.insert_row(&row("a", at_frame(4), 1, vec![cell(colors(), &[3])])).unwrap();
    let query = RangeQuery::new(frame_nr(), TimeRange::new(TimeInt(0), TimeInt(10)));
    assert!(store.range(&query, &EntityPath::new("a"), &points(), &vec![colors()]).is_empty());
    let other = RangeQuery::new(Timeline::new("frame_nr", TimeType::Time), TimeRange::new(TimeInt(0), TimeInt(10)));
    assert!(store.range(&other, &EntityPath::new("a"), &colors(), &vec![colors()]).is_empty());
}

#[test]
fn out_of_order_rows_are_sorted_on_read() {
    let mut store = DataStore::new(keys(), Default::default());
    let late = store.insert_row(&row("a", at_frame(5), 1, vec![cell(colors(), &[5])])).unwrap();
    let early = store.insert_row(&row("a", at_frame(3), 1, vec![cell(colors(), &[3])])).unwrap();
    assert!(store.sanity_check().is_ok());
    assert_eq!(vec![Some(early)], latest(&store, "a", 4, &[colors()]).unwrap());
    let query = RangeQuery::new(frame_nr(), TimeRange::new(TimeInt(i64::MIN), TimeInt(i64::MAX)));
    let items = store.range(&query, &EntityPath::new("a"), &colors(), &vec![colors()]);
    let order: Vec<(TimeInt, RowId)> = items.iter().map(|i| (i.0, i.1)).collect();
    assert_eq!(vec![(TimeInt(3), early), (TimeInt(5), late)], order);
    store.sort_indices_if_needed();
    assert!(store.sanity_check().is_ok());
}

#[test]
fn total_rows_counts_every_cell() {
    let mut store = DataStore::new(keys(), Default::default());
    assert_eq!(0, store.total_temporal_component_rows());
    for i in 0..3 {
        store.insert_row(&row("a", at_frame(i), 1, vec![cell(colors(), &[1])])).unwrap();
    }
    assert_eq!(6, store.total_temporal_component_rows());
}

#[test]
fn gc_on_fresh_store_is_empty() {
    let mut store = DataStore::new(keys(), Default::default());
    let dropped = store.gc(GarbageCollectionTarget::DropAtLeastPercentage(100), &frame_nr(), &keys());
    assert!(dropped.is_empty());
    assert!(store.sanity_check().is_ok());
}

#[test]
fn gc_keeps_newest_bucket() {
    let mut store = DataStore::new(keys(), one_row_buckets());
    let id = store.insert_row(&row("a", at_frame(1), 1, vec![cell(colors(), &[9])])).unwrap();
    let dropped = store.gc(GarbageCollectionTarget::DropAtLeastPercentage(100), &frame_nr(), &keys());
    assert!(dropped.is_empty());
    assert_eq!(vec![Some(id)], latest(&store, "a", 1, &[colors()]).unwrap());
}

#[test]
fn gc_evicts_oldest_first() {
    let mut store = DataStore::new(keys(), one_row_buckets());
    for i in 0..10 {
        store.insert_row(&row("a", at_frame(i), 1, vec![cell(colors(), &[i as u64])])).unwrap();
    }
    assert_eq!(20, store.total_temporal_component_rows());
    let dropped = store.gc(GarbageCollectionTarget::DropAtLeastPercentage(50), &frame_nr(), &keys());
    let ids: Vec<RowId> = dropped.iter().flat_map(|c| c.iter().copied()).collect();
    assert_eq!((0..5).map(RowId).collect::<Vec<_>>(), ids);
    assert_eq!(10, store.total_temporal_component_rows());
    assert!(store.sanity_check().is_ok());
    assert!(store.get_cell(&keys(), RowId(4)).is_none());
    assert!(store.get_cell(&colors(), RowId(4)).is_none());
    assert!(store.get_cell(&keys(), RowId(5)).is_some());
    assert!(store.get_msg_metadata(&RowId(0)).is_some());
}

#[test]
fn full_gc_then_clear_then_gc_is_empty() {
    let mut store = DataStore::new(keys(), one_row_buckets());
    for i in 0..4 {
        store.insert_row(&row("e", at_frame(i), 2, vec![cell(colors(), &[1, 2]), cell(points(), &[3, 4])])).unwrap();
    }
    let dropped = store.gc(GarbageCollectionTarget::DropAtLeastPercentage(100), &frame_nr(), &keys());
    let ids: Vec<RowId> = dropped.iter().flat_map(|c| c.iter().copied()).collect();
    assert_eq!(vec![RowId(0), RowId(1), RowId(2)], ids);
    assert_eq!(3, store.total_temporal_component_rows());
    store.clear_msg_metadata(&ids);
    assert!(store.get_msg_metadata(&RowId(2)).is_none());
    assert!(store.get_msg_metadata(&RowId(3)).is_some());
    let again = store.gc(GarbageCollectionTarget::DropAtLeastPercentage(100), &frame_nr(), &keys());
    assert!(again.is_empty());
    assert!(store.sanity_check().is_ok());
}

#[test]
fn bucket_rolls_over_on_size() {
    let config = DataStoreConfig {
        component_bucket_nb_rows: u64::MAX,
        component_bucket_size_bytes: 16,
        ..Default::default()
    };
    let mut store = DataStore::new(keys(), config);
    for i in 0..3 {
        store.insert_row(&row("a", at_frame(i), 2, vec![cell(colors(), &[1, 2])])).unwrap();
    }
    // One cell per bucket; the colors table came first, so its oldest bucket goes.
    let dropped = store.gc(GarbageCollectionTarget::DropAtLeastPercentage(1), &frame_nr(), &colors());
    let ids: Vec<RowId> = dropped.iter().flat_map(|c| c.iter().copied()).collect();
    assert_eq!(vec![RowId(0)], ids);
    assert_eq!(5, store.total_temporal_component_rows());
    assert!(store.get_cell(&keys(), RowId(0)).is_some());
}

#[test]
fn sanity_check_passes_on_empty_store() {
    let store = DataStore::new(keys(), Default::default());
    assert!(store.sanity_check().is_ok());
}

#[test]
fn names_compare_by_value() {
    assert!(Timeline::new("t", TimeType::Time).same_as(&Timeline::new("t", TimeType::Time)));
    assert!(!Timeline::new("t", TimeType::Time).same_as(&Timeline::new("t", TimeType::Sequence)));
    assert!(EntityPath::new("a/b").same_as(&EntityPath::from_string("a/b".to_string())));
    assert!(!ComponentName::new("x").same_as(&ComponentName::new("y")));
}

fn populated_store() -> (DataStore, RowId) {
    let mut store = DataStore::new(keys(), Default::default());
    let r = row(
        "this/that",
        vec![(Timeline::log_time(), TimeInt(1_000)), (frame_nr(), TimeInt(40))],
        3,
        vec![cell(keys(), &[0, 1, 2])],
    );
    let id = store.insert_row(&r).unwrap();
    (store, id)
}

#[test]
fn latest_at_on_unwritten_timeline_is_none() {
    let (store, _) = populated_store();
    let query = LatestAtQuery::new(Timeline::new("lag_time", TimeType::Time), TimeInt(1_000));
    assert!(store.latest_at(&query, &EntityPath::new("this/that"), &keys(), &vec![keys()]).is_none());
}

#[test]
fn latest_at_timeline_kind_is_part_of_identity() {
    let (store, id) = populated_store();
    let wrong_kind = LatestAtQuery::new(Timeline::new("log_time", TimeType::Sequence), TimeInt(1_000));
    assert!(store.latest_at(&wrong_kind, &EntityPath::new("this/that"), &keys(), &vec![keys()]).is_none());
    let right_kind = LatestAtQuery::new(Timeline::new("log_time", TimeType::Time), TimeInt(1_000));
    assert_eq!(
        Some(vec![Some(id)]),
        store.latest_at(&right_kind, &EntityPath::new("this/that"), &keys(), &vec![keys()])
    );
}

#[test]
fn latest_at_with_no_components_is_some_empty() {
    let (store, _) = populated_store();
    assert_eq!(Some(vec![]), latest(&store, "this/that", 40, &[]));
}

#[test]
fn latest_at_with_unknown_components_is_all_none() {
    let (store, _) = populated_store();
    let names = [ComponentName::new("they"), ComponentName::new("dont"), ComponentName::new("exist")];
    let ids = latest(&store, "this/that", 40, &names).unwrap();
    assert_eq!(vec![None, None, None], ids);
    let names: Vec<ComponentName> = names.iter().map(|c| c.duplicate()).collect();
    assert!(store.get(&names, &ids).iter().all(|c| c.is_none()));
}

#[test]
fn metadata_keeps_the_row_coordinates() {
    let (store, id) = populated_store();
    let meta = store.get_msg_metadata(&id).unwrap();
    assert_eq!("this/that", meta.ent_path.path);
    assert_eq!(3, meta.num_instances);
    assert_eq!(2, meta.timepoint.len());
    assert_eq!(TimeInt(40), meta.timepoint[1].1);
}

#[test]
fn index_buckets_keep_time_order() {
    let config = DataStoreConfig { index_bucket_nb_rows: 2, ..Default::default() };
    let mut store = DataStore::new(keys(), config);
    let frames = [1, 2, 3, 4, 5, 6, 7, 8, 4, 0, 9, 6];
    let mut ids = Vec::new();
    for (i, frame) in frames.iter().enumerate() {
        ids.push(store.insert_row(&row("a", at_frame(*frame), 1, vec![cell(colors(), &[i as u64])])).unwrap());
    }
    assert!(store.sanity_check().is_ok());
    // The latest row at frame 4 is the second one logged there.
    assert_eq!(vec![Some(ids[8])], latest(&store, "a", 4, &[colors()]).unwrap());
    assert_eq!(vec![Some(ids[9])], latest(&store, "a", 0, &[colors()]).unwrap());
    assert!(latest(&store, "a", -1, &[colors()]).is_none());
    let query = RangeQuery::new(frame_nr(), TimeRange::new(TimeInt(i64::MIN), TimeInt(i64::MAX)));
    let items = store.range(&query, &EntityPath::new("a"), &colors(), &vec![colors()]);
    let order: Vec<(i64, u64)> = items.iter().map(|i| (i.0 .0, i.1 .0)).collect();
    let mut expected: Vec<(i64, u64)> = frames.iter().zip(ids.iter()).map(|(f, id)| (*f, id.0)).collect();
    expected.sort();
    assert_eq!(expected, order);
    assert!(store.sanity_check().is_ok());
}
