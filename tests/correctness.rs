//! Bending and twisting the store's API to try and break it.

use std::collections::HashSet;

use entity_store::{
    all_configs, ComponentName, DataCell, DataRow, DataStore, DataStoreConfig, EntityPath,
    GarbageCollectionTarget, LatestAtQuery, RangeQuery, RowId, TimeInt, TimeRange, TimeType,
    Timeline, WriteError,
};

fn instance_key() -> ComponentName {
    ComponentName::new("instance_key")
}

fn point2d() -> ComponentName {
    ComponentName::new("point2d")
}

fn color_rgba() -> ComponentName {
    ComponentName::new("color_rgba")
}

fn now_nanos() -> i64 {
    let d = std::time::SystemTime::now()
        .duration_since(std::time::UNIX_EPOCH)
        .unwrap();
    d.as_nanos() as i64
}

fn build_frame_nr(frame: i64) -> (Timeline, TimeInt) {
    (Timeline::new("frame_nr", TimeType::Sequence), TimeInt(frame))
}

fn build_log_time(nanos: i64) -> (Timeline, TimeInt) {
    (Timeline::log_time(), TimeInt(nanos))
}

fn build_some_instances(n: usize) -> DataCell {
    DataCell::from_component(instance_key(), (0..n as u64).collect())
}

/// Points as the bits of two `f32` coordinates.
fn build_some_point2d(n: usize) -> DataCell {
    let values = (0..n)
        .map(|i| {
            let x = i as f32 * 1.5;
            let y = i as f32 * -0.25;
            ((x.to_bits() as u64) << 32) | y.to_bits() as u64
        })
        .collect();
    DataCell::from_component(point2d(), values)
}

/// Colors as packed RGBA.
fn build_some_colors(n: usize) -> DataCell {
    let values = (0..n)
        .map(|i| 0xff00_00ffu64.wrapping_add((i as u64).wrapping_mul(0x0101_0100)) & 0xffff_ffff)
        .collect();
    DataCell::from_component(color_rgba(), values)
}

fn test_row(
    ent: &EntityPath,
    timepoint: Vec<(Timeline, TimeInt)>,
    num_instances: u32,
    cells: Vec<DataCell>,
) -> DataRow {
    DataRow::new(ent.duplicate(), timepoint, num_instances, cells)
}

fn sanity(store: &mut DataStore) {
    if let err @ Err(_) = store.sanity_check() {
        store.sort_indices_if_needed();
        println!("{store:?}");
        err.unwrap();
    }
}

/// A small pseudo-random sequence, so that runs are reproducible.
struct Lcg(u64);

impl Lcg {
    fn next(&mut self) -> u64 {
        self.0 = self.0.wrapping_mul(6364136223846793005).wrapping_add(1442695040888963407);
        self.0 >> 33
    }
}

// ---

#[test]
fn write_errors() {
    let ent_path = EntityPath::new("this/that");

    {
        fn build_sparse_instances() -> DataCell {
            DataCell::from_component_sparse(instance_key(), vec![Some(1), None, Some(3)])
        }

        let mut store = DataStore::new(instance_key(), Default::default());
        let row = test_row(
            &ent_path,
            vec![build_frame_nr(32), build_log_time(now_nanos())],
            3,
            vec![build_sparse_instances(), build_some_point2d(3)],
        );
        assert!(matches!(
            store.insert_row(&row),
            Err(WriteError::SparseClusteringComponent(_)),
        ));
    }

    {
        fn build_unsorted_instances() -> DataCell {
            DataCell::from_component(instance_key(), vec![1, 3, 2])
        }

        fn build_duped_instances() -> DataCell {
            DataCell::from_component(instance_key(), vec![1, 2, 2])
        }

        let mut store = DataStore::new(instance_key(), Default::default());
        {
            let row = test_row(
                &ent_path,
                vec![build_frame_nr(32), build_log_time(now_nanos())],
                3,
                vec![build_unsorted_instances(), build_some_point2d(3)],
            );
            assert!(matches!(
                store.insert_row(&row),
                Err(WriteError::InvalidClusteringComponent(_)),
            ));
        }
        {
            let row = test_row(
                &ent_path,
                vec![build_frame_nr(32), build_log_time(now_nanos())],
                3,
                vec![build_duped_instances(), build_some_point2d(3)],
            );
            assert!(matches!(
                store.insert_row(&row),
                Err(WriteError::InvalidClusteringComponent(_)),
            ));
        }
    }
}

// ---

#[test]
fn latest_at_emptiness_edge_cases() {
    for config in all_configs() {
        let mut store = DataStore::new(instance_key(), config);
        latest_at_emptiness_edge_cases_impl(&mut store);
    }
}

fn latest_at_emptiness_edge_cases_impl(store: &mut DataStore) {
    let ent_path = EntityPath::new("this/that");
    let now = now_nanos();
    let now_minus_1s_nanos = TimeInt(now - 1_000_000_000);
    let frame39 = TimeInt(39);
    let frame40 = 40;
    let num_instances = 3;

    store
        .insert_row(&test_row(
            &ent_path,
            vec![build_log_time(now), build_frame_nr(frame40)],
            num_instances,
            vec![build_some_instances(num_instances as _)],
        ))
        .unwrap();

    sanity(store);

    let timeline_wrong_name = Timeline::new("lag_time", TimeType::Time);
    let timeline_wrong_kind = Timeline::new("log_time", TimeType::Sequence);
    let timeline_frame_nr = Timeline::new("frame_nr", TimeType::Sequence);
    let timeline_log_time = Timeline::log_time();

    // empty frame_nr
    {
        let row_indices = store.latest_at(
            &LatestAtQuery::new(timeline_frame_nr.duplicate(), frame39),
            &ent_path,
            &instance_key(),
            &vec![instance_key()],
        );
        assert!(row_indices.is_none());
    }

    // empty log_time
    {
        let row_indices = store.latest_at(
            &LatestAtQuery::new(timeline_log_time, now_minus_1s_nanos),
            &ent_path,
            &instance_key(),
            &vec![instance_key()],
        );
        assert!(row_indices.is_none());
    }

    // wrong entity path
    {
        let row_indices = store.latest_at(
            &LatestAtQuery::new(timeline_frame_nr.duplicate(), TimeInt(frame40)),
            &EntityPath::new("does/not/exist"),
            &instance_key(),
            &vec![instance_key()],
        );
        assert!(row_indices.is_none());
    }

    // bunch of non-existing components
    {
        let components = vec![
            ComponentName::new("they"),
            ComponentName::new("dont"),
            ComponentName::new("exist"),
        ];
        let row_indices = store
            .latest_at(
                &LatestAtQuery::new(timeline_frame_nr.duplicate(), TimeInt(frame40)),
                &ent_path,
                &instance_key(),
                &components,
            )
            .unwrap();
        let rows = store.get(&components, &row_indices);
        assert!(rows.iter().all(|row| row.is_none()));
    }

    // empty component list
    {
        let row_indices = store
            .latest_at(
                &LatestAtQuery::new(timeline_frame_nr.duplicate(), TimeInt(frame40)),
                &ent_path,
                &instance_key(),
                &vec![],
            )
            .unwrap();
        assert!(row_indices.is_empty());
    }

    // wrong timeline name
    {
        let row_indices = store.latest_at(
            &LatestAtQuery::new(timeline_wrong_name, TimeInt(frame40)),
            &EntityPath::new("does/not/exist"),
            &instance_key(),
            &vec![instance_key()],
        );
        assert!(row_indices.is_none());
    }

    // wrong timeline kind
    {
        let row_indices = store.latest_at(
            &LatestAtQuery::new(timeline_wrong_kind, TimeInt(frame40)),
            &EntityPath::new("does/not/exist"),
            &instance_key(),
            &vec![instance_key()],
        );
        assert!(row_indices.is_none());
    }
}

// ---

// When several components of one row are joined, the primary one must come last, so
// that the join has already taken in the cells of its siblings from the same row.

#[test]
fn range_join_across_single_row() {
    for config in all_configs() {
        let mut store = DataStore::new(instance_key(), config);
        range_join_across_single_row_impl(&mut store);
    }
}

fn range_join_across_single_row_impl(store: &mut DataStore) {
    let ent_path = EntityPath::new("this/that");

    let points = build_some_point2d(3);
    let colors = build_some_colors(3);
    let row = test_row(
        &ent_path,
        vec![build_frame_nr(42)],
        3,
        vec![points.duplicate(), colors.duplicate()],
    );
    store.insert_row(&row).unwrap();

    let timeline_frame_nr = Timeline::new("frame_nr", TimeType::Sequence);
    let query = RangeQuery::new(
        timeline_frame_nr,
        TimeRange::new(TimeInt(i64::MIN), TimeInt(i64::MAX)),
    );
    let components = vec![instance_key(), point2d(), color_rgba()];
    let items = store.range(&query, &ent_path, &point2d(), &components);

    let instances = DataCell::from_component(instance_key(), vec![0, 1, 2]);

    assert_eq!(1, items.len());
    let (time, _, cells) = &items[0];
    assert_eq!(TimeInt(42), *time);
    assert_eq!(3, cells.len());
    assert!(cells[0].as_ref().unwrap().same_as(&instances));
    assert!(cells[1].as_ref().unwrap().same_as(&points));
    assert!(cells[2].as_ref().unwrap().same_as(&colors));
}

// ---

#[test]
fn gc_correct() {
    let mut store = DataStore::new(
        instance_key(),
        DataStoreConfig {
            component_bucket_nb_rows: 0,
            ..Default::default()
        },
    );

    let mut rng = Lcg(0x5eed);

    let num_frames = 1 + rng.next() % 100;
    let frames: Vec<u64> = (0..num_frames).filter(|_| rng.next() % 2 == 0).collect();
    let frames = if frames.is_empty() { vec![0] } else { frames };
    for frame_nr in frames {
        let num_ents = 10;
        for i in 0..num_ents {
            let ent_path = EntityPath::from_string(format!("this/that/{i}"));
            let num_instances = (rng.next() % 1_001) as u32;
            let row = test_row(
                &ent_path,
                vec![build_frame_nr(frame_nr as i64)],
                num_instances,
                vec![build_some_colors(num_instances as _)],
            );
            store.insert_row(&row).unwrap();
        }
    }

    sanity(&mut store);

    let row_id_chunks = store.gc(
        GarbageCollectionTarget::DropAtLeastPercentage(100),
        &Timeline::new("frame_nr", TimeType::Sequence),
        &instance_key(),
    );

    let row_ids = row_id_chunks
        .iter()
        .flat_map(|chunk| chunk.iter().copied())
        .collect::<HashSet<RowId>>();
    assert!(!row_ids.is_empty());

    sanity(&mut store);
    for row_id in &row_ids {
        assert!(store.get_msg_metadata(row_id).is_some());
    }

    let to_clear: Vec<RowId> = row_ids.iter().copied().collect();
    store.clear_msg_metadata(&to_clear);

    sanity(&mut store);
    for row_id in &row_ids {
        assert!(store.get_msg_metadata(row_id).is_none());
    }

    let row_id_chunks = store.gc(
        GarbageCollectionTarget::DropAtLeastPercentage(100),
        &Timeline::new("frame_nr", TimeType::Sequence),
        &instance_key(),
    );

    let row_ids = row_id_chunks
        .iter()
        .flat_map(|chunk| chunk.iter().copied())
        .collect::<HashSet<RowId>>();
    assert!(row_ids.is_empty());

    sanity(&mut store);

    assert_eq!(2, store.total_temporal_component_rows());
}
