use segment::error::OperationError;
use segment::immutable_map_index::ImmutableMapIndex;
use segment::storage::{MmapStore, Storage, StorageType, TransactionalStore};

fn mmap_fixture() -> MmapStore {
    // value 10 -> points 4, 0, 2; value 20 -> points 2, 3; value 30 -> point 1
    MmapStore::build(
        vec![(10, vec![4, 0, 2]), (20, vec![2, 3]), (30, vec![1])],
        true,
        vec!["values.dat".to_string(), "deleted.dat".to_string()],
        vec!["values.dat".to_string()],
    )
    .unwrap()
}

fn rocksdb_fixture() -> TransactionalStore {
    TransactionalStore::from_records(vec![(10, 4), (20, 2), (10, 0), (30, 1), (10, 2), (20, 3)])
        .unwrap()
}

fn sorted(mut values: Vec<i64>) -> Vec<i64> {
    values.sort();
    values
}

#[test]
fn open_does_not_populate_memory() {
    let index = ImmutableMapIndex::open_mmap(mmap_fixture());
    assert_eq!(index.get_indexed_points(), 0);
    assert_eq!(index.get_values_count(), 0);
    assert_eq!(index.get_unique_values_count(), 0);
    assert!(index.get_iterator(10).is_empty());
    assert_eq!(index.values_count(0), None);
}

#[test]
fn load_mmap_sorts_every_run() {
    let mut index = ImmutableMapIndex::open_mmap(mmap_fixture());
    assert_eq!(index.load(), Ok(true));
    assert_eq!(index.get_iterator(10), vec![0, 2, 4]);
    assert_eq!(index.get_iterator(20), vec![2, 3]);
    assert_eq!(index.get_iterator(30), vec![1]);
    assert!(index.get_iterator(40).is_empty());
    assert_eq!(index.get_indexed_points(), 5);
    assert_eq!(index.get_values_count(), 6);
    assert_eq!(index.get_unique_values_count(), 3);
    assert_eq!(index.get_count_for_value(10), Some(3));
    assert_eq!(index.get_count_for_value(40), None);
    assert_eq!(sorted(index.iter_values()), vec![10, 20, 30]);
    assert_eq!(sorted(index.get_values(2).unwrap().to_vec()), vec![10, 20]);
    assert_eq!(index.values_count(2), Some(2));
    assert_eq!(index.values_count(5), None);
    assert!(index.get_values(5).is_none());
}

#[test]
fn load_rocksdb_groups_keys_by_value() {
    let mut index = ImmutableMapIndex::open_rocksdb(rocksdb_fixture());
    assert_eq!(index.load(), Ok(true));
    assert_eq!(index.get_iterator(10), vec![0, 2, 4]);
    assert_eq!(index.get_iterator(20), vec![2, 3]);
    assert_eq!(index.get_iterator(30), vec![1]);
    assert_eq!(index.get_indexed_points(), 5);
    assert_eq!(index.get_values_count(), 6);
    assert_eq!(index.get_unique_values_count(), 3);
    assert!(index.is_rocksdb());
    assert_eq!(index.storage_type(), StorageType::RocksDb);
    assert!(index.files().is_empty());
    assert!(index.immutable_files().is_empty());
    assert!(index.db_wrapper().is_some());
}

#[test]
fn load_without_prior_data_is_no_error() {
    let mut index = ImmutableMapIndex::open_rocksdb(TransactionalStore::new());
    assert_eq!(index.load(), Ok(false));
    assert_eq!(index.get_unique_values_count(), 0);
    let mut index = ImmutableMapIndex::open_mmap(MmapStore::new(false));
    assert_eq!(index.load(), Ok(false));
    assert_eq!(index.get_unique_values_count(), 0);
    assert_eq!(index.storage_type(), StorageType::Mmap { is_on_disk: false });
}

#[test]
fn load_against_the_wrong_backend_is_a_service_error() {
    let mut index = ImmutableMapIndex::open_mmap(mmap_fixture());
    match index.load_rocksdb() {
        Err(OperationError::ServiceError { description }) => assert_eq!(
            description,
            "Failed to load index from RocksDB, using different storage backend"
        ),
        other => panic!("unexpected {other:?}"),
    }
    let mut index = ImmutableMapIndex::open_rocksdb(rocksdb_fixture());
    let error = index.load_mmap().unwrap_err();
    assert_eq!(
        error.to_string(),
        "Failed to load index from mmap, using different storage backend"
    );
    // the failed load left nothing in memory
    assert_eq!(index.get_values_count(), 0);
}

#[test]
fn load_mmap_skips_points_deleted_in_the_table() {
    let mut store = mmap_fixture();
    store.remove_point(2);
    assert!(store.is_deleted(2));
    assert!(!store.is_deleted(3));
    assert!(!store.is_deleted(99));
    let mut index = ImmutableMapIndex::open_mmap(store);
    assert_eq!(index.load(), Ok(true));
    assert_eq!(index.get_iterator(10), vec![0, 4]);
    assert_eq!(index.get_iterator(20), vec![3]);
    assert_eq!(index.get_indexed_points(), 4);
    assert_eq!(index.get_values_count(), 4);
    assert_eq!(index.values_count(2), Some(0));
}

#[test]
fn a_value_without_live_points_has_no_entry_after_load() {
    let mut store = mmap_fixture();
    store.remove_point(1);
    let mut index = ImmutableMapIndex::open_mmap(store);
    assert_eq!(index.load(), Ok(true));
    assert_eq!(index.get_count_for_value(30), None);
    assert_eq!(index.get_unique_values_count(), 2);
    assert_eq!(sorted(index.iter_values()), vec![10, 20]);
}

#[test]
fn remove_point_updates_both_directions() {
    let mut index = ImmutableMapIndex::open_mmap(mmap_fixture());
    index.load().unwrap();
    assert_eq!(index.remove_point(2), Ok(()));
    assert_eq!(index.get_iterator(10), vec![0, 4]);
    assert_eq!(index.get_iterator(20), vec![3]);
    assert_eq!(index.get_count_for_value(10), Some(2));
    assert_eq!(index.get_count_for_value(20), Some(1));
    assert_eq!(index.get_indexed_points(), 4);
    assert_eq!(index.get_values_count(), 4);
    assert_eq!(index.values_count(2), Some(0));
    assert!(index.get_values(2).unwrap().is_empty());
}

#[test]
fn removing_the_last_point_of_a_value_drops_the_value() {
    let mut index = ImmutableMapIndex::open_rocksdb(rocksdb_fixture());
    index.load().unwrap();
    index.remove_point(1).unwrap();
    assert_eq!(index.get_count_for_value(30), None);
    assert!(index.get_iterator(30).is_empty());
    assert_eq!(index.get_unique_values_count(), 2);
    assert_eq!(index.get_indexed_points(), 4);
    assert_eq!(index.get_values_count(), 5);
}

#[test]
fn remove_point_twice_changes_nothing_the_second_time() {
    let mut index = ImmutableMapIndex::open_mmap(mmap_fixture());
    index.load().unwrap();
    index.remove_point(2).unwrap();
    let points = index.get_indexed_points();
    let values = index.get_values_count();
    let unique = index.get_unique_values_count();
    index.remove_point(2).unwrap();
    assert_eq!(index.get_indexed_points(), points);
    assert_eq!(index.get_values_count(), values);
    assert_eq!(index.get_unique_values_count(), unique);
    assert_eq!(index.get_iterator(10), vec![0, 4]);
    assert_eq!(index.get_iterator(20), vec![3]);
}

#[test]
fn remove_point_that_was_never_indexed_changes_nothing() {
    let mut index = ImmutableMapIndex::open_mmap(mmap_fixture());
    index.load().unwrap();
    index.remove_point(77).unwrap();
    assert_eq!(index.get_indexed_points(), 5);
    assert_eq!(index.get_values_count(), 6);
    assert_eq!(index.get_iterator(10), vec![0, 2, 4]);
}

#[test]
fn iterators_stay_strictly_ascending_through_removals() {
    let store = MmapStore::build(
        vec![(1, vec![9, 3, 7, 1, 5, 8, 2]), (2, vec![5, 9])],
        false,
        vec![],
        vec![],
    )
    .unwrap();
    let mut index = ImmutableMapIndex::open_mmap(store);
    index.load().unwrap();
    for removed in [7u32, 1, 9, 4] {
        index.remove_point(removed).unwrap();
        for value in [1i64, 2] {
            let ids = index.get_iterator(value);
            assert!(ids.windows(2).all(|pair| pair[0] < pair[1]));
            assert!(!ids.contains(&removed));
        }
    }
    assert_eq!(index.get_iterator(1), vec![2, 3, 5, 8]);
    assert_eq!(index.get_iterator(2), vec![5]);
}

#[test]
fn mmap_round_trip_after_removals() {
    let mut index = ImmutableMapIndex::open_mmap(mmap_fixture());
    index.load().unwrap();
    index.remove_point(2).unwrap();
    index.remove_point(1).unwrap();
    index.flusher().unwrap();
    let runs_before: Vec<(i64, Vec<u32>)> =
        [10i64, 20, 30].iter().map(|v| (*v, index.get_iterator(*v))).collect();
    let store = match index.into_storage() {
        Storage::Mmap(store) => *store,
        Storage::RocksDb(_) => unreachable!(),
    };
    let mut reopened = ImmutableMapIndex::open_mmap(store);
    assert_eq!(reopened.load(), Ok(true));
    for (value, run) in runs_before {
        assert_eq!(reopened.get_iterator(value), run);
    }
    assert_eq!(reopened.get_indexed_points(), 3);
    assert_eq!(reopened.get_values_count(), 3);
}

#[test]
fn rocksdb_round_trip_needs_the_flush() {
    let mut index = ImmutableMapIndex::open_rocksdb(rocksdb_fixture());
    index.load().unwrap();
    index.remove_point(2).unwrap();
    assert_eq!(index.db_wrapper().unwrap().scheduled_deletes().len(), 2);

    // without a flush the keys are still in the column
    let mut unflushed = ImmutableMapIndex::open_rocksdb(rocksdb_fixture());
    unflushed.load().unwrap();
    unflushed.remove_point(2).unwrap();
    let store = match unflushed.into_storage() {
        Storage::RocksDb(store) => store,
        Storage::Mmap(_) => unreachable!(),
    };
    let mut stale = ImmutableMapIndex::open_rocksdb(store);
    stale.load().unwrap();
    assert_eq!(stale.get_iterator(10), vec![0, 2, 4]);

    index.flusher().unwrap();
    assert!(index.db_wrapper().unwrap().scheduled_deletes().is_empty());
    let store = match index.into_storage() {
        Storage::RocksDb(store) => store,
        Storage::Mmap(_) => unreachable!(),
    };
    let mut reopened = ImmutableMapIndex::open_rocksdb(store);
    assert_eq!(reopened.load(), Ok(true));
    assert_eq!(reopened.get_iterator(10), vec![0, 4]);
    assert_eq!(reopened.get_iterator(20), vec![3]);
    assert_eq!(reopened.get_iterator(30), vec![1]);
    assert_eq!(reopened.get_indexed_points(), 4);
    assert_eq!(reopened.get_values_count(), 4);
}

#[test]
fn wipe_leaves_nothing_to_load() {
    let mut index = ImmutableMapIndex::open_mmap(mmap_fixture());
    index.load().unwrap();
    let store = match index.wipe().unwrap() {
        Storage::Mmap(store) => *store,
        Storage::RocksDb(_) => unreachable!(),
    };
    assert!(store.files().is_empty());
    let mut reopened = ImmutableMapIndex::open_mmap(store);
    assert_eq!(reopened.load(), Ok(false));

    let store = match ImmutableMapIndex::open_rocksdb(rocksdb_fixture()).wipe().unwrap() {
        Storage::RocksDb(store) => store,
        Storage::Mmap(_) => unreachable!(),
    };
    let mut reopened = ImmutableMapIndex::open_rocksdb(store);
    assert_eq!(reopened.load(), Ok(false));
    assert_eq!(reopened.get_values_count(), 0);
}

#[test]
fn files_of_the_mmap_backend() {
    let mut index = ImmutableMapIndex::open_mmap(mmap_fixture());
    assert_eq!(index.files(), vec!["values.dat".to_string(), "deleted.dat".to_string()]);
    assert_eq!(index.immutable_files(), vec!["values.dat".to_string()]);
    assert!(!index.is_rocksdb());
    assert!(index.db_wrapper().is_none());
    assert_eq!(index.storage_type(), StorageType::Mmap { is_on_disk: true });
    assert_eq!(index.clear_cache(), Ok(()));
}

#[test]
fn check_values_any_tries_the_values_of_the_point() {
    let mut index = ImmutableMapIndex::open_mmap(mmap_fixture());
    index.load().unwrap();
    assert!(index.check_values_any(2, |value| *value == 20));
    assert!(!index.check_values_any(2, |value| *value == 30));
    assert!(!index.check_values_any(50, |_| true));
    index.remove_point(2).unwrap();
    assert!(!index.check_values_any(2, |_| true));
}

#[test]
fn counts_and_runs_per_value() {
    let mut index = ImmutableMapIndex::open_rocksdb(rocksdb_fixture());
    index.load().unwrap();
    let mut counts = index.iter_counts_per_value();
    counts.sort();
    assert_eq!(counts, vec![(10, 3), (20, 2), (30, 1)]);
    let mut runs = index.iter_values_map();
    runs.sort();
    assert_eq!(runs, vec![(10, vec![0, 2, 4]), (20, vec![2, 3]), (30, vec![1])]);
}

#[test]
fn stores_refuse_what_they_cannot_hold() {
    assert!(TransactionalStore::from_records(vec![(1, 1), (1, 1)]).is_none());
    assert!(MmapStore::build(vec![(1, vec![1]), (1, vec![2])], false, vec![], vec![]).is_none());
    assert!(MmapStore::build(vec![(1, vec![2, 2])], false, vec![], vec![]).is_none());
    assert!(MmapStore::build(vec![(1, vec![2]), (2, vec![2])], false, vec![], vec![]).is_some());
}

#[test]
fn the_kind_of_storage_is_permanent() {
    let mut index = ImmutableMapIndex::open_mmap(mmap_fixture());
    let kind = index.storage_type();
    let files = index.files();
    index.load().unwrap();
    assert_eq!(index.storage_type(), kind);
    index.remove_point(2).unwrap();
    assert_eq!(index.storage_type(), kind);
    index.clear_cache().unwrap();
    assert_eq!(index.storage_type(), kind);
    index.flusher().unwrap();
    assert_eq!(index.storage_type(), kind);
    assert_eq!(index.files(), files);
    assert_eq!(index.immutable_files(), vec!["values.dat".to_string()]);

    let mut unwritten = ImmutableMapIndex::open_mmap(MmapStore::new(true));
    unwritten.load().unwrap();
    assert_eq!(unwritten.storage_type(), StorageType::Mmap { is_on_disk: true });

    let mut index = ImmutableMapIndex::open_rocksdb(rocksdb_fixture());
    index.load().unwrap();
    index.remove_point(2).unwrap();
    index.clear_cache().unwrap();
    assert_eq!(index.storage_type(), StorageType::RocksDb);
    assert!(index.is_rocksdb());
}

#[test]
fn counters_count_the_stored_pairs_and_points() {
    // five points under one value, two of them deleted in the table
    let mut store =
        MmapStore::build(vec![(7, vec![0, 1, 2, 3, 4])], false, vec![], vec![]).unwrap();
    store.remove_point(2);
    store.remove_point(3);
    let mut from_mmap = ImmutableMapIndex::open_mmap(store);
    assert_eq!(from_mmap.load(), Ok(true));
    let mut from_rocksdb = ImmutableMapIndex::open_rocksdb(
        TransactionalStore::from_records(vec![(7, 0), (7, 1), (7, 4)]).unwrap(),
    );
    assert_eq!(from_rocksdb.load(), Ok(true));
    for index in [&from_mmap, &from_rocksdb] {
        assert_eq!(index.get_iterator(7), vec![0, 1, 4]);
        assert_eq!(index.get_indexed_points(), 3);
        assert_eq!(index.get_values_count(), 3);
        assert_eq!(index.values_count(4), Some(1));
        assert_eq!(index.values_count(5), None);
        let total: usize = index.iter_counts_per_value().iter().map(|(_, count)| count).sum();
        assert_eq!(total, index.get_values_count());
    }
    assert_eq!(from_mmap.values_count(2), Some(0));
    assert!(from_mmap.get_values(3).unwrap().is_empty());

    // a point counts once however many values it has
    let mut store =
        MmapStore::build(vec![(1, vec![4, 1, 3]), (2, vec![1])], false, vec![], vec![]).unwrap();
    store.remove_point(3);
    let mut index = ImmutableMapIndex::open_mmap(store);
    index.load().unwrap();
    assert_eq!(index.get_iterator(1), vec![1, 4]);
    assert_eq!(index.get_iterator(2), vec![1]);
    assert_eq!(index.get_count_for_value(1), Some(2));
    assert_eq!(index.get_indexed_points(), 2);
    assert_eq!(index.get_values_count(), 3);
    assert_eq!(index.values_count(1), Some(2));
}

#[test]
fn removing_every_point_leaves_nothing() {
    let store = MmapStore::build(vec![(7, vec![0, 1, 2, 3, 4])], false, vec![], vec![]).unwrap();
    let mut index = ImmutableMapIndex::open_mmap(store);
    index.load().unwrap();
    index.remove_point(1).unwrap();
    index.remove_point(1).unwrap();
    assert_eq!(index.get_indexed_points(), 4);
    assert_eq!(index.get_values_count(), 4);
    assert_eq!(index.get_count_for_value(7), Some(4));
    for point in [2, 3, 0, 4] {
        assert_eq!(index.remove_point(point), Ok(()));
    }
    assert!(index.get_iterator(7).is_empty());
    assert_eq!(index.get_count_for_value(7), None);
    assert_eq!(index.get_indexed_points(), 0);
    assert_eq!(index.get_values_count(), 0);
    assert_eq!(index.get_unique_values_count(), 0);
}
