use std::collections::HashMap;

use segment::chunked_vectors::{ChunkedVectors, Location, CHUNK_SIZE};
use segment::immutable_map_index::ImmutableMapIndex;
use segment::point_to_values::ImmutablePointToValues;
use segment::points_container::{container_capacity, ContainerSegment, FlatPointsContainer};
use segment::sorted::search_ascending;
use segment::storage::TransactionalStore;

#[test]
fn allocate_appends_runs_to_the_flat_container() {
    let mut container = FlatPointsContainer::new();
    let a = container.allocate(7, &vec![1, 3, 5]);
    assert_eq!(a, ContainerSegment { start: 0, end: 3, count: 3 });
    let b = container.allocate(-2, &vec![0, 3]);
    assert_eq!(b, ContainerSegment { start: 3, end: 5, count: 2 });
    assert_eq!(container.container_len(), 5);
    assert_eq!(container.unique_values_count(), 2);
    assert_eq!(container.get_iterator(7), vec![1, 3, 5]);
    assert_eq!(container.get_iterator(-2), vec![0, 3]);
    let (run, offset) = container.get_point_ids_slice(-2).unwrap();
    assert_eq!(run, &[0, 3][..]);
    assert_eq!(offset, 3);
    assert!(container.get_point_ids_slice(1).is_none());
}

#[test]
fn allocate_without_points_records_nothing() {
    let mut container = FlatPointsContainer::new();
    let segment = container.allocate(7, &vec![]);
    assert_eq!(segment, ContainerSegment { start: 0, end: 0, count: 0 });
    assert_eq!(container.unique_values_count(), 0);
    assert_eq!(container.get_count_for_value(7), None);
    assert!(container.values().is_empty());
}

#[test]
fn removal_flags_a_slot_and_never_reorders() {
    let mut container = FlatPointsContainer::new();
    container.allocate(1, &vec![0, 1, 2, 3, 4]);
    container.allocate(2, &vec![5, 6, 7, 8, 9]);
    container.remove_idx_from_value_list(1, 3);
    assert_eq!(container.get_iterator(1), vec![0, 1, 2, 4]);
    assert_eq!(container.get_iterator(2), vec![5, 6, 7, 8, 9]);
    assert_eq!(container.get_count_for_value(1), Some(4));
    // the run itself still holds the removed point, where it was
    let (run, offset) = container.get_point_ids_slice(1).unwrap();
    assert_eq!(run, &[0, 1, 2, 3, 4][..]);
    assert_eq!(offset, 0);
    assert_eq!(container.container_len(), 10);
}

#[test]
fn removing_what_is_not_there_changes_nothing() {
    let mut container = FlatPointsContainer::new();
    container.allocate(1, &vec![2, 4, 6]);
    container.remove_idx_from_value_list(1, 5);
    container.remove_idx_from_value_list(9, 4);
    assert_eq!(container.get_iterator(1), vec![2, 4, 6]);
    assert_eq!(container.get_count_for_value(1), Some(3));
    container.remove_idx_from_value_list(1, 4);
    container.remove_idx_from_value_list(1, 4);
    assert_eq!(container.get_iterator(1), vec![2, 6]);
    assert_eq!(container.get_count_for_value(1), Some(2));
}

#[test]
fn a_value_without_live_points_loses_its_entry() {
    let mut container = FlatPointsContainer::new();
    container.allocate(1, &vec![2, 4]);
    container.allocate(3, &vec![4]);
    container.remove_idx_from_value_list(1, 2);
    container.remove_idx_from_value_list(1, 4);
    assert_eq!(container.get_count_for_value(1), None);
    assert!(container.get_point_ids_slice(1).is_none());
    assert!(container.get_iterator(1).is_empty());
    assert_eq!(container.values(), vec![3]);
    assert_eq!(container.get_iterator(3), vec![4]);
    // the dead space stays
    assert_eq!(container.container_len(), 3);
    container.clear();
    assert_eq!(container.container_len(), 0);
    assert_eq!(container.unique_values_count(), 0);
}

#[test]
fn shrink_value_range_counts_down_to_zero() {
    let mut map: HashMap<i64, ContainerSegment> = HashMap::new();
    map.insert(5, ContainerSegment { start: 10, end: 13, count: 2 });
    assert!(!FlatPointsContainer::shrink_value_range(&mut map, 5));
    assert_eq!(map[&5], ContainerSegment { start: 10, end: 13, count: 1 });
    assert!(FlatPointsContainer::shrink_value_range(&mut map, 5));
    assert_eq!(map[&5], ContainerSegment { start: 10, end: 13, count: 0 });
    assert!(FlatPointsContainer::shrink_value_range(&mut map, 5));
    assert_eq!(map[&5].count, 0);
    assert!(!FlatPointsContainer::shrink_value_range(&mut map, 6));
    assert_eq!(map.len(), 1);
}

#[test]
fn the_container_limit_fits_a_point_offset() {
    assert!(container_capacity() <= u32::MAX as usize);
    assert!(container_capacity() <= usize::MAX / 8);
    assert!(container_capacity() >= (1 << 29) - 1);
}

#[test]
fn search_in_an_ascending_run() {
    let points = vec![9, 9, 1, 4, 6, 8, 0, 0];
    assert_eq!(search_ascending(&points, 2, 6, 1), Some(2));
    assert_eq!(search_ascending(&points, 2, 6, 6), Some(4));
    assert_eq!(search_ascending(&points, 2, 6, 8), Some(5));
    assert_eq!(search_ascending(&points, 2, 6, 9), None);
    assert_eq!(search_ascending(&points, 2, 6, 0), None);
    assert_eq!(search_ascending(&points, 2, 6, 5), None);
    assert_eq!(search_ascending(&points, 3, 3, 4), None);
}

#[test]
fn reverse_index_is_built_once_and_only_cleared() {
    let mut index = ImmutablePointToValues::new(vec![vec![1, 2], vec![], vec![3]]);
    assert_eq!(index.len(), 3);
    assert_eq!(index.get_values(0).unwrap(), &[1, 2][..]);
    assert_eq!(index.get_values(1).unwrap(), &[][..] as &[i64]);
    assert_eq!(index.get_values(2).unwrap(), &[3][..]);
    assert!(index.get_values(3).is_none());
    assert_eq!(index.get_values_count(0), Some(2));
    assert_eq!(index.get_values_count(3), None);
    assert!(index.check_values_any(0, |value| *value == 2));
    assert!(!index.check_values_any(0, |value| *value == 3));
    index.remove_point(0);
    index.remove_point(7);
    assert_eq!(index.len(), 3);
    assert_eq!(index.get_values_count(0), Some(0));
    assert_eq!(index.get_values(2).unwrap(), &[3][..]);
    assert_eq!(ImmutablePointToValues::empty().len(), 0);
}

#[test]
fn loading_again_forgets_the_tombstones() {
    let store = TransactionalStore::from_records(vec![(1, 0), (1, 1), (1, 2)]).unwrap();
    let mut index = ImmutableMapIndex::open_rocksdb(store);
    index.load().unwrap();
    index.remove_point(1).unwrap();
    assert_eq!(index.get_iterator(1), vec![0, 2]);
    // the delete was scheduled, not flushed: the column still has the key
    assert_eq!(index.load(), Ok(true));
    assert_eq!(index.get_iterator(1), vec![0, 1, 2]);
    assert_eq!(index.get_values_count(), 3);
}

#[test]
fn chunks_keep_the_data_of_a_point_together() {
    let mut chunks: ChunkedVectors<u8> = ChunkedVectors::new();
    let first = chunks.push(&[1, 2, 3]);
    assert_eq!(first, Location { chunk: 0, offset: 0, reserved: 3 });
    let second = chunks.push(&[4, 5]);
    assert_eq!(second, Location { chunk: 0, offset: 3, reserved: 2 });
    // what does not fit behind the rest starts a new chunk
    let large = vec![7u8; CHUNK_SIZE - 4];
    let third = chunks.push(&large);
    assert_eq!(third, Location { chunk: 1, offset: 0, reserved: CHUNK_SIZE - 4 });
    assert_eq!(chunks.chunks_count(), 2);
    // a chunk may be filled to the last byte
    let fourth = chunks.push(&[8, 9, 10, 11]);
    assert_eq!(fourth, Location { chunk: 1, offset: CHUNK_SIZE - 4, reserved: 4 });
    let fifth = chunks.push(&[12]);
    assert_eq!(fifth, Location { chunk: 2, offset: 0, reserved: 1 });
    chunks.write(first, &[6, 6]);
    assert_eq!(chunks.get(first, 3), &[6, 6, 3][..]);
    assert_eq!(chunks.get(second, 2), &[4, 5][..]);
    assert_eq!(chunks.get(fourth, 4), &[8, 9, 10, 11][..]);
    assert_eq!(chunks.get(third, 2), &[7, 7][..]);
}

#[test]
fn tombstone_bits_grow_only_as_far_as_the_flagged_slot() {
    let mut container = FlatPointsContainer::new();
    container.allocate(1, &vec![0, 1, 2, 3, 4]);
    container.allocate(2, &vec![5, 6, 7, 8, 9]);
    assert!(container.tombstone_flags().is_empty());
    container.remove_idx_from_value_list(1, 1);
    assert_eq!(container.tombstone_flags(), vec![false, true]);
    assert_eq!(container.get_iterator(1), vec![0, 2, 3, 4]);
    assert_eq!(container.get_count_for_value(1), Some(4));
    assert_eq!(container.get_point_ids_slice(1).unwrap(), (&[0, 1, 2, 3, 4][..], 0));
    assert_eq!(container.get_point_ids_slice(2).unwrap(), (&[5, 6, 7, 8, 9][..], 5));
    // a miss, and a slot that is flagged already, leave the bits alone
    container.remove_idx_from_value_list(2, 1);
    container.remove_idx_from_value_list(1, 1);
    assert_eq!(container.tombstone_flags(), vec![false, true]);
    // a slot below the recorded bits does not grow them
    container.remove_idx_from_value_list(1, 0);
    assert_eq!(container.tombstone_flags(), vec![true, true]);
    container.remove_idx_from_value_list(2, 7);
    assert_eq!(
        container.tombstone_flags(),
        vec![true, true, false, false, false, false, false, true]
    );
}
