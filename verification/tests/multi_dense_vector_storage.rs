use segment::chunked_vectors::CHUNK_SIZE;
use segment::error::OperationError;
use segment::multi_dense_vector::{
    MultiDenseVector, TypedMultiDenseVectorRef, MAX_MULTIVECTOR_FLATTENED_LEN,
};
use segment::vector_storage::{
    new_volatile_multi_dense_vector_storage, Distance, MultiVectorConfig,
    VolatileMultiDenseVectorStorage,
};
use segment::PointOffsetType;

type VectorElementType = f32;

#[derive(Debug, PartialEq)]
struct ScoredPointOffset {
    idx: PointOffsetType,
    score: f32,
}

fn multi_points_fixtures(vec_count: usize, vec_dim: usize) -> Vec<MultiDenseVector<f32>> {
    let mut multis: Vec<MultiDenseVector<f32>> = Vec::new();
    for i in 0..vec_count {
        let value = i as f32;
        // hardcoded 5 inner vectors
        let vectors = vec![
            vec![value; vec_dim],
            vec![value; vec_dim],
            vec![value; vec_dim],
            vec![value; vec_dim],
            vec![value; vec_dim],
        ];
        let multi = MultiDenseVector::try_from(vectors).unwrap();
        multis.push(multi);
    }
    multis
}

/// Sum over the query vectors of the best dot product with a stored vector.
fn max_sim_dot(query: &MultiDenseVector<f32>, stored: TypedMultiDenseVectorRef<'_, f32>) -> f32 {
    let mut sum = 0.0;
    for q in query.flattened_vectors.chunks(query.dim) {
        let mut best = f32::NEG_INFINITY;
        for s in stored.flattened_vectors.chunks(stored.dim) {
            let dot: f32 = q.iter().zip(s.iter()).map(|(a, b)| a * b).sum();
            if dot > best {
                best = dot;
            }
        }
        sum += best;
    }
    sum
}

/// The best `top` of the given points that are not deleted, best first.
fn peek_top_iter(
    query: &MultiDenseVector<f32>,
    storage: &VolatileMultiDenseVectorStorage<f32>,
    points: &mut dyn Iterator<Item = PointOffsetType>,
    top: usize,
) -> Vec<ScoredPointOffset> {
    let mut scored: Vec<ScoredPointOffset> = points
        .filter(|idx| !storage.is_deleted_vector(*idx))
        .filter_map(|idx| {
            storage
                .get_vector_opt(idx)
                .map(|stored| ScoredPointOffset { idx, score: max_sim_dot(query, stored) })
        })
        .collect();
    scored.sort_by(|a, b| b.score.partial_cmp(&a.score).unwrap());
    scored.truncate(top);
    scored
}

fn peek_top_all(
    query: &MultiDenseVector<f32>,
    storage: &VolatileMultiDenseVectorStorage<f32>,
    top: usize,
) -> Vec<ScoredPointOffset> {
    let total = storage.total_vector_count() as PointOffsetType;
    peek_top_iter(query, storage, &mut (0..total), top)
}

fn do_test_delete_points(
    vector_dim: usize,
    vec_count: usize,
    storage: &mut VolatileMultiDenseVectorStorage<f32>,
) {
    let points = multi_points_fixtures(vec_count, vector_dim);

    let delete_mask = [false, false, true, true, false];

    // Insert all points
    for (i, vec) in points.iter().enumerate() {
        storage.insert_vector(i as PointOffsetType, vec.as_vec_ref()).unwrap();
    }
    // Check that all points are inserted
    for (i, vec) in points.iter().enumerate() {
        let stored_vec = storage.get_vector(i as PointOffsetType);
        assert_eq!(stored_vec.to_owned(), vec.clone());
    }
    // Check that all points are inserted #2
    {
        let orig_iter = points
            .iter()
            .flat_map(|multivec| multivec.flattened_vectors.chunks(multivec.dim));
        let stored: Vec<Vec<f32>> = (0..storage.total_vector_count())
            .flat_map(|i| {
                let stored = storage.get_vector(i as PointOffsetType);
                stored
                    .flattened_vectors
                    .chunks(stored.dim)
                    .map(|inner| inner.to_vec())
                    .collect::<Vec<_>>()
            })
            .collect();
        assert_eq!(stored.len(), vec_count * 5);
        for (orig, vec) in orig_iter.zip(stored.iter()) {
            assert_eq!(orig, vec.as_slice());
        }
    }

    // Delete select number of points
    delete_mask
        .into_iter()
        .enumerate()
        .filter(|(_, d)| *d)
        .for_each(|(i, _)| {
            storage.delete_vector(i as PointOffsetType).unwrap();
        });
    assert_eq!(storage.deleted_vector_count(), 2, "2 vectors must be deleted");
    let vector: Vec<Vec<f32>> = vec![vec![2.0; vector_dim]];
    let query = MultiDenseVector::try_from(vector).unwrap();
    let closest = peek_top_iter(&query, storage, &mut [0, 1, 2, 3, 4].iter().cloned(), 5);
    assert_eq!(closest.len(), 3, "must have 3 vectors, 2 are deleted");
    assert_eq!(closest[0].idx, 4);
    assert_eq!(closest[1].idx, 1);
    assert_eq!(closest[2].idx, 0);

    // Delete 1, redelete 2
    storage.delete_vector(1 as PointOffsetType).unwrap();
    storage.delete_vector(2 as PointOffsetType).unwrap();
    assert_eq!(storage.deleted_vector_count(), 3, "3 vectors must be deleted");

    let vector: Vec<Vec<f32>> = vec![vec![1.0; vector_dim]];
    let query = MultiDenseVector::try_from(vector).unwrap();
    let closest = peek_top_iter(&query, storage, &mut [0, 1, 2, 3, 4].iter().cloned(), 5);
    assert_eq!(closest.len(), 2, "must have 2 vectors, 3 are deleted");
    assert_eq!(closest[0].idx, 4);
    assert_eq!(closest[1].idx, 0);

    // Delete all
    storage.delete_vector(0 as PointOffsetType).unwrap();
    storage.delete_vector(4 as PointOffsetType).unwrap();
    assert_eq!(storage.deleted_vector_count(), 5, "all vectors must be deleted");

    let vector: Vec<Vec<f32>> = vec![vec![1.0; vector_dim]];
    let query = MultiDenseVector::try_from(vector).unwrap();
    let closest = peek_top_all(&query, storage, 5);
    assert!(closest.is_empty(), "must have no results, all deleted");
}

fn do_test_update_from_delete_points(
    vector_dim: usize,
    vec_count: usize,
    storage: &mut VolatileMultiDenseVectorStorage<f32>,
) {
    let points = multi_points_fixtures(vec_count, vector_dim);

    let delete_mask = [false, false, true, true, false];

    {
        let mut storage2 = new_volatile_multi_dense_vector_storage(
            vector_dim,
            Distance::Dot,
            MultiVectorConfig::default(),
        );
        {
            points.iter().enumerate().for_each(|(i, vec)| {
                storage2.insert_vector(i as PointOffsetType, vec.as_vec_ref()).unwrap();
                if delete_mask[i] {
                    storage2.delete_vector(i as PointOffsetType).unwrap();
                }
            });
        }
        let records: Vec<(TypedMultiDenseVectorRef<'_, f32>, bool)> = (0..points.len())
            .map(|i| {
                let i = i as PointOffsetType;
                let vec = storage2.get_vector(i);
                let deleted = storage2.is_deleted_vector(i);
                (vec, deleted)
            })
            .collect();
        storage.update_from(&records).unwrap();
    }

    assert_eq!(
        storage.deleted_vector_count(),
        2,
        "2 vectors must be deleted from other storage"
    );

    let vector: Vec<Vec<f32>> = vec![vec![1.0; vector_dim]];

    let query = MultiDenseVector::try_from(vector).unwrap();

    let closest = peek_top_iter(&query, storage, &mut [0, 1, 2, 3, 4].iter().cloned(), 5);
    assert_eq!(closest.len(), 3, "must have 3 vectors, 2 are deleted");
    assert_eq!(closest[0].idx, 4);
    assert_eq!(closest[1].idx, 1);
    assert_eq!(closest[2].idx, 0);

    // Delete all
    storage.delete_vector(0 as PointOffsetType).unwrap();
    storage.delete_vector(1 as PointOffsetType).unwrap();
    storage.delete_vector(4 as PointOffsetType).unwrap();
    assert_eq!(storage.deleted_vector_count(), 5, "all vectors must be deleted");
}

#[test]
fn test_delete_points_in_volatile_multi_dense_vector_storage() {
    let vec_dim = 1024;
    let vec_count = 5;
    let mut storage = new_volatile_multi_dense_vector_storage(
        vec_dim,
        Distance::Dot,
        MultiVectorConfig::default(),
    );
    do_test_delete_points(vec_dim, vec_count, &mut storage);

    // retrieve all vectors from storage
    for id in 0..storage.total_vector_count() {
        assert!(storage.get_vector_opt(id as PointOffsetType).is_some());
    }
}

#[test]
fn test_update_from_delete_points_volatile_multi_dense_vector_storage() {
    let vec_dim = 1024;
    let vec_count = 5;
    let mut storage = new_volatile_multi_dense_vector_storage(
        vec_dim,
        Distance::Dot,
        MultiVectorConfig::default(),
    );
    do_test_update_from_delete_points(vec_dim, vec_count, &mut storage);

    // retrieve all vectors from storage
    for id in 0..storage.total_vector_count() {
        assert!(storage.get_vector_opt(id as PointOffsetType).is_some());
    }
}

#[test]
fn test_large_volatile_multi_dense_vector_storage() {
    assert!(MAX_MULTIVECTOR_FLATTENED_LEN * std::mem::size_of::<VectorElementType>() < CHUNK_SIZE);

    let vec_dim = 100_000;
    let vec_count = 100;
    let mut storage = new_volatile_multi_dense_vector_storage(
        vec_dim,
        Distance::Dot,
        MultiVectorConfig::default(),
    );

    let vectors = vec![vec![0.0; vec_dim]; vec_count];
    let multivec = MultiDenseVector::try_from(vectors).unwrap();

    let result = storage.insert_vector(0, multivec.as_vec_ref());
    match result {
        Ok(_) => {
            panic!("Inserting vector should fail");
        }
        Err(e) => {
            assert!(e.to_string().contains("too large"));
        }
    }
}

#[test]
fn oversized_vector_leaves_the_counters_alone() {
    let mut storage = new_volatile_multi_dense_vector_storage::<f32>(
        4,
        Distance::Dot,
        MultiVectorConfig::default(),
    );
    let small = MultiDenseVector::try_from(vec![vec![1.0f32; 4]; 2]).unwrap();
    storage.insert_vector(0, small.as_vec_ref()).unwrap();
    storage.delete_vector(0).unwrap();
    let flattened = vec![0.0f32; CHUNK_SIZE / 4 + 4];
    let large = TypedMultiDenseVectorRef { flattened_vectors: &flattened, dim: 4 };
    assert_eq!(
        storage.insert_vector(1, large),
        Err(OperationError::VectorTooLarge { size: CHUNK_SIZE / 4 + 4, max_size: CHUNK_SIZE })
    );
    assert_eq!(storage.total_vector_count(), 1);
    assert_eq!(storage.deleted_vector_count(), 1);
    assert!(storage.get_vector_opt(1).is_none());
    // vectors that fill a chunk to the last byte do not exceed it
    let large = TypedMultiDenseVectorRef { flattened_vectors: &flattened[4..], dim: 4 };
    assert_eq!(storage.insert_vector(1, large), Ok(()));
    assert_eq!(storage.total_vector_count(), 2);
    assert_eq!(storage.get_vector(1).flattened_vectors.len(), CHUNK_SIZE / 4);
    // the first point is still where it was
    assert_eq!(storage.get_vector(0).flattened_vectors, &[1.0f32; 8][..]);
}

#[test]
fn delete_vector_is_idempotent() {
    let mut storage = new_volatile_multi_dense_vector_storage::<f32>(
        2,
        Distance::Cosine,
        MultiVectorConfig::default(),
    );
    let vector = MultiDenseVector::try_from(vec![vec![1.0f32, 2.0]]).unwrap();
    storage.insert_vector(3, vector.as_vec_ref()).unwrap();
    assert_eq!(storage.total_vector_count(), 4);
    assert!(storage.get_vector_opt(2).is_none());
    assert!(storage.get_vector_opt(4).is_none());
    assert_eq!(storage.delete_vector(3), Ok(true));
    assert_eq!(storage.deleted_vector_count(), 1);
    assert_eq!(storage.delete_vector(3), Ok(false));
    assert_eq!(storage.deleted_vector_count(), 1);
    assert!(storage.is_deleted_vector(3));
    // a deleted point can still be read
    assert_eq!(storage.get_vector(3).flattened_vectors, &[1.0f32, 2.0][..]);
    // writing the point again brings it back
    storage.insert_vector(3, vector.as_vec_ref()).unwrap();
    assert!(!storage.is_deleted_vector(3));
    assert_eq!(storage.deleted_vector_count(), 0);
}

#[test]
fn insert_overwrites_in_place_or_moves() {
    let mut storage = new_volatile_multi_dense_vector_storage::<u8>(
        2,
        Distance::Dot,
        MultiVectorConfig::default(),
    );
    let two = MultiDenseVector::try_from(vec![vec![1u8, 2], vec![3, 4]]).unwrap();
    let one = MultiDenseVector::try_from(vec![vec![9u8, 8]]).unwrap();
    let three = MultiDenseVector::try_from(vec![vec![5u8, 5], vec![6, 6], vec![7, 7]]).unwrap();
    storage.insert_vector(0, two.as_vec_ref()).unwrap();
    storage.insert_vector(1, two.as_vec_ref()).unwrap();
    storage.insert_vector(0, one.as_vec_ref()).unwrap();
    assert_eq!(storage.get_vector(0).flattened_vectors, &[9u8, 8][..]);
    assert_eq!(storage.get_vector(1).flattened_vectors, &[1u8, 2, 3, 4][..]);
    storage.insert_vector(0, three.as_vec_ref()).unwrap();
    assert_eq!(storage.get_vector(0).flattened_vectors, &[5u8, 5, 6, 6, 7, 7][..]);
    assert_eq!(storage.get_vector(0).vectors_count(), 3);
    assert_eq!(storage.get_vector(1).flattened_vectors, &[1u8, 2, 3, 4][..]);
    assert_eq!(storage.total_vector_count(), 2);
}

#[test]
fn update_from_stops_at_the_first_oversized_record() {
    let mut storage = new_volatile_multi_dense_vector_storage::<u8>(
        1,
        Distance::Dot,
        MultiVectorConfig::default(),
    );
    let small = vec![7u8; 3];
    let large = vec![0u8; CHUNK_SIZE + 1];
    let records = vec![
        (TypedMultiDenseVectorRef { flattened_vectors: &small[..], dim: 1 }, true),
        (TypedMultiDenseVectorRef { flattened_vectors: &large[..], dim: 1 }, false),
        (TypedMultiDenseVectorRef { flattened_vectors: &small[..], dim: 1 }, false),
    ];
    assert_eq!(
        storage.update_from(&records),
        Err(OperationError::VectorTooLarge { size: CHUNK_SIZE + 1, max_size: CHUNK_SIZE })
    );
    assert_eq!(storage.total_vector_count(), 1);
    assert_eq!(storage.deleted_vector_count(), 1);
    assert_eq!(storage.update_from(&records[..1]), Ok((1, 2)));
    assert_eq!(storage.total_vector_count(), 2);
    assert_eq!(storage.deleted_vector_count(), 2);
}

#[test]
fn multi_dense_vector_construction_errors() {
    assert_eq!(
        MultiDenseVector::<f32>::try_from(vec![]),
        Err(OperationError::ValidationError {
            description: "MultiDenseVector cannot be empty".to_string()
        })
    );
    assert_eq!(
        MultiDenseVector::try_from(vec![vec![1.0f32, 2.0], vec![3.0]]),
        Err(OperationError::WrongVectorDimension { expected_dim: 2, received_dim: 1 })
    );
    let multi = MultiDenseVector::try_from(vec![vec![1.0f32, 2.0], vec![3.0, 4.0]]).unwrap();
    assert_eq!(multi.flattened_vectors, vec![1.0, 2.0, 3.0, 4.0]);
    assert_eq!(multi.dim, 2);
    assert_eq!(multi.vectors_count(), 2);
}
