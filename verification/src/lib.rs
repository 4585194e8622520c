use vstd::prelude::*;

pub mod bits;
pub mod chunked_vectors;
pub mod error;
pub mod immutable_map_index;
pub mod inference;
pub mod multi_dense_vector;
pub mod point_to_values;
pub mod points_container;
pub mod sorted;
pub mod storage;
pub mod vector_storage;

verus! {

/// Dense, zero-based identifier of a point within a segment.
pub type PointOffsetType = u32;

/// An integer payload value, the key under which points are indexed.
pub type IntPayloadType = i64;

} // verus!
