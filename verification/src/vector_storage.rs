//! The volatile multi-dense vector storage: for every point its vectors, kept
//! in a chunked container, with logical deletion.

use crate::bits::{max_bits, BitVector};
use crate::chunked_vectors::{
    check_fits_in_chunk, fits_in_chunk, ChunkedVectors, Location, CHUNK_SIZE,
};
use crate::error::{OperationError, OperationResult};
use crate::multi_dense_vector::{MultiDenseVector, TypedMultiDenseVectorRef};
use crate::points_container::tombstoned;
use crate::PointOffsetType;
use vstd::prelude::*;

verus! {

/// How the similarity of two vectors is measured.
#[derive(Debug, Clone, Copy, PartialEq, Eq, Structural)]
pub enum Distance {
    Cosine,
    Euclid,
    Dot,
    Manhattan,
}

/// How the vectors of two points are compared with each other.
#[derive(Debug, Clone, Copy, PartialEq, Eq, Structural)]
pub enum MultiVectorComparator {
    MaxSim,
}

/// Settings for points with several vectors.
#[derive(Debug, Clone, Copy, PartialEq, Eq, Structural)]
pub struct MultiVectorConfig {
    pub comparator: MultiVectorComparator,
}

impl Default for MultiVectorConfig {
    fn default() -> (config: Self)
        ensures
            config.comparator == MultiVectorComparator::MaxSim,
    {
        MultiVectorConfig { comparator: MultiVectorComparator::MaxSim }
    }
}

/// The number of bits that are set.
pub open spec fn count_true(bits: Seq<bool>) -> nat
    decreases bits.len(),
{
    if bits.len() == 0 {
        0
    } else {
        count_true(bits.drop_last()) + if bits.last() {
            1nat
        } else {
            0nat
        }
    }
}

/// Writing one bit changes the number of set bits by what that bit was and is.
pub proof fn lemma_count_update(bits: Seq<bool>, index: int, value: bool)
    requires
        0 <= index < bits.len(),
    ensures
        count_true(bits.update(index, value)) == count_true(bits) - (if bits[index] {
            1int
        } else {
            0int
        }) + (if value {
            1int
        } else {
            0int
        }),
        bits[index] ==> count_true(bits) >= 1,
        count_true(bits) <= bits.len(),
    decreases bits.len(),
{
    let updated = bits.update(index, value);
    lemma_count_bound(bits);
    if index == bits.len() - 1 {
        assert(updated.drop_last() =~= bits.drop_last());
    } else {
        assert(updated.drop_last() =~= bits.drop_last().update(index, value));
        lemma_count_update(bits.drop_last(), index, value);
    }
}

/// No more bits are set than there are bits.
pub proof fn lemma_count_bound(bits: Seq<bool>)
    ensures
        count_true(bits) <= bits.len(),
    decreases bits.len(),
{
    if bits.len() > 0 {
        lemma_count_bound(bits.drop_last());
    }
}

/// Appending unset bits leaves the number of set bits as it is.
pub proof fn lemma_count_extend(shorter: Seq<bool>, longer: Seq<bool>)
    requires
        shorter.len() <= longer.len(),
        forall|i: int| 0 <= i < shorter.len() ==> longer[i] == shorter[i],
        forall|i: int| shorter.len() <= i < longer.len() ==> !longer[i],
    ensures
        count_true(longer) == count_true(shorter),
    decreases longer.len(),
{
    if shorter.len() == longer.len() {
        assert(shorter =~= longer);
    } else {
        lemma_count_extend(shorter, longer.drop_last());
    }
}

/// The vectors of `n` points at least: the given ones, and points without
/// vectors behind them as far as needed.
pub open spec fn padded<T>(vectors: Seq<Option<Seq<T>>>, n: nat) -> Seq<Option<Seq<T>>> {
    if vectors.len() >= n {
        vectors
    } else {
        vectors + Seq::new((n - vectors.len()) as nat, |i: int| None::<Seq<T>>)
    }
}

/// What a vector storage holds, apart from where it keeps it.
pub struct VectorStorageState<T> {
    /// For every point up to the highest one written, its flattened vectors, or
    /// nothing where no vector was ever written.
    pub vectors: Seq<Option<Seq<T>>>,
    /// The points that are marked as deleted.
    pub deleted: Set<PointOffsetType>,
    /// How many points are marked as deleted.
    pub deleted_count: nat,
}

impl<T> VectorStorageState<T> {
    /// The state after the vectors of point `key` have been written: the point
    /// has them, and is not deleted any more.
    pub open spec fn insert(self, key: PointOffsetType, data: Seq<T>) -> Self {
        VectorStorageState {
            vectors: padded(self.vectors, (key + 1) as nat).update(key as int, Some(data)),
            deleted: self.deleted.remove(key),
            deleted_count: if self.deleted.contains(key) {
                (self.deleted_count - 1) as nat
            } else {
                self.deleted_count
            },
        }
    }

    /// The state after point `key` has been marked as deleted. Its vectors
    /// stay readable.
    pub open spec fn delete(self, key: PointOffsetType) -> Self {
        VectorStorageState {
            vectors: self.vectors,
            deleted: self.deleted.insert(key),
            deleted_count: if self.deleted.contains(key) {
                self.deleted_count
            } else {
                self.deleted_count + 1
            },
        }
    }

    /// The state after one record of another storage has been taken over: its
    /// vectors go to the next free point, which is deleted if the record was.
    pub open spec fn append(self, data: Seq<T>, deleted: bool) -> Self {
        let key = self.vectors.len() as PointOffsetType;
        if deleted {
            self.insert(key, data).delete(key)
        } else {
            self.insert(key, data)
        }
    }

    /// The state after the first `n` of the given records have been taken
    /// over, in their order.
    pub open spec fn append_all(self, records: Seq<(Seq<T>, bool)>, n: nat) -> Self
        decreases n,
    {
        if n == 0 {
            self
        } else {
            self.append_all(records, (n - 1) as nat).append(records[n - 1].0, records[n - 1].1)
        }
    }
}

/// Deleting a point twice leaves a storage as deleting it once does: the
/// count of deleted points does not move the second time.
pub proof fn lemma_delete_idempotent<T>(state: VectorStorageState<T>, key: PointOffsetType)
    ensures
        state.delete(key).delete(key) == state.delete(key),
{
    assert(state.delete(key).deleted.insert(key) =~= state.delete(key).deleted);
}

/// The number of deleted records among the first `n`.
pub open spec fn deleted_records<T>(records: Seq<(Seq<T>, bool)>, n: nat) -> nat
    decreases n,
{
    if n == 0 {
        0
    } else {
        deleted_records(records, (n - 1) as nat) + if records[n - 1].1 {
            1nat
        } else {
            0nat
        }
    }
}

/// Taking records over keeps their deletion marks: a storage in which no
/// point beyond the last one is marked grows by one point for every record,
/// in the order of the records, and has one more deleted point for every
/// deleted record. What it held before stays as it was.
pub proof fn lemma_append_all<T>(
    state: VectorStorageState<T>,
    records: Seq<(Seq<T>, bool)>,
    n: nat,
)
    requires
        n <= records.len(),
        state.vectors.len() + n <= u32::MAX,
        forall|key: PointOffsetType| state.deleted.contains(key) ==> key < state.vectors.len(),
    ensures
        state.append_all(records, n).vectors.len() == state.vectors.len() + n,
        state.append_all(records, n).deleted_count == state.deleted_count + deleted_records(
            records,
            n,
        ),
        forall|p: int|
            0 <= p < state.vectors.len() ==> state.append_all(records, n).vectors[p]
                == state.vectors[p],
        forall|i: int|
            0 <= i < n ==> state.append_all(records, n).vectors[state.vectors.len() + i] == Some(
                records[i].0,
            ) && state.append_all(records, n).deleted.contains(
                (state.vectors.len() + i) as PointOffsetType,
            ) == records[i].1,
        forall|key: PointOffsetType|
            key < state.vectors.len() ==> state.append_all(records, n).deleted.contains(key)
                == state.deleted.contains(key),
        forall|key: PointOffsetType|
            state.append_all(records, n).deleted.contains(key) ==> key < state.vectors.len() + n,
    decreases n,
{
    if n > 0 {
        let before = state.append_all(records, (n - 1) as nat);
        lemma_append_all(state, records, (n - 1) as nat);
        let key = before.vectors.len() as PointOffsetType;
        let data = records[n - 1].0;
        assert(padded(before.vectors, (key + 1) as nat).update(key as int, Some(data))
            =~= before.vectors.push(Some(data)));
        assert(!before.deleted.contains(key));
    }
}

/// The records of another storage as plain values: the flattened vectors of
/// a point, and whether the point is deleted there.
pub open spec fn records_view<T>(records: Seq<(TypedMultiDenseVectorRef<'_, T>, bool)>) -> Seq<
    (Seq<T>, bool),
> {
    Seq::new(records.len(), |i: int| (records[i].0.flattened_vectors@, records[i].1))
}

/// Where the vectors of one point stand, and how many elements they have.
#[derive(Debug, Clone, Copy, PartialEq, Eq, Structural)]
pub struct MultivectorOffset {
    pub location: Location,
    pub len: usize,
}

/// The volatile storage of multi-dense vectors: everything is held in
/// memory, and nothing outlives the storage.
pub struct VolatileMultiDenseVectorStorage<T> {
    dim: usize,
    distance: Distance,
    multi_vector_config: MultiVectorConfig,
    vectors: ChunkedVectors<T>,
    vectors_metadata: Vec<Option<MultivectorOffset>>,
    deleted: BitVector,
    deleted_count: usize,
}

/// A volatile storage for multi-dense vectors of dimension `dim`.
pub fn new_volatile_multi_dense_vector_storage<T: Copy>(
    dim: usize,
    distance: Distance,
    multi_vector_config: MultiVectorConfig,
) -> (storage: VolatileMultiDenseVectorStorage<T>)
    ensures
        storage.wf(),
        storage.dim() == dim,
        storage.distance() == distance,
        storage.multi_vector_config() == multi_vector_config,
        storage@.vectors == Seq::<Option<Seq<T>>>::empty(),
        storage@.deleted == Set::<PointOffsetType>::empty(),
        storage@.deleted_count == 0,
{
    let storage = VolatileMultiDenseVectorStorage {
        dim,
        distance,
        multi_vector_config,
        vectors: ChunkedVectors::new(),
        vectors_metadata: Vec::new(),
        deleted: BitVector::new(),
        deleted_count: 0,
    };
    assert(storage@.vectors =~= Seq::<Option<Seq<T>>>::empty());
    assert(storage@.deleted =~= Set::<PointOffsetType>::empty());
    storage
}

impl<T: Copy> View for VolatileMultiDenseVectorStorage<T> {
    type V = VectorStorageState<T>;

    closed spec fn view(&self) -> VectorStorageState<T> {
        VectorStorageState {
            vectors: Seq::new(
                self.vectors_metadata@.len(),
                |p: int|
                    match self.vectors_metadata@[p] {
                        Some(slot) => Some(
                            self.vectors.chunks()[slot.location.chunk as int].subrange(
                                slot.location.offset as int,
                                slot.location.offset + slot.len,
                            ),
                        ),
                        None => None,
                    },
            ),
            deleted: Set::new(|key: PointOffsetType| tombstoned(self.deleted@, key as int)),
            deleted_count: self.deleted_count as nat,
        }
    }
}

impl<T: Copy> VolatileMultiDenseVectorStorage<T> {
    /// The dimension of every vector in the storage.
    pub closed spec fn dim(&self) -> usize {
        self.dim
    }

    /// How the similarity of vectors in the storage is measured.
    pub closed spec fn distance(&self) -> Distance {
        self.distance
    }

    /// How the vectors of two points are compared.
    pub closed spec fn multi_vector_config(&self) -> MultiVectorConfig {
        self.multi_vector_config
    }

    /// The invariant of the storage.
    pub closed spec fn wf(&self) -> bool {
        &&& self.vectors.wf()
        &&& self.vectors_metadata@.len() <= max_bits()
        &&& self.deleted@.len() <= max_bits()
        &&& self.deleted_count == count_true(self.deleted@)
        &&& forall|p: int|
            0 <= p < self.vectors_metadata@.len() ==> match #[trigger] self.vectors_metadata@[p] {
                Some(slot) => self.vectors.holds(slot.location) && 0 < slot.len
                    <= slot.location.reserved,
                None => true,
            }
        &&& forall|p: int, q: int|
            0 <= p < self.vectors_metadata@.len() && 0 <= q < self.vectors_metadata@.len() && p
                != q ==> match (#[trigger] self.vectors_metadata@[p], #[trigger] self.vectors_metadata@[q]) {
                (Some(a), Some(b)) => {
                    ||| a.location.chunk != b.location.chunk
                    ||| a.location.offset + a.location.reserved <= b.location.offset
                    ||| b.location.offset + b.location.reserved <= a.location.offset
                },
                _ => true,
            }
    }

    /// What the invariant says to the outside: a point that was written has
    /// vectors that fit one chunk, and the count of deleted points is in step
    /// with the marks.
    pub proof fn lemma_wf(&self)
        requires
            self.wf(),
        ensures
            self@.vectors.len() <= max_bits(),
            forall|p: int|
                0 <= p < self@.vectors.len() ==> match #[trigger] self@.vectors[p] {
                    Some(data) => data.len() > 0 && fits_in_chunk::<T>(data.len()),
                    None => true,
                },
    {
        assert forall|p: int| 0 <= p < self@.vectors.len() implies match #[trigger] self@.vectors[p] {
            Some(data) => data.len() > 0 && fits_in_chunk::<T>(data.len()),
            None => true,
        } by {
            match self.vectors_metadata@[p] {
                Some(slot) => {
                    let chunk = self.vectors.chunks()[slot.location.chunk as int];
                    assert(fits_in_chunk::<T>(chunk.len()));
                    assert(slot.len * vstd::layout::size_of::<T>() <= chunk.len()
                        * vstd::layout::size_of::<T>()) by (nonlinear_arith)
                        requires
                            slot.len <= chunk.len(),
                    ;
                },
                None => {},
            }
        }
    }

    /// The number of points the storage has room for: one more than the highest
    /// point ever written.
    pub fn total_vector_count(&self) -> (count: usize)
        ensures
            count == self@.vectors.len(),
    {
        self.vectors_metadata.len()
    }

    /// The number of points that are marked as deleted. The count is kept up
    /// with every change, not found by scanning.
    pub fn deleted_vector_count(&self) -> (count: usize)
        ensures
            count == self@.deleted_count,
    {
        self.deleted_count
    }

    /// Whether point `key` is marked as deleted.
    pub fn is_deleted_vector(&self, key: PointOffsetType) -> (deleted: bool)
        ensures
            deleted == self@.deleted.contains(key),
    {
        match self.deleted.get(key as usize) {
            Some(bit) => bit,
            None => false,
        }
    }

    /// The vectors of point `key`; nothing for a point that was never written
    /// or lies beyond the storage. A deleted point still has its vectors.
    pub fn get_vector_opt(&self, key: PointOffsetType) -> (vector: Option<
        TypedMultiDenseVectorRef<'_, T>,
    >)
        requires
            self.wf(),
        ensures
            match vector {
                Some(found) => {
                    &&& key < self@.vectors.len()
                    &&& self@.vectors[key as int] == Some(found.flattened_vectors@)
                    &&& found.dim == self.dim()
                },
                None => key >= self@.vectors.len() || self@.vectors[key as int] is None,
            },
    {
        if key as usize >= self.vectors_metadata.len() {
            return None;
        }
        match self.vectors_metadata[key as usize] {
            Some(slot) => {
                let flattened_vectors = self.vectors.get(slot.location, slot.len);
                Some(TypedMultiDenseVectorRef { flattened_vectors, dim: self.dim })
            },
            None => None,
        }
    }

    /// Sets or clears the deletion mark of point `key`, and keeps the count of
    /// deleted points in step. Says whether the point was marked before.
    fn set_deleted(&mut self, key: PointOffsetType, deleted: bool) -> (previous: bool)
        requires
            old(self).wf(),
            key < max_bits(),
        ensures
            final(self).wf(),
            previous == old(self)@.deleted.contains(key),
            final(self)@.vectors == old(self)@.vectors,
            final(self)@.deleted == if deleted {
                old(self)@.deleted.insert(key)
            } else {
                old(self)@.deleted.remove(key)
            },
            final(self)@.deleted_count == old(self)@.deleted_count + (if deleted {
                1int
            } else {
                0int
            }) - (if previous {
                1int
            } else {
                0int
            }),
            final(self).dim() == old(self).dim(),
            final(self).distance() == old(self).distance(),
            final(self).multi_vector_config() == old(self).multi_vector_config(),
    {
        let ghost marks = self.deleted@;
        if key as usize >= self.deleted.len() {
            if !deleted {
                assert(self@.deleted.remove(key) =~= self@.deleted);
                return false;
            }
            self.deleted.resize(key as usize + 1, false);
            proof {
                lemma_count_extend(marks, self.deleted@);
            }
        }
        let ghost grown = self.deleted@;
        let previous = self.deleted.replace(key as usize, deleted);
        proof {
            lemma_count_update(grown, key as int, deleted);
            assert forall|other: PointOffsetType|
                tombstoned(self.deleted@, other as int) == if other == key {
                    deleted
                } else {
                    tombstoned(marks, other as int)
                } by {}
            assert(previous == tombstoned(marks, key as int));
        }
        if previous != deleted {
            if !previous {
                proof {
                    lemma_count_bound(self.deleted@);
                }
                self.deleted_count += 1;
            } else {
                self.deleted_count -= 1;
            }
        }
        proof {
            if deleted {
                assert(self@.deleted =~= old(self)@.deleted.insert(key));
            } else {
                assert(self@.deleted =~= old(self)@.deleted.remove(key));
            }
            assert(self@.vectors =~= old(self)@.vectors);
        }
        previous
    }

    /// Marks point `key` as deleted, and says whether that changed anything.
    /// The vectors of the point stay readable. Deleting a deleted point again
    /// changes nothing, and the count of deleted points stays.
    pub fn delete_vector(&mut self, key: PointOffsetType) -> (result: OperationResult<bool>)
        requires
            old(self).wf(),
            key < max_bits(),
        ensures
            final(self).wf(),
            final(self)@ == old(self)@.delete(key),
            result == Ok::<bool, OperationError>(!old(self)@.deleted.contains(key)),
            final(self).dim() == old(self).dim(),
            final(self).distance() == old(self).distance(),
            final(self).multi_vector_config() == old(self).multi_vector_config(),
    {
        let is_deleted = !self.set_deleted(key, true);
        Ok(is_deleted)
    }

    /// Makes room for point `key`: the points up to it that the storage did not
    /// reach get an entry without vectors.
    fn reserve_point(&mut self, key: PointOffsetType)
        requires
            old(self).wf(),
            key < max_bits(),
        ensures
            final(self).wf(),
            key < final(self)@.vectors.len(),
            final(self)@.vectors == padded(old(self)@.vectors, (key + 1) as nat),
            final(self)@.deleted == old(self)@.deleted,
            final(self)@.deleted_count == old(self)@.deleted_count,
            final(self).dim() == old(self).dim(),
            final(self).distance() == old(self).distance(),
            final(self).multi_vector_config() == old(self).multi_vector_config(),
    {
        while self.vectors_metadata.len() <= key as usize
            invariant
                self.wf(),
                key < max_bits(),
                self.vectors_metadata@.len() <= key + 1 || self.vectors_metadata == old(
                    self,
                ).vectors_metadata,
                self.vectors == old(self).vectors,
                self.deleted == old(self).deleted,
                self.deleted_count == old(self).deleted_count,
                self.dim == old(self).dim,
                self.distance == old(self).distance,
                self.multi_vector_config == old(self).multi_vector_config,
                self@.vectors == padded(old(self)@.vectors, self.vectors_metadata@.len() as nat),
            decreases key + 1 - self.vectors_metadata@.len(),
        {
            let ghost grown = self@.vectors;
            let ghost slots = self.vectors_metadata@;
            self.vectors_metadata.push(None);
            proof {
                assert(self@.vectors =~= grown.push(None));
                assert(self@.vectors =~= padded(
                    old(self)@.vectors,
                    self.vectors_metadata@.len() as nat,
                ));
                assert forall|p: int|
                    0 <= p < self.vectors_metadata@.len() implies match #[trigger] self.vectors_metadata@[p] {
                    Some(slot) => self.vectors.holds(slot.location) && 0 < slot.len
                        <= slot.location.reserved,
                    None => true,
                } by {
                    if p < slots.len() {
                        assert(self.vectors_metadata@[p] == slots[p]);
                    }
                }
                assert forall|p: int, q: int|
                    0 <= p < self.vectors_metadata@.len() && 0 <= q < self.vectors_metadata@.len()
                        && p != q implies match (
                #[trigger] self.vectors_metadata@[p], #[trigger] self.vectors_metadata@[q]) {
                    (Some(a), Some(b)) => {
                        ||| a.location.chunk != b.location.chunk
                        ||| a.location.offset + a.location.reserved <= b.location.offset
                        ||| b.location.offset + b.location.reserved <= a.location.offset
                    },
                    _ => true,
                } by {
                    if p < slots.len() && q < slots.len() {
                        assert(self.vectors_metadata@[p] == slots[p]);
                        assert(self.vectors_metadata@[q] == slots[q]);
                    }
                }
            }
        }
        proof {
            assert(self@.vectors =~= padded(old(self)@.vectors, (key + 1) as nat));
        }
    }

    /// Writes `data` over the vectors of point `key`, in the place that the
    /// point has.
    fn overwrite_vectors(&mut self, key: PointOffsetType, slot: MultivectorOffset, data: &[T])
        requires
            old(self).wf(),
            key < old(self).vectors_metadata@.len(),
            old(self).vectors_metadata@[key as int] == Some(slot),
            0 < data@.len() <= slot.location.reserved,
        ensures
            final(self).wf(),
            final(self)@.vectors == old(self)@.vectors.update(key as int, Some(data@)),
            final(self)@.deleted == old(self)@.deleted,
            final(self)@.deleted_count == old(self)@.deleted_count,
            final(self).dim() == old(self).dim(),
            final(self).distance() == old(self).distance(),
            final(self).multi_vector_config() == old(self).multi_vector_config(),
    {
        let location = slot.location;
        assert(self.vectors.holds(location));
        self.vectors.write(location, data);
        self.vectors_metadata.set(key as usize, Some(MultivectorOffset { location, len: data.len() }));
        proof {
            let slots = self.vectors_metadata@;
            let olds = old(self).vectors_metadata@;
            assert forall|p: int| 0 <= p < slots.len() implies match #[trigger] slots[p] {
                Some(slot) => self.vectors.holds(slot.location) && 0 < slot.len
                    <= slot.location.reserved,
                None => true,
            } by {
                if p != key {
                    assert(slots[p] == olds[p]);
                }
            }
            assert forall|p: int, q: int|
                0 <= p < slots.len() && 0 <= q < slots.len() && p != q implies match (
            #[trigger] slots[p], #[trigger] slots[q]) {
                (Some(a), Some(b)) => {
                    ||| a.location.chunk != b.location.chunk
                    ||| a.location.offset + a.location.reserved <= b.location.offset
                    ||| b.location.offset + b.location.reserved <= a.location.offset
                },
                _ => true,
            } by {
                assert(olds[p] is Some == slots[p] is Some);
                assert(olds[q] is Some == slots[q] is Some);
                if olds[p] is Some && olds[q] is Some {
                    assert(olds[p]->Some_0.location == slots[p]->Some_0.location);
                    assert(olds[q]->Some_0.location == slots[q]->Some_0.location);
                }
            }
            assert forall|p: int| 0 <= p < slots.len() implies #[trigger] self@.vectors[p] == if p
                == key {
                Some(data@)
            } else {
                old(self)@.vectors[p]
            } by {
                if p == key {
                    assert(self.vectors.chunks()[location.chunk as int].subrange(
                        location.offset as int,
                        location.offset + data@.len(),
                    ) =~= data@);
                } else {
                    assert(slots[p] == olds[p]);
                    match olds[p] {
                        Some(other) => {
                            assert(olds[key as int] is Some);
                            assert(old(self).vectors.holds(other.location));
                            assert(self.vectors.chunks()[other.location.chunk as int].subrange(
                                other.location.offset as int,
                                other.location.offset + other.len,
                            ) =~= old(self).vectors.chunks()[other.location.chunk as int].subrange(
                                other.location.offset as int,
                                other.location.offset + other.len,
                            ));
                        },
                        None => {},
                    }
                }
            }
            assert(self@.vectors =~= old(self)@.vectors.update(key as int, Some(data@)));
        }
    }

    /// Gives point `key` a new place behind everything that is stored, and
    /// writes `data` there. The place that the point had is abandoned.
    fn append_vectors(&mut self, key: PointOffsetType, data: &[T])
        requires
            old(self).wf(),
            key < old(self).vectors_metadata@.len(),
            data@.len() > 0,
            fits_in_chunk::<T>(data@.len()),
        ensures
            final(self).wf(),
            final(self)@.vectors == old(self)@.vectors.update(key as int, Some(data@)),
            final(self)@.deleted == old(self)@.deleted,
            final(self)@.deleted_count == old(self)@.deleted_count,
            final(self).dim() == old(self).dim(),
            final(self).distance() == old(self).distance(),
            final(self).multi_vector_config() == old(self).multi_vector_config(),
    {
        let location = self.vectors.push(data);
        self.vectors_metadata.set(key as usize, Some(MultivectorOffset { location, len: data.len() }));
        proof {
            let slots = self.vectors_metadata@;
            let olds = old(self).vectors_metadata@;
            assert forall|p: int| 0 <= p < slots.len() && p != key implies slots[p] == olds[p]
                && match #[trigger] olds[p] {
                Some(other) => {
                    &&& self.vectors.holds(other.location)
                    &&& other.location.chunk != location.chunk || other.location.offset
                        + other.location.reserved <= location.offset
                    &&& self.vectors.chunks()[other.location.chunk as int].subrange(
                        other.location.offset as int,
                        other.location.offset + other.len,
                    ) == old(self).vectors.chunks()[other.location.chunk as int].subrange(
                        other.location.offset as int,
                        other.location.offset + other.len,
                    )
                },
                None => true,
            } by {
                match olds[p] {
                    Some(other) => {
                        assert(old(self).vectors.holds(other.location));
                        let was = old(self).vectors.chunks()[other.location.chunk as int];
                        let now = self.vectors.chunks()[other.location.chunk as int];
                        assert(was.is_prefix_of(now));
                        assert(now.subrange(
                            other.location.offset as int,
                            other.location.offset + other.len,
                        ) =~= was.subrange(
                            other.location.offset as int,
                            other.location.offset + other.len,
                        ));
                    },
                    None => {},
                }
            }
            assert forall|p: int| 0 <= p < slots.len() implies match #[trigger] slots[p] {
                Some(slot) => self.vectors.holds(slot.location) && 0 < slot.len
                    <= slot.location.reserved,
                None => true,
            } by {
                if p != key {
                    assert(slots[p] == olds[p]);
                    assert(match olds[p] {
                        Some(other) => self.vectors.holds(other.location),
                        None => true,
                    });
                }
            }
            assert forall|p: int, q: int|
                0 <= p < slots.len() && 0 <= q < slots.len() && p != q implies match (
            #[trigger] slots[p], #[trigger] slots[q]) {
                (Some(a), Some(b)) => {
                    ||| a.location.chunk != b.location.chunk
                    ||| a.location.offset + a.location.reserved <= b.location.offset
                    ||| b.location.offset + b.location.reserved <= a.location.offset
                },
                _ => true,
            } by {
                if p != key {
                    assert(slots[p] == olds[p]);
                    assert(match olds[p] {
                        Some(other) => other.location.chunk != location.chunk
                            || other.location.offset + other.location.reserved <= location.offset,
                        None => true,
                    });
                }
                if q != key {
                    assert(slots[q] == olds[q]);
                    assert(match olds[q] {
                        Some(other) => other.location.chunk != location.chunk
                            || other.location.offset + other.location.reserved <= location.offset,
                        None => true,
                    });
                }
            }
            assert forall|p: int| 0 <= p < slots.len() implies #[trigger] self@.vectors[p] == if p
                == key {
                Some(data@)
            } else {
                old(self)@.vectors[p]
            } by {
                if p == key {
                    assert(self.vectors.data_at(location) == data@);
                } else {
                    assert(slots[p] == olds[p]);
                    assert(match olds[p] {
                        Some(other) => self.vectors.chunks()[other.location.chunk as int].subrange(
                            other.location.offset as int,
                            other.location.offset + other.len,
                        ) == old(self).vectors.chunks()[other.location.chunk as int].subrange(
                            other.location.offset as int,
                            other.location.offset + other.len,
                        ),
                        None => true,
                    });
                }
            }
            assert(self@.vectors =~= old(self)@.vectors.update(key as int, Some(data@)));
        }
    }

    /// Writes the vectors of point `key`: into the place the point has, if they
    /// fit there, and behind everything else if not; the storage grows to reach
    /// a new point. The point is not deleted afterwards. Vectors that do not fit
    /// into one chunk are refused, and the storage stays as it was.
    pub fn insert_vector(&mut self, key: PointOffsetType, vector: TypedMultiDenseVectorRef<'_, T>) -> (result:
        OperationResult<()>)
        requires
            old(self).wf(),
            key < max_bits(),
            vector.dim == old(self).dim(),
            vector.flattened_vectors@.len() > 0,
        ensures
            final(self).wf(),
            final(self).dim() == old(self).dim(),
            final(self).distance() == old(self).distance(),
            final(self).multi_vector_config() == old(self).multi_vector_config(),
            match result {
                Ok(_) => {
                    &&& fits_in_chunk::<T>(vector.flattened_vectors@.len())
                    &&& final(self)@ == old(self)@.insert(key, vector.flattened_vectors@)
                },
                Err(error) => {
                    &&& !fits_in_chunk::<T>(vector.flattened_vectors@.len())
                    &&& final(self)@ == old(self)@
                    &&& error == (OperationError::VectorTooLarge {
                        size: vector.flattened_vectors@.len() as usize,
                        max_size: CHUNK_SIZE,
                    })
                },
            },
    {
        let data = vector.flattened_vectors;
        if !check_fits_in_chunk::<T>(data.len()) {
            return Err(OperationError::VectorTooLarge { size: data.len(), max_size: CHUNK_SIZE });
        }
        self.reserve_point(key);
        match self.vectors_metadata[key as usize] {
            Some(slot) => {
                if slot.location.reserved >= data.len() {
                    self.overwrite_vectors(key, slot, data);
                } else {
                    self.append_vectors(key, data);
                }
            },
            None => {
                self.append_vectors(key, data);
            },
        }
        self.set_deleted(key, false);
        Ok(())
    }

    /// Takes over the records of another storage, in their order: each gets
    /// the next free point, with its vectors and its deletion mark. Says which
    /// points the records got. Stops at the first record whose vectors do not
    /// fit into one chunk; the records before it have been taken over then.
    pub fn update_from(&mut self, other_vectors: &[(TypedMultiDenseVectorRef<'_, T>, bool)]) -> (result:
        OperationResult<(PointOffsetType, PointOffsetType)>)
        requires
            old(self).wf(),
            old(self)@.vectors.len() + other_vectors@.len() <= max_bits(),
            old(self)@.vectors.len() + other_vectors@.len() <= u32::MAX,
            forall|i: int|
                0 <= i < other_vectors@.len() ==> (#[trigger] other_vectors@[i]).0.dim == old(
                    self,
                ).dim() && other_vectors@[i].0.flattened_vectors@.len() > 0,
        ensures
            final(self).wf(),
            final(self).dim() == old(self).dim(),
            final(self).distance() == old(self).distance(),
            final(self).multi_vector_config() == old(self).multi_vector_config(),
            match result {
                Ok((start, end)) => {
                    &&& start == old(self)@.vectors.len()
                    &&& end == old(self)@.vectors.len() + other_vectors@.len()
                    &&& final(self)@ == old(self)@.append_all(
                        records_view(other_vectors@),
                        other_vectors@.len(),
                    )
                    &&& forall|i: int|
                        0 <= i < other_vectors@.len() ==> fits_in_chunk::<T>(
                            (#[trigger] other_vectors@[i]).0.flattened_vectors@.len(),
                        )
                },
                Err(error) => exists|stop: int|
                    {
                        &&& 0 <= stop < other_vectors@.len()
                        &&& final(self)@ == old(self)@.append_all(
                            records_view(other_vectors@),
                            stop as nat,
                        )
                        &&& !fits_in_chunk::<T>(
                            (#[trigger] other_vectors@[stop]).0.flattened_vectors@.len(),
                        )
                        &&& forall|i: int|
                            0 <= i < stop ==> fits_in_chunk::<T>(
                                (#[trigger] other_vectors@[i]).0.flattened_vectors@.len(),
                            )
                        &&& error == (OperationError::VectorTooLarge {
                            size: other_vectors@[stop].0.flattened_vectors@.len() as usize,
                            max_size: CHUNK_SIZE,
                        })
                    },
            },
    {
        let start_index: usize = self.vectors_metadata.len();
        let ghost records = records_view(other_vectors@);
        let mut i: usize = 0;
        while i < other_vectors.len()
            invariant
                i <= other_vectors@.len(),
                self.wf(),
                start_index == old(self)@.vectors.len(),
                start_index + other_vectors@.len() <= max_bits(),
                start_index + other_vectors@.len() <= u32::MAX,
                records == records_view(other_vectors@),
                self.dim() == old(self).dim(),
                self.distance() == old(self).distance(),
                self.multi_vector_config() == old(self).multi_vector_config(),
                forall|j: int|
                    0 <= j < other_vectors@.len() ==> (#[trigger] other_vectors@[j]).0.dim == old(
                        self,
                    ).dim() && other_vectors@[j].0.flattened_vectors@.len() > 0,
                self@.vectors.len() == start_index + i,
                self@ == old(self)@.append_all(records, i as nat),
                forall|j: int|
                    0 <= j < i ==> fits_in_chunk::<T>(
                        (#[trigger] other_vectors@[j]).0.flattened_vectors@.len(),
                    ),
            decreases other_vectors@.len() - i,
        {
            let other_vector = other_vectors[i].0;
            let other_deleted = other_vectors[i].1;
            // Do not perform preprocessing - vectors are already processed
            let new_id = self.vectors_metadata.len() as PointOffsetType;
            let ghost before = self@;
            match self.insert_vector(new_id, other_vector) {
                Ok(_) => {},
                Err(error) => {
                    return Err(error);
                },
            }
            if other_deleted {
                self.set_deleted(new_id, true);
            }
            proof {
                assert(records[i as int] == (other_vector.flattened_vectors@, other_deleted));
                assert(padded(before.vectors, (new_id + 1) as nat).len() == new_id + 1);
                assert(self@ == before.append(other_vector.flattened_vectors@, other_deleted));
            }
            i += 1;
        }
        Ok((start_index as PointOffsetType, self.vectors_metadata.len() as PointOffsetType))
    }

    /// The vectors of point `key`, which must have been written.
    pub fn get_vector(&self, key: PointOffsetType) -> (vector: TypedMultiDenseVectorRef<'_, T>)
        requires
            self.wf(),
            key < self@.vectors.len(),
            self@.vectors[key as int] is Some,
        ensures
            self@.vectors[key as int] == Some(vector.flattened_vectors@),
            vector.dim == self.dim(),
    {
        match self.vectors_metadata[key as usize] {
            Some(slot) => {
                let flattened_vectors = self.vectors.get(slot.location, slot.len);
                TypedMultiDenseVectorRef { flattened_vectors, dim: self.dim }
            },
            None => vstd::pervasive::unreached(),
        }
    }
}

} // verus!
