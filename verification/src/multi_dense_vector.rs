//! Multi-dense vectors: several vectors of one dimension that belong to one
//! point, kept flattened, one after the other.

use crate::error::{OperationError, OperationResult};
use vstd::prelude::*;

verus! {

broadcast use Seq::lemma_flatten_push;

/// Largest number of elements that the vectors of one point may have together.
pub const MAX_MULTIVECTOR_FLATTENED_LEN: usize = 1024 * 1024;

/// The vectors behind a vector of vectors.
pub open spec fn inner_views<T>(vectors: Seq<Vec<T>>) -> Seq<Seq<T>> {
    Seq::new(vectors.len(), |i: int| vectors[i]@)
}

/// An owned multi-dense vector.
#[derive(Debug, Clone, PartialEq)]
pub struct MultiDenseVector<T> {
    /// The elements of all the vectors, one vector after the other.
    pub flattened_vectors: Vec<T>,
    /// The dimension of every vector.
    pub dim: usize,
}

/// A borrowed multi-dense vector.
#[derive(Debug, Clone, Copy)]
pub struct TypedMultiDenseVectorRef<'a, T> {
    /// The elements of all the vectors, one vector after the other.
    pub flattened_vectors: &'a [T],
    /// The dimension of every vector.
    pub dim: usize,
}

impl<T: Copy> MultiDenseVector<T> {
    /// The invariant: there is at least one vector, of at least one element,
    /// and the elements make up whole vectors.
    pub open spec fn wf(&self) -> bool {
        &&& self.dim > 0
        &&& self.flattened_vectors@.len() > 0
        &&& self.flattened_vectors@.len() % (self.dim as nat) == 0
    }

    /// Puts vectors of one dimension together. Fails when there is no vector,
    /// when the vectors have no elements, or when one of them has another
    /// dimension than the first.
    pub fn try_from(vectors: Vec<Vec<T>>) -> (made: OperationResult<Self>)
        ensures
            match made {
                Ok(multi) => {
                    &&& vectors@.len() > 0
                    &&& multi.wf()
                    &&& multi.dim == vectors@[0]@.len()
                    &&& forall|i: int|
                        0 <= i < vectors@.len() ==> (#[trigger] vectors@[i])@.len() == multi.dim
                    &&& multi.flattened_vectors@ == inner_views(vectors@).flatten()
                },
                Err(OperationError::ValidationError { description }) => {
                    &&& vectors@.len() == 0 || vectors@[0]@.len() == 0
                    &&& description@ == "MultiDenseVector cannot be empty"@
                },
                Err(OperationError::WrongVectorDimension { expected_dim, received_dim }) => {
                    &&& vectors@.len() > 0
                    &&& expected_dim == vectors@[0]@.len()
                    &&& expected_dim > 0
                    &&& exists|i: int|
                        0 <= i < vectors@.len() && (#[trigger] vectors@[i])@.len() == received_dim
                            && received_dim != expected_dim && forall|j: int|
                            0 <= j < i ==> (#[trigger] vectors@[j])@.len() == expected_dim
                },
                Err(_) => false,
            },
    {
        if vectors.len() == 0 {
            return Err(
                OperationError::ValidationError {
                    description: "MultiDenseVector cannot be empty".to_owned(),
                },
            );
        }
        let dim: usize = vectors[0].len();
        if dim == 0 {
            return Err(
                OperationError::ValidationError {
                    description: "MultiDenseVector cannot be empty".to_owned(),
                },
            );
        }
        let mut flattened_vectors: Vec<T> = Vec::new();
        let mut i: usize = 0;
        assert(inner_views(vectors@).take(0) =~= Seq::<Seq<T>>::empty());
        while i < vectors.len()
            invariant
                i <= vectors.len(),
                dim > 0,
                dim == vectors@[0]@.len(),
                forall|j: int| 0 <= j < i ==> (#[trigger] vectors@[j])@.len() == dim,
                flattened_vectors@ == inner_views(vectors@).take(i as int).flatten(),
                flattened_vectors@.len() == i * dim,
            decreases vectors.len() - i,
        {
            let vector = &vectors[i];
            if vector.len() != dim {
                return Err(
                    OperationError::WrongVectorDimension {
                        expected_dim: dim,
                        received_dim: vector.len(),
                    },
                );
            }
            let ghost before = flattened_vectors@;
            let mut k: usize = 0;
            while k < vector.len()
                invariant
                    k <= vector.len(),
                    flattened_vectors@ == before + vector@.take(k as int),
                decreases vector.len() - k,
            {
                flattened_vectors.push(vector[k]);
                assert(flattened_vectors@ =~= before + vector@.take(k + 1));
                k += 1;
            }
            proof {
                assert(vector@.take(vector@.len() as int) =~= vector@);
                assert(inner_views(vectors@).take(i + 1) =~= inner_views(vectors@).take(
                    i as int,
                ).push(vector@));
                assert((i + 1) * dim == i * dim + dim) by (nonlinear_arith);
            }
            i += 1;
        }
        proof {
            assert(inner_views(vectors@).take(vectors@.len() as int) =~= inner_views(vectors@));
            let n = vectors@.len();
            assert(n * dim >= dim) by (nonlinear_arith)
                requires
                    n >= 1,
                    dim >= 1,
            ;
            vstd::arithmetic::div_mod::lemma_mod_multiples_basic(n as int, dim as int);
        }
        Ok(MultiDenseVector { flattened_vectors, dim })
    }

    /// The multi-dense vector as a borrowed one.
    pub fn as_vec_ref(&self) -> (borrowed: TypedMultiDenseVectorRef<'_, T>)
        ensures
            borrowed.flattened_vectors@ == self.flattened_vectors@,
            borrowed.dim == self.dim,
    {
        TypedMultiDenseVectorRef {
            flattened_vectors: self.flattened_vectors.as_slice(),
            dim: self.dim,
        }
    }

    /// The number of vectors.
    pub fn vectors_count(&self) -> (count: usize)
        requires
            self.dim > 0,
        ensures
            count == self.flattened_vectors@.len() / (self.dim as nat),
    {
        self.flattened_vectors.len() / self.dim
    }
}

impl<'a, T: Copy> TypedMultiDenseVectorRef<'a, T> {
    /// A copy of the vectors that owns its elements.
    pub fn to_owned(&self) -> (owned: MultiDenseVector<T>)
        ensures
            owned.flattened_vectors@ == self.flattened_vectors@,
            owned.dim == self.dim,
    {
        let mut flattened_vectors: Vec<T> = Vec::new();
        let mut k: usize = 0;
        while k < self.flattened_vectors.len()
            invariant
                k <= self.flattened_vectors@.len(),
                flattened_vectors@ == self.flattened_vectors@.take(k as int),
            decreases self.flattened_vectors@.len() - k,
        {
            flattened_vectors.push(self.flattened_vectors[k]);
            assert(flattened_vectors@ =~= self.flattened_vectors@.take(k + 1));
            k += 1;
        }
        assert(self.flattened_vectors@.take(self.flattened_vectors@.len() as int)
            =~= self.flattened_vectors@);
        MultiDenseVector { flattened_vectors, dim: self.dim }
    }

    /// The number of vectors.
    pub fn vectors_count(&self) -> (count: usize)
        requires
            self.dim > 0,
        ensures
            count == self.flattened_vectors@.len() / (self.dim as nat),
    {
        self.flattened_vectors.len() / self.dim
    }
}

} // verus!
