//! Errors of the storage layer.

use vstd::prelude::*;

verus! {

/// Why an operation on an index or a vector storage failed.
#[derive(Debug, Clone, PartialEq, Eq)]
pub enum OperationError {
    /// Something is wrong on the side of the service: an operation was asked of
    /// the wrong kind of backing storage, or the backing storage holds more than
    /// this machine can index.
    ServiceError { description: String },
    /// A value handed in does not have the shape that is asked of it.
    ValidationError { description: String },
    /// A vector does not have the dimension of the vectors it stands with.
    WrongVectorDimension { expected_dim: usize, received_dim: usize },
    /// The data of one point does not fit into one chunk of a vector storage.
    VectorTooLarge {
        /// Number of elements in the rejected vector data.
        size: usize,
        /// Largest number of elements that one point may have.
        max_size: usize,
    },
}

pub type OperationResult<T> = Result<T, OperationError>;

impl OperationError {
    /// A service error with the given description.
    pub fn service_error(description: &str) -> (error: OperationError)
        ensures
            error is ServiceError,
            error->ServiceError_description@ == description@,
    {
        OperationError::ServiceError { description: description.to_owned() }
    }

    /// What the error says, for a reader.
    pub open spec fn message(self) -> Seq<char> {
        match self {
            OperationError::ServiceError { description } => description@,
            OperationError::ValidationError { description } => description@,
            OperationError::WrongVectorDimension { .. } => "Wrong input: Vector dimension error"@,
            OperationError::VectorTooLarge { .. } =>
                "Cannot insert vector data into the vector storage: it is too large for one chunk"@,
        }
    }

    /// What the error says, for a reader.
    pub fn to_string(&self) -> (text: String)
        ensures
            text@ == self.message(),
    {
        match self {
            OperationError::ServiceError { description } => description.clone(),
            OperationError::ValidationError { description } => description.clone(),
            OperationError::WrongVectorDimension { .. } =>
                "Wrong input: Vector dimension error".to_owned(),
            OperationError::VectorTooLarge { .. } =>
                "Cannot insert vector data into the vector storage: it is too large for one chunk".to_owned(),
        }
    }
}

} // verus!
