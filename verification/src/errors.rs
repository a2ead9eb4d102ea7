//! The error kinds that the database operations return.

use vstd::prelude::*;

verus! {

/// Every fallible operation of the library returns exactly one of these
/// kinds; none of the verified functions panics.
#[derive(Debug, Clone, PartialEq, Eq)]
pub enum Error {
    /// A vector's length does not match the collection's dimension count.
    DimensionMismatch { expected: usize, got: usize },
    /// No vector with the given identifier exists in the collection.
    VectorNotFound(String),
    /// `insert` was asked to store an identifier that is already live.
    DuplicateId(String),
    /// A search was issued against a collection with no live vectors.
    EmptyIndex,
    /// A configuration or input value is out of the accepted range.
    InvalidConfig(String),
    /// A storage-level failure.
    Storage(String),
    /// No collection with the given name exists.
    CollectionNotFound(String),
    /// `create_collection` was asked for a name that is already taken.
    DuplicateCollection(String),
    /// An input/output failure, carried as text.
    Io(String),
}

} // verus!
