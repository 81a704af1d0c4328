use vstd::prelude::*;

verus! {

/// The error kinds that the store reports.
#[derive(Debug)]
pub enum Error {
    /// A collection with the requested name already exists.
    UniqueViolation,
    /// The named collection, or the addressed embedding, does not exist.
    NotFound,
    /// A vector's length differs from its collection's dimension.
    DimensionMismatch,
    /// A snapshot could not be decoded.
    SerializationError(String),
    /// Any other failure, described in words.
    Other(String),
}

} // verus!
