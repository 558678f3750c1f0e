//! The ways in which an operation can fail.

use vstd::prelude::*;

verus! {

/// Why an operation on the store did not succeed.
#[derive(Clone, Copy, Debug, PartialEq, Eq, Structural)]
pub enum StoreError {
    /// A path, an object or a ref that had to exist is missing.
    NotFound,
    /// The path has no segment where one is needed, or holds an empty segment.
    InvalidPath,
    /// The ref moved between reading it and updating it.
    Conflict,
    /// The underlying storage could not read or write.
    StoreFailure,
}

} // verus!
