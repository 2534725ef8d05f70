use vstd::prelude::*;

verus! {

/// What an operation of the store reports when it cannot do its work.
#[derive(Clone, Copy, Debug, PartialEq, Eq, Structural)]
pub enum Error {
    /// No row with the requested block id or block hash.
    NotFound,
    /// The block hash is already committed.
    Duplicate,
    /// The requested byte range does not lie within the blob.
    OutOfBounds,
    /// No block id at or below the largest permitted one is left.
    Exhausted,
    /// A blob is too short to hold what is read from it.
    Corruption,
    /// The backing tables are not available.
    Backend,
}

} // verus!
