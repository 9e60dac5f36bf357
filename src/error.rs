use vstd::prelude::*;

verus! {

/// Failures while setting an allocator up: at construction or when the backing
/// buffer is requested.
#[derive(Clone, Debug, PartialEq, Eq)]
pub enum InitializationError {
    /// The sizing parameters are out of range (`dimension == 0`,
    /// `max_elems == 0` or `m <= 1`).
    InvalidParams,
    /// The backend could not provide the buffer; the message says why.
    MemoryAllocationFailed(String),
}

/// Failures of a single element allocation.
#[derive(Clone, Copy, Debug, PartialEq, Eq)]
pub enum ElementAllocationError {
    /// No backing buffer has been obtained yet.
    NotInitialized,
    /// The vector's length differs from the configured dimension.
    DimensionMismatch,
    /// The sampled level's element budget, or the buffer, is used up.
    CapacityExceeded,
}

} // verus!
