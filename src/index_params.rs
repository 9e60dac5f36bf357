use vstd::prelude::*;

verus! {

/// Sizing parameters of an index, fixed once supplied.
#[derive(Clone, Copy, Debug, PartialEq, Eq)]
pub struct IndexParams {
    /// Number of components of every stored vector.
    pub dimension: u32,
    /// Total number of elements the index is sized for.
    pub max_elems: u32,
    /// Link budget of each level above the base level.
    pub m: u32,
    /// Link budget of the base level.
    pub m0: u32,
}

impl IndexParams {
    /// The parameters describe a usable index.
    pub open spec fn valid(&self) -> bool {
        &&& self.dimension > 0
        &&& self.max_elems > 0
        &&& self.m > 1
    }
}

} // verus!
