use vstd::prelude::*;

verus! {

/// Why a filtering step refused its input.
#[derive(Clone, Copy, Debug, PartialEq, Eq, Structural)]
pub enum DogError {
    /// A scale parameter is zero.
    InvalidParameter,
    /// Two rasters that must have the same width and height do not.
    DimensionMismatch,
}

} // verus!
