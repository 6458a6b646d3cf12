//! The common error type of the processing algorithms.

use vstd::prelude::*;

verus! {

/// Why an image-processing operation was refused.
#[derive(Copy, Clone, Debug, PartialEq, Eq, Structural, PartialOrd, Ord, Hash)]
pub enum Error {
    /// A kernel/image channel count is incompatible, or an algorithm that
    /// works on single-channel images was given a multi-channel one.
    ChannelDimensionMismatch,
    /// A requested shape has a zero or otherwise nonsensical extent, or a
    /// kernel-builder constraint (odd size, square shape) is violated.
    InvalidDimensions,
    /// A numeric parameter is outside its valid domain.
    InvalidParameter,
    /// A required numeric conversion failed.
    NumericError,
}

} // verus!
