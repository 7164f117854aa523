//! What the library rejects.

use vstd::prelude::*;

verus! {

/// Why an input was rejected.
#[derive(Clone, Copy, Debug, PartialEq, Eq, Structural)]
pub enum DistributionError {
    /// The number of points is zero, is no power of two where one is asked
    /// for, or is more than the transform takes.
    InvalidPointCount,
    /// The fundamental frequency is not positive.
    InvalidFrequency,
    /// The window is not of positive length.
    InvalidDuration,
    /// Two distributions differ in their number of points or in their window.
    DimensionMismatch,
    /// The weights of the samples add up to more than one in size.
    InvalidWeight,
}

} // verus!
