//! The ways in which the parameters of a distribution can be refused.
use vstd::prelude::*;
use crate::double::Double;

verus! {

/// Why a distribution, or a sequence over one, could not be made. Each
/// variant carries the values that were refused.
#[derive(Debug, Clone, Copy, PartialEq)]
pub enum ZipfError {
    /// The power parameter is not greater than zero.
    InvalidPowerParameter(Double),
    /// The start of the range is not greater than zero.
    InvalidRangeStart(Double),
    /// The end of the range is not greater than its start.
    InvalidRangeEnd { start: Double, end: Double },
    /// The array has no elements.
    EmptyArray,
}

} // verus!
