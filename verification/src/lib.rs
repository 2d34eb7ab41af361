//! Zipf-distributed sampling by inverse transform, with the decisions of the
//! sampler verified: parameter validation, regime selection, the uniform
//! draw, and the mapping of samples to indices and array elements.
//!
//! Numbers are IEEE 754 binary64 values carried as bit patterns
//! ([`Double`]); the library compares, converts and truncates them with
//! integer arithmetic only. The inverse transform itself needs logarithms
//! and powers, and is evaluated by the caller in floating point. One value
//! of a sequence is made in three steps:
//!
//! 1. the library draws a uniform number `u` ([`ZipfIterator::next_uniform`]);
//! 2. the caller evaluates the transform that [`Zipf::regime`] names, over
//!    the range and the power parameter of the handle, at `u`;
//! 3. for a derived sequence, the library maps the sample to an index
//!    ([`IndexAccess::index`]) or to an element ([`ArrayAccess::element`]).
pub mod access;
pub mod convert;
pub mod double;
pub mod errors;
pub mod iterator;
pub mod rounding;
pub mod zipf;

pub use access::{ArrayAccess, ArrayAccessView, IndexAccess, IndexAccessView};
pub use double::Double;
pub use errors::ZipfError;
pub use iterator::{ZipfIterator, DEFAULT_SEED};
pub use zipf::{Regime, Zipf, ZipfView};
