//! The errors that the operations of this crate report.

use vstd::prelude::*;

verus! {

/// Why an operation on an array did not produce an array.
#[derive(Clone, Copy, Debug, PartialEq, Eq, Structural)]
pub enum Error {
    /// A value buffer and a validity buffer of different lengths were given.
    LengthMismatch,
    /// Scaling a value by a power of ten left the range of finite numbers.
    ArithmeticOverflow,
}

} // verus!
