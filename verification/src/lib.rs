//! Element-wise rounding over nullable columns of IEEE 754 numbers.
//!
//! A column is a [`NumericArray`]: a fixed-length sequence of slots, each
//! either present with a value or absent. [`NumericArray::apply`] and
//! [`NumericArray::try_apply`] transform every present value and carry
//! absence through. [`RoundOps`] rounds a column of binary32 or binary64
//! numbers to a count of decimal digits.
//!
//! Numbers are held by their bit patterns, and all arithmetic on them is
//! done on integers. So every operation has an exact meaning, which its
//! contract states: the result that IEEE 754 asks for, the exact value
//! rounded to the nearest number of the format, ties to even.
//!
//! - [`array`]: the nullable array and its `apply` primitive.
//! - [`format`]: the two formats and what their bit patterns mean.
//! - [`nearest`]: rounding a ratio to the nearest integer and to the
//!   nearest number with a bounded count of significant bits.
//! - [`arith`]: multiplication, division and rounding to an integer.
//! - [`round`]: rounding values and arrays to decimal digits.

pub mod arith;
pub mod array;
pub mod error;
pub mod format;
pub mod nearest;
pub mod round;

pub use array::NumericArray;
pub use error::Error;
pub use format::Format;
pub use round::{Float32Array, Float64Array, RoundOps};
