//! Fixed-point numbers: a `u64` value `x` stands for the real `x / FIXED_ONE`.
//! Frequencies, rates and the schemes' real parameters are carried this way.

use vstd::prelude::*;

verus! {

/// The fixed-point representation of 1.
pub const FIXED_ONE: u64 = 4294967296;

/// Largest training sample that the schemes accept, so that products of
/// counts and fixed-point values stay within 128 bits.
pub const MAX_MESSAGES: u64 = 1099511627776;

/// `ceil(a / b)`.
pub open spec fn ceil_div(a: int, b: int) -> int {
    (a + b - 1) / b
}

/// `round(a / b)`, halves rounded up.
pub open spec fn round_div(a: int, b: int) -> int {
    (2 * a + b) / (2 * b)
}

} // verus!
