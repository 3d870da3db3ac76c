//! Double-precision numbers held as their IEEE 754 binary64 bit patterns.
//!
//! The interpreter never computes on floating-point values itself. A number is
//! carried as the 64 bits of its encoding (sign, 11 exponent bits, 52 fraction
//! bits); the questions the evaluator asks of a number (is it zero, are two
//! numbers equal, is one less than the other, what is its negation) are
//! answered on the bits, and the rounding operations are left to the caller.

use vstd::prelude::*;

verus! {

/// The sign bit of an encoding.
pub const SIGN_BIT: u64 = 0x8000_0000_0000_0000;

/// The encoding of positive infinity; every larger magnitude is a NaN.
pub const INFINITY_BITS: u64 = 0x7ff0_0000_0000_0000;

/// The encoding of `0.0`.
pub const ZERO_BITS: u64 = 0;

/// The encoding of `1.0`.
pub const ONE_BITS: u64 = 0x3ff0_0000_0000_0000;

/// The four rounding operations that the caller supplies.
#[derive(Clone, Copy, Debug, PartialEq, Eq, Structural)]
pub enum Arith {
    Add,
    Sub,
    Mul,
    Div,
}

/// The encoding without its sign bit.
pub open spec fn magnitude(bits: u64) -> int {
    if bits >= SIGN_BIT {
        bits - SIGN_BIT
    } else {
        bits as int
    }
}

/// Whether the encoding is a NaN: exponent all ones, fraction not zero.
pub open spec fn is_nan(bits: u64) -> bool {
    magnitude(bits) > INFINITY_BITS
}

/// Whether the encoding is `0.0` or `-0.0`.
pub open spec fn is_zero(bits: u64) -> bool {
    magnitude(bits) == 0
}

/// The place of a non-NaN encoding on the number line: encodings of larger
/// numbers have larger ranks, and the two zeros share rank 0.
pub open spec fn rank(bits: u64) -> int {
    if bits >= SIGN_BIT {
        -magnitude(bits)
    } else {
        magnitude(bits)
    }
}

/// Numeric equality: NaN equals nothing, the two zeros are equal.
pub open spec fn same_number(a: u64, b: u64) -> bool {
    !is_nan(a) && !is_nan(b) && rank(a) == rank(b)
}

/// Numeric order: nothing is below or above a NaN.
pub open spec fn below(a: u64, b: u64) -> bool {
    !is_nan(a) && !is_nan(b) && rank(a) < rank(b)
}

/// The encoding with its sign flipped.
pub open spec fn negated(bits: u64) -> u64 {
    if bits >= SIGN_BIT {
        (bits - SIGN_BIT) as u64
    } else {
        (bits + SIGN_BIT) as u64
    }
}

/// The encoding without its sign bit.
fn magnitude_of(bits: u64) -> (m: u64)
    ensures
        m == magnitude(bits),
{
    if bits >= SIGN_BIT {
        bits - SIGN_BIT
    } else {
        bits
    }
}

/// Whether the encoding is a NaN.
pub fn bits_is_nan(bits: u64) -> (r: bool)
    ensures
        r == is_nan(bits),
{
    magnitude_of(bits) > INFINITY_BITS
}

/// Whether the encoding is one of the two zeros.
pub fn bits_is_zero(bits: u64) -> (r: bool)
    ensures
        r == is_zero(bits),
{
    magnitude_of(bits) == 0
}

/// Whether the two encodings are equal as numbers.
pub fn bits_equal(a: u64, b: u64) -> (r: bool)
    ensures
        r == same_number(a, b),
{
    if bits_is_nan(a) || bits_is_nan(b) {
        false
    } else if a == b {
        true
    } else {
        magnitude_of(a) == 0 && magnitude_of(b) == 0
    }
}

/// Whether the first encoding is less than the second, as numbers.
pub fn bits_below(a: u64, b: u64) -> (r: bool)
    ensures
        r == below(a, b),
{
    if bits_is_nan(a) || bits_is_nan(b) {
        false
    } else {
        let ma: u64 = magnitude_of(a);
        let mb: u64 = magnitude_of(b);
        if a >= SIGN_BIT {
            if b >= SIGN_BIT {
                ma > mb
            } else {
                ma > 0 || mb > 0
            }
        } else {
            if b >= SIGN_BIT {
                false
            } else {
                ma < mb
            }
        }
    }
}

/// The encoding of the negated number.
pub fn bits_negated(bits: u64) -> (r: u64)
    ensures
        r == negated(bits),
{
    if bits >= SIGN_BIT {
        bits - SIGN_BIT
    } else {
        bits + SIGN_BIT
    }
}

} // verus!
