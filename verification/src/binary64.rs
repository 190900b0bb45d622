//! IEEE 754 binary64 arithmetic on bit patterns. A value is held as the `u64`
//! whose bits are its binary64 encoding. Addition, subtraction, division and
//! the conversion from integers are computed by the software floating-point
//! library `rustc_apfloat` (`ieee::Double`), which rounds to nearest, ties to
//! even, exactly as `f64` arithmetic does; comparisons and maxNum are stated
//! and computed here on the bits.

use vstd::prelude::*;
use rustc_apfloat::ieee::Double;
use rustc_apfloat::Float;

verus! {

/// The encoding of `+0.0`.
pub const ZERO: u64 = 0u64;

/// The encoding of `1.0`.
pub const ONE: u64 = 0x3ff0_0000_0000_0000u64;

/// The encoding of the binary64 sum `a + b`.
pub uninterp spec fn binary64_add(a: u64, b: u64) -> u64;

/// The encoding of the binary64 difference `a - b`.
pub uninterp spec fn binary64_sub(a: u64, b: u64) -> u64;

/// The encoding of the binary64 quotient `a / b`.
pub uninterp spec fn binary64_div(a: u64, b: u64) -> u64;

/// The encoding of the binary64 value nearest to the integer `x` (`x as f64`).
pub uninterp spec fn binary64_from_usize(x: usize) -> u64;

/// The sign bit of the encoding `a` is set.
pub open spec fn sign_bit(a: u64) -> bool {
    a >= 0x8000_0000_0000_0000u64
}

/// The encoding `a` without its sign bit: the magnitude's bits.
pub open spec fn magnitude(a: u64) -> int {
    (a % 0x8000_0000_0000_0000u64) as int
}

/// `a` encodes a NaN: all exponent bits set and a non-zero fraction.
pub open spec fn is_nan(a: u64) -> bool {
    magnitude(a) > 0x7ff0_0000_0000_0000
}

/// The position of a non-NaN value in the order of binary64 values: the
/// encodings of non-negative values increase with the value, those of
/// negative values decrease, and both zeros sit at 0.
pub open spec fn order_key(a: u64) -> int {
    if sign_bit(a) {
        -magnitude(a)
    } else {
        magnitude(a)
    }
}

/// Whether the binary64 value `a` is less than `b` (`a < b`): false when
/// either is NaN.
pub open spec fn binary64_lt(a: u64, b: u64) -> bool {
    !is_nan(a) && !is_nan(b) && order_key(a) < order_key(b)
}

/// Whether the binary64 values `a` and `b` are equal (`a == b`): false when
/// either is NaN, true for `+0.0` and `-0.0`.
pub open spec fn binary64_eq(a: u64, b: u64) -> bool {
    !is_nan(a) && !is_nan(b) && order_key(a) == order_key(b)
}

/// IEEE maxNum (`a.max(b)`): a NaN operand is ignored, otherwise the larger,
/// `a` when they are equal.
pub open spec fn binary64_max(a: u64, b: u64) -> u64 {
    if is_nan(a) {
        b
    } else if is_nan(b) {
        a
    } else if binary64_lt(a, b) {
        b
    } else {
        a
    }
}

/// `Double + Double` (`Float::add_r` with `Round::NearestTiesToEven`): the
/// result is named `binary64_add` of the operands.
#[verifier::external_body]
pub(crate) fn plus(a: u64, b: u64) -> (r: u64)
    ensures
        r == binary64_add(a, b),
{
    (Double::from_bits(a as u128) + Double::from_bits(b as u128)).value.to_bits() as u64
}

/// `Double - Double` (`Float::sub_r` with `Round::NearestTiesToEven`): the
/// result is named `binary64_sub` of the operands.
#[verifier::external_body]
pub(crate) fn minus(a: u64, b: u64) -> (r: u64)
    ensures
        r == binary64_sub(a, b),
{
    (Double::from_bits(a as u128) - Double::from_bits(b as u128)).value.to_bits() as u64
}

/// `Double / Double` (`Float::div_r` with `Round::NearestTiesToEven`): the
/// result is named `binary64_div` of the operands.
#[verifier::external_body]
pub(crate) fn divide(a: u64, b: u64) -> (r: u64)
    ensures
        r == binary64_div(a, b),
{
    (Double::from_bits(a as u128) / Double::from_bits(b as u128)).value.to_bits() as u64
}

/// `Double::from_u128` (rounding to nearest, ties to even): the result is
/// named `binary64_from_usize` of the integer.
#[verifier::external_body]
pub(crate) fn from_usize(x: usize) -> (r: u64)
    ensures
        r == binary64_from_usize(x),
{
    Double::from_u128(x as u128).value.to_bits() as u64
}

/// Whether `a` encodes a NaN.
fn nan_bits(a: u64) -> (r: bool)
    ensures
        r == is_nan(a),
{
    a % 0x8000_0000_0000_0000u64 > 0x7ff0_0000_0000_0000u64
}

/// Whether the binary64 value `a` is less than `b`.
pub(crate) fn less(a: u64, b: u64) -> (r: bool)
    ensures
        r == binary64_lt(a, b),
{
    if nan_bits(a) || nan_bits(b) {
        return false;
    }
    let ma = a % 0x8000_0000_0000_0000u64;
    let mb = b % 0x8000_0000_0000_0000u64;
    let na = a >= 0x8000_0000_0000_0000u64;
    let nb = b >= 0x8000_0000_0000_0000u64;
    if na && nb {
        mb < ma
    } else if na {
        !(ma == 0 && mb == 0)
    } else if nb {
        false
    } else {
        ma < mb
    }
}

/// Whether the binary64 values `a` and `b` are equal.
pub(crate) fn equal(a: u64, b: u64) -> (r: bool)
    ensures
        r == binary64_eq(a, b),
{
    if nan_bits(a) || nan_bits(b) {
        return false;
    }
    let ma = a % 0x8000_0000_0000_0000u64;
    let mb = b % 0x8000_0000_0000_0000u64;
    let na = a >= 0x8000_0000_0000_0000u64;
    let nb = b >= 0x8000_0000_0000_0000u64;
    if na == nb {
        ma == mb
    } else {
        ma == 0 && mb == 0
    }
}

/// IEEE maxNum of `a` and `b`.
pub(crate) fn max_num(a: u64, b: u64) -> (r: u64)
    ensures
        r == binary64_max(a, b),
{
    if nan_bits(a) {
        b
    } else if nan_bits(b) {
        a
    } else if less(a, b) {
        b
    } else {
        a
    }
}

} // verus!
