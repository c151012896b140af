//! Binary32 scalars as bit patterns.
//!
//! Every float the library works with is carried as its IEEE 754 binary32
//! bit pattern in a `u32`. Classification, absolute value and ordering are
//! bit operations and are implemented and verified here. Rounded arithmetic
//! (addition, subtraction, multiplication, division, conversion from a
//! count) is performed by the `rustc_apfloat` software implementation of
//! IEEE 754 behind trusted wrappers; its results are named by
//! uninterpreted functions, together with the few documented identities on
//! zeros the rest of the library relies on.
use vstd::prelude::*;

use rustc_apfloat::Float;
use rustc_apfloat::ieee::Single;

verus! {

/// The bit pattern of binary32 positive zero.
pub const POS_ZERO: u32 = 0x0000_0000;

/// The biased exponent field of a binary32 bit pattern.
pub open spec fn f32_exponent(a: u32) -> u32 {
    (a >> 23) & 0xFF
}

/// The fraction field of a binary32 bit pattern.
pub open spec fn f32_fraction(a: u32) -> u32 {
    a & 0x7F_FFFF
}

/// Whether the bit pattern denotes a NaN: exponent all ones, fraction
/// nonzero.
pub open spec fn f32_is_nan(a: u32) -> bool {
    f32_exponent(a) == 0xFF && f32_fraction(a) != 0
}

/// Whether the bit pattern denotes a finite number: exponent not all ones.
pub open spec fn f32_is_finite(a: u32) -> bool {
    f32_exponent(a) != 0xFF
}

/// Whether the sign bit is set.
pub open spec fn f32_is_neg(a: u32) -> bool {
    (a >> 31) == 1
}

/// The bit pattern with the sign bit cleared: the magnitude.
pub open spec fn f32_magnitude(a: u32) -> u32 {
    a & 0x7FFF_FFFF
}

/// IEEE 754 equality of two binary32 bit patterns: NaN equals nothing, the
/// two zeros are equal, and any other value is equal exactly to itself.
pub open spec fn f32_eq(a: u32, b: u32) -> bool {
    &&& !f32_is_nan(a)
    &&& !f32_is_nan(b)
    &&& (a == b || (f32_magnitude(a) == 0 && f32_magnitude(b) == 0))
}

/// IEEE 754 `<` on two binary32 bit patterns. NaN compares less than
/// nothing; otherwise the encoding orders by sign and magnitude, with the
/// two zeros equal.
pub open spec fn f32_lt(a: u32, b: u32) -> bool {
    &&& !f32_is_nan(a)
    &&& !f32_is_nan(b)
    &&& if f32_is_neg(a) != f32_is_neg(b) {
        f32_is_neg(a) && !(f32_magnitude(a) == 0 && f32_magnitude(b) == 0)
    } else if !f32_is_neg(a) {
        f32_magnitude(a) < f32_magnitude(b)
    } else {
        f32_magnitude(b) < f32_magnitude(a)
    }
}

/// IEEE 754 `<=` on two binary32 bit patterns.
pub open spec fn f32_le(a: u32, b: u32) -> bool {
    f32_lt(a, b) || f32_eq(a, b)
}

/// The IEEE 754 `<` comparison, as an executable bit-level function.
pub fn lt_bits(a: u32, b: u32) -> (r: bool)
    ensures
        r == f32_lt(a, b),
{
    let nan_a = ((a >> 23) & 0xFF) == 0xFF && (a & 0x7F_FFFF) != 0;
    let nan_b = ((b >> 23) & 0xFF) == 0xFF && (b & 0x7F_FFFF) != 0;
    if nan_a || nan_b {
        return false;
    }
    let neg_a = (a >> 31) == 1;
    let neg_b = (b >> 31) == 1;
    let mag_a = a & 0x7FFF_FFFF;
    let mag_b = b & 0x7FFF_FFFF;
    if neg_a != neg_b {
        neg_a && !(mag_a == 0 && mag_b == 0)
    } else if !neg_a {
        mag_a < mag_b
    } else {
        mag_b < mag_a
    }
}

/// The IEEE 754 `<=` comparison, as an executable bit-level function.
pub fn le_bits(a: u32, b: u32) -> (r: bool)
    ensures
        r == f32_le(a, b),
{
    let nan_a = ((a >> 23) & 0xFF) == 0xFF && (a & 0x7F_FFFF) != 0;
    let nan_b = ((b >> 23) & 0xFF) == 0xFF && (b & 0x7F_FFFF) != 0;
    if nan_a || nan_b {
        return false;
    }
    let mag_a = a & 0x7FFF_FFFF;
    let mag_b = b & 0x7FFF_FFFF;
    if a == b || (mag_a == 0 && mag_b == 0) {
        return true;
    }
    lt_bits(a, b)
}

/// The IEEE 754 absolute value: the sign bit is cleared, nothing else
/// changes.
pub fn abs_bits(a: u32) -> (r: u32)
    ensures
        r == f32_magnitude(a),
{
    a & 0x7FFF_FFFF
}

/// The binary32 sum of the two operands, rounded to nearest, ties to even.
pub uninterp spec fn f32_add(a: u32, b: u32) -> u32;

/// The binary32 difference of the two operands, rounded to nearest, ties to
/// even.
pub uninterp spec fn f32_sub(a: u32, b: u32) -> u32;

/// The binary32 product of the two operands, rounded to nearest, ties to
/// even.
pub uninterp spec fn f32_mul(a: u32, b: u32) -> u32;

/// The binary32 quotient of the two operands, rounded to nearest, ties to
/// even.
pub uninterp spec fn f32_div(a: u32, b: u32) -> u32;

/// The binary32 value nearest to the given count (every `usize` count is far
/// below the largest finite binary32, so the result is always finite).
pub uninterp spec fn f32_of_count(n: usize) -> u32;

/// Relies on `rustc_apfloat::ieee::Single::add_r` (IEEE 754 binary32
/// addition, round to nearest, ties to even): the result depends on the
/// operand bit patterns alone, and a sum of two positive zeros is positive
/// zero (IEEE 754, sign of an exact zero sum).
#[verifier::external_body]
pub fn add_bits(a: u32, b: u32) -> (r: u32)
    ensures
        r == f32_add(a, b),
        a == POS_ZERO && b == POS_ZERO ==> r == POS_ZERO,
{
    (Single::from_bits(a as u128) + Single::from_bits(b as u128)).value.to_bits() as u32
}

/// Relies on `rustc_apfloat::ieee::Single::sub_r` (IEEE 754 binary32
/// subtraction, round to nearest, ties to even): the result depends on the
/// operand bit patterns alone, and the difference of a finite value from
/// itself is positive zero (IEEE 754, sign of an exact zero difference).
#[verifier::external_body]
pub fn sub_bits(a: u32, b: u32) -> (r: u32)
    ensures
        r == f32_sub(a, b),
        a == b && f32_is_finite(a) ==> r == POS_ZERO,
{
    (Single::from_bits(a as u128) - Single::from_bits(b as u128)).value.to_bits() as u32
}

/// Relies on `rustc_apfloat::ieee::Single::mul_r` (IEEE 754 binary32
/// multiplication, round to nearest, ties to even): the result depends on
/// the operand bit patterns alone, and a finite non-negative value times
/// positive zero is positive zero (the product is an exact zero whose sign
/// is the exclusive or of the operand signs).
#[verifier::external_body]
pub fn mul_bits(a: u32, b: u32) -> (r: u32)
    ensures
        r == f32_mul(a, b),
        f32_is_finite(a) && !f32_is_neg(a) && b == POS_ZERO ==> r == POS_ZERO,
{
    (Single::from_bits(a as u128) * Single::from_bits(b as u128)).value.to_bits() as u32
}

/// Relies on `rustc_apfloat::ieee::Single::div_r` (IEEE 754 binary32
/// division, round to nearest, ties to even): the result depends on the
/// operand bit patterns alone, and positive zero divided by any positive
/// value is positive zero (the quotient is an exact zero whose sign is the
/// exclusive or of the operand signs).
#[verifier::external_body]
pub fn div_bits(a: u32, b: u32) -> (r: u32)
    ensures
        r == f32_div(a, b),
        a == POS_ZERO && f32_lt(POS_ZERO, b) ==> r == POS_ZERO,
{
    (Single::from_bits(a as u128) / Single::from_bits(b as u128)).value.to_bits() as u32
}

/// Relies on `rustc_apfloat::ieee::Single::from_u128_r` (conversion of an
/// unsigned integer to binary32, round to nearest, ties to even): the result
/// depends on the count alone; zero converts to positive zero, and a
/// positive count converts to a positive finite value (every `usize` is far
/// below the largest finite binary32, and rounding a value at least one
/// stays at least one).
#[verifier::external_body]
pub fn count_to_bits(n: usize) -> (r: u32)
    ensures
        r == f32_of_count(n),
        n == 0 ==> r == POS_ZERO,
        n >= 1 ==> f32_lt(POS_ZERO, r) && f32_is_finite(r),
{
    Single::from_u128(n as u128).value.to_bits() as u32
}

} // verus!
