//! IEEE-754 double-precision numbers held as their bit patterns: which are
//! finite, and how they compare.
use vstd::prelude::*;

verus! {

/// The eleven exponent bits.
pub open spec fn exponent_field(bits: u64) -> u64 {
    (bits >> 52u64) & 0x7ffu64
}

/// The fifty-two fraction bits.
pub open spec fn fraction_field(bits: u64) -> u64 {
    bits & 0xf_ffff_ffff_ffffu64
}

/// The value without its sign bit.
pub open spec fn magnitude(bits: u64) -> u64 {
    bits & 0x7fff_ffff_ffff_ffffu64
}

/// The sign bit is set.
pub open spec fn sign_set(bits: u64) -> bool {
    bits >> 63u64 == 1u64
}

/// `f64::is_finite`: the exponent is not all ones.
pub open spec fn is_finite_double(bits: u64) -> bool {
    exponent_field(bits) != 0x7ffu64
}

/// `f64::is_nan`: all exponent bits set and a fraction.
pub open spec fn is_nan_double(bits: u64) -> bool {
    exponent_field(bits) == 0x7ffu64 && fraction_field(bits) != 0
}

/// A key that orders numbers that are not NaN as their values: the
/// magnitude bits grow with the magnitude, and both zeros get key 0.
pub open spec fn order_key(bits: u64) -> int {
    if sign_set(bits) {
        -(magnitude(bits) as int)
    } else {
        magnitude(bits) as int
    }
}

/// `a < b` on doubles: false where either is NaN.
pub open spec fn double_lt(a: u64, b: u64) -> bool {
    !is_nan_double(a) && !is_nan_double(b) && order_key(a) < order_key(b)
}

/// `a <= b` on doubles: false where either is NaN.
pub open spec fn double_le(a: u64, b: u64) -> bool {
    !is_nan_double(a) && !is_nan_double(b) && order_key(a) <= order_key(b)
}

/// The bits of positive zero.
pub open spec fn positive_zero() -> u64 {
    0u64
}

/// Whether a double is finite.
pub fn finite_double(bits: u64) -> (finite: bool)
    ensures
        finite == is_finite_double(bits),
{
    (bits >> 52u64) & 0x7ffu64 != 0x7ffu64
}

/// Whether a double is NaN.
pub fn nan_double(bits: u64) -> (nan: bool)
    ensures
        nan == is_nan_double(bits),
{
    (bits >> 52u64) & 0x7ffu64 == 0x7ffu64 && bits & 0xf_ffff_ffff_ffffu64 != 0
}

fn key_of(bits: u64) -> (key: i64)
    ensures
        key == order_key(bits),
{
    let m = bits & 0x7fff_ffff_ffff_ffffu64;
    assert(m <= 0x7fff_ffff_ffff_ffffu64) by (bit_vector)
        requires
            m == bits & 0x7fff_ffff_ffff_ffffu64,
    ;
    let k = m as i64;
    if bits >> 63u64 == 1u64 {
        -k
    } else {
        k
    }
}

/// `a < b` on doubles.
pub fn less_than(a: u64, b: u64) -> (lt: bool)
    ensures
        lt == double_lt(a, b),
{
    !nan_double(a) && !nan_double(b) && key_of(a) < key_of(b)
}

/// `a <= b` on doubles.
pub fn at_most(a: u64, b: u64) -> (le: bool)
    ensures
        le == double_le(a, b),
{
    !nan_double(a) && !nan_double(b) && key_of(a) <= key_of(b)
}

} // verus!
