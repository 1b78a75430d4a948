//! Double-precision scalar arithmetic, carried as IEEE-754 bit patterns.
//!
//! Verified code holds every scalar as the `u64` bit pattern of a
//! double-precision value.  The arithmetic itself is done by `libm`, behind
//! trusted wrappers; each operation's result is named by an uninterpreted
//! spec function of the operands' bit patterns, which is sound because every
//! operation here is a pure, platform-independent function of its operands.

use vstd::prelude::*;

verus! {

/// Bit pattern of the double-precision value 0.0.
pub const ZERO_BITS: u64 = 0x0000_0000_0000_0000;

/// Bit pattern of the double-precision value -0.0; also the sign-bit mask.
pub const NEG_ZERO_BITS: u64 = 0x8000_0000_0000_0000;

/// Bit pattern of the double-precision value 1.0.
pub const ONE_BITS: u64 = 0x3FF0_0000_0000_0000;

/// Bit pattern of the double-precision value -1.0.
pub const NEG_ONE_BITS: u64 = 0xBFF0_0000_0000_0000;

/// The IEEE-754 sum of the doubles with bit patterns `a` and `b`.
pub uninterp spec fn sum_bits(a: u64, b: u64) -> u64;

/// The IEEE-754 difference `a - b` of the doubles with bit patterns `a`, `b`.
pub uninterp spec fn diff_bits(a: u64, b: u64) -> u64;

/// The IEEE-754 product of the doubles with bit patterns `a` and `b`.
pub uninterp spec fn prod_bits(a: u64, b: u64) -> u64;

/// The double `a` raised to the double `e`, as `libm::pow` computes it.
pub uninterp spec fn pow_bits(a: u64, e: u64) -> u64;

/// The hyperbolic tangent of the double `a`, as `libm::tanh` computes it.
pub uninterp spec fn tanh_bits(a: u64) -> u64;

/// Negating a double flips exactly its sign bit, which is the one bit set in
/// the pattern of -0.0.
pub open spec fn neg_bits(a: u64) -> u64 {
    a ^ NEG_ZERO_BITS
}

/// The bit pattern of a double in the closed interval [-1.0, 1.0]: a
/// non-negative double at most 1.0 (patterns from 0.0 up to `ONE_BITS`), or
/// a non-positive double at least -1.0 (patterns from `NEG_ZERO_BITS` up to
/// `NEG_ONE_BITS`; among negative doubles a greater magnitude has a greater
/// pattern).  Infinities and NaNs satisfy neither arm.
pub open spec fn in_unit_range(a: u64) -> bool {
    a <= ONE_BITS || (NEG_ZERO_BITS <= a && a <= NEG_ONE_BITS)
}

/// Relies on libm::fma: `a*1 + b` is rounded once, and `a*1` is exact, so the
/// result is exactly the correctly rounded IEEE-754 sum of `a` and `b`.
#[verifier::external_body]
pub(crate) fn add_op(a: u64, b: u64) -> (r: u64)
    ensures
        r == sum_bits(a, b),
{
    libm::fma(bytemuck::cast(a), bytemuck::cast(ONE_BITS), bytemuck::cast(b)).to_bits()
}

/// Relies on libm::fma: `b*(-1) + a` is rounded once, and `b*(-1)` is exact,
/// so the result is exactly the IEEE-754 difference `a - b`.
#[verifier::external_body]
pub(crate) fn sub_op(a: u64, b: u64) -> (r: u64)
    ensures
        r == diff_bits(a, b),
{
    libm::fma(bytemuck::cast(b), bytemuck::cast(NEG_ONE_BITS), bytemuck::cast(a)).to_bits()
}

/// Relies on libm::fma: `a*b + (-0.0)` is rounded once and adding -0.0 never
/// changes a result, so this is exactly the IEEE-754 product of `a` and `b`.
#[verifier::external_body]
pub(crate) fn mul_op(a: u64, b: u64) -> (r: u64)
    ensures
        r == prod_bits(a, b),
{
    libm::fma(bytemuck::cast(a), bytemuck::cast(b), bytemuck::cast(NEG_ZERO_BITS)).to_bits()
}

/// Negation by flipping the sign bit; verified against `neg_bits`.
pub(crate) fn neg_op(a: u64) -> (r: u64)
    ensures
        r == neg_bits(a),
{
    a ^ NEG_ZERO_BITS
}

/// Relies on libm::pow: real-valued exponentiation of doubles, a pure
/// function of the two operands' bit patterns.
#[verifier::external_body]
pub(crate) fn pow_op(a: u64, e: u64) -> (r: u64)
    ensures
        r == pow_bits(a, e),
{
    libm::pow(bytemuck::cast(a), bytemuck::cast(e)).to_bits()
}

/// Relies on libm::tanh: the hyperbolic tangent, a pure function of the
/// operand's bit pattern.
#[verifier::external_body]
pub(crate) fn tanh_op(a: u64) -> (r: u64)
    ensures
        r == tanh_bits(a),
{
    libm::tanh(bytemuck::cast(a)).to_bits()
}

/// Relies on rand::random_range over the range from -1.0 up to 1.0: the
/// sampler computes `low + scale * unit` with a non-negative scale reduced
/// until rounding can never carry the result above the upper bound, so the
/// draw is a double in the closed interval [-1.0, 1.0] (the source does not
/// promise that the upper bound itself is never hit).  Beyond that, nothing
/// can be promised of a random draw.  The two libm::copysign calls return
/// their first operand unchanged (its sign is already the sign copied in);
/// they only pin the operand type that random_range expects.
#[verifier::external_body]
pub(crate) fn random_unit() -> (r: u64)
    ensures
        in_unit_range(r),
{
    let lo = libm::copysign(bytemuck::cast(NEG_ONE_BITS), bytemuck::cast(NEG_ONE_BITS));
    let hi = libm::copysign(bytemuck::cast(ONE_BITS), bytemuck::cast(ONE_BITS));
    rand::random_range(lo..hi).to_bits()
}

} // verus!
