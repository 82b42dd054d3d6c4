//! The binary64 bit layout, and the exact value of a finite bit pattern.
//!
//! Values are measured in units of 2^-1075, so that every finite binary64
//! number is an integer multiple of two such units.
use vstd::arithmetic::power2::pow2;
use vstd::prelude::*;

verus! {

/// Bits in the stored mantissa (the implicit leading 1 excluded).
pub const MANTISSA_BITS: u64 = 52;

/// 2^52: one unit of the exponent field in a bit pattern.
pub const MANTISSA_SCALE: u64 = 0x10_0000_0000_0000;

/// Mask of the stored mantissa bits.
pub const MANTISSA_MASK: u64 = 0xF_FFFF_FFFF_FFFF;

/// Largest value of the 11-bit exponent field (infinities and NaNs).
pub const EXP_MASK: u64 = 0x7FF;

/// The sign bit.
pub const SIGN_MASK: u64 = 0x8000_0000_0000_0000;

/// Bit pattern of +infinity.
pub const POS_INF_BITS: u64 = 0x7FF0_0000_0000_0000;

/// Bit pattern of -infinity.
pub const NEG_INF_BITS: u64 = 0xFFF0_0000_0000_0000;

/// Bit pattern of -0.0, the sum of nothing.
pub const NEG_ZERO_BITS: u64 = 0x8000_0000_0000_0000;

/// Bit pattern of +0.0.
pub const POS_ZERO_BITS: u64 = 0;

/// The quiet NaN that stands for the sum of two opposite infinities.
pub const QUIET_NAN_BITS: u64 = 0x7FF8_0000_0000_0000;

/// The NaN with an all-ones payload that marks a sum beyond the accumulator.
pub const OVERFLOW_NAN_BITS: u64 = 0x7FFF_FFFF_FFFF_FFFF;

/// An upper bound, in units of 2^-1075, on the magnitude of any finite value:
/// (2^53 - 1) * 2^2046 < 2^2099.
pub open spec fn max_magnitude() -> nat {
    pow2(2099)
}

/// The 11-bit exponent field.
pub open spec fn exp_field(b: u64) -> nat {
    ((b as nat) / (MANTISSA_SCALE as nat)) % 2048
}

/// The 52 stored mantissa bits.
pub open spec fn mant_field(b: u64) -> nat {
    (b as nat) % (MANTISSA_SCALE as nat)
}

/// The sign bit is set.
pub open spec fn is_negative(b: u64) -> bool {
    b >= SIGN_MASK
}

/// An infinity or a NaN.
pub open spec fn is_special(b: u64) -> bool {
    exp_field(b) == 2047
}

pub open spec fn is_infinite(b: u64) -> bool {
    is_special(b) && mant_field(b) == 0
}

pub open spec fn is_nan(b: u64) -> bool {
    is_special(b) && mant_field(b) != 0
}

/// The exponent that scales the integer significand of a finite value:
/// 1 for zeros and subnormals, the exponent field otherwise.
pub open spec fn scale_exp(b: u64) -> nat {
    if exp_field(b) == 0 {
        1
    } else {
        exp_field(b)
    }
}

/// The integer significand, with the implicit 1 of a normal number.
pub open spec fn significand(b: u64) -> nat {
    if exp_field(b) == 0 {
        mant_field(b)
    } else {
        (mant_field(b) + MANTISSA_SCALE) as nat
    }
}

/// The absolute value of a finite value, in units of 2^-1075.
pub open spec fn magnitude(b: u64) -> nat {
    significand(b) * pow2(scale_exp(b))
}

/// The exact value of a bit pattern, in units of 2^-1075; infinities and
/// NaNs count as zero (they are tracked apart).
pub open spec fn value_of(b: u64) -> int {
    if is_special(b) {
        0
    } else if is_negative(b) {
        -magnitude(b)
    } else {
        magnitude(b) as int
    }
}

/// The same pattern with the sign bit flipped.
pub open spec fn negated(b: u64) -> u64 {
    if is_negative(b) {
        (b - SIGN_MASK) as u64
    } else {
        (b + SIGN_MASK) as u64
    }
}

/// The exponent field and stored mantissa, read with shifts and masks.
pub proof fn lemma_fields(b: u64)
    ensures
        (b >> 52) & 0x7FF == exp_field(b),
        b & MANTISSA_MASK == mant_field(b),
        b >> 52 == exp_field(b) + (if is_negative(b) { 2048nat } else { 0nat }),
        (b >> 63 == 1) == is_negative(b),
        b == (b >> 52) * MANTISSA_SCALE + mant_field(b),
{
    assert((b >> 52) & 0x7FF == (b / 0x10_0000_0000_0000) % 2048) by (bit_vector);
    assert(b & 0xF_FFFF_FFFF_FFFF == b % 0x10_0000_0000_0000) by (bit_vector);
    assert(b >> 52 == (b / 0x10_0000_0000_0000) % 2048 + (if b >= 0x8000_0000_0000_0000u64 {
        2048u64
    } else {
        0u64
    })) by (bit_vector);
    assert((b >> 63 == 1) == (b >= 0x8000_0000_0000_0000u64)) by (bit_vector);
    assert(b == (b >> 52) * 0x10_0000_0000_0000 + b % 0x10_0000_0000_0000) by (bit_vector);
}

/// Every finite magnitude is below 2^2099.
pub proof fn lemma_magnitude_bound(b: u64)
    requires
        !is_special(b),
    ensures
        magnitude(b) < max_magnitude(),
{
    vstd::arithmetic::power2::lemma2_to64();
    vstd::arithmetic::power2::lemma2_to64_rest();
    let e = scale_exp(b);
    assert(e <= 2046);
    assert(mant_field(b) < MANTISSA_SCALE);
    assert(significand(b) < pow2(53));
    vstd::arithmetic::power2::lemma_pow2_adds(53, e);
    vstd::arithmetic::power2::lemma_pow2_pos(e);
    vstd::arithmetic::mul::lemma_mul_strict_inequality(
        significand(b) as int,
        pow2(53) as int,
        pow2(e) as int,
    );
    if 53 + e < 2099 {
        vstd::arithmetic::power2::lemma_pow2_strictly_increases(53 + e, 2099);
    }
}

} // verus!
