//! A model of IEEE 754 binary64 encodings.
//!
//! A double is handled here as the 64 bits that encode it: one sign bit, an
//! eleven-bit exponent field and a 52-bit fraction field. Every finite double
//! is a whole multiple of 2^-1074, the smallest positive double. The model
//! takes that as its unit and counts magnitudes in it, so each statement
//! about the value of a double is a statement about integers.

use vstd::arithmetic::mul::*;
use vstd::arithmetic::power2::*;
use vstd::prelude::*;

verus! {

/// The sign bit.
pub const SIGN_MASK: u64 = 0x8000_0000_0000_0000;

/// Two to the 52nd: the weight of the exponent field's lowest bit, and the
/// leading bit that a normal significand has above its fraction.
pub const HIDDEN_BIT: u64 = 0x0010_0000_0000_0000;

/// The encoding of positive infinity: the exponent field full, the fraction
/// empty.
pub const INFINITY: u64 = 0x7ff0_0000_0000_0000;

/// The encoding of 1.0.
pub const ONE: u64 = 0x3ff0_0000_0000_0000;

/// The exponent field of 1.0.
pub const EXPONENT_OF_ONE: u64 = 1023;

/// The least exponent field from which every double is a whole number.
pub const EXPONENT_OF_WHOLE: u64 = 1075;

/// The encoding with its sign bit cleared.
pub open spec fn magnitude(bits: u64) -> u64 {
    if bits >= SIGN_MASK {
        (bits - SIGN_MASK) as u64
    } else {
        bits
    }
}

/// Whether the sign bit is set.
pub open spec fn sign_negative(bits: u64) -> bool {
    bits >= SIGN_MASK
}

/// The exponent field, from 0 to 2047.
pub open spec fn exponent(bits: u64) -> nat {
    (magnitude(bits) / HIDDEN_BIT) as nat
}

/// The fraction field, below 2^52.
pub open spec fn fraction(bits: u64) -> nat {
    (magnitude(bits) % HIDDEN_BIT) as nat
}

/// Not a number: the exponent field full and the fraction not empty.
pub open spec fn is_nan(bits: u64) -> bool {
    magnitude(bits) > INFINITY
}

/// Positive or negative infinity.
pub open spec fn is_infinite(bits: u64) -> bool {
    magnitude(bits) == INFINITY
}

/// Zero, subnormal or normal.
pub open spec fn is_finite(bits: u64) -> bool {
    magnitude(bits) < INFINITY
}

/// Positive or negative zero.
pub open spec fn is_zero(bits: u64) -> bool {
    magnitude(bits) == 0
}

/// The significand as an integer: the fraction, with the hidden bit above it
/// unless the double is subnormal.
pub open spec fn significand(bits: u64) -> nat {
    if exponent(bits) == 0 {
        fraction(bits)
    } else {
        HIDDEN_BIT as nat + fraction(bits)
    }
}

/// The power of two by which the significand is scaled to count units.
pub open spec fn shift(bits: u64) -> nat {
    if exponent(bits) == 0 {
        0
    } else {
        (exponent(bits) - 1) as nat
    }
}

/// The magnitude of a finite double, in units of 2^-1074.
pub open spec fn units(bits: u64) -> nat {
    significand(bits) * pow2(shift(bits))
}

/// The value of a finite double, in units of 2^-1074.
pub open spec fn value(bits: u64) -> int {
    if sign_negative(bits) {
        -(units(bits) as int)
    } else {
        units(bits) as int
    }
}

/// The units that make 1.0.
pub open spec fn units_per_one() -> nat {
    pow2(1074)
}

/// Above zero: positive, and neither a zero nor a NaN. Infinity counts.
pub open spec fn above_zero(bits: u64) -> bool {
    !sign_negative(bits) && !is_zero(bits) && !is_nan(bits)
}

/// Below zero: negative, and neither a zero nor a NaN. Infinity counts.
pub open spec fn below_zero(bits: u64) -> bool {
    sign_negative(bits) && !is_zero(bits) && !is_nan(bits)
}

/// Clearing the sign bit with a mask gives the magnitude.
pub proof fn lemma_magnitude_is_mask(bits: u64)
    ensures
        bits & !SIGN_MASK == magnitude(bits),
{
    assert(bits & !SIGN_MASK == if bits >= SIGN_MASK {
        (bits - SIGN_MASK) as u64
    } else {
        bits
    }) by (bit_vector);
}

/// Only the two zeros count no units.
pub proof fn lemma_units_positive(bits: u64)
    ensures
        units(bits) == 0 <==> is_zero(bits),
{
    lemma_pow2_pos(shift(bits));
    let m = significand(bits);
    let p = pow2(shift(bits));
    if m == 0 {
        assert(m * p == 0) by (nonlinear_arith)
            requires
                m == 0,
        ;
    } else {
        assert(m * p > 0) by (nonlinear_arith)
            requires
                m > 0,
                p > 0,
        ;
    }
}

/// The magnitude of a finite double lies in the band that its exponent field
/// names: below 2^52 units for a subnormal, and from 2^(e+51) up to, but not
/// reaching, 2^(e+52) for exponent field e of a normal.
pub proof fn lemma_units_band(bits: u64)
    requires
        is_finite(bits),
    ensures
        exponent(bits) == 0 ==> units(bits) < pow2(52),
        exponent(bits) >= 1 ==> pow2(exponent(bits) + 51) <= units(bits) < pow2(
            exponent(bits) + 52,
        ),
{
    lemma2_to64();
    lemma2_to64_rest();
    let e = exponent(bits);
    if e >= 1 {
        // The significand lies from 2^52 up to, but not reaching, 2^53.
        let m = significand(bits) as int;
        let p = pow2((e - 1) as nat) as int;
        lemma_pow2_adds(52, (e - 1) as nat);
        lemma_pow2_adds(53, (e - 1) as nat);
        lemma_pow2_pos((e - 1) as nat);
        lemma_mul_inequality(pow2(52) as int, m, p);
        lemma_mul_strict_inequality(m, pow2(53) as int, p);
    } else {
        // A subnormal counts its fraction.
        assert(units(bits) == fraction(bits) * 1);
    }
}

/// Among finite doubles the encodings of magnitudes are ordered as the
/// magnitudes are.
pub proof fn lemma_units_increase(a: u64, b: u64)
    requires
        is_finite(a),
        is_finite(b),
        magnitude(a) < magnitude(b),
    ensures
        units(a) < units(b),
{
    let ea = exponent(a);
    let eb = exponent(b);
    if ea == eb {
        // One exponent field: the fractions decide.
        lemma_pow2_pos(shift(a));
        lemma_mul_strict_inequality(
            significand(a) as int,
            significand(b) as int,
            pow2(shift(a)) as int,
        );
    } else {
        // A smaller exponent field: the band of `a` ends where that of `b`
        // begins, or below.
        lemma_units_band(a);
        lemma_units_band(b);
        if ea + 52 < eb + 51 {
            lemma_pow2_strictly_increases(ea + 52, eb + 51);
        }
    }
}

/// A finite value has one encoding for each sign: two finite doubles of one
/// sign that count the same units are the same bits.
pub proof fn lemma_encoding_unique(a: u64, b: u64)
    requires
        is_finite(a),
        is_finite(b),
        sign_negative(a) == sign_negative(b),
        units(a) == units(b),
    ensures
        a == b,
{
    if magnitude(a) < magnitude(b) {
        lemma_units_increase(a, b);
    } else if magnitude(b) < magnitude(a) {
        lemma_units_increase(b, a);
    }
}

/// The encoding `ONE` is positive and counts `units_per_one()` units.
pub proof fn lemma_units_of_one()
    ensures
        is_finite(ONE),
        !sign_negative(ONE),
        units(ONE) == units_per_one(),
{
    lemma2_to64_rest();
    lemma_pow2_adds(52, 1022);
}

} // verus!
