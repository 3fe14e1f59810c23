//! The cut to whole numbers.
//!
//! A score keeps a fixed number of decimal places by being scaled up, cut to
//! a whole number and scaled back. The cut drops the part behind the binary
//! point and rounds nothing: it goes toward zero, by less than one.

use crate::binary64::{
    exponent, fraction, is_finite, lemma_encoding_unique, lemma_magnitude_is_mask,
    lemma_units_band, lemma_units_positive, magnitude, sign_negative, significand, units,
    units_per_one, EXPONENT_OF_ONE, EXPONENT_OF_WHOLE, HIDDEN_BIT, SIGN_MASK,
};
use vstd::arithmetic::div_mod::*;
use vstd::arithmetic::mul::*;
use vstd::arithmetic::power2::*;
use vstd::bits::*;
use vstd::prelude::*;

verus! {

/// The whole part of a finite magnitude, in units of 2^-1074: the largest
/// multiple of `units_per_one()` that the magnitude reaches.
pub open spec fn whole_units(bits: u64) -> nat {
    (units(bits) / units_per_one()) * units_per_one()
}

/// What cutting `bits` to a whole number, toward zero, leaves: an infinity
/// and a NaN as they are, and a finite double with its sign and with the
/// whole part of its magnitude.
pub open spec fn truncates_to(bits: u64, r: u64) -> bool {
    if is_finite(bits) {
        &&& is_finite(r)
        &&& sign_negative(r) == sign_negative(bits)
        &&& units(r) == whole_units(bits)
    } else {
        r == bits
    }
}

/// Cuts a double to a whole number, toward zero.
///
/// The result is a whole number no further from zero than the argument, and
/// less than one away from it. A zero, and a double below one, gives the
/// zero of its own sign.
pub fn truncate(bits: u64) -> (r: u64)
    ensures
        truncates_to(bits, r),
        sign_negative(r) == sign_negative(bits),
        is_finite(bits) ==> units(r) % units_per_one() == 0,
        is_finite(bits) ==> units(r) <= units(bits) < units(r) + units_per_one(),
{
    proof {
        lemma_exponent_is_field(bits);
        lemma_whole_units_bounds(bits);
    }
    let field: u64 = (bits >> 52) & 0x7ff;
    if field >= EXPONENT_OF_WHOLE {
        proof {
            if is_finite(bits) {
                lemma_whole_at_large_exponent(bits);
            }
        }
        bits
    } else if field < EXPONENT_OF_ONE {
        proof {
            lemma_sign_alone(bits);
            lemma_below_one(bits);
            lemma_units_positive(bits & SIGN_MASK);
        }
        bits & SIGN_MASK
    } else {
        let behind: u64 = EXPONENT_OF_WHOLE - field;
        proof {
            lemma_low_bits_cleared(bits, behind);
            lemma_cut_behind_point(bits, bits & !(((1u64 << behind) - 1) as u64), behind as nat);
        }
        bits & !((1u64 << behind) - 1)
    }
}

/// One double is what the cut of another leaves: two encodings that
/// `truncates_to` accepts for the same argument are the same bits.
pub proof fn lemma_truncation_unique(bits: u64, a: u64, b: u64)
    requires
        truncates_to(bits, a),
        truncates_to(bits, b),
    ensures
        a == b,
{
    if is_finite(bits) {
        lemma_encoding_unique(a, b);
    }
}

/// The exponent field is bits 52 to 62.
proof fn lemma_exponent_is_field(bits: u64)
    ensures
        (bits >> 52) & 0x7ff == exponent(bits),
{
    lemma_magnitude_is_mask(bits);
    assert((bits >> 52) & 0x7ff == (bits & !SIGN_MASK) / HIDDEN_BIT) by (bit_vector);
}

/// Keeping the sign bit alone gives a zero of the same sign.
proof fn lemma_sign_alone(bits: u64)
    ensures
        magnitude(bits & SIGN_MASK) == 0,
        sign_negative(bits & SIGN_MASK) == sign_negative(bits),
{
    assert(bits & SIGN_MASK == if bits >= SIGN_MASK {
        SIGN_MASK
    } else {
        0u64
    }) by (bit_vector);
}

/// Clearing the lowest `behind` bits, at most the whole fraction, keeps the
/// sign and the exponent field and clears the fraction below that place.
proof fn lemma_low_bits_cleared(bits: u64, behind: u64)
    requires
        1 <= behind <= 52,
    ensures
        (1u64 << behind) >= 1,
        ({
            let r = bits & !(((1u64 << behind) - 1) as u64);
            &&& sign_negative(r) == sign_negative(bits)
            &&& exponent(r) == exponent(bits)
            &&& fraction(r) == (fraction(bits) / pow2(behind as nat)) * pow2(behind as nat)
        }),
{
    let r = bits & !(((1u64 << behind) - 1) as u64);
    let low = (bits & !SIGN_MASK) % HIDDEN_BIT;
    let low_r = (r & !SIGN_MASK) % HIDDEN_BIT;
    lemma_magnitude_is_mask(bits);
    lemma_magnitude_is_mask(r);
    assert((1u64 << behind) >= 1) by (bit_vector)
        requires
            1 <= behind <= 52,
    ;
    assert((r >= SIGN_MASK) == (bits >= SIGN_MASK)) by (bit_vector)
        requires
            1 <= behind <= 52,
            r == bits & !(((1u64 << behind) - 1) as u64),
    ;
    assert((r & !SIGN_MASK) / HIDDEN_BIT == (bits & !SIGN_MASK) / HIDDEN_BIT) by (bit_vector)
        requires
            1 <= behind <= 52,
            r == bits & !(((1u64 << behind) - 1) as u64),
    ;
    assert(low_r == (low >> behind) << behind) by (bit_vector)
        requires
            1 <= behind <= 52,
            r == bits & !(((1u64 << behind) - 1) as u64),
            low == (bits & !SIGN_MASK) % HIDDEN_BIT,
            low_r == (r & !SIGN_MASK) % HIDDEN_BIT,
    ;
    // In arithmetic, shifting right and back is dividing and multiplying.
    let p = pow2(behind as nat);
    let kept = low >> behind;
    lemma_pow2_pos(behind as nat);
    lemma_u64_shr_is_div(low, behind);
    assert(kept * p <= low) by {
        lemma_fundamental_div_mod(low as int, p as int);
        lemma_mod_bound(low as int, p as int);
        lemma_mul_is_commutative(kept as int, p as int);
    }
    lemma_u64_shl_is_mul(kept, behind);
}

/// At an exponent field of `EXPONENT_OF_WHOLE` or more a finite double is a
/// whole number.
proof fn lemma_whole_at_large_exponent(bits: u64)
    requires
        is_finite(bits),
        exponent(bits) >= EXPONENT_OF_WHOLE,
    ensures
        units(bits) == whole_units(bits),
{
    let m = significand(bits) as int;
    let e = exponent(bits);
    let above = pow2((e - 1075) as nat) as int;
    let one = units_per_one() as int;
    lemma_pow2_adds((e - 1075) as nat, 1074);
    lemma_pow2_pos(1074);
    lemma_pow2_pos((e - 1075) as nat);
    lemma_mul_is_associative(m, above, one);
    lemma_mul_nonnegative(m, above);
    lemma_div_by_multiple(m * above, one);
}

/// Below an exponent field of `EXPONENT_OF_ONE` a double is less than one.
proof fn lemma_below_one(bits: u64)
    requires
        exponent(bits) < EXPONENT_OF_ONE,
    ensures
        units(bits) < units_per_one(),
        whole_units(bits) == 0,
{
    lemma_units_band(bits);
    let e = exponent(bits);
    if e == 0 {
        lemma_pow2_strictly_increases(52, 1074);
    } else if e + 52 < 1074 {
        lemma_pow2_strictly_increases(e + 52, 1074);
    }
    lemma_basic_div(units(bits) as int, units_per_one() as int);
}

/// Between the two, the whole part is the significand without the bits
/// behind the binary point: where `r` has the exponent field of `bits` and
/// its fraction with the lowest `behind` bits cleared, `r` counts the whole
/// part of `bits`.
proof fn lemma_cut_behind_point(bits: u64, r: u64, behind: nat)
    requires
        EXPONENT_OF_ONE <= exponent(bits) < EXPONENT_OF_WHOLE,
        behind == EXPONENT_OF_WHOLE - exponent(bits),
        exponent(r) == exponent(bits),
        fraction(r) == (fraction(bits) / pow2(behind)) * pow2(behind),
    ensures
        units(r) == whole_units(bits),
{
    let e = exponent(bits);
    let m = significand(bits) as int;
    let f = fraction(bits) as int;
    let p = pow2(behind) as int;
    let a = pow2((e - 1) as nat) as int;
    let lead = pow2((52 - behind) as nat) as int;
    let one = units_per_one() as int;
    lemma2_to64_rest();
    lemma_pow2_pos(behind);
    lemma_pow2_pos((e - 1) as nat);
    lemma_pow2_adds((e - 1) as nat, behind);
    lemma_pow2_adds((52 - behind) as nat, behind);
    // The hidden bit is a multiple of 2^behind, so the cut leaves it alone.
    assert(m / p == f / p + lead) by {
        lemma_hoist_over_denominator(f, lead, p as nat);
    }
    assert((m / p) * p == (f / p) * p + HIDDEN_BIT) by {
        lemma_mul_is_distributive_add_other_way(p, f / p, lead);
    }
    // Scaling both by 2^(e-1) leaves the quotient as it is.
    assert((m * a) / one == m / p) by {
        lemma_div_multiples_vanish_quotient(a, m, p);
        lemma_mul_is_commutative(m, a);
    }
    assert(((m / p) * p) * a == (m / p) * one) by {
        lemma_mul_is_associative(m / p, p, a);
        lemma_mul_is_commutative(p, a);
    }
}

/// The whole part is a multiple of one, no more than the magnitude and less
/// than one below it: the cut goes toward zero, and never as far as one.
pub proof fn lemma_whole_units_bounds(bits: u64)
    ensures
        whole_units(bits) % units_per_one() == 0,
        whole_units(bits) <= units(bits) < whole_units(bits) + units_per_one(),
{
    let x = units(bits) as int;
    let one = units_per_one() as int;
    lemma_pow2_pos(1074);
    lemma_fundamental_div_mod(x, one);
    lemma_mod_bound(x, one);
    lemma_mul_is_commutative(x / one, one);
    lemma_mod_multiples_basic(x / one, one);
}

} // verus!
