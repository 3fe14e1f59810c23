//! The steps of the two scores that decide without rounding.
//!
//! The best score has one: a total of zero gets the lowest score and no
//! division. The hot score has two: the direction of the net vote, and the
//! argument of its logarithm, which is the size of the net vote held at one
//! or above, so that the logarithm is never negative.

use crate::binary64::{
    above_zero, below_zero, is_finite, is_infinite, is_nan, is_zero, lemma_magnitude_is_mask,
    lemma_units_increase, lemma_units_of_one, lemma_units_positive, magnitude, sign_negative,
    units, units_per_one, value, INFINITY, ONE, SIGN_MASK,
};
use vstd::prelude::*;

verus! {

/// The confidence constant of the best score: the encoding of the double
/// nearest to 1.281551565545, the z-value of a one-sided 80% bound.
pub const BEST_Z: u64 = 0x3ff4_813c_36e2_743a;

/// The second, counted from the Unix epoch, from which the hot score counts
/// age.
pub const HOT_EPOCH: u64 = 1134028003;

/// The seconds of age that weigh as much as a tenfold net vote.
pub const HOT_DECAY: u64 = 45000;

/// The decimal places that a hot score keeps.
pub const HOT_PLACES: i32 = 7;

/// The direction of a net vote: 1 above zero, -1 below zero, and 0 for a
/// zero of either sign and for a NaN.
pub open spec fn sign_of(score: u64) -> int {
    if above_zero(score) {
        1
    } else if below_zero(score) {
        -1
    } else {
        0
    }
}

/// The size of a net vote, held at one or above: the magnitude where it is
/// at least 1.0, and 1.0 for a smaller one and for a NaN.
pub open spec fn floor_at_one(score: u64) -> u64 {
    if is_nan(score) {
        ONE
    } else if is_infinite(score) {
        INFINITY
    } else if units(score) >= units_per_one() {
        magnitude(score)
    } else {
        ONE
    }
}

/// Whether a total of votes is zero, of either sign: the case in which the
/// best score is 0.0 and nothing is divided.
pub fn no_data(total: u64) -> (r: bool)
    ensures
        r == is_zero(total),
        r <==> is_finite(total) && units(total) == 0,
{
    proof {
        lemma_magnitude_is_mask(total);
        lemma_units_positive(total);
    }
    total & !SIGN_MASK == 0
}

/// The direction of a net vote. For a finite net vote it is the sign of
/// its value.
pub fn sign(score: u64) -> (r: i8)
    ensures
        r == sign_of(score),
        r == 1 <==> above_zero(score),
        r == -1 <==> below_zero(score),
        r == 0 <==> is_zero(score) || is_nan(score),
        is_finite(score) ==> (r == 1 <==> value(score) > 0),
        is_finite(score) ==> (r == -1 <==> value(score) < 0),
{
    proof {
        lemma_magnitude_is_mask(score);
        lemma_units_positive(score);
    }
    let size: u64 = score & !SIGN_MASK;
    if size == 0 || size > INFINITY {
        0
    } else if score >= SIGN_MASK {
        -1
    } else {
        1
    }
}

/// The argument of the hot score's logarithm: the larger of 1.0 and the size
/// of the net vote, and 1.0 where the net vote is a NaN.
pub fn order_argument(score: u64) -> (r: u64)
    ensures
        r == floor_at_one(score),
        !sign_negative(r),
        !is_nan(r),
        is_finite(r) ==> units(r) >= units_per_one(),
        is_finite(score) ==> is_finite(r) && units(r) == if units(score) >= units_per_one() {
            units(score)
        } else {
            units_per_one()
        },
{
    proof {
        lemma_magnitude_is_mask(score);
        lemma_units_of_one();
    }
    let size: u64 = score & !SIGN_MASK;
    if size > ONE && size <= INFINITY {
        proof {
            if size < INFINITY {
                lemma_units_increase(ONE, score);
            }
        }
        size
    } else {
        proof {
            if size < ONE {
                lemma_units_increase(score, ONE);
            }
        }
        ONE
    }
}

/// A net vote without a direction adds nothing to the hot score: its
/// logarithm is taken of 1.0.
pub proof fn lemma_no_sign_no_order(score: u64)
    requires
        sign_of(score) == 0,
    ensures
        floor_at_one(score) == ONE,
{
    lemma_units_positive(score);
    lemma_units_of_one();
    lemma_units_positive(ONE);
}

} // verus!
