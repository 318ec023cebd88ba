//! From a fraction of the whole to percent: the product with one hundred,
//! rounded to a reading as binary32 arithmetic rounds it.

use crate::reading::{
    divide_rounding, lemma_rounded_quotient_is_nearest, lemma_rounded_quotient_scales,
    rounded_quotient, Reading, FRACTION_SPAN, INFINITY_BITS, SIGN_BIT,
};
use vstd::arithmetic::div_mod::{
    lemma_div_denominator, lemma_div_is_ordered, lemma_div_multiples_vanish,
    lemma_multiply_divide_lt,
};
use vstd::arithmetic::mul::{lemma_mul_is_associative, lemma_mul_is_commutative};
use vstd::arithmetic::power2::{
    lemma2_to64, lemma_pow2_adds, lemma_pow2_pos, lemma_pow2_unfold, pow2,
};
use vstd::prelude::*;

verus! {

/// Percent in the whole.
pub const PERCENT: u32 = 100;

/// The scale at which a magnitude has a significand of 24 bits: how often
/// it must be halved to come below 2^24.
pub open spec fn scale_for(quanta: nat) -> nat
    decreases quanta,
{
    if quanta < 0x100_0000 {
        0
    } else {
        1 + scale_for(quanta / 2)
    }
}

/// The bits below the sign of the reading nearest to a magnitude in
/// quanta: the magnitude is divided at its scale and rounded, ties to the
/// even significand, and what comes out beyond the largest finite reading
/// is an infinity.
pub open spec fn nearest_bits(quanta: nat) -> nat {
    let scale = scale_for(quanta);
    let bits = scale * (FRACTION_SPAN as nat) + rounded_quotient(quanta, pow2(scale));
    if bits >= INFINITY_BITS {
        INFINITY_BITS as nat
    } else {
        bits
    }
}

/// A hundred times a reading, with its sign. An infinity stays one, and
/// what is not a number stays as it is.
pub open spec fn hundredfold(reading: Reading) -> Reading {
    if reading.finite() {
        let sign: nat = if reading.negative() {
            SIGN_BIT as nat
        } else {
            0
        };
        Reading { bits: (sign + nearest_bits((PERCENT as nat) * reading.magnitude())) as u32 }
    } else {
        reading
    }
}

/// Doubling a magnitude of 23 bits or more raises its scale by one.
proof fn lemma_scale_of_multiple(quanta: nat, doublings: nat)
    requires
        quanta >= 0x80_0000,
    ensures
        scale_for(quanta * pow2(doublings)) == doublings + scale_for(quanta),
    decreases doublings,
{
    lemma2_to64();
    if doublings == 0 {
        assert(quanta * pow2(0) == quanta) by (nonlinear_arith)
            requires
                pow2(0) == 1,
        ;
    } else {
        let before = quanta * pow2((doublings - 1) as nat);
        lemma_scale_of_multiple(quanta, (doublings - 1) as nat);
        lemma_pow2_unfold(doublings);
        lemma_pow2_pos((doublings - 1) as nat);
        lemma_mul_is_associative(quanta as int, pow2((doublings - 1) as nat) as int, 2);
        assert(quanta * pow2(doublings) == before * 2);
        assert(before >= quanta) by (nonlinear_arith)
            requires
                before == quanta * pow2((doublings - 1) as nat),
                pow2((doublings - 1) as nat) >= 1,
        ;
        assert((before * 2) / 2 == before);
    }
}

/// The nearest reading to the magnitude of a finite reading is that reading.
pub proof fn lemma_nearest_bits_of_exact(reading: Reading)
    requires
        reading.finite(),
    ensures
        nearest_bits(reading.magnitude()) == reading.magnitude_bits(),
{
    let significand = reading.significand();
    let scale = reading.scale();
    let step = pow2(scale);
    lemma2_to64();
    lemma_pow2_pos(scale);
    if reading.exponent_field() > 0 {
        lemma_scale_of_multiple(significand, scale);
    } else {
        assert(significand * pow2(0) == significand) by (nonlinear_arith)
            requires
                pow2(0) == 1,
        ;
    }
    assert(scale_for(reading.magnitude()) == scale);
    lemma_div_multiples_vanish(significand as int, step as int);
    lemma_mul_is_commutative(significand as int, step as int);
    lemma_rounded_quotient_scales(significand, 1, step);
    assert(rounded_quotient(significand, 1) == significand);
}

/// A magnitude lies between the powers of two that its scale names.
proof fn lemma_scale_bounds(quanta: nat)
    ensures
        quanta < pow2(24 + scale_for(quanta)),
        scale_for(quanta) > 0 ==> quanta >= pow2(23 + scale_for(quanta)),
    decreases quanta,
{
    lemma2_to64();
    if quanta >= 0x100_0000 {
        let below = scale_for(quanta / 2);
        lemma_scale_bounds(quanta / 2);
        lemma_pow2_unfold(25 + below);
        lemma_pow2_unfold(24 + below);
    }
}

/// What the bits of the nearest reading hold: the rounded significand at
/// the scale of the magnitude.
pub proof fn lemma_magnitude_of_nearest(quanta: nat)
    requires
        nearest_bits(quanta) < INFINITY_BITS,
    ensures
        (Reading { bits: nearest_bits(quanta) as u32 }).magnitude() == rounded_quotient(
            quanta,
            pow2(scale_for(quanta)),
        ) * pow2(scale_for(quanta)),
{
    let scale = scale_for(quanta);
    let step = pow2(scale);
    let significand = rounded_quotient(quanta, step);
    let nearest = Reading { bits: nearest_bits(quanta) as u32 };
    lemma2_to64();
    lemma_pow2_pos(scale);
    lemma_scale_bounds(quanta);
    // The significand has 24 bits, or is 2^24 itself after rounding up.
    assert(quanta / step < 0x100_0000) by {
        lemma_pow2_adds(24, scale);
        lemma_multiply_divide_lt(quanta as int, step as int, 0x100_0000);
    }
    if scale > 0 {
        assert(quanta / step >= 0x80_0000) by {
            lemma_pow2_adds(23, scale);
            lemma_div_is_ordered(0x80_0000 * (step as int), quanta as int, step as int);
            lemma_div_multiples_vanish(0x80_0000, step as int);
            lemma_mul_is_commutative(0x80_0000, step as int);
        }
    }
    assert(scale * FRACTION_SPAN == scale * 0x80_0000);
    assert(nearest.magnitude_bits() == scale * 0x80_0000 + significand);
    if significand < 0x80_0000 {
        assert(nearest.exponent_field() == 0);
        assert(nearest.significand() == significand);
    } else if significand < 0x100_0000 {
        assert(nearest.exponent_field() == scale + 1);
        assert(nearest.significand() == significand);
    } else {
        assert(nearest.exponent_field() == scale + 2);
        assert(nearest.significand() == 0x80_0000);
        lemma_pow2_unfold(scale + 1);
        lemma_mul_is_associative(0x80_0000, 2, step as int);
    }
}

/// A hundred times a finite reading is the reading nearest to the exact
/// product: it keeps the sign, and where it is finite it lies within half
/// a step of the product, a step being the distance of readings at the
/// product's scale.
pub proof fn lemma_hundredfold_is_nearest(reading: Reading)
    requires
        reading.finite(),
    ensures
        !hundredfold(reading).nan(),
        hundredfold(reading).negative() == reading.negative(),
        hundredfold(reading).finite() ==> {
            let exact = (PERCENT as nat) * reading.magnitude();
            let step = pow2(scale_for(exact));
            &&& 2 * (hundredfold(reading).magnitude() - exact) <= step
            &&& 2 * (exact - hundredfold(reading).magnitude()) <= step
        },
{
    let exact = (PERCENT as nat) * reading.magnitude();
    let step = pow2(scale_for(exact));
    let bits = nearest_bits(exact);
    lemma_pow2_pos(scale_for(exact));
    if reading.negative() {
        assert(hundredfold(reading).bits == SIGN_BIT + bits);
        assert(hundredfold(reading).magnitude_bits() == bits);
    } else {
        assert(hundredfold(reading).bits == bits);
        assert(hundredfold(reading).magnitude_bits() == bits);
    }
    if bits < INFINITY_BITS {
        let nearest = Reading { bits: bits as u32 };
        assert(nearest.magnitude_bits() == bits);
        assert(hundredfold(reading).magnitude() == nearest.magnitude());
        lemma_magnitude_of_nearest(exact);
        lemma_rounded_quotient_is_nearest(exact, step);
    }
}

/// A fraction of the whole in percent.
pub fn percent(fraction: Reading) -> (percent: Reading)
    ensures
        percent == hundredfold(fraction),
{
    let magnitude_bits: u32 = fraction.bits % SIGN_BIT;
    if magnitude_bits >= INFINITY_BITS {
        return fraction;
    }
    let sign: u32 = fraction.bits - magnitude_bits;
    let exponent: u32 = magnitude_bits / FRACTION_SPAN;
    let low: u32 = magnitude_bits % FRACTION_SPAN;
    let significand: u32 = if exponent == 0 {
        low
    } else {
        FRACTION_SPAN + low
    };
    let scale: u32 = if exponent == 0 {
        0
    } else {
        exponent - 1
    };
    let product: u64 = significand as u64 * PERCENT as u64;
    let mut extra: u32 = 0;
    let mut step: u64 = 1;
    proof {
        lemma2_to64();
    }
    while product / step >= 0x100_0000
        invariant
            product < 0x8000_0000,
            extra <= 7,
            step >= 1,
            step == pow2(extra as nat),
            scale_for(product as nat) == extra + scale_for((product / step) as nat),
        decreases 7 - extra,
    {
        proof {
            lemma2_to64();
            // Seven halvings bring any product below 2^24.
            if extra == 7 {
                assert(step == 0x80);
            }
            lemma_pow2_unfold((extra + 1) as nat);
            lemma_div_denominator(product as int, step as int, 2);
        }
        step = step * 2;
        extra = extra + 1;
    }
    let rounded: u64 = divide_rounding(product, step);
    proof {
        let quanta = (PERCENT as nat) * fraction.magnitude();
        let base = pow2(scale as nat);
        lemma_pow2_pos(scale as nat);
        lemma_pow2_adds(scale as nat, extra as nat);
        assert(quanta == base * product) by {
            lemma_mul_is_associative(
                PERCENT as int,
                fraction.significand() as int,
                base as int,
            );
            lemma_mul_is_commutative(
                PERCENT as int,
                fraction.significand() as int,
            );
            lemma_mul_is_commutative(product as int, base as int);
        }
        if scale > 0 {
            lemma_mul_is_commutative(product as int, base as int);
            lemma_scale_of_multiple(product as nat, scale as nat);
        } else {
            assert(base * product == product) by (nonlinear_arith)
                requires
                    base == 1,
            ;
        }
        assert(scale_for(quanta) == scale + extra);
        lemma_rounded_quotient_scales(product as nat, step as nat, base);
        assert(rounded <= 0x100_0000);
        assert((scale + extra) * FRACTION_SPAN <= 260 * 0x80_0000) by (nonlinear_arith)
            requires
                scale + extra <= 260,
                FRACTION_SPAN == 0x80_0000,
        ;
    }
    let bits: u64 = (scale + extra) as u64 * (FRACTION_SPAN as u64) + rounded;
    let magnitude: u32 = if bits >= INFINITY_BITS as u64 {
        INFINITY_BITS
    } else {
        bits as u32
    };
    Reading { bits: sign + magnitude }
}

} // verus!
