//! Single-precision samples, held by their bit patterns.
//!
//! A `Reading` is an IEEE 754 binary32 value. Its meaning is given in whole
//! numbers: every finite magnitude is a multiple of the quantum 2^-149, so
//! `magnitude` counts quanta and one unit is `quanta_per_unit()` of them.

use vstd::arithmetic::div_mod::{
    lemma_basic_div, lemma_div_is_ordered, lemma_div_multiples_vanish,
    lemma_div_multiples_vanish_quotient, lemma_fundamental_div_mod, lemma_mod_multiples_basic,
    lemma_small_mod, lemma_truncate_middle,
};
use vstd::arithmetic::mul::{
    lemma_mul_inequality, lemma_mul_is_associative, lemma_mul_is_commutative,
    lemma_mul_is_distributive_add, lemma_mul_strict_inequality, lemma_mul_upper_bound,
};
use vstd::arithmetic::power2::{
    lemma2_to64, lemma_pow2_adds, lemma_pow2_pos, lemma_pow2_strictly_increases,
    lemma2_to64_rest, lemma_pow2_unfold, pow2,
};
use vstd::bits::{lemma_u32_shl_is_mul, lemma_u32_shr_is_div};
use vstd::prelude::*;

verus! {

/// Weight of the sign bit.
pub const SIGN_BIT: u32 = 0x8000_0000;

/// Number of values the fraction field can take, 2^23.
pub const FRACTION_SPAN: u32 = 0x0080_0000;

/// The bits below the sign of an infinity; anything above is not a number.
pub const INFINITY_BITS: u32 = 0x7f80_0000;

/// The exponent field of values in [1, 2).
pub const EXPONENT_BIAS: u32 = 127;

/// Quanta in one unit: 2^149.
pub open spec fn quanta_per_unit() -> nat {
    pow2(149)
}

/// `n / d` rounded to the nearest whole number; of two equally near, the
/// even one.
pub open spec fn rounded_quotient(n: nat, d: nat) -> nat {
    if 2 * (n % d) > d || (2 * (n % d) == d && (n / d) % 2 == 1) {
        n / d + 1
    } else {
        n / d
    }
}

/// A sampled value as its 32 bits: sign, 8 bits of exponent, 23 of fraction.
#[derive(Clone, Copy, Debug, PartialEq, Eq, Structural)]
pub struct Reading {
    pub bits: u32,
}

impl Reading {
    /// The sign bit is set. Zero and not-a-number carry a sign too.
    pub open spec fn negative(self) -> bool {
        self.bits >= SIGN_BIT
    }

    /// The 31 bits below the sign.
    pub open spec fn magnitude_bits(self) -> nat {
        (self.bits % SIGN_BIT) as nat
    }

    pub open spec fn exponent_field(self) -> nat {
        self.magnitude_bits() / (FRACTION_SPAN as nat)
    }

    pub open spec fn fraction_field(self) -> nat {
        self.magnitude_bits() % (FRACTION_SPAN as nat)
    }

    pub open spec fn nan(self) -> bool {
        self.magnitude_bits() > INFINITY_BITS
    }

    pub open spec fn infinite(self) -> bool {
        self.magnitude_bits() == INFINITY_BITS
    }

    pub open spec fn finite(self) -> bool {
        self.magnitude_bits() < INFINITY_BITS
    }

    /// The fraction with its leading one, which subnormal values lack.
    pub open spec fn significand(self) -> nat {
        if self.exponent_field() == 0 {
            self.fraction_field()
        } else {
            FRACTION_SPAN as nat + self.fraction_field()
        }
    }

    /// The power of two by which the significand counts quanta.
    pub open spec fn scale(self) -> nat {
        if self.exponent_field() == 0 {
            0
        } else {
            (self.exponent_field() - 1) as nat
        }
    }

    /// The absolute value in quanta. An infinity gets 2^277 by the same
    /// formula, above every finite magnitude.
    pub open spec fn magnitude(self) -> nat {
        self.significand() * pow2(self.scale())
    }

    /// The value in quanta, for a reading that is a number.
    pub open spec fn quanta(self) -> int {
        if self.negative() {
            -(self.magnitude() as int)
        } else {
            self.magnitude() as int
        }
    }

    /// The whole units in the absolute value.
    pub open spec fn whole(self) -> nat {
        self.magnitude() / quanta_per_unit()
    }

    /// What is left of the absolute value above its whole units, in quanta.
    pub open spec fn part(self) -> nat {
        self.magnitude() % quanta_per_unit()
    }

    /// The value cut off toward zero and held to the range of `i32`; zero
    /// for what is not a number.
    pub open spec fn truncated(self) -> int {
        if self.nan() {
            0
        } else if self.negative() {
            if self.whole() > -(i32::MIN as int) {
                i32::MIN as int
            } else {
                -(self.whole() as int)
            }
        } else {
            if self.whole() > i32::MAX as int {
                i32::MAX as int
            } else {
                self.whole() as int
            }
        }
    }

    /// The whole number nearest to the absolute value; of two equally near,
    /// the even one.
    pub open spec fn nearest(self) -> nat {
        rounded_quotient(self.magnitude(), quanta_per_unit())
    }

    /// Both are numbers and `self` is not the greater one.
    pub open spec fn at_most(self, other: Reading) -> bool {
        !self.nan() && !other.nan() && self.quanta() <= other.quanta()
    }

    pub fn from_bits(bits: u32) -> (reading: Reading)
        ensures
            reading.bits == bits,
    {
        Reading { bits }
    }

    pub fn to_bits(self) -> (bits: u32)
        ensures
            bits == self.bits,
    {
        self.bits
    }
}

/// The rounded quotient is within half the divisor of the dividend, and
/// even where the dividend lies halfway between two multiples.
pub proof fn lemma_rounded_quotient_is_nearest(n: nat, d: nat)
    requires
        d > 0,
    ensures
        2 * (rounded_quotient(n, d) * d - n) <= d,
        2 * (n - rounded_quotient(n, d) * d) <= d,
        2 * (n % d) == d ==> rounded_quotient(n, d) % 2 == 0,
{
    lemma_fundamental_div_mod(n as int, d as int);
    lemma_mul_is_distributive_add(d as int, (n / d) as int, 1);
    lemma_mul_is_commutative(d as int, (n / d) as int);
    lemma_mul_is_commutative(d as int, (n / d + 1) as int);
}

/// Scaling dividend and divisor alike leaves the rounded quotient as it is.
pub proof fn lemma_rounded_quotient_scales(n: nat, d: nat, by: nat)
    requires
        d > 0,
        by > 0,
    ensures
        rounded_quotient(by * n, by * d) == rounded_quotient(n, d),
{
    lemma_div_multiples_vanish_quotient(by as int, n as int, d as int);
    lemma_truncate_middle(n as int, by as int, d as int);
    let part = (n % d) as int;
    assert(2 * (by * part) == by * (2 * part)) by (nonlinear_arith);
    if 2 * part > d {
        lemma_mul_strict_inequality(d as int, 2 * part, by as int);
    } else if 2 * part < d {
        lemma_mul_strict_inequality(2 * part, d as int, by as int);
    }
    lemma_mul_is_commutative(by as int, d as int);
    lemma_mul_is_commutative(by as int, 2 * part);
}

/// Rounding moves a value by half a unit at most.
pub proof fn lemma_nearest_is_within_half(reading: Reading)
    ensures
        2 * (reading.nearest() * quanta_per_unit() - reading.magnitude()) <= quanta_per_unit(),
        2 * (reading.magnitude() - reading.nearest() * quanta_per_unit()) <= quanta_per_unit(),
{
    lemma_pow2_pos(149);
    lemma_rounded_quotient_is_nearest(reading.magnitude(), quanta_per_unit());
}

/// A significand times a power of two below the unit, split at the unit.
proof fn lemma_split_below_unit(significand: nat, scale: nat)
    requires
        scale <= 149,
    ensures
        pow2(scale) > 0,
        pow2((149 - scale) as nat) > 0,
        (significand * pow2(scale)) / quanta_per_unit() == significand / pow2((149 - scale) as nat),
        (significand * pow2(scale)) % quanta_per_unit() == pow2(scale) * (significand % pow2(
            (149 - scale) as nat,
        )),
{
    let low = pow2(scale) as int;
    let high = pow2((149 - scale) as nat) as int;
    lemma_pow2_pos(scale);
    lemma_pow2_pos((149 - scale) as nat);
    lemma_pow2_adds(scale, (149 - scale) as nat);
    lemma_div_multiples_vanish_quotient(low, significand as int, high);
    lemma_truncate_middle(significand as int, low, high);
    lemma_mul_is_commutative(significand as int, low);
}

/// A significand times a power of two from the unit up is whole.
proof fn lemma_split_above_unit(significand: nat, scale: nat)
    requires
        scale >= 149,
    ensures
        (significand * pow2(scale)) / quanta_per_unit() == significand * pow2((scale - 149) as nat),
        (significand * pow2(scale)) % quanta_per_unit() == 0,
{
    let unit = pow2(149) as int;
    let over = pow2((scale - 149) as nat) as int;
    lemma_pow2_pos(149);
    lemma_pow2_adds((scale - 149) as nat, 149);
    lemma_mul_is_associative(significand as int, over, unit);
    lemma_mul_is_commutative(significand * over, unit);
    lemma_div_multiples_vanish(significand * over, unit);
    lemma_mod_multiples_basic(significand * over, unit);
}

/// The whole units and the part above them, read off the fields: below a
/// scale of 149 the significand is divided by a power of two, from there on
/// it is multiplied by one and nothing is left over.
pub proof fn lemma_whole_and_part(reading: Reading)
    ensures
        reading.significand() < 0x100_0000,
        reading.scale() <= 254,
        reading.scale() <= 149 ==> {
            let below = pow2((149 - reading.scale()) as nat);
            &&& below > 0
            &&& reading.whole() == reading.significand() / below
            &&& reading.part() == pow2(reading.scale()) * (reading.significand() % below)
        },
        reading.scale() >= 149 ==> {
            &&& reading.whole() == reading.significand() * pow2((reading.scale() - 149) as nat)
            &&& reading.part() == 0
        },
{
    if reading.scale() <= 149 {
        lemma_split_below_unit(reading.significand(), reading.scale());
    }
    if reading.scale() >= 149 {
        lemma_split_above_unit(reading.significand(), reading.scale());
    }
}

/// A number reaches a positive whole bound after truncation exactly when
/// it reaches it before: truncation cuts off less than one unit.
pub proof fn lemma_truncated_reaches(reading: Reading, bound: int)
    requires
        1 <= bound <= i32::MAX,
    ensures
        reading.truncated() >= bound <==> !reading.nan() && reading.quanta() >= bound
            * quanta_per_unit(),
{
    let unit = quanta_per_unit() as int;
    let magnitude = reading.magnitude() as int;
    lemma_pow2_pos(149);
    assert(bound * unit > 0) by (nonlinear_arith)
        requires
            bound >= 1,
            unit > 0,
    ;
    assert(magnitude / unit >= bound <==> magnitude >= bound * unit) by (nonlinear_arith)
        requires
            unit > 0,
            magnitude >= 0,
            bound >= 1,
    ;
}

/// Truncation keeps the order of numbers.
pub proof fn lemma_truncation_is_monotonic(low: Reading, high: Reading)
    requires
        low.at_most(high),
    ensures
        low.truncated() <= high.truncated(),
{
    let unit = quanta_per_unit() as int;
    lemma_pow2_pos(149);
    if low.negative() && high.negative() {
        lemma_div_is_ordered(high.magnitude() as int, low.magnitude() as int, unit);
    } else if !low.negative() && !high.negative() {
        lemma_div_is_ordered(low.magnitude() as int, high.magnitude() as int, unit);
    } else if !low.negative() {
        // Only zero is at most a value with the sign bit set.
        lemma_basic_div(low.magnitude() as int, unit);
        lemma_basic_div(high.magnitude() as int, unit);
    }
}

impl Reading {
    pub fn is_nan(self) -> (nan: bool)
        ensures
            nan == self.nan(),
    {
        self.bits % SIGN_BIT > INFINITY_BITS
    }

    pub fn is_infinite(self) -> (infinite: bool)
        ensures
            infinite == self.infinite(),
    {
        self.bits % SIGN_BIT == INFINITY_BITS
    }

    pub fn is_sign_negative(self) -> (negative: bool)
        ensures
            negative == self.negative(),
    {
        self.bits >= SIGN_BIT
    }

    /// The value as `i32`: cut off toward zero, held to the range of `i32`,
    /// zero for what is not a number.
    pub fn truncate(self) -> (whole: i32)
        ensures
            whole == self.truncated(),
    {
        let magnitude_bits: u32 = self.bits % SIGN_BIT;
        if magnitude_bits > INFINITY_BITS {
            return 0;
        }
        let exponent: u32 = magnitude_bits / FRACTION_SPAN;
        let fraction: u32 = magnitude_bits % FRACTION_SPAN;
        proof {
            lemma2_to64();
        }
        if exponent < EXPONENT_BIAS {
            proof {
                // Below one: the significand is under the power that divides it.
                lemma_whole_and_part(self);
                if self.scale() < 125 {
                    lemma_pow2_strictly_increases(24, (149 - self.scale()) as nat);
                }
                lemma_basic_div(
                    self.significand() as int,
                    pow2((149 - self.scale()) as nat) as int,
                );
            }
            return 0;
        }
        let significand: u32 = FRACTION_SPAN + fraction;
        if exponent > 157 {
            proof {
                // From 2^31 up: the significand is multiplied by 2^8 at least.
                lemma_whole_and_part(self);
                let over = pow2((self.scale() - 149) as nat);
                if self.scale() > 157 {
                    lemma_pow2_strictly_increases(8, (self.scale() - 149) as nat);
                }
                lemma_mul_inequality(0x100, over as int, self.significand() as int);
                lemma_mul_is_commutative(self.significand() as int, over as int);
                lemma_mul_is_commutative(self.significand() as int, 0x100);
            }
            return if self.bits >= SIGN_BIT {
                i32::MIN
            } else {
                i32::MAX
            };
        }
        let whole: u32 = if exponent <= 150 {
            proof {
                lemma_whole_and_part(self);
                lemma_u32_shr_is_div(significand, (150 - exponent) as u32);
            }
            significand >> (150 - exponent)
        } else {
            proof {
                lemma_whole_and_part(self);
                let over = pow2((exponent - 150) as nat);
                if exponent < 157 {
                    lemma_pow2_strictly_increases((exponent - 150) as nat, 7);
                }
                lemma_mul_upper_bound(significand as int, 0xff_ffff, over as int, 0x80);
                lemma_u32_shl_is_mul(significand, (exponent - 150) as u32);
            }
            significand << (exponent - 150)
        };
        if self.bits >= SIGN_BIT {
            -(whole as i32)
        } else {
            whole as i32
        }
    }

    /// The whole number nearest to the absolute value, ties to the even one;
    /// `None` for an infinity and for what is not a number.
    pub fn round(self) -> (nearest: Option<u128>)
        ensures
            nearest is Some <==> self.finite(),
            nearest matches Some(n) ==> n == self.nearest(),
    {
        let magnitude_bits: u32 = self.bits % SIGN_BIT;
        if magnitude_bits >= INFINITY_BITS {
            return None;
        }
        let exponent: u32 = magnitude_bits / FRACTION_SPAN;
        let fraction: u32 = magnitude_bits % FRACTION_SPAN;
        proof {
            lemma2_to64();
        }
        if exponent < EXPONENT_BIAS - 1 {
            proof {
                // Below one half: the magnitude is under 2^148 quanta.
                lemma_pow2_pos(149);
                lemma_pow2_adds(148, 1);
                if self.scale() < 124 {
                    lemma_pow2_strictly_increases(self.scale(), 124);
                }
                lemma_mul_upper_bound(
                    self.significand() as int,
                    0xff_ffff,
                    pow2(self.scale()) as int,
                    pow2(124) as int,
                );
                lemma_pow2_adds(24, 124);
                lemma_mul_strict_inequality(
                    0xff_ffff,
                    0x100_0000,
                    pow2(124) as int,
                );
                lemma_basic_div(self.magnitude() as int, quanta_per_unit() as int);
                lemma_small_mod(self.magnitude(), quanta_per_unit());
            }
            return Some(0);
        }
        let significand: u32 = FRACTION_SPAN + fraction;
        if exponent >= 150 {
            proof {
                lemma_whole_and_part(self);
                lemma_pow2_pos(149);
            }
            return Some(times_pow2(significand, exponent - 150));
        }
        let shift: u32 = 150 - exponent;
        proof {
            // The unit is the power of the scale times that of the shift.
            lemma_pow2_pos(self.scale());
            lemma_pow2_adds(self.scale(), shift as nat);
            lemma_pow2_strictly_increases(shift as nat, 25);
            lemma_u32_shl_is_mul(1, shift);
            lemma_mul_is_commutative(self.significand() as int, pow2(self.scale()) as int);
            lemma_rounded_quotient_scales(
                self.significand(),
                pow2(shift as nat),
                pow2(self.scale()),
            );
        }
        let unit: u32 = 1u32 << shift;
        Some(divide_rounding(significand as u64, unit as u64) as u128)
    }
}

/// `n / d` rounded to the nearest whole number, ties to the even one.
pub(crate) fn divide_rounding(n: u64, d: u64) -> (quotient: u64)
    requires
        d > 0,
        n < u64::MAX,
    ensures
        quotient == rounded_quotient(n as nat, d as nat),
{
    let whole: u64 = n / d;
    let part: u64 = n % d;
    // `2 * part` may not fit: compare the part with what is left of the divisor.
    if part > d - part || (part == d - part && whole % 2 == 1) {
        whole + 1
    } else {
        whole
    }
}

/// `significand * 2^shift`, for a significand of 24 bits.
fn times_pow2(significand: u32, shift: u32) -> (product: u128)
    requires
        significand < 0x100_0000,
        shift <= 104,
    ensures
        product == significand * pow2(shift as nat),
{
    let mut product: u128 = significand as u128;
    let mut done: u32 = 0;
    proof {
        lemma2_to64();
    }
    while done < shift
        invariant
            done <= shift <= 104,
            significand < 0x100_0000,
            product == significand * pow2(done as nat),
        decreases shift - done,
    {
        proof {
            let next = pow2((done + 1) as nat) as int;
            lemma_pow2_unfold((done + 1) as nat);
            lemma_mul_is_associative(significand as int, pow2(done as nat) as int, 2);
            assert(product * 2 == significand * next);
            if done + 1 < 104 {
                lemma_pow2_strictly_increases((done + 1) as nat, 104);
            }
            lemma_pow2_adds(64, 40);
            lemma2_to64_rest();
            lemma_mul_upper_bound(significand as int, 0xff_ffff, next, pow2(104) as int);
        }
        product = product * 2;
        done = done + 1;
    }
    product
}

} // verus!
