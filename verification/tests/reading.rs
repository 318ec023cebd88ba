use statusline::numeral::{push_decimal, push_right_justified, push_rounded};
use statusline::reading::Reading;

fn reading(value: f32) -> Reading {
    Reading::from_bits(value.to_bits())
}

fn rounded(reading: Reading) -> String {
    let mut text = String::new();
    push_rounded(&mut text, reading);
    text
}

/// Bit patterns on every exponent, at the edges and in the middle of the
/// fraction, in both signs.
fn patterns() -> Vec<u32> {
    let fractions = [
        0u32, 1, 2, 3, 0x0000_ffff, 0x0010_0000, 0x0020_0000, 0x0030_0000, 0x003f_ffff,
        0x0040_0000, 0x0040_0001, 0x0050_0000, 0x0060_0000, 0x0070_0000, 0x007f_fffe,
        0x007f_ffff, 0x0012_3456, 0x0055_5555, 0x002a_aaaa,
    ];
    let mut all = Vec::new();
    for exponent in 0u32..=255 {
        for fraction in fractions {
            let bits = (exponent << 23) | fraction;
            all.push(bits);
            all.push(bits | 0x8000_0000);
        }
    }
    all
}

/// A fixed pseudo-random walk over all 32-bit patterns.
fn walk(steps: usize) -> Vec<u32> {
    let mut state: u32 = 0x2545_f491;
    let mut all = Vec::with_capacity(steps);
    for _ in 0..steps {
        state ^= state << 13;
        state ^= state >> 17;
        state ^= state << 5;
        all.push(state);
    }
    all
}

#[test]
fn bits_round_trip() {
    for bits in [0u32, 1, 0x3f80_0000, 0x7f80_0000, 0xffc0_0000, u32::MAX] {
        assert_eq!(Reading::from_bits(bits).to_bits(), bits);
    }
}

#[test]
fn classification_matches_the_float() {
    for bits in patterns() {
        let value = f32::from_bits(bits);
        let r = Reading::from_bits(bits);
        assert_eq!(r.is_nan(), value.is_nan(), "{bits:#x}");
        assert_eq!(r.is_infinite(), value.is_infinite(), "{bits:#x}");
        assert_eq!(r.is_sign_negative(), value.is_sign_negative(), "{bits:#x}");
    }
}

#[test]
fn truncate_matches_the_cast_on_every_exponent() {
    for bits in patterns() {
        let value = f32::from_bits(bits);
        assert_eq!(Reading::from_bits(bits).truncate(), value as i32, "{bits:#x}");
    }
}

#[test]
fn truncate_matches_the_cast_on_a_walk() {
    for bits in walk(400_000) {
        let value = f32::from_bits(bits);
        assert_eq!(Reading::from_bits(bits).truncate(), value as i32, "{bits:#x}");
    }
}

#[test]
fn truncate_cuts_toward_zero() {
    assert_eq!(reading(0.0).truncate(), 0);
    assert_eq!(reading(-0.0).truncate(), 0);
    assert_eq!(reading(0.99).truncate(), 0);
    assert_eq!(reading(-0.99).truncate(), 0);
    assert_eq!(reading(10.999).truncate(), 10);
    assert_eq!(reading(11.0).truncate(), 11);
    assert_eq!(reading(-11.5).truncate(), -11);
    assert_eq!(reading(87.99999).truncate(), 87);
    assert_eq!(reading(100.0).truncate(), 100);
    assert_eq!(reading(16_777_216.0).truncate(), 16_777_216);
    assert_eq!(reading(33_554_432.0).truncate(), 33_554_432);
}

#[test]
fn truncate_holds_to_the_range() {
    assert_eq!(reading(2_147_483_648.0).truncate(), i32::MAX);
    assert_eq!(reading(2_147_483_520.0).truncate(), 2_147_483_520);
    assert_eq!(reading(-2_147_483_648.0).truncate(), i32::MIN);
    assert_eq!(reading(-2_147_483_904.0).truncate(), i32::MIN);
    assert_eq!(reading(3.0e38).truncate(), i32::MAX);
    assert_eq!(reading(f32::MAX).truncate(), i32::MAX);
    assert_eq!(reading(f32::MIN).truncate(), i32::MIN);
    assert_eq!(reading(f32::INFINITY).truncate(), i32::MAX);
    assert_eq!(reading(f32::NEG_INFINITY).truncate(), i32::MIN);
}

#[test]
fn truncate_of_not_a_number_is_zero() {
    assert_eq!(reading(f32::NAN).truncate(), 0);
    assert_eq!(reading(-f32::NAN).truncate(), 0);
    assert_eq!(Reading::from_bits(0x7f80_0001).truncate(), 0);
    assert_eq!(Reading::from_bits(0xffff_ffff).truncate(), 0);
}

#[test]
fn round_is_none_off_the_finite() {
    assert_eq!(reading(f32::INFINITY).round(), None);
    assert_eq!(reading(f32::NEG_INFINITY).round(), None);
    assert_eq!(reading(f32::NAN).round(), None);
    assert_eq!(Reading::from_bits(0x7f7f_ffff).round(), Some(f32::MAX as u128));
}

#[test]
fn round_takes_the_nearest() {
    assert_eq!(reading(0.0).round(), Some(0));
    assert_eq!(reading(0.49999997).round(), Some(0));
    assert_eq!(reading(0.50000006).round(), Some(1));
    assert_eq!(reading(63.4).round(), Some(63));
    assert_eq!(reading(63.6).round(), Some(64));
    assert_eq!(reading(-63.6).round(), Some(64));
    assert_eq!(reading(99.5001).round(), Some(100));
    assert_eq!(reading(f32::MIN_POSITIVE).round(), Some(0));
    assert_eq!(Reading::from_bits(1).round(), Some(0));
}

#[test]
fn round_breaks_ties_to_even() {
    assert_eq!(reading(0.5).round(), Some(0));
    assert_eq!(reading(1.5).round(), Some(2));
    assert_eq!(reading(2.5).round(), Some(2));
    assert_eq!(reading(3.5).round(), Some(4));
    assert_eq!(reading(42.5).round(), Some(42));
    assert_eq!(reading(43.5).round(), Some(44));
    assert_eq!(reading(8_388_606.5).round(), Some(8_388_606));
    assert_eq!(reading(8_388_607.5).round(), Some(8_388_608));
}

#[test]
fn round_is_exact_on_large_values() {
    assert_eq!(reading(16_777_216.0).round(), Some(16_777_216));
    assert_eq!(reading(1.0e20).round(), Some(100_000_002_004_087_734_272));
    assert_eq!(
        reading(f32::MAX).round(),
        Some(340_282_346_638_528_859_811_704_183_484_516_925_440)
    );
}

#[test]
fn rounded_text_matches_the_formatter_on_every_exponent() {
    for bits in patterns() {
        let value = f32::from_bits(bits);
        assert_eq!(rounded(Reading::from_bits(bits)), format!("{:.0}", value), "{bits:#x}");
    }
}

#[test]
fn rounded_text_matches_the_formatter_on_a_walk() {
    for bits in walk(200_000) {
        let value = f32::from_bits(bits);
        assert_eq!(rounded(Reading::from_bits(bits)), format!("{:.0}", value), "{bits:#x}");
    }
}

#[test]
fn rounded_text_matches_the_formatter_near_every_half() {
    for whole in 0u32..2_000 {
        let half = whole as f32 + 0.5;
        for bits in [half.to_bits() - 1, half.to_bits(), half.to_bits() + 1] {
            let value = f32::from_bits(bits);
            assert_eq!(rounded(Reading::from_bits(bits)), format!("{:.0}", value), "{value}");
            let negated = bits | 0x8000_0000;
            assert_eq!(
                rounded(Reading::from_bits(negated)),
                format!("{:.0}", f32::from_bits(negated)),
                "-{value}"
            );
        }
    }
}

#[test]
fn rounded_text_of_the_special_values() {
    assert_eq!(rounded(reading(f32::NAN)), "NaN");
    assert_eq!(rounded(reading(-f32::NAN)), "NaN");
    assert_eq!(rounded(reading(f32::INFINITY)), "inf");
    assert_eq!(rounded(reading(f32::NEG_INFINITY)), "-inf");
    assert_eq!(rounded(reading(-0.0)), "-0");
    assert_eq!(rounded(reading(-0.4)), "-0");
    assert_eq!(rounded(reading(-1.0)), "-1");
}

#[test]
fn decimal_text() {
    for (n, expected) in [
        (0u128, "0"),
        (7, "7"),
        (9, "9"),
        (10, "10"),
        (42, "42"),
        (100, "100"),
        (1_000_000, "1000000"),
        (u128::MAX, "340282366920938463463374607431768211455"),
    ] {
        let mut text = String::new();
        push_decimal(&mut text, n);
        assert_eq!(text, expected);
    }
}

#[test]
fn decimal_text_is_appended() {
    let mut text = String::from("n=");
    push_decimal(&mut text, 305);
    push_decimal(&mut text, 0);
    assert_eq!(text, "n=3050");
}

#[test]
fn right_justified_text() {
    for (item, width, expected) in [
        ("", 0, ""),
        ("", 3, "   "),
        ("7", 3, "  7"),
        ("42", 3, " 42"),
        ("100", 3, "100"),
        ("1000", 3, "1000"),
        ("-inf", 3, "-inf"),
        ("ℂ", 3, "  ℂ"),
    ] {
        let mut text = String::from(">");
        push_right_justified(&mut text, item, width);
        assert_eq!(text, format!(">{expected}"));
        assert_eq!(text, format!(">{item:>width$}"));
    }
}
