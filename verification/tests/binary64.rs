use robot_orientation::binary64::Binary64;

fn number(value: f64) -> Binary64 {
    Binary64::from_bits(value.to_bits())
}

/// What `f64::round` gives, as an integer, where it fits.
fn reference(value: f64) -> Option<i64> {
    if !value.is_finite() {
        return None;
    }
    let rounded = value.round();
    if rounded >= -9223372036854775808.0 && rounded < 9223372036854775808.0 {
        Some(rounded as i64)
    } else {
        None
    }
}

#[test]
fn bits_are_kept() {
    let pattern = 0x4046_4000_0000_0000u64;
    assert_eq!(Binary64::from_bits(pattern).to_bits(), pattern);
    assert_eq!(number(44.5).to_bits(), pattern);
}

#[test]
fn a_half_rounds_away_from_zero() {
    assert_eq!(number(44.5).nearest_integer(), Some(45));
    assert_eq!(number(-44.5).nearest_integer(), Some(-45));
    assert_eq!(number(0.5).nearest_integer(), Some(1));
    assert_eq!(number(-0.5).nearest_integer(), Some(-1));
    assert_eq!(number(179.5).nearest_integer(), Some(180));
    assert_eq!(number(-179.5).nearest_integer(), Some(-180));
    assert_eq!(number(2.5).nearest_integer(), Some(3));
    assert_eq!(number(-2.5).nearest_integer(), Some(-3));
}

#[test]
fn values_next_to_a_half_round_to_the_nearer_side() {
    assert_eq!(number(0.49999999999999994).nearest_integer(), Some(0));
    assert_eq!(number(-0.49999999999999994).nearest_integer(), Some(0));
    assert_eq!(number(44.49999999999999).nearest_integer(), Some(44));
    assert_eq!(number(44.50000000000001).nearest_integer(), Some(45));
    assert_eq!(number(-44.49999999999999).nearest_integer(), Some(-44));
    assert_eq!(number(0.4).nearest_integer(), Some(0));
    assert_eq!(number(0.6).nearest_integer(), Some(1));
    assert_eq!(number(89.99999999999999).nearest_integer(), Some(90));
}

#[test]
fn whole_numbers_round_to_themselves() {
    for whole in -400i64..=400 {
        assert_eq!(number(whole as f64).nearest_integer(), Some(whole));
    }
    assert_eq!(number(4503599627370496.0).nearest_integer(), Some(4503599627370496));
    assert_eq!(number(9007199254740992.0).nearest_integer(), Some(9007199254740992));
    assert_eq!(number(1e18).nearest_integer(), Some(1_000_000_000_000_000_000));
}

#[test]
fn zeros_and_tiny_values_round_to_zero() {
    assert_eq!(number(0.0).nearest_integer(), Some(0));
    assert_eq!(number(-0.0).nearest_integer(), Some(0));
    assert_eq!(number(f64::MIN_POSITIVE).nearest_integer(), Some(0));
    assert_eq!(Binary64::from_bits(1).nearest_integer(), Some(0));
    assert_eq!(Binary64::from_bits(0x8000_0000_0000_0001).nearest_integer(), Some(0));
    assert_eq!(number(1e-300).nearest_integer(), Some(0));
}

#[test]
fn what_is_not_finite_has_no_nearest_integer() {
    assert_eq!(number(f64::NAN).nearest_integer(), None);
    assert_eq!(number(f64::INFINITY).nearest_integer(), None);
    assert_eq!(number(f64::NEG_INFINITY).nearest_integer(), None);
    assert_eq!(Binary64::from_bits(0x7ff0_0000_0000_0001).nearest_integer(), None);
    assert_eq!(Binary64::from_bits(0xfff8_0000_0000_0000).nearest_integer(), None);
}

#[test]
fn the_range_of_the_result_ends_where_i64_ends() {
    assert_eq!(number(9223372036854775808.0).nearest_integer(), None);
    assert_eq!(number(-9223372036854775808.0).nearest_integer(), Some(i64::MIN));
    assert_eq!(number(9223372036854774784.0).nearest_integer(), Some(9223372036854774784));
    assert_eq!(number(-9223372036854777856.0).nearest_integer(), None);
    assert_eq!(number(1e300).nearest_integer(), None);
    assert_eq!(number(-1e300).nearest_integer(), None);
    assert_eq!(number(f64::MAX).nearest_integer(), None);
}

#[test]
fn rounding_agrees_with_the_hardware_on_a_sweep() {
    // Steps of one sixteenth are exact in binary64 and pass through every
    // half between the two ends.
    let mut sixteenths = -16 * 400i64;
    while sixteenths <= 16 * 400 {
        let value = sixteenths as f64 / 16.0;
        assert_eq!(number(value).nearest_integer(), reference(value), "{}", value);
        sixteenths += 1;
    }
}

#[test]
fn rounding_agrees_with_the_hardware_on_scattered_patterns() {
    // A fixed walk through the bit patterns, so that every exponent is met.
    let mut pattern = 0x0123_4567_89ab_cdefu64;
    for _ in 0..200_000 {
        pattern = pattern.wrapping_mul(6364136223846793005).wrapping_add(1442695040888963407);
        let value = f64::from_bits(pattern);
        assert_eq!(Binary64::from_bits(pattern).nearest_integer(), reference(value), "{:#x}", pattern);
    }
}

#[test]
fn rounding_agrees_with_the_hardware_around_each_power_of_two() {
    for exponent in 0..2047u64 {
        for fraction in [0u64, 1, 0x8_0000_0000_0000, 0x7_ffff_ffff_ffff, 0xf_ffff_ffff_ffff] {
            for sign in [0u64, 1] {
                let pattern = (sign << 63) | (exponent << 52) | fraction;
                let value = f64::from_bits(pattern);
                assert_eq!(
                    Binary64::from_bits(pattern).nearest_integer(),
                    reference(value),
                    "{:#x}",
                    pattern
                );
            }
        }
    }
}

#[test]
fn classes_agree_with_the_hardware() {
    let samples = [
        0.0,
        -0.0,
        1.0,
        -1.0,
        44.5,
        f64::MIN_POSITIVE,
        f64::MAX,
        f64::MIN,
        f64::NAN,
        f64::INFINITY,
        f64::NEG_INFINITY,
        5e-324,
        -5e-324,
    ];
    for value in samples {
        let n = number(value);
        assert_eq!(n.is_finite(), value.is_finite(), "{}", value);
        assert_eq!(n.is_infinite(), value.is_infinite(), "{}", value);
        assert_eq!(n.is_nan(), value.is_nan(), "{}", value);
        assert_eq!(n.is_zero(), value == 0.0, "{}", value);
        assert_eq!(n.is_sign_negative(), value.is_sign_negative(), "{}", value);
    }
}

#[test]
fn negative_zero_is_zero_with_the_sign_set() {
    let n = number(-0.0);
    assert!(n.is_zero());
    assert!(n.is_sign_negative());
    assert!(n.is_finite());
    assert!(!number(0.0).is_sign_negative());
}
