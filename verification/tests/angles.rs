use robot_orientation::angles::{
    convert_to_360, normalize_angles, round_degrees, EulerDegrees, OrientationResult,
};
use robot_orientation::binary64::Binary64;

fn number(value: f64) -> Binary64 {
    Binary64::from_bits(value.to_bits())
}

fn angles(first: f64, second: f64, third: f64) -> EulerDegrees {
    EulerDegrees { first: number(first), second: number(second), third: number(third) }
}

#[test]
fn a_negative_heading_gains_a_whole_turn() {
    assert_eq!(convert_to_360(-1), 359);
    assert_eq!(convert_to_360(-90), 270);
    assert_eq!(convert_to_360(-179), 181);
    assert_eq!(convert_to_360(-180), 180);
}

#[test]
fn a_heading_that_is_not_negative_stays() {
    assert_eq!(convert_to_360(0), 0);
    assert_eq!(convert_to_360(1), 1);
    assert_eq!(convert_to_360(90), 90);
    assert_eq!(convert_to_360(180), 180);
    assert_eq!(convert_to_360(359), 359);
}

#[test]
fn wrapped_headings_lie_on_the_full_circle() {
    for heading in -180i16..=180 {
        let wrapped = convert_to_360(heading);
        assert!(0 <= wrapped && wrapped < 360, "{} became {}", heading, wrapped);
        assert_eq!((wrapped - heading) % 360, 0);
    }
}

#[test]
fn degrees_are_rounded_half_away_from_zero() {
    assert_eq!(round_degrees(number(44.5)), Some(45));
    assert_eq!(round_degrees(number(-44.5)), Some(-45));
    assert_eq!(round_degrees(number(44.4)), Some(44));
    assert_eq!(round_degrees(number(-44.4)), Some(-44));
    assert_eq!(round_degrees(number(0.0)), Some(0));
    assert_eq!(round_degrees(number(-0.2)), Some(0));
}

#[test]
fn degrees_end_at_half_a_turn() {
    assert_eq!(round_degrees(number(180.0)), Some(180));
    assert_eq!(round_degrees(number(-180.0)), Some(-180));
    assert_eq!(round_degrees(number(180.49999999999997)), Some(180));
    assert_eq!(round_degrees(number(-180.49999999999997)), Some(-180));
    assert_eq!(round_degrees(number(180.5)), None);
    assert_eq!(round_degrees(number(-180.5)), None);
    assert_eq!(round_degrees(number(181.0)), None);
    assert_eq!(round_degrees(number(1e300)), None);
}

#[test]
fn an_angle_that_is_not_finite_has_no_degrees() {
    assert_eq!(round_degrees(number(f64::NAN)), None);
    assert_eq!(round_degrees(number(f64::INFINITY)), None);
    assert_eq!(round_degrees(number(f64::NEG_INFINITY)), None);
}

#[test]
fn the_first_angle_is_the_pitch_the_second_the_roll_the_third_the_yaw() {
    let orientation = normalize_angles(&angles(10.2, -20.7, 30.5));
    assert_eq!(orientation, Some(OrientationResult { yaw: 31, pitch: 10, roll: -21 }));
}

#[test]
fn only_the_yaw_is_wrapped() {
    let orientation = normalize_angles(&angles(-10.0, -20.0, -30.0));
    assert_eq!(orientation, Some(OrientationResult { yaw: 330, pitch: -10, roll: -20 }));
    let ends = normalize_angles(&angles(-180.0, 180.0, -180.0));
    assert_eq!(ends, Some(OrientationResult { yaw: 180, pitch: -180, roll: 180 }));
}

#[test]
fn a_yaw_just_below_zero_rounds_to_zero_and_is_not_wrapped() {
    let orientation = normalize_angles(&angles(0.0, 0.0, -0.4));
    assert_eq!(orientation, Some(OrientationResult { yaw: 0, pitch: 0, roll: 0 }));
    let below = normalize_angles(&angles(0.0, 0.0, -0.5));
    assert_eq!(below, Some(OrientationResult { yaw: 359, pitch: 0, roll: 0 }));
}

#[test]
fn the_yaw_is_never_a_whole_turn() {
    let mut tenths = -1800i32;
    while tenths <= 1800 {
        let yaw = tenths as f64 / 10.0;
        let orientation = normalize_angles(&angles(0.0, 0.0, yaw)).unwrap();
        assert!(0 <= orientation.yaw && orientation.yaw < 360, "{}", yaw);
        assert!(orientation.is_valid());
        tenths += 1;
    }
}

#[test]
fn one_bad_angle_spoils_the_three() {
    assert_eq!(normalize_angles(&angles(f64::NAN, 0.0, 0.0)), None);
    assert_eq!(normalize_angles(&angles(0.0, f64::INFINITY, 0.0)), None);
    assert_eq!(normalize_angles(&angles(0.0, 0.0, 200.0)), None);
    assert_eq!(normalize_angles(&angles(-181.0, 0.0, 0.0)), None);
}

#[test]
fn validity_is_the_range_of_each_field() {
    assert!(OrientationResult { yaw: 0, pitch: -180, roll: 180 }.is_valid());
    assert!(OrientationResult { yaw: 359, pitch: 180, roll: -180 }.is_valid());
    assert!(!OrientationResult { yaw: 360, pitch: 0, roll: 0 }.is_valid());
    assert!(!OrientationResult { yaw: -1, pitch: 0, roll: 0 }.is_valid());
    assert!(!OrientationResult { yaw: 0, pitch: 181, roll: 0 }.is_valid());
    assert!(!OrientationResult { yaw: 0, pitch: -181, roll: 0 }.is_valid());
    assert!(!OrientationResult { yaw: 0, pitch: 0, roll: 181 }.is_valid());
    assert!(!OrientationResult { yaw: 0, pitch: 0, roll: -181 }.is_valid());
}

#[test]
fn angles_keep_their_bit_patterns() {
    let made = EulerDegrees::from_bits(1.5f64.to_bits(), (-2.0f64).to_bits(), 0);
    assert_eq!(made, angles(1.5, -2.0, 0.0));
    assert_eq!(made.third.to_bits(), 0);
}
