use nalgebra::Quaternion;
use robot_orientation::binary64::Binary64;
use robot_orientation::error::ConversionError;
use robot_orientation::sample::{validate, OrientationSample};

fn sample(w: f64, x: f64, y: f64, z: f64) -> OrientationSample {
    OrientationSample::from_bits(w.to_bits(), x.to_bits(), y.to_bits(), z.to_bits())
}

/// Validates a quaternion with the magnitude that nalgebra computes for it.
fn check(w: f64, x: f64, y: f64, z: f64) -> Result<(), ConversionError> {
    let magnitude = Quaternion::new(w, x, y, z).norm();
    validate(&sample(w, x, y, z), Binary64::from_bits(magnitude.to_bits()))
}

#[test]
fn a_sample_keeps_its_components() {
    let s = sample(1.0, -2.0, 0.5, 0.0);
    assert_eq!(s.w.to_bits(), 1.0f64.to_bits());
    assert_eq!(s.x.to_bits(), (-2.0f64).to_bits());
    assert_eq!(s.y.to_bits(), 0.5f64.to_bits());
    assert_eq!(s.z.to_bits(), 0.0f64.to_bits());
}

#[test]
fn unit_and_scaled_quaternions_are_accepted() {
    assert_eq!(check(1.0, 0.0, 0.0, 0.0), Ok(()));
    assert_eq!(check(0.0, 0.0, 0.0, -1.0), Ok(()));
    assert_eq!(check(3.0, 4.0, 0.0, 0.0), Ok(()));
    assert_eq!(check(1e-3, 1e-3, 1e-3, 1e-3), Ok(()));
    assert_eq!(check(0.5, -0.5, 0.5, -0.5), Ok(()));
}

#[test]
fn the_zero_quaternion_is_degenerate() {
    assert_eq!(check(0.0, 0.0, 0.0, 0.0), Err(ConversionError::DegenerateOrientation));
    assert_eq!(check(-0.0, 0.0, -0.0, 0.0), Err(ConversionError::DegenerateOrientation));
}

#[test]
fn a_component_that_is_not_a_number_is_degenerate() {
    assert_eq!(check(f64::NAN, 0.0, 0.0, 0.0), Err(ConversionError::DegenerateOrientation));
    assert_eq!(check(1.0, f64::NAN, 0.0, 0.0), Err(ConversionError::DegenerateOrientation));
    assert_eq!(check(1.0, 0.0, f64::NAN, 0.0), Err(ConversionError::DegenerateOrientation));
    assert_eq!(check(1.0, 0.0, 0.0, f64::NAN), Err(ConversionError::DegenerateOrientation));
}

#[test]
fn an_infinite_component_is_degenerate() {
    assert_eq!(check(f64::INFINITY, 0.0, 0.0, 0.0), Err(ConversionError::DegenerateOrientation));
    assert_eq!(check(1.0, f64::NEG_INFINITY, 0.0, 0.0), Err(ConversionError::DegenerateOrientation));
    assert_eq!(check(1.0, 0.0, f64::INFINITY, 0.0), Err(ConversionError::DegenerateOrientation));
    assert_eq!(check(1.0, 0.0, 0.0, f64::NEG_INFINITY), Err(ConversionError::DegenerateOrientation));
}

#[test]
fn a_bad_component_is_degenerate_whatever_the_magnitude_is_said_to_be() {
    let one = Binary64::from_bits(1.0f64.to_bits());
    assert_eq!(
        validate(&sample(f64::NAN, 0.0, 0.0, 1.0), one),
        Err(ConversionError::DegenerateOrientation)
    );
    assert_eq!(
        validate(&sample(0.0, 0.0, 0.0, 0.0), one),
        Err(ConversionError::DegenerateOrientation)
    );
}

#[test]
fn components_whose_squares_vanish_are_degenerate() {
    // Each square underflows to zero, and so does the magnitude.
    assert_eq!(check(1e-200, 1e-200, 0.0, 0.0), Err(ConversionError::DegenerateOrientation));
}

#[test]
fn components_whose_squares_overflow_are_degenerate() {
    assert_eq!(check(1e200, 0.0, 0.0, 1e200), Err(ConversionError::DegenerateOrientation));
}

#[test]
fn a_magnitude_of_zero_or_not_finite_is_degenerate() {
    let good = sample(1.0, 0.0, 0.0, 0.0);
    for magnitude in [0.0, -0.0, f64::NAN, f64::INFINITY, f64::NEG_INFINITY] {
        assert_eq!(
            validate(&good, Binary64::from_bits(magnitude.to_bits())),
            Err(ConversionError::DegenerateOrientation),
            "{}",
            magnitude
        );
    }
    assert_eq!(validate(&good, Binary64::from_bits(1.0f64.to_bits())), Ok(()));
}

#[test]
fn the_tests_on_the_components_agree_with_the_hardware() {
    let values = [0.0, -0.0, 1.0, f64::NAN, f64::INFINITY, 5e-324, -3.5];
    for w in values {
        for x in values {
            let s = sample(w, x, 0.0, -0.0);
            assert_eq!(s.has_finite_components(), w.is_finite() && x.is_finite());
            assert_eq!(s.is_zero(), w == 0.0 && x == 0.0);
        }
    }
}
