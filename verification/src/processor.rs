//! One sample in, one payload out.
//!
//! The arithmetic on real numbers is the caller's: it hands in the sample, the
//! magnitude of its quaternion, and the angles of the rotation that the
//! quaternion denotes once it is brought to unit length. Everything that is
//! decided on those numbers is decided here, in the order validation,
//! rounding, wrap-around, encoding. No call leaves anything behind for the
//! next: what comes out depends on the arguments alone.

use vstd::prelude::*;
use crate::angles::{normalize_angles, normalized, EulerDegrees, OrientationResult};
use crate::binary64::Binary64;
use crate::error::ConversionError;
use crate::payload::{encode, payload_text};
use crate::sample::{degenerate, validate, OrientationSample};

verus! {

/// The orientation of a sample. There is none where the sample is degenerate,
/// nor where an angle is not finite or lies more than half a turn from zero,
/// which no rotation yields.
pub open spec fn orientation_of(
    sample: OrientationSample,
    magnitude: Binary64,
    angles: EulerDegrees,
) -> Result<OrientationResult, ConversionError> {
    if degenerate(sample, magnitude) {
        Err(ConversionError::DegenerateOrientation)
    } else {
        match normalized(angles) {
            Some(orientation) => Ok(orientation),
            None => Err(ConversionError::DegenerateOrientation),
        }
    }
}

/// Turns one sample into an orientation in whole degrees.
///
/// `magnitude` is the square root of the sum of the squared components of the
/// sample, and `angles` are the angles, in degrees, of the sample divided by
/// that magnitude.
pub fn process_imu_data(
    sample: &OrientationSample,
    magnitude: Binary64,
    angles: &EulerDegrees,
) -> (outcome: Result<OrientationResult, ConversionError>)
    ensures
        outcome == orientation_of(*sample, magnitude, *angles),
        outcome matches Ok(orientation) ==> orientation.valid(),
        !sample.all_finite() || sample.all_zero() ==> outcome == Err::<
            OrientationResult,
            ConversionError,
        >(ConversionError::DegenerateOrientation),
{
    match validate(sample, magnitude) {
        Err(reason) => Err(reason),
        Ok(_) => match normalize_angles(angles) {
            Some(orientation) => Ok(orientation),
            None => Err(ConversionError::DegenerateOrientation),
        },
    }
}

/// The payload of a sample: that of its orientation, where it has one.
pub open spec fn payload_of(
    sample: OrientationSample,
    magnitude: Binary64,
    angles: EulerDegrees,
) -> Result<Seq<u8>, ConversionError> {
    match orientation_of(sample, magnitude, angles) {
        Ok(orientation) => Ok(payload_text(orientation)),
        Err(reason) => Err(reason),
    }
}

/// Turns one sample into its payload.
///
/// The arguments are those of [`process_imu_data`]. The only failure is a
/// sample without an orientation: an orientation that comes out of the
/// conversion always has a payload. The outcome is fixed by the arguments, so
/// that a call that fails has no bearing on the next.
pub fn process(sample: &OrientationSample, magnitude: Binary64, angles: &EulerDegrees) -> (outcome:
    Result<Vec<u8>, ConversionError>)
    ensures
        match outcome {
            Ok(payload) => payload_of(*sample, magnitude, *angles) == Ok::<
                Seq<u8>,
                ConversionError,
            >(payload@),
            Err(reason) => payload_of(*sample, magnitude, *angles) == Err::<
                Seq<u8>,
                ConversionError,
            >(reason) && reason == ConversionError::DegenerateOrientation,
        },
        !sample.all_finite() || sample.all_zero() ==> outcome is Err,
{
    match process_imu_data(sample, magnitude, angles) {
        Ok(orientation) => encode(&orientation),
        Err(reason) => Err(reason),
    }
}

/// The zero quaternion, and a quaternion with a component that is an infinity
/// or a NaN, has no orientation, whatever magnitude and angles come with it.
pub proof fn lemma_degenerate_sample_is_refused(
    sample: OrientationSample,
    magnitude: Binary64,
    angles: EulerDegrees,
)
    requires
        !sample.all_finite() || sample.all_zero(),
    ensures
        orientation_of(sample, magnitude, angles) == Err::<OrientationResult, ConversionError>(
            ConversionError::DegenerateOrientation,
        ),
{
}

/// Every orientation that a sample has is in range: its yaw is at least zero
/// and less than a whole turn.
pub proof fn lemma_orientation_is_valid(
    sample: OrientationSample,
    magnitude: Binary64,
    angles: EulerDegrees,
)
    ensures
        orientation_of(sample, magnitude, angles) matches Ok(orientation) ==> orientation.valid()
            && 0 <= orientation.yaw < 360,
{
}

/// A sample that is not degenerate, with angles that each have a whole
/// degree, has a payload, and a degenerate one has none. Neither depends on
/// any other sample: one that fails takes nothing from the next that succeeds.
pub proof fn lemma_samples_are_independent(
    failing: OrientationSample,
    failing_magnitude: Binary64,
    failing_angles: EulerDegrees,
    sample: OrientationSample,
    magnitude: Binary64,
    angles: EulerDegrees,
)
    requires
        degenerate(failing, failing_magnitude),
        !degenerate(sample, magnitude),
        normalized(angles) is Some,
    ensures
        payload_of(failing, failing_magnitude, failing_angles) == Err::<Seq<u8>, ConversionError>(
            ConversionError::DegenerateOrientation,
        ),
        payload_of(sample, magnitude, angles) == Ok::<Seq<u8>, ConversionError>(
            payload_text(normalized(angles).unwrap()),
        ),
{
}

} // verus!
