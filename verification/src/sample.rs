//! The orientation quaternion of one inertial sample, and the test that
//! decides whether it denotes a rotation.

use vstd::prelude::*;
use crate::binary64::Binary64;
use crate::error::ConversionError;

verus! {

/// The quaternion `w + xi + yj + zk` that a sample carries. It need not be of
/// unit length.
#[derive(Clone, Copy, Debug, PartialEq, Eq, Structural)]
pub struct OrientationSample {
    pub w: Binary64,
    pub x: Binary64,
    pub y: Binary64,
    pub z: Binary64,
}

impl OrientationSample {
    /// No component is an infinity or a NaN.
    pub open spec fn all_finite(self) -> bool {
        self.w.finite() && self.x.finite() && self.y.finite() && self.z.finite()
    }

    /// Every component is zero.
    pub open spec fn all_zero(self) -> bool {
        self.w.zero() && self.x.zero() && self.y.zero() && self.z.zero()
    }

    /// The sample whose components have the given bit patterns.
    pub fn from_bits(w: u64, x: u64, y: u64, z: u64) -> (sample: OrientationSample)
        ensures
            sample.w.bits == w,
            sample.x.bits == x,
            sample.y.bits == y,
            sample.z.bits == z,
    {
        OrientationSample {
            w: Binary64::from_bits(w),
            x: Binary64::from_bits(x),
            y: Binary64::from_bits(y),
            z: Binary64::from_bits(z),
        }
    }

    /// Whether no component is an infinity or a NaN.
    pub fn has_finite_components(&self) -> (finite: bool)
        ensures
            finite == self.all_finite(),
    {
        self.w.is_finite() && self.x.is_finite() && self.y.is_finite() && self.z.is_finite()
    }

    /// Whether every component is zero.
    pub fn is_zero(&self) -> (zero: bool)
        ensures
            zero == self.all_zero(),
    {
        self.w.is_zero() && self.x.is_zero() && self.y.is_zero() && self.z.is_zero()
    }
}

/// A sample with the given magnitude cannot be brought to unit length: a
/// component is not finite, all components are zero, or the magnitude itself
/// is zero or not finite. The last two catch the samples whose squares leave
/// the range of binary64 although each component is an ordinary number.
pub open spec fn degenerate(sample: OrientationSample, magnitude: Binary64) -> bool {
    ||| !sample.all_finite()
    ||| sample.all_zero()
    ||| !magnitude.finite()
    ||| magnitude.zero()
}

/// Accepts the sample if it can be divided by `magnitude`, the square root of
/// the sum of its squared components as the caller computed it.
pub fn validate(sample: &OrientationSample, magnitude: Binary64) -> (outcome: Result<
    (),
    ConversionError,
>)
    ensures
        degenerate(*sample, magnitude) <==> outcome == Err::<(), ConversionError>(
            ConversionError::DegenerateOrientation,
        ),
        !degenerate(*sample, magnitude) <==> outcome is Ok,
{
    if !sample.has_finite_components() || sample.is_zero() || !magnitude.is_finite()
        || magnitude.is_zero() {
        Err(ConversionError::DegenerateOrientation)
    } else {
        Ok(())
    }
}

} // verus!
