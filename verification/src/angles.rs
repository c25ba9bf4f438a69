//! From the three angles of a rotation to whole degrees on the wire.
//!
//! The decomposition of a rotation yields three angles in a fixed order. The
//! first is reported as pitch, the second as roll and the third as yaw. Each is
//! rounded to a whole degree, and the yaw alone is then moved onto the full
//! circle.

use vstd::prelude::*;
use crate::binary64::Binary64;

verus! {

/// The largest magnitude, in degrees, that a rounded angle may have.
pub const HALF_TURN: i16 = 180;

/// One full circle, in degrees.
pub const FULL_TURN: i16 = 360;

/// The angles of one rotation in degrees, not yet rounded, in the order in
/// which the decomposition yields them.
#[derive(Clone, Copy, Debug, PartialEq, Eq, Structural)]
pub struct EulerDegrees {
    pub first: Binary64,
    pub second: Binary64,
    pub third: Binary64,
}

impl EulerDegrees {
    /// The angles whose degrees have the given bit patterns.
    pub fn from_bits(first: u64, second: u64, third: u64) -> (angles: EulerDegrees)
        ensures
            angles.first.bits == first,
            angles.second.bits == second,
            angles.third.bits == third,
    {
        EulerDegrees {
            first: Binary64::from_bits(first),
            second: Binary64::from_bits(second),
            third: Binary64::from_bits(third),
        }
    }
}

/// An orientation in whole degrees.
#[derive(Clone, Copy, Debug, PartialEq, Eq, Structural)]
pub struct OrientationResult {
    pub yaw: i16,
    pub pitch: i16,
    pub roll: i16,
}

impl OrientationResult {
    /// The yaw lies on the full circle and is never a whole turn; pitch and
    /// roll lie within half a turn of zero.
    pub open spec fn valid(self) -> bool {
        &&& 0 <= self.yaw < FULL_TURN
        &&& -HALF_TURN <= self.pitch <= HALF_TURN
        &&& -HALF_TURN <= self.roll <= HALF_TURN
    }

    /// Whether the three fields are in range.
    pub fn is_valid(&self) -> (valid: bool)
        ensures
            valid == self.valid(),
    {
        0 <= self.yaw && self.yaw < FULL_TURN && -HALF_TURN <= self.pitch && self.pitch
            <= HALF_TURN && -HALF_TURN <= self.roll && self.roll <= HALF_TURN
    }
}

/// The whole degree nearest to an angle, where the angle is finite and that
/// degree lies within half a turn of zero.
pub open spec fn whole_degrees(angle: Binary64) -> Option<int> {
    if angle.finite() && -HALF_TURN <= angle.rounded() <= HALF_TURN {
        Some(angle.rounded())
    } else {
        None
    }
}

/// A signed heading on the full circle: a negative one gains a whole turn.
pub open spec fn wrapped(degrees: int) -> int {
    if degrees < 0 {
        degrees + FULL_TURN
    } else {
        degrees
    }
}

/// The orientation that the three angles denote, where each of them has a
/// whole degree.
pub open spec fn normalized(angles: EulerDegrees) -> Option<OrientationResult> {
    match (whole_degrees(angles.first), whole_degrees(angles.second), whole_degrees(angles.third)) {
        (Some(pitch), Some(roll), Some(yaw)) => Some(
            OrientationResult { yaw: wrapped(yaw) as i16, pitch: pitch as i16, roll: roll as i16 },
        ),
        _ => None,
    }
}

/// Rounds an angle to the nearest whole degree, a half going away from zero.
/// There is no such degree for an angle that is not finite or that lies more
/// than half a turn from zero.
pub fn round_degrees(angle: Binary64) -> (degrees: Option<i16>)
    ensures
        match degrees {
            Some(d) => whole_degrees(angle) == Some(d as int),
            None => whole_degrees(angle) is None,
        },
{
    match angle.nearest_integer() {
        Some(nearest) => {
            if -(HALF_TURN as i64) <= nearest && nearest <= HALF_TURN as i64 {
                Some(nearest as i16)
            } else {
                None
            }
        },
        None => None,
    }
}

/// Moves a signed heading onto the full circle.
pub fn convert_to_360(yaw_angle: i16) -> (heading: i16)
    ensures
        heading == wrapped(yaw_angle as int),
        -HALF_TURN <= yaw_angle <= HALF_TURN ==> 0 <= heading < FULL_TURN,
{
    if yaw_angle < 0 {
        yaw_angle + FULL_TURN
    } else {
        yaw_angle
    }
}

/// Rounds the three angles and names them: the first is the pitch, the second
/// the roll, the third the yaw, which is moved onto the full circle.
pub fn normalize_angles(angles: &EulerDegrees) -> (orientation: Option<OrientationResult>)
    ensures
        orientation == normalized(*angles),
        orientation matches Some(o) ==> o.valid(),
{
    let pitch: i16 = match round_degrees(angles.first) {
        Some(d) => d,
        None => {
            return None;
        },
    };
    let roll: i16 = match round_degrees(angles.second) {
        Some(d) => d,
        None => {
            return None;
        },
    };
    let yaw: i16 = match round_degrees(angles.third) {
        Some(d) => d,
        None => {
            return None;
        },
    };
    Some(OrientationResult { yaw: convert_to_360(yaw), pitch, roll })
}

/// Whatever angles are handed in, an orientation that comes out has its yaw on
/// the full circle, short of a whole turn, and pitch and roll within half a
/// turn of zero.
pub proof fn lemma_normalized_is_valid(angles: EulerDegrees)
    ensures
        normalized(angles) matches Some(o) ==> o.valid(),
{
}

} // verus!
