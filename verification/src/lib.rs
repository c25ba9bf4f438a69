//! Orientation of a sensor frame as whole-degree yaw, pitch and roll.
//!
//! An inertial sample carries a quaternion. This crate decides whether the
//! quaternion denotes a rotation, rounds the angles of that rotation to whole
//! degrees, moves the yaw onto the full circle, and writes the three angles
//! as one line of text, which it can also read back.
//!
//! Real numbers enter this crate as IEEE 754 binary64 bit patterns, so that
//! every decision taken on them is a statement about integers. The square
//! root, the division and the trigonometry that lead from a quaternion to its
//! angles are left to the caller, who hands in their results.

pub mod angles;
pub mod binary64;
pub mod error;
pub mod payload;
pub mod processor;
pub mod rounding;
pub mod sample;

pub use crate::angles::{EulerDegrees, OrientationResult};
pub use crate::binary64::Binary64;
pub use crate::error::ConversionError;
pub use crate::processor::{process, process_imu_data};
pub use crate::sample::OrientationSample;
