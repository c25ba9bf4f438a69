//! Why a sample yields no payload.

use vstd::prelude::*;

verus! {

/// The two ways in which the conversion of one sample ends without a payload.
/// Either one concerns that sample alone.
#[derive(Clone, Copy, Debug, PartialEq, Eq, Structural)]
pub enum ConversionError {
    /// The quaternion of the sample denotes no rotation: its magnitude is zero
    /// or not finite, so that it cannot be brought to unit length.
    DegenerateOrientation,
    /// The orientation cannot be written as a payload.
    EncodingFailure,
}

} // verus!
