//! Error taxonomy for the codec layers.

use vstd::prelude::*;

verus! {

/// A reason why a byte buffer could not be decoded.
///
/// The structural kinds (`HeaderTooShort`, `HeaderIsBroken`, `LengthMismatch`,
/// `TotalSizeNotMatch`, `OffsetsNotMatch`) are raised when the byte layout is
/// internally inconsistent. The semantic kinds (`TextDecodeError`,
/// `TextFormatError`) are raised when structurally valid input does not carry
/// valid text: `TextDecodeError` when a decoded field is not UTF-8, and
/// `TextFormatError` when a textual (JSON) representation of a view is
/// malformed.
#[derive(Debug, Clone, Copy, PartialEq, Eq, Structural)]
pub enum CodecError {
    /// The buffer is shorter than the 4-byte length prefix it must begin with.
    HeaderTooShort,
    /// The buffer is shorter than the fixed-size header of the type decoded.
    HeaderIsBroken,
    /// The declared length of a length-prefixed byte vector exceeds the bytes
    /// actually present.
    LengthMismatch,
    /// The declared item count implies a total size that disagrees with the
    /// actual buffer length.
    TotalSizeNotMatch,
    /// A field or item offset is out of order or out of bounds.
    OffsetsNotMatch,
    /// A structurally valid field does not hold valid UTF-8 text.
    TextDecodeError,
    /// A textual representation of a view is malformed.
    TextFormatError,
}

} // verus!
