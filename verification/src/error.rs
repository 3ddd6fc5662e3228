//! The ways in which a frame can fail to decode.

use vstd::prelude::*;

verus! {

/// Why a frame was refused.
#[derive(Debug, Clone, Copy, PartialEq, Eq, Structural)]
pub enum DecodeError {
    /// A varint runs past the end of the frame.
    TruncatedVarint,
    /// The frame is empty, or a block asks for bytes past the end of the
    /// frame or of the haystack.
    FrameTooShort,
    /// The frame refers to a cached record that does not exist.
    HaystackIndexOutOfRange,
}

} // verus!
