//! Error kinds of the codec.
use vstd::prelude::*;

verus! {

/// Every distinguishable failure of an encode or decode call.
#[derive(Debug, Clone, Copy, PartialEq, Eq, Structural)]
pub enum ProtobufError {
    /// The input ended before a value or a frame was complete.
    Truncated,
    /// A varint did not end within ten bytes.
    MalformedVarint,
    /// A tag with field number zero, an unknown wire type, or a value past 32 bits.
    InvalidTag,
    /// A declared length exceeds what the input still holds, or a message is too
    /// large for its length prefix.
    MessageTooLarge,
    /// The fixed-capacity output cannot take the bytes.
    BufferTooSmall,
    /// Nested messages went deeper than the configured limit.
    RecursionLimitExceeded,
    /// A required field is absent after decoding.
    RequiredFieldMissing,
    /// An end-group marker without a matching start, or a group left open.
    UnmatchedGroup,
}

} // verus!
