//! Errors of the decoders.

use crate::wire_type::WireType;
use vstd::prelude::*;

verus! {

/// Why a decoder refused its input.
#[derive(Debug, Clone, Copy, PartialEq, Eq, Structural)]
pub enum DecodeError {
    /// A varint was malformed: unterminated, too long, or overflowing.
    InvalidVarint,
    /// Nested messages or groups went deeper than the recursion limit.
    RecursionLimitReached,
    /// The low three bits of a tag name no wire type.
    InvalidWireType { value: u32 },
    /// A field arrived with another wire type than its type calls for.
    UnexpectedWireType { actual: WireType, expected: WireType },
    /// A tag carried the field number zero.
    InvalidFieldNumber,
    /// A length prefix asked for more bytes than remain.
    BufferUnderflow,
    /// Decoding inside a length-delimited region read past its end.
    DelimitedLengthExceeded,
    /// An end-group tag did not match the group it closes, or came alone.
    UnexpectedEndGroupTag,
    /// A string field held bytes that are not UTF-8.
    InvalidString,
}

} // verus!
