//! The interface that a protobuf message type offers to the field encoders.

use crate::buf::ReadBuf;
use crate::encoding::{is_suffix, DecodeContext};
use crate::error::DecodeError;
use crate::wire_type::WireType;
use vstd::prelude::*;

verus! {

/// A protobuf message: it writes its fields out and takes fields in one by
/// one. Message types implement it; the encoders of `message` and `group`
/// fields are written against it.
pub trait Message: Sized {
    /// The encoded fields of the message, without any key or length in front.
    spec fn body(&self) -> Seq<u8>;

    /// Appends the encoded fields to `buf`.
    fn encode_raw(&self, buf: &mut Vec<u8>)
        ensures
            final(buf)@ == old(buf)@ + self.body(),
    ;

    /// The length of the encoded fields.
    fn encoded_len(&self) -> (n: usize)
        requires
            self.body().len() <= usize::MAX,
        ensures
            n == self.body().len(),
    ;

    /// What decoding the payload of field `number` with wire type
    /// `wire_type` from `s` at nesting depth `depth` returns, and what it
    /// leaves unread; this depends on the bytes, not on the message.
    spec fn field_outcome(number: u32, wire_type: WireType, s: Seq<u8>, depth: nat) -> (Result<
        (),
        DecodeError,
    >, Seq<u8>);

    /// The message after decoding the payload of field `number` with wire
    /// type `wire_type` from `s` into it at nesting depth `depth`.
    spec fn merged(self, number: u32, wire_type: WireType, s: Seq<u8>, depth: nat) -> Self;

    /// Decodes the payload of the field `number`, whose key has just been
    /// read, into the message. It only reads from the front of `buf`.
    fn merge_field(
        &mut self,
        number: u32,
        wire_type: WireType,
        buf: &mut ReadBuf,
        ctx: DecodeContext,
    ) -> (r: Result<(), DecodeError>)
        ensures
            (r, final(buf)@) == Self::field_outcome(number, wire_type, old(buf)@, ctx.depth()),
            *final(self) == old(self).merged(number, wire_type, old(buf)@, ctx.depth()),
            is_suffix(final(buf)@, old(buf)@),
    ;
}

} // verus!
