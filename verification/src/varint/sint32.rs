//! Varints of protobuf `sint32` values, ZigZag-mapped first.

use crate::buf::ReadBuf;
use crate::error::DecodeError;
use crate::varint::{decode_varint32, encode_varint32, encoded_len_varint32, varint32_rest, varint32_result, varint_bytes, lemma_decode32_of_encoding, lemma_decode32_span, decode_zigzag32, encode_zigzag32, unzigzag, zigzag};
use vstd::prelude::*;

verus! {

/// The unsigned number whose varint stands for an `i32` by its ZigZag image.
pub open spec fn wire_value(value: i32) -> nat {
    zigzag(value as int) as nat
}

/// The bytes that stand for the value.
pub open spec fn value_bytes(value: i32) -> Seq<u8> {
    varint_bytes(wire_value(value))
}

/// What `decode_varint` returns on input `s`.
pub open spec fn decoded(s: Seq<u8>) -> Result<i32, DecodeError> {
    match varint32_result(s) {
        Ok(v) => Ok(unzigzag(v as int) as i32),
        Err(e) => Err(e),
    }
}

/// What `decode_varint` leaves unread of input `s`.
pub open spec fn rest(s: Seq<u8>) -> Seq<u8> {
    varint32_rest(s)
}

/// The varints of `values`, one after the other.
pub open spec fn packed_body(values: Seq<i32>) -> Seq<u8>
    decreases values.len(),
{
    if values.len() == 0 {
        Seq::<u8>::empty()
    } else {
        packed_body(values.drop_last()) + varint_bytes(wire_value(values.last()))
    }
}

/// Appends the varint encoding of an `i32` by its ZigZag image to `buf`; returns its length.
pub fn encode_varint(value: i32, buf: &mut Vec<u8>) -> (len: usize)
    ensures
        final(buf)@ == old(buf)@ + varint_bytes(wire_value(value)),
        len == varint_bytes(wire_value(value)).len(),
{
    encode_varint32(encode_zigzag32(value), buf)
}

/// Length of the varint encoding of an `i32` by its ZigZag image.
pub fn encoded_len_varint(value: i32) -> (n: usize)
    ensures
        n == varint_bytes(wire_value(value)).len(),
        1 <= n <= 5,
{
    encoded_len_varint32(encode_zigzag32(value))
}

/// Decodes an `i32` by its ZigZag image from the front of `buf`.
pub fn decode_varint(buf: &mut ReadBuf) -> (r: Result<i32, DecodeError>)
    ensures
        r == decoded(old(buf)@),
        final(buf)@ == rest(old(buf)@),
{
    match decode_varint32(buf) {
        Ok(v) => Ok(decode_zigzag32(v)),
        Err(e) => Err(e),
    }
}

/// Decoding the varint of a value, whatever follows it, gives the value back
/// and leaves exactly what follows.
pub proof fn lemma_roundtrip(value: i32, tail: Seq<u8>)
    ensures
        decoded(varint_bytes(wire_value(value)) + tail) == Ok::<i32, DecodeError>(value),
        rest(varint_bytes(wire_value(value)) + tail) == tail,
{
    let z = zigzag(value as int);
    assert(0 <= z <= 0xffff_ffff);
    assert((z as u32) as nat == wire_value(value));
    crate::varint::lemma_unzigzag_zigzag(value as int);
    lemma_decode32_of_encoding(z as u32, tail);
    let b = varint_bytes(wire_value(value));
    assert((b + tail).skip(b.len() as int) =~= tail);
}

/// A successful decode consumes at least one byte.
pub proof fn lemma_progress(s: Seq<u8>)
    ensures
        rest(s).len() <= s.len(),
        decoded(s) is Ok ==> rest(s).len() < s.len(),
{
    lemma_decode32_span(s);
}

/// Appends the length of the varints of `values`, then the varints: the body
/// of a packed repeated field. Room for the length is kept while the varints
/// are written; the length is filled in afterwards and the varints moved up
/// against it.
pub fn encode_packed_fast(values: &[i32], buf: &mut Vec<u8>)
    requires
        packed_body(values@).len() <= usize::MAX,
    ensures
        final(buf)@ == old(buf)@ + varint_bytes(packed_body(values@).len()) + packed_body(values@),
{
    let start = crate::varint::usize::reserve_length_room(buf);
    let ghost with_room = buf@;
    let mut length: usize = 0;
    let mut i: usize = 0;
    while i < values.len()
        invariant
            i <= values@.len(),
            buf@ == with_room + packed_body(values@.take(i as int)),
            length == packed_body(values@.take(i as int)).len(),
            with_room.len() == start + crate::varint::usize::LENGTH_ROOM,
            with_room.take(start as int) == old(buf)@,
            packed_body(values@).len() <= usize::MAX,
        decreases values@.len() - i,
    {
        proof {
            assert(values@.take(i + 1int).drop_last() =~= values@.take(i as int));
            lemma_packed_body_prefix(values@, (i + 1) as nat);
        }
        length = length + encode_varint(values[i], buf);
        assert(buf@ =~= with_room + packed_body(values@.take(i + 1int)));
        i += 1;
    }
    assert(values@.take(values@.len() as int) =~= values@);
    proof {
        assert(buf@.take(start as int) =~= old(buf)@);
        assert(buf@.skip(start + crate::varint::usize::LENGTH_ROOM) =~= packed_body(values@));
    }
    crate::varint::usize::close_length_room(buf, start, length);
}

/// Packed bodies of prefixes are no longer than the whole body.
pub proof fn lemma_packed_body_prefix(values: Seq<i32>, n: nat)
    requires
        n <= values.len(),
    ensures
        packed_body(values.take(n as int)).len() <= packed_body(values).len(),
    decreases values.len() - n,
{
    if n < values.len() {
        lemma_packed_body_prefix(values, n + 1);
        assert(values.take(n + 1int).drop_last() =~= values.take(n as int));
    } else {
        assert(values.take(n as int) =~= values);
    }
}

} // verus!
