//! Varints of `bool` values: a single byte `0` or `1`.

use crate::buf::ReadBuf;
use crate::error::DecodeError;
use crate::varint::varint_bytes;
use vstd::prelude::*;

verus! {

/// The number whose varint stands for a `bool`.
pub open spec fn wire_value(value: bool) -> nat {
    if value {
        1
    } else {
        0
    }
}

/// The bytes that stand for the value.
pub open spec fn value_bytes(value: bool) -> Seq<u8> {
    varint_bytes(wire_value(value))
}

/// What `decode_varint` returns on input `s`: only the bytes `0` and `1` are
/// accepted.
pub open spec fn decoded(s: Seq<u8>) -> Result<bool, DecodeError> {
    if s.len() == 0 || s[0] > 1 {
        Err(DecodeError::InvalidVarint)
    } else {
        Ok(s[0] != 0)
    }
}

/// What `decode_varint` leaves unread of input `s`.
pub open spec fn rest(s: Seq<u8>) -> Seq<u8> {
    if s.len() == 0 {
        s
    } else {
        s.drop_first()
    }
}

/// The bytes of `values`, one after the other.
pub open spec fn packed_body(values: Seq<bool>) -> Seq<u8>
    decreases values.len(),
{
    if values.len() == 0 {
        Seq::<u8>::empty()
    } else {
        packed_body(values.drop_last()) + varint_bytes(wire_value(values.last()))
    }
}

/// Appends the single byte of a `bool`; returns `1`.
pub fn encode_varint(value: bool, buf: &mut Vec<u8>) -> (len: usize)
    ensures
        final(buf)@ == old(buf)@ + varint_bytes(wire_value(value)),
        len == varint_bytes(wire_value(value)).len(),
{
    let byte: u8 = if value {
        1
    } else {
        0
    };
    buf.push(byte);
    1
}

/// Length of the encoding of a `bool`: always one byte.
pub fn encoded_len_varint(value: bool) -> (n: usize)
    ensures
        n == varint_bytes(wire_value(value)).len(),
        n == 1,
{
    1
}

/// Decodes a `bool` from the front of `buf`.
pub fn decode_varint(buf: &mut ReadBuf) -> (r: Result<bool, DecodeError>)
    ensures
        r == decoded(old(buf)@),
        final(buf)@ == rest(old(buf)@),
{
    if buf.remaining() == 0 {
        return Err(DecodeError::InvalidVarint);
    }
    let byte = buf.get_u8();
    if byte <= 1 {
        Ok(byte != 0)
    } else {
        Err(DecodeError::InvalidVarint)
    }
}

/// Decoding the byte of a `bool`, whatever follows it, gives the value back
/// and leaves exactly what follows.
pub proof fn lemma_roundtrip(value: bool, tail: Seq<u8>)
    ensures
        decoded(varint_bytes(wire_value(value)) + tail) == Ok::<bool, DecodeError>(value),
        rest(varint_bytes(wire_value(value)) + tail) == tail,
{
    let b = varint_bytes(wire_value(value));
    assert((b + tail).drop_first() =~= tail);
}

/// A successful decode consumes one byte.
pub proof fn lemma_progress(s: Seq<u8>)
    ensures
        rest(s).len() <= s.len(),
        decoded(s) is Ok ==> rest(s).len() < s.len(),
{
}

/// Appends the length of the bytes of `values`, then the bytes: the body of a
/// packed repeated field. Room for the length is kept while the bytes are
/// written; the length is filled in afterwards and the bytes moved up
/// against it.
pub fn encode_packed_fast(values: &[bool], buf: &mut Vec<u8>)
    requires
        packed_body(values@).len() <= usize::MAX,
    ensures
        final(buf)@ == old(buf)@ + varint_bytes(packed_body(values@).len()) + packed_body(values@),
{
    let start = crate::varint::usize::reserve_length_room(buf);
    let ghost with_room = buf@;
    let mut length: usize = 0;
    let mut i: usize = 0;
    while i < values.len()
        invariant
            i <= values@.len(),
            buf@ == with_room + packed_body(values@.take(i as int)),
            length == packed_body(values@.take(i as int)).len(),
            with_room.len() == start + crate::varint::usize::LENGTH_ROOM,
            with_room.take(start as int) == old(buf)@,
            packed_body(values@).len() <= usize::MAX,
        decreases values@.len() - i,
    {
        proof {
            assert(values@.take(i + 1int).drop_last() =~= values@.take(i as int));
            lemma_packed_body_prefix(values@, (i + 1) as nat);
        }
        length = length + encode_varint(values[i], buf);
        assert(buf@ =~= with_room + packed_body(values@.take(i + 1int)));
        i += 1;
    }
    assert(values@.take(values@.len() as int) =~= values@);
    proof {
        assert(buf@.take(start as int) =~= old(buf)@);
        assert(buf@.skip(start + crate::varint::usize::LENGTH_ROOM) =~= packed_body(values@));
    }
    crate::varint::usize::close_length_room(buf, start, length);
}

/// Packed bodies of prefixes are no longer than the whole body.
pub proof fn lemma_packed_body_prefix(values: Seq<bool>, n: nat)
    requires
        n <= values.len(),
    ensures
        packed_body(values.take(n as int)).len() <= packed_body(values).len(),
    decreases values.len() - n,
{
    if n < values.len() {
        lemma_packed_body_prefix(values, n + 1);
        assert(values.take(n + 1int).drop_last() =~= values.take(n as int));
    } else {
        assert(values.take(n as int) =~= values);
    }
}

} // verus!
