//! Varints of open enum values: the raw `i32` sign-extended to 64 bits, so ten
//! bytes when negative; decoding reads a 64-bit varint and keeps its low 32
//! bits.

use crate::buf::ReadBuf;
use crate::error::DecodeError;
use crate::varint::{decode_varint64, encode_varint64, encoded_len_varint64, varint64_rest, varint64_result, varint_bytes, lemma_decode64_of_encoding, lemma_decode64_span};
use crate::proto_value::Enum;
use vstd::prelude::*;

verus! {

/// The unsigned number whose varint stands for an enum value.
pub open spec fn wire_value<T>(value: Enum<T>) -> nat {
    ((value.0 as i64) as u64) as nat
}

/// The bytes that stand for the value.
pub open spec fn value_bytes<T>(value: Enum<T>) -> Seq<u8> {
    varint_bytes(wire_value(value))
}

/// What `decode_varint` returns on input `s`.
pub open spec fn decoded<T>(s: Seq<u8>) -> Result<Enum<T>, DecodeError> {
    match varint64_result(s) {
        Ok(v) => Ok(Enum(v as i32, core::marker::PhantomData)),
        Err(e) => Err(e),
    }
}

/// What `decode_varint` leaves unread of input `s`.
pub open spec fn rest(s: Seq<u8>) -> Seq<u8> {
    varint64_rest(s)
}

/// The varints of `values`, one after the other.
pub open spec fn packed_body<T>(values: Seq<Enum<T>>) -> Seq<u8>
    decreases values.len(),
{
    if values.len() == 0 {
        Seq::<u8>::empty()
    } else {
        packed_body(values.drop_last()) + varint_bytes(wire_value(values.last()))
    }
}

/// Appends the varint encoding of an enum value to `buf`; returns its length.
pub fn encode_varint<T>(value: Enum<T>, buf: &mut Vec<u8>) -> (len: usize)
    ensures
        final(buf)@ == old(buf)@ + varint_bytes(wire_value(value)),
        len == varint_bytes(wire_value(value)).len(),
{
    encode_varint64((value.get() as i64) as u64, buf)
}

/// Length of the varint encoding of an enum value.
pub fn encoded_len_varint<T>(value: Enum<T>) -> (n: usize)
    ensures
        n == varint_bytes(wire_value(value)).len(),
        1 <= n <= 10,
{
    encoded_len_varint64((value.get() as i64) as u64)
}

/// Decodes an enum value from the front of `buf`.
pub fn decode_varint<T>(buf: &mut ReadBuf) -> (r: Result<Enum<T>, DecodeError>)
    ensures
        r == decoded::<T>(old(buf)@),
        final(buf)@ == rest(old(buf)@),
{
    match decode_varint64(buf) {
        Ok(v) => Ok(Enum::new(v as i32)),
        Err(e) => Err(e),
    }
}

/// Decoding the varint of a value, whatever follows it, gives the value back
/// and leaves exactly what follows.
pub proof fn lemma_roundtrip<T>(value: Enum<T>, tail: Seq<u8>)
    ensures
        decoded::<T>(varint_bytes(wire_value(value)) + tail) == Ok::<Enum<T>, DecodeError>(value),
        rest(varint_bytes(wire_value(value)) + tail) == tail,
{
    
    lemma_decode64_of_encoding(((value.0 as i64) as u64), tail);
    let b = varint_bytes(wire_value(value));
    assert((b + tail).skip(b.len() as int) =~= tail);
    let x = value.0;
    assert(((x as i64) as u64) as i32 == x) by (bit_vector);
}

/// A successful decode consumes at least one byte.
pub proof fn lemma_progress<T>(s: Seq<u8>)
    ensures
        rest(s).len() <= s.len(),
        decoded::<T>(s) is Ok ==> rest(s).len() < s.len(),
{
    lemma_decode64_span(s);
}

/// Appends the length of the varints of `values`, then the varints: the body
/// of a packed repeated field. Room for the length is kept while the varints
/// are written; the length is filled in afterwards and the varints moved up
/// against it.
pub fn encode_packed_fast<T>(values: &[Enum<T>], buf: &mut Vec<u8>)
    requires
        packed_body(values@).len() <= usize::MAX,
    ensures
        final(buf)@ == old(buf)@ + varint_bytes(packed_body(values@).len()) + packed_body(values@),
{
    let start = crate::varint::usize::reserve_length_room(buf);
    let ghost with_room = buf@;
    let mut length: usize = 0;
    let mut i: usize = 0;
    while i < values.len()
        invariant
            i <= values@.len(),
            buf@ == with_room + packed_body(values@.take(i as int)),
            length == packed_body(values@.take(i as int)).len(),
            with_room.len() == start + crate::varint::usize::LENGTH_ROOM,
            with_room.take(start as int) == old(buf)@,
            packed_body(values@).len() <= usize::MAX,
        decreases values@.len() - i,
    {
        proof {
            assert(values@.take(i + 1int).drop_last() =~= values@.take(i as int));
            lemma_packed_body_prefix(values@, (i + 1) as nat);
        }
        length = length + encode_varint(values[i], buf);
        assert(buf@ =~= with_room + packed_body(values@.take(i + 1int)));
        i += 1;
    }
    assert(values@.take(values@.len() as int) =~= values@);
    proof {
        assert(buf@.take(start as int) =~= old(buf)@);
        assert(buf@.skip(start + crate::varint::usize::LENGTH_ROOM) =~= packed_body(values@));
    }
    crate::varint::usize::close_length_room(buf, start, length);
}

/// Packed bodies of prefixes are no longer than the whole body.
pub proof fn lemma_packed_body_prefix<T>(values: Seq<Enum<T>>, n: nat)
    requires
        n <= values.len(),
    ensures
        packed_body(values.take(n as int)).len() <= packed_body(values).len(),
    decreases values.len() - n,
{
    if n < values.len() {
        lemma_packed_body_prefix(values, n + 1);
        assert(values.take(n + 1int).drop_last() =~= values.take(n as int));
    } else {
        assert(values.take(n as int) =~= values);
    }
}

} // verus!
