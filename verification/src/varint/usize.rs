//! Varints of `usize` values (lengths), as 64-bit varints.

use crate::buf::ReadBuf;
use crate::error::DecodeError;
use crate::varint::{decode_varint64, encode_varint64, encoded_len_varint64, varint64_rest, varint64_result, varint_bytes, lemma_decode64_of_encoding, lemma_decode64_span};
use vstd::prelude::*;

verus! {

/// The unsigned number whose varint stands for a `usize`.
pub open spec fn wire_value(value: usize) -> nat {
    value as nat
}

/// The bytes that stand for the value.
pub open spec fn value_bytes(value: usize) -> Seq<u8> {
    varint_bytes(wire_value(value))
}

/// What `decode_varint` returns on input `s`.
pub open spec fn decoded(s: Seq<u8>) -> Result<usize, DecodeError> {
    match varint64_result(s) {
        Ok(v) => Ok(v as usize),
        Err(e) => Err(e),
    }
}

/// What `decode_varint` leaves unread of input `s`.
pub open spec fn rest(s: Seq<u8>) -> Seq<u8> {
    varint64_rest(s)
}

/// The varints of `values`, one after the other.
pub open spec fn packed_body(values: Seq<usize>) -> Seq<u8>
    decreases values.len(),
{
    if values.len() == 0 {
        Seq::<u8>::empty()
    } else {
        packed_body(values.drop_last()) + varint_bytes(wire_value(values.last()))
    }
}

/// Appends the varint encoding of a `usize` to `buf`; returns its length.
pub fn encode_varint(value: usize, buf: &mut Vec<u8>) -> (len: usize)
    ensures
        final(buf)@ == old(buf)@ + varint_bytes(wire_value(value)),
        len == varint_bytes(wire_value(value)).len(),
{
    encode_varint64(value as u64, buf)
}

/// Room kept in front of a body while it is written, for its length: the
/// longest varint.
pub const LENGTH_ROOM: usize = 10;

/// Keeps room for a length at the end of `buf`; returns where the room
/// starts.
pub fn reserve_length_room(buf: &mut Vec<u8>) -> (start: usize)
    ensures
        start == old(buf)@.len(),
        final(buf)@.len() == old(buf)@.len() + LENGTH_ROOM,
        final(buf)@.take(start as int) == old(buf)@,
{
    let start = buf.len();
    let mut k: usize = 0;
    while k < LENGTH_ROOM
        invariant
            k <= LENGTH_ROOM,
            buf@.len() == old(buf)@.len() + k,
            buf@.take(start as int) == old(buf)@,
            start == old(buf)@.len(),
        decreases LENGTH_ROOM - k,
    {
        buf.push(0u8);
        assert(buf@.take(start as int) =~= old(buf)@);
        k += 1;
    }
    start
}

/// Writes `length`, the length of the body that follows the room kept at
/// `start`, into that room, then moves the body up against it.
pub fn close_length_room(buf: &mut Vec<u8>, start: usize, length: usize)
    requires
        start + LENGTH_ROOM + length == old(buf)@.len(),
    ensures
        final(buf)@ == old(buf)@.take(start as int) + varint_bytes(length as nat) + old(buf)@.skip(
            start + LENGTH_ROOM,
        ),
{
    let ghost head = old(buf)@.take(start as int);
    let ghost body = old(buf)@.skip(start + LENGTH_ROOM);
    let total = buf.len();
    let body_start = start + LENGTH_ROOM;
    let mut prefix: Vec<u8> = Vec::new();
    let n = encode_varint(length, &mut prefix);
    assert(prefix@ =~= varint_bytes(length as nat));
    proof {
        crate::varint::lemma_varint_len_u64(length as u64);
    }
    // Write the length into the room.
    let mut i: usize = 0;
    while i < n
        invariant
            i <= n,
            n == prefix@.len(),
            n <= LENGTH_ROOM,
            start + LENGTH_ROOM == body_start,
            buf@.len() == total,
            total == body_start + length,
            body.len() == length,
            buf@.take(start as int) == head,
            forall|j: int| 0 <= j < i ==> buf@[start + j] == prefix@[j],
            forall|j: int| 0 <= j < length ==> buf@[body_start + j] == body[j],
        decreases n - i,
    {
        buf.set(start + i, prefix[i]);
        assert(buf@.take(start as int) =~= head);
        i += 1;
    }
    // Move the body up against the length.
    let dst = start + n;
    let mut j: usize = 0;
    while j < length
        invariant
            j <= length,
            n <= LENGTH_ROOM,
            n == prefix@.len(),
            dst == start + n,
            start + LENGTH_ROOM == body_start,
            buf@.len() == total,
            total == body_start + length,
            body.len() == length,
            buf@.take(start as int) == head,
            forall|q: int| 0 <= q < n ==> buf@[start + q] == prefix@[q],
            forall|q: int| 0 <= q < j ==> buf@[dst + q] == body[q],
            forall|q: int| j <= q < length ==> buf@[body_start + q] == body[q],
        decreases length - j,
    {
        let b = buf[body_start + j];
        buf.set(dst + j, b);
        assert(buf@.take(start as int) =~= head);
        j += 1;
    }
    buf.truncate(dst + length);
    assert(buf@ =~= head + prefix@ + body);
}

/// Length of the varint encoding of a `usize`.
pub fn encoded_len_varint(value: usize) -> (n: usize)
    ensures
        n == varint_bytes(wire_value(value)).len(),
        1 <= n <= 10,
{
    encoded_len_varint64(value as u64)
}

/// Decodes a `usize` from the front of `buf`.
pub fn decode_varint(buf: &mut ReadBuf) -> (r: Result<usize, DecodeError>)
    ensures
        r == decoded(old(buf)@),
        final(buf)@ == rest(old(buf)@),
{
    match decode_varint64(buf) {
        Ok(v) => Ok(v as usize),
        Err(e) => Err(e),
    }
}

/// Decoding the varint of a value, whatever follows it, gives the value back
/// and leaves exactly what follows.
pub proof fn lemma_roundtrip(value: usize, tail: Seq<u8>)
    ensures
        decoded(varint_bytes(wire_value(value)) + tail) == Ok::<usize, DecodeError>(value),
        rest(varint_bytes(wire_value(value)) + tail) == tail,
{
    
    lemma_decode64_of_encoding((value as u64), tail);
    let b = varint_bytes(wire_value(value));
    assert((b + tail).skip(b.len() as int) =~= tail);
    
}

/// A successful decode consumes at least one byte.
pub proof fn lemma_progress(s: Seq<u8>)
    ensures
        rest(s).len() <= s.len(),
        decoded(s) is Ok ==> rest(s).len() < s.len(),
{
    lemma_decode64_span(s);
}

/// Appends the length of the varints of `values`, then the varints: the body
/// of a packed repeated field. Room for the length is kept while the varints
/// are written; the length is filled in afterwards and the varints moved up
/// against it.
pub fn encode_packed_fast(values: &[usize], buf: &mut Vec<u8>)
    requires
        packed_body(values@).len() <= usize::MAX,
    ensures
        final(buf)@ == old(buf)@ + varint_bytes(packed_body(values@).len()) + packed_body(values@),
{
    let start = crate::varint::usize::reserve_length_room(buf);
    let ghost with_room = buf@;
    let mut length: usize = 0;
    let mut i: usize = 0;
    while i < values.len()
        invariant
            i <= values@.len(),
            buf@ == with_room + packed_body(values@.take(i as int)),
            length == packed_body(values@.take(i as int)).len(),
            with_room.len() == start + crate::varint::usize::LENGTH_ROOM,
            with_room.take(start as int) == old(buf)@,
            packed_body(values@).len() <= usize::MAX,
        decreases values@.len() - i,
    {
        proof {
            assert(values@.take(i + 1int).drop_last() =~= values@.take(i as int));
            lemma_packed_body_prefix(values@, (i + 1) as nat);
        }
        length = length + encode_varint(values[i], buf);
        assert(buf@ =~= with_room + packed_body(values@.take(i + 1int)));
        i += 1;
    }
    assert(values@.take(values@.len() as int) =~= values@);
    proof {
        assert(buf@.take(start as int) =~= old(buf)@);
        assert(buf@.skip(start + crate::varint::usize::LENGTH_ROOM) =~= packed_body(values@));
    }
    crate::varint::usize::close_length_room(buf, start, length);
}

/// Packed bodies of prefixes are no longer than the whole body.
pub proof fn lemma_packed_body_prefix(values: Seq<usize>, n: nat)
    requires
        n <= values.len(),
    ensures
        packed_body(values.take(n as int)).len() <= packed_body(values).len(),
    decreases values.len() - n,
{
    if n < values.len() {
        lemma_packed_body_prefix(values, n + 1);
        assert(values.take(n + 1int).drop_last() =~= values.take(n as int));
    } else {
        assert(values.take(n as int) =~= values);
    }
}

} // verus!
