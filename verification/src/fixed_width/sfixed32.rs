//! Fixed-width 32-bit values of protobuf type `sfixed32`, little endian.

use crate::buf::ReadBuf;
use crate::error::DecodeError;
use crate::varint::varint_bytes;
use vstd::prelude::*;

verus! {

/// Width of one value in bytes.
pub const SIZE: usize = 4;

/// The little-endian bytes of the unsigned image of a value.
pub open spec fn unsigned_bytes(u: u32) -> Seq<u8> {
    seq![u as u8, (u >> 8u32) as u8, (u >> 16u32) as u8, (u >> 24u32) as u8]
}

/// The bytes that stand for an `i32`.
pub open spec fn value_bytes(value: i32) -> Seq<u8> {
    unsigned_bytes(value as u32)
}

/// The unsigned number the first 4 bytes of `s` stand for, little endian.
pub open spec fn unsigned_of(s: Seq<u8>) -> u32
    recommends
        s.len() >= 4,
{
    (s[0] as u32) | ((s[1] as u32) << 8u32) | ((s[2] as u32) << 16u32) | ((s[3] as u32) << 24u32)
}

/// What `decode_fixed` returns on input `s`.
pub open spec fn decoded(s: Seq<u8>) -> Result<i32, DecodeError> {
    if s.len() < 4 {
        Err(DecodeError::BufferUnderflow)
    } else {
        let u = unsigned_of(s);
        Ok(u as i32)
    }
}

/// What `decode_fixed` leaves unread of input `s`.
pub open spec fn rest(s: Seq<u8>) -> Seq<u8> {
    if s.len() < 4 {
        s
    } else {
        s.skip(4)
    }
}

/// The bytes of `values`, one after the other.
pub open spec fn packed_body(values: Seq<i32>) -> Seq<u8>
    decreases values.len(),
{
    if values.len() == 0 {
        Seq::<u8>::empty()
    } else {
        packed_body(values.drop_last()) + value_bytes(values.last())
    }
}

/// Appends the 4 little-endian bytes of an `i32`.
pub fn encode_fixed(value: i32, buf: &mut Vec<u8>)
    ensures
        final(buf)@ == old(buf)@ + value_bytes(value),
{
    let u: u32 = value as u32;
    buf.push(u as u8);
    buf.push((u >> 8u32) as u8);
    buf.push((u >> 16u32) as u8);
    buf.push((u >> 24u32) as u8);
    assert(final(buf)@ =~= old(buf)@ + value_bytes(value));
}

/// Length of the encoding of an `i32`: always 4 bytes.
pub fn encoded_len_fixed(value: i32) -> (n: usize)
    ensures
        n == value_bytes(value).len(),
{
    SIZE
}

/// Reads an `i32` from the front of `buf`; an error when fewer than 4 bytes
/// remain.
pub fn decode_fixed(buf: &mut ReadBuf) -> (r: Result<i32, DecodeError>)
    ensures
        r == decoded(old(buf)@),
        final(buf)@ == rest(old(buf)@),
{
    if buf.remaining() < SIZE {
        return Err(DecodeError::BufferUnderflow);
    }
    let ghost s = buf@;
    let b0 = buf.get_u8();
    let b1 = buf.get_u8();
    let b2 = buf.get_u8();
    let b3 = buf.get_u8();
    assert(buf@ =~= s.skip(4));
    let u: u32 = (b0 as u32) | ((b1 as u32) << 8u32) | ((b2 as u32) << 16u32) | ((b3 as u32) << 24u32);
    Ok(u as i32)
}

/// Reading back the bytes of a value, whatever follows them, gives the value
/// and leaves what follows.
pub proof fn lemma_roundtrip(value: i32, tail: Seq<u8>)
    ensures
        decoded(value_bytes(value) + tail) == Ok::<i32, DecodeError>(value),
        rest(value_bytes(value) + tail) == tail,
{
    let u: u32 = value as u32;
    let s = value_bytes(value) + tail;
    assert(s.skip(4) =~= tail);
    let s0: u8 = s[0];let s1: u8 = s[1];let s2: u8 = s[2];let s3: u8 = s[3];
    assert(s0 == u as u8 && s1 == (u >> 8u32) as u8 && s2 == (u >> 16u32) as u8 && s3 == (u >> 24u32) as u8 ==> (s0 as u32) | ((s1 as u32) << 8u32) | ((s2 as u32) << 16u32) | ((s3 as u32) << 24u32) == u) by (bit_vector);
    assert((value as u32) as i32 == value) by (bit_vector);
}

/// A successful decode consumes bytes.
pub proof fn lemma_progress(s: Seq<u8>)
    ensures
        rest(s).len() <= s.len(),
        decoded(s) is Ok ==> rest(s).len() < s.len(),
{
}

/// Packed bodies of prefixes are no longer than the whole body.
pub proof fn lemma_packed_body_prefix(values: Seq<i32>, n: nat)
    requires
        n <= values.len(),
    ensures
        packed_body(values.take(n as int)).len() <= packed_body(values).len(),
    decreases values.len() - n,
{
    if n < values.len() {
        lemma_packed_body_prefix(values, n + 1);
        assert(values.take(n + 1int).drop_last() =~= values.take(n as int));
    } else {
        assert(values.take(n as int) =~= values);
    }
}

proof fn lemma_packed_body_len(values: Seq<i32>)
    ensures
        packed_body(values).len() == values.len() * 4,
    decreases values.len(),
{
    if values.len() > 0 {
        lemma_packed_body_len(values.drop_last());
    }
}

/// Appends the length of the body, then the values: the body of a packed
/// repeated field.
pub fn encode_packed_body(values: &[i32], buf: &mut Vec<u8>)
    requires
        packed_body(values@).len() <= usize::MAX,
    ensures
        final(buf)@ == old(buf)@ + varint_bytes(packed_body(values@).len()) + packed_body(values@),
{
    proof {
        lemma_packed_body_len(values@);
    }
    crate::varint::usize::encode_varint(values.len() * SIZE, buf);
    let ghost start = buf@;
    let mut i: usize = 0;
    while i < values.len()
        invariant
            i <= values@.len(),
            buf@ == start + packed_body(values@.take(i as int)),
        decreases values@.len() - i,
    {
        assert(values@.take(i + 1int).drop_last() =~= values@.take(i as int));
        encode_fixed(values[i], buf);
        assert(buf@ =~= start + packed_body(values@.take(i + 1int)));
        i += 1;
    }
    assert(values@.take(values@.len() as int) =~= values@);
    assert(final(buf)@ =~= old(buf)@ + varint_bytes(packed_body(values@).len()) + packed_body(values@));
}

/// The protobuf `sfixed32` layout, by arithmetic: four bytes, byte `i` being
/// digit `i` in base 256 of its two's complement image, least significant first; and
/// four bytes read back as the number they spell in that order, taken as two's complement.
pub proof fn lemma_layout(v: i32, s: Seq<u8>)
    ensures
        value_bytes(v).len() == 4,
        value_bytes(v)[0] == (v as u32) % 0x100,
        value_bytes(v)[1] == ((v as u32) / 0x100) % 0x100,
        value_bytes(v)[2] == ((v as u32) / 0x1_0000) % 0x100,
        value_bytes(v)[3] == ((v as u32) / 0x100_0000) % 0x100,
        s.len() >= 4 ==> decoded(s) == Ok::<i32, DecodeError>(
            ((s[0] as u32) + (s[1] as u32) * 0x100 + (s[2] as u32) * 0x1_0000 + (s[3] as u32) * 0x100_0000) as i32,
        ),
        s.len() < 4 ==> decoded(s) == Err::<i32, DecodeError>(DecodeError::BufferUnderflow),
{
    crate::fixed_width::lemma_le_bytes32((v as u32));
    if s.len() >= 4 {
        crate::fixed_width::lemma_le_join32(s[0], s[1], s[2], s[3]);
    }
}

} // verus!

