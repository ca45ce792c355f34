//! Fixed-width 64-bit values of protobuf type `fixed64`, little endian.

use crate::buf::ReadBuf;
use crate::error::DecodeError;
use crate::varint::varint_bytes;
use vstd::prelude::*;

verus! {

/// Width of one value in bytes.
pub const SIZE: usize = 8;

/// The little-endian bytes of the unsigned image of a value.
pub open spec fn unsigned_bytes(u: u64) -> Seq<u8> {
    seq![u as u8, (u >> 8u64) as u8, (u >> 16u64) as u8, (u >> 24u64) as u8, (u >> 32u64) as u8, (u >> 40u64) as u8, (u >> 48u64) as u8, (u >> 56u64) as u8]
}

/// The bytes that stand for a `u64`.
pub open spec fn value_bytes(value: u64) -> Seq<u8> {
    unsigned_bytes(value as u64)
}

/// The unsigned number the first 8 bytes of `s` stand for, little endian.
pub open spec fn unsigned_of(s: Seq<u8>) -> u64
    recommends
        s.len() >= 8,
{
    (s[0] as u64) | ((s[1] as u64) << 8u64) | ((s[2] as u64) << 16u64) | ((s[3] as u64) << 24u64) | ((s[4] as u64) << 32u64) | ((s[5] as u64) << 40u64) | ((s[6] as u64) << 48u64) | ((s[7] as u64) << 56u64)
}

/// What `decode_fixed` returns on input `s`.
pub open spec fn decoded(s: Seq<u8>) -> Result<u64, DecodeError> {
    if s.len() < 8 {
        Err(DecodeError::BufferUnderflow)
    } else {
        let u = unsigned_of(s);
        Ok(u as u64)
    }
}

/// What `decode_fixed` leaves unread of input `s`.
pub open spec fn rest(s: Seq<u8>) -> Seq<u8> {
    if s.len() < 8 {
        s
    } else {
        s.skip(8)
    }
}

/// The bytes of `values`, one after the other.
pub open spec fn packed_body(values: Seq<u64>) -> Seq<u8>
    decreases values.len(),
{
    if values.len() == 0 {
        Seq::<u8>::empty()
    } else {
        packed_body(values.drop_last()) + value_bytes(values.last())
    }
}

/// Appends the 8 little-endian bytes of a `u64`.
pub fn encode_fixed(value: u64, buf: &mut Vec<u8>)
    ensures
        final(buf)@ == old(buf)@ + value_bytes(value),
{
    let u: u64 = value as u64;
    buf.push(u as u8);
    buf.push((u >> 8u64) as u8);
    buf.push((u >> 16u64) as u8);
    buf.push((u >> 24u64) as u8);
    buf.push((u >> 32u64) as u8);
    buf.push((u >> 40u64) as u8);
    buf.push((u >> 48u64) as u8);
    buf.push((u >> 56u64) as u8);
    assert(final(buf)@ =~= old(buf)@ + value_bytes(value));
}

/// Length of the encoding of a `u64`: always 8 bytes.
pub fn encoded_len_fixed(value: u64) -> (n: usize)
    ensures
        n == value_bytes(value).len(),
{
    SIZE
}

/// Reads a `u64` from the front of `buf`; an error when fewer than 8 bytes
/// remain.
pub fn decode_fixed(buf: &mut ReadBuf) -> (r: Result<u64, DecodeError>)
    ensures
        r == decoded(old(buf)@),
        final(buf)@ == rest(old(buf)@),
{
    if buf.remaining() < SIZE {
        return Err(DecodeError::BufferUnderflow);
    }
    let ghost s = buf@;
    let b0 = buf.get_u8();
    let b1 = buf.get_u8();
    let b2 = buf.get_u8();
    let b3 = buf.get_u8();
    let b4 = buf.get_u8();
    let b5 = buf.get_u8();
    let b6 = buf.get_u8();
    let b7 = buf.get_u8();
    assert(buf@ =~= s.skip(8));
    let u: u64 = (b0 as u64) | ((b1 as u64) << 8u64) | ((b2 as u64) << 16u64) | ((b3 as u64) << 24u64) | ((b4 as u64) << 32u64) | ((b5 as u64) << 40u64) | ((b6 as u64) << 48u64) | ((b7 as u64) << 56u64);
    Ok(u as u64)
}

/// Reading back the bytes of a value, whatever follows them, gives the value
/// and leaves what follows.
pub proof fn lemma_roundtrip(value: u64, tail: Seq<u8>)
    ensures
        decoded(value_bytes(value) + tail) == Ok::<u64, DecodeError>(value),
        rest(value_bytes(value) + tail) == tail,
{
    let u: u64 = value as u64;
    let s = value_bytes(value) + tail;
    assert(s.skip(8) =~= tail);
    let s0: u8 = s[0];let s1: u8 = s[1];let s2: u8 = s[2];let s3: u8 = s[3];let s4: u8 = s[4];let s5: u8 = s[5];let s6: u8 = s[6];let s7: u8 = s[7];
    assert(s0 == u as u8 && s1 == (u >> 8u64) as u8 && s2 == (u >> 16u64) as u8 && s3 == (u >> 24u64) as u8 && s4 == (u >> 32u64) as u8 && s5 == (u >> 40u64) as u8 && s6 == (u >> 48u64) as u8 && s7 == (u >> 56u64) as u8 ==> (s0 as u64) | ((s1 as u64) << 8u64) | ((s2 as u64) << 16u64) | ((s3 as u64) << 24u64) | ((s4 as u64) << 32u64) | ((s5 as u64) << 40u64) | ((s6 as u64) << 48u64) | ((s7 as u64) << 56u64) == u) by (bit_vector);
    assert((value as u64) as u64 == value) by (bit_vector);
}

/// A successful decode consumes bytes.
pub proof fn lemma_progress(s: Seq<u8>)
    ensures
        rest(s).len() <= s.len(),
        decoded(s) is Ok ==> rest(s).len() < s.len(),
{
}

/// Packed bodies of prefixes are no longer than the whole body.
pub proof fn lemma_packed_body_prefix(values: Seq<u64>, n: nat)
    requires
        n <= values.len(),
    ensures
        packed_body(values.take(n as int)).len() <= packed_body(values).len(),
    decreases values.len() - n,
{
    if n < values.len() {
        lemma_packed_body_prefix(values, n + 1);
        assert(values.take(n + 1int).drop_last() =~= values.take(n as int));
    } else {
        assert(values.take(n as int) =~= values);
    }
}

proof fn lemma_packed_body_len(values: Seq<u64>)
    ensures
        packed_body(values).len() == values.len() * 8,
    decreases values.len(),
{
    if values.len() > 0 {
        lemma_packed_body_len(values.drop_last());
    }
}

/// Appends the length of the body, then the values: the body of a packed
/// repeated field.
pub fn encode_packed_body(values: &[u64], buf: &mut Vec<u8>)
    requires
        packed_body(values@).len() <= usize::MAX,
    ensures
        final(buf)@ == old(buf)@ + varint_bytes(packed_body(values@).len()) + packed_body(values@),
{
    proof {
        lemma_packed_body_len(values@);
    }
    crate::varint::usize::encode_varint(values.len() * SIZE, buf);
    let ghost start = buf@;
    let mut i: usize = 0;
    while i < values.len()
        invariant
            i <= values@.len(),
            buf@ == start + packed_body(values@.take(i as int)),
        decreases values@.len() - i,
    {
        assert(values@.take(i + 1int).drop_last() =~= values@.take(i as int));
        encode_fixed(values[i], buf);
        assert(buf@ =~= start + packed_body(values@.take(i + 1int)));
        i += 1;
    }
    assert(values@.take(values@.len() as int) =~= values@);
    assert(final(buf)@ =~= old(buf)@ + varint_bytes(packed_body(values@).len()) + packed_body(values@));
}

/// The protobuf `fixed64` layout, by arithmetic: eight bytes, byte `i` being
/// digit `i` in base 256 of the value, least significant first; and
/// eight bytes read back as the number they spell in that order.
pub proof fn lemma_layout(v: u64, s: Seq<u8>)
    ensures
        value_bytes(v).len() == 8,
        value_bytes(v)[0] == v % 0x100,
        value_bytes(v)[1] == (v / 0x100) % 0x100,
        value_bytes(v)[2] == (v / 0x1_0000) % 0x100,
        value_bytes(v)[3] == (v / 0x100_0000) % 0x100,
        value_bytes(v)[4] == (v / 0x1_0000_0000) % 0x100,
        value_bytes(v)[5] == (v / 0x100_0000_0000) % 0x100,
        value_bytes(v)[6] == (v / 0x1_0000_0000_0000) % 0x100,
        value_bytes(v)[7] == (v / 0x100_0000_0000_0000) % 0x100,
        s.len() >= 8 ==> decoded(s) == Ok::<u64, DecodeError>(
            ((s[0] as u64) + (s[1] as u64) * 0x100 + (s[2] as u64) * 0x1_0000 + (s[3] as u64) * 0x100_0000
                + (s[4] as u64) * 0x1_0000_0000 + (s[5] as u64) * 0x100_0000_0000 + (s[6] as u64)
                * 0x1_0000_0000_0000 + (s[7] as u64) * 0x100_0000_0000_0000) as u64,
        ),
        s.len() < 8 ==> decoded(s) == Err::<u64, DecodeError>(DecodeError::BufferUnderflow),
{
    crate::fixed_width::lemma_le_bytes64(v);
    if s.len() >= 8 {
        crate::fixed_width::lemma_le_join64(s[0], s[1], s[2], s[3], s[4], s[5], s[6], s[7]);
    }
}

} // verus!

