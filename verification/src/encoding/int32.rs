//! Fields of protobuf type `int32`: keys with the varint wire type, and
//! packed or unpacked repeated fields.

use crate::buf::ReadBuf;
use crate::encoding::{
    encode_tag, lemma_tag_len, tag_bytes, tag_len, tag_result, valid_field_number, DecodeContext,
};
use crate::error::DecodeError;
use crate::varint::int32::{
    decode_varint as decode_value, decoded, encode_packed_fast as encode_packed_body, encode_varint as encode_value,
    encoded_len_varint as encoded_len_value, lemma_packed_body_prefix, lemma_progress, lemma_roundtrip,
    packed_body, rest, value_bytes,
};
use crate::varint::usize as varint_usize;
use crate::varint::{varint32_rest, varint_bytes};
use crate::wire_type::{check_wire_type, WireType};
use vstd::prelude::*;

verus! {

/// The bytes of one field: its key, then the value's bytes.
pub open spec fn field_bytes(number: nat, value: i32) -> Seq<u8> {
    tag_bytes(number, WireType::Varint) + value_bytes(value)
}

/// The bytes of an unpacked repeated field: one key and value per value.
pub open spec fn repeated_bytes(number: nat, values: Seq<i32>) -> Seq<u8>
    decreases values.len(),
{
    if values.len() == 0 {
        Seq::<u8>::empty()
    } else {
        repeated_bytes(number, values.drop_last()) + field_bytes(number, values.last())
    }
}

/// The bytes of a packed repeated field: nothing when there are no values,
/// else one length-delimited key, the body's length and the body.
pub open spec fn packed_bytes(number: nat, values: Seq<i32>) -> Seq<u8> {
    if values.len() == 0 {
        Seq::<u8>::empty()
    } else {
        tag_bytes(number, WireType::LengthDelimited) + varint_bytes(packed_body(values).len())
            + packed_body(values)
    }
}

/// Values decoded one after the other until only `limit` bytes are left: the
/// values, the outcome, and what is left unread.
pub open spec fn packed_decode(s: Seq<u8>, limit: nat) -> (Seq<i32>, Result<(), DecodeError>, Seq<u8>)
    decreases s.len(),
{
    if s.len() <= limit {
        (
            Seq::<i32>::empty(),
            if s.len() == limit {
                Ok(())
            } else {
                Err(DecodeError::DelimitedLengthExceeded)
            },
            s,
        )
    } else {
        match decoded(s) {
            Err(e) => (Seq::<i32>::empty(), Err(e), rest(s)),
            Ok(v) => if rest(s).len() < s.len() {
                let next = packed_decode(rest(s), limit);
                (seq![v] + next.0, next.1, next.2)
            } else {
                (seq![v], Ok(()), rest(s))
            },
        }
    }
}

/// What `merge_repeated` appends, returns and leaves unread.
pub open spec fn merge_repeated_spec(wire_type: WireType, s: Seq<u8>) -> (Seq<i32>, Result<
    (),
    DecodeError,
>, Seq<u8>) {
    if wire_type == WireType::LengthDelimited {
        match varint_usize::decoded(s) {
            Err(e) => (Seq::<i32>::empty(), Err(e), varint_usize::rest(s)),
            Ok(len) => {
                let s1 = varint_usize::rest(s);
                if len > s1.len() {
                    (Seq::<i32>::empty(), Err(DecodeError::BufferUnderflow), s1)
                } else {
                    packed_decode(s1, (s1.len() - len) as nat)
                }
            },
        }
    } else if wire_type != WireType::Varint {
        (
            Seq::<i32>::empty(),
            Err(DecodeError::UnexpectedWireType { actual: wire_type, expected: WireType::Varint }),
            s,
        )
    } else {
        match decoded(s) {
            Ok(v) => (seq![v], Ok(()), rest(s)),
            Err(e) => (Seq::<i32>::empty(), Err(e), rest(s)),
        }
    }
}

/// Encodes one field: its key, then the value.
pub fn encode(number: u32, value: &i32, buf: &mut Vec<u8>)
    requires
        valid_field_number(number),
    ensures
        final(buf)@ == old(buf)@ + field_bytes(number as nat, *value),
{
    encode_tag(number, WireType::Varint, buf);
    encode_value(*value, buf);
    assert(final(buf)@ =~= old(buf)@ + field_bytes(number as nat, *value));
}

/// Decodes one value of a field whose key has been read, replacing `value`.
pub fn merge(wire_type: WireType, value: &mut i32, buf: &mut ReadBuf, ctx: DecodeContext) -> (r: Result<
    (),
    DecodeError,
>)
    ensures
        wire_type != WireType::Varint ==> {
            &&& r == Err::<(), DecodeError>(
                DecodeError::UnexpectedWireType { actual: wire_type, expected: WireType::Varint },
            )
            &&& *final(value) == *old(value)
            &&& final(buf)@ == old(buf)@
        },
        wire_type == WireType::Varint ==> {
            &&& final(buf)@ == rest(old(buf)@)
            &&& match decoded(old(buf)@) {
                Ok(v) => r == Ok::<(), DecodeError>(()) && *final(value) == v,
                Err(e) => r == Err::<(), DecodeError>(e) && *final(value) == *old(value),
            }
        },
{
    check_wire_type(WireType::Varint, wire_type)?;
    merge_unchecked(value, buf)
}

fn merge_unchecked(value: &mut i32, buf: &mut ReadBuf) -> (r: Result<(), DecodeError>)
    ensures
        final(buf)@ == rest(old(buf)@),
        match decoded(old(buf)@) {
            Ok(v) => r == Ok::<(), DecodeError>(()) && *final(value) == v,
            Err(e) => r == Err::<(), DecodeError>(e) && *final(value) == *old(value),
        },
{
    *value = decode_value(buf)?;
    Ok(())
}

/// Encodes every value as a field of its own.
pub fn encode_repeated(number: u32, values: &[i32], buf: &mut Vec<u8>)
    requires
        valid_field_number(number),
    ensures
        final(buf)@ == old(buf)@ + repeated_bytes(number as nat, values@),
{
    let mut i: usize = 0;
    while i < values.len()
        invariant
            valid_field_number(number),
            i <= values@.len(),
            buf@ == old(buf)@ + repeated_bytes(number as nat, values@.take(i as int)),
        decreases values@.len() - i,
    {
        let ghost before = buf@;
        encode(number, &values[i], buf);
        assert(values@.take(i + 1int).drop_last() =~= values@.take(i as int));
        assert(buf@ =~= old(buf)@ + repeated_bytes(number as nat, values@.take(i + 1int)));
        i += 1;
    }
    assert(values@.take(values@.len() as int) =~= values@);
}

/// Encodes the values as one packed field; nothing when there are none.
pub fn encode_packed(number: u32, values: &[i32], buf: &mut Vec<u8>)
    requires
        valid_field_number(number),
        packed_body(values@).len() <= usize::MAX,
    ensures
        final(buf)@ == old(buf)@ + packed_bytes(number as nat, values@),
{
    if values.len() == 0 {
        assert(final(buf)@ =~= old(buf)@ + packed_bytes(number as nat, values@));
        return ;
    }
    encode_tag(number, WireType::LengthDelimited, buf);
    encode_packed_body(values, buf);
    assert(final(buf)@ =~= old(buf)@ + packed_bytes(number as nat, values@));
}

/// Decodes a repeated field: a packed run of values when the wire type is
/// length-delimited, else one value; decoded values are appended to `values`.
pub fn merge_repeated(
    wire_type: WireType,
    values: &mut Vec<i32>,
    buf: &mut ReadBuf,
    ctx: DecodeContext,
) -> (r: Result<(), DecodeError>)
    ensures
        final(values)@ == old(values)@ + merge_repeated_spec(wire_type, old(buf)@).0,
        r == merge_repeated_spec(wire_type, old(buf)@).1,
        final(buf)@ == merge_repeated_spec(wire_type, old(buf)@).2,
{
    if wire_type == WireType::LengthDelimited {
        let len = match varint_usize::decode_varint(buf) {
            Ok(len) => len,
            Err(e) => {
                assert(final(values)@ =~= old(values)@);
                return Err(e);
            },
        };
        let remaining = buf.remaining();
        if len > remaining {
            assert(final(values)@ =~= old(values)@);
            return Err(DecodeError::BufferUnderflow);
        }
        let limit = remaining - len;
        let ghost s1 = buf@;
        let ghost start = old(values)@;
        let mut result: Result<(), DecodeError> = Ok(());
        assert(packed_decode(s1, limit as nat).0 =~= Seq::<i32>::empty() + packed_decode(
            s1,
            limit as nat,
        ).0);
        loop
            invariant_except_break
                values@ + packed_decode(buf@, limit as nat).0 == start + packed_decode(
                    s1,
                    limit as nat,
                ).0,
                packed_decode(buf@, limit as nat).1 == packed_decode(s1, limit as nat).1,
                packed_decode(buf@, limit as nat).2 == packed_decode(s1, limit as nat).2,
                result == Ok::<(), DecodeError>(()),
            ensures
                values@ == start + packed_decode(s1, limit as nat).0,
                result == packed_decode(s1, limit as nat).1,
                buf@ == packed_decode(s1, limit as nat).2,
            decreases buf@.len(),
        {
            let ghost s = buf@;
            if buf.remaining() <= limit {
                if buf.remaining() != limit {
                    result = Err(DecodeError::DelimitedLengthExceeded);
                }
                assert(values@ =~= start + packed_decode(s1, limit as nat).0);
                break ;
            }
            proof {
                lemma_progress(s);
            }
            let mut value: i32 = 0;
            match merge_unchecked(&mut value, buf) {
                Err(e) => {
                    result = Err(e);
                    assert(values@ =~= start + packed_decode(s1, limit as nat).0);
                    break ;
                },
                Ok(()) => {},
            }
            let ghost before = values@;
            values.push(value);
            assert(values@ + packed_decode(buf@, limit as nat).0 =~= before
                + packed_decode(s, limit as nat).0);
        }
        result
    } else {
        match check_wire_type(WireType::Varint, wire_type) {
            Err(e) => {
                assert(final(values)@ =~= old(values)@);
                return Err(e);
            },
            Ok(()) => {},
        }
        let mut value: i32 = 0;
        match merge_unchecked(&mut value, buf) {
            Err(e) => {
                assert(final(values)@ =~= old(values)@);
                return Err(e);
            },
            Ok(()) => {},
        }
        values.push(value);
        Ok(())
    }
}

/// Length of one encoded field.
pub fn encoded_len(number: u32, value: &i32) -> (n: usize)
    requires
        valid_field_number(number),
    ensures
        n == field_bytes(number as nat, *value).len(),
{
    tag_len(number) + encoded_len_value(*value)
}

/// The sum of the lengths of the encodings of `values`, one after the other.
pub open spec fn values_len(values: Seq<i32>) -> nat
    decreases values.len(),
{
    if values.len() == 0 {
        0
    } else {
        values_len(values.drop_last()) + value_bytes(values.last()).len()
    }
}

/// An unpacked repeated field takes one key per value and the encodings of
/// the values; a packed body is the encodings of the values alone.
pub proof fn lemma_repeated_len(number: nat, values: Seq<i32>)
    ensures
        repeated_bytes(number, values).len() == values.len() * tag_bytes(number, WireType::Varint).len()
            + packed_body(values).len(),
        packed_body(values).len() == values_len(values),
    decreases values.len(),
{
    if values.len() > 0 {
        lemma_repeated_len(number, values.drop_last());
        assert(values.len() * tag_bytes(number, WireType::Varint).len() == (values.len() - 1)
            * tag_bytes(number, WireType::Varint).len() + tag_bytes(number, WireType::Varint).len())
            by (nonlinear_arith);
    }
}

/// Total length of the encodings of `values`.
fn sum_encoded_len(values: &[i32]) -> (n: usize)
    requires
        packed_body(values@).len() <= usize::MAX,
    ensures
        n == packed_body(values@).len(),
{
    let mut total: usize = 0;
    let mut i: usize = 0;
    while i < values.len()
        invariant
            i <= values@.len(),
            total == packed_body(values@.take(i as int)).len(),
            packed_body(values@).len() <= usize::MAX,
        decreases values@.len() - i,
    {
        proof {
            assert(values@.take(i + 1int).drop_last() =~= values@.take(i as int));
            lemma_packed_body_prefix(values@, (i + 1) as nat);
        }
        total = total + encoded_len_value(values[i]);
        i += 1;
    }
    assert(values@.take(values@.len() as int) =~= values@);
    total
}

/// Length of the unpacked encoding of `values`.
pub fn encoded_len_repeated(number: u32, values: &[i32]) -> (n: usize)
    requires
        valid_field_number(number),
        repeated_bytes(number as nat, values@).len() <= usize::MAX,
    ensures
        n == repeated_bytes(number as nat, values@).len(),
{
    proof {
        lemma_repeated_len(number as nat, values@);
    }
    let t = tag_len(number);
    assert(t == tag_bytes(number as nat, WireType::Varint).len());
    let body = sum_encoded_len(values);
    assert(t * values@.len() == values@.len() * t) by (nonlinear_arith);
    assert(t * values.len() <= usize::MAX) by (nonlinear_arith)
        requires
            t * values@.len() + body <= usize::MAX,
            values.len() == values@.len(),
    ;
    t * values.len() + body
}

/// Length of the packed encoding of `values`.
pub fn encoded_len_packed(number: u32, values: &[i32]) -> (n: usize)
    requires
        valid_field_number(number),
        packed_bytes(number as nat, values@).len() <= usize::MAX,
    ensures
        n == packed_bytes(number as nat, values@).len(),
{
    if values.len() == 0 {
        0
    } else {
        let len = sum_encoded_len(values);
        tag_len(number) + varint_usize::encoded_len_varint(len) + len
    }
}

/// Reading back one encoded field gives its key, then its value, and leaves
/// what followed.
pub proof fn lemma_field_roundtrip(number: u32, value: i32, tail: Seq<u8>)
    requires
        valid_field_number(number),
    ensures
        tag_result(field_bytes(number as nat, value) + tail) == Ok::<(u32, WireType), DecodeError>(
            (number, WireType::Varint),
        ),
        varint32_rest(field_bytes(number as nat, value) + tail) == value_bytes(value)
            + tail,
        decoded(value_bytes(value) + tail) == Ok::<i32, DecodeError>(value),
        rest(value_bytes(value) + tail) == tail,
{
    let payload = value_bytes(value) + tail;
    let key = tag_bytes(number as nat, WireType::Varint);
    crate::encoding::lemma_tag_roundtrip(number, WireType::Varint, payload);
    assert(field_bytes(number as nat, value) + tail =~= key + payload);
    lemma_roundtrip(value, tail);
}

/// Decoding the packed body of `values` followed by `tail`, down to `tail`,
/// gives back `values`.
pub proof fn lemma_packed_roundtrip(values: Seq<i32>, tail: Seq<u8>)
    ensures
        packed_decode(packed_body(values) + tail, tail.len()) == (values, Ok::<(), DecodeError>(()), tail),
    decreases values.len(),
{
    if values.len() == 0 {
        assert(packed_body(values) + tail =~= tail);
        assert(values =~= Seq::<i32>::empty());
    } else {
        let first = values[0];
        let others = values.drop_first();
        lemma_packed_body_split(values);
        let s = packed_body(values) + tail;
        let t = packed_body(others) + tail;
        assert(s =~= value_bytes(first) + t);
        lemma_roundtrip(first, t);
        lemma_packed_roundtrip(others, tail);
        lemma_progress(s);
        assert(seq![first] + others =~= values);
    }
}

/// The packed body of `values` starts with the varint of the first value.
pub proof fn lemma_packed_body_split(values: Seq<i32>)
    requires
        values.len() > 0,
    ensures
        packed_body(values) =~= value_bytes(values[0]) + packed_body(values.drop_first()),
    decreases values.len(),
{
    if values.len() > 1 {
        lemma_packed_body_split(values.drop_last());
        assert(values.drop_last().drop_first() =~= values.drop_first().drop_last());
        assert(values.drop_first().last() == values.last());
    } else {
        assert(values.drop_last() =~= Seq::<i32>::empty());
        assert(values.drop_first() =~= Seq::<i32>::empty());
    }
}

/// A packed field takes nothing when there are no values; otherwise its key,
/// the varint of the body length, and the body, whose length is the sum of
/// the lengths of the values' encodings.
pub proof fn lemma_packed_len(number: nat, values: Seq<i32>)
    ensures
        values.len() == 0 ==> packed_bytes(number, values).len() == 0,
        values.len() > 0 ==> packed_bytes(number, values).len() == tag_bytes(
            number,
            WireType::LengthDelimited,
        ).len() + varint_bytes(values_len(values)).len() + values_len(values),
{
    lemma_repeated_len(number, values);
}

/// A repeated field reads back what was written: an unpacked element (the
/// value's encoding with wire type Varint) appends exactly that value,
/// and a packed run (a length, then the values' encodings) appends exactly
/// those values, in order; either way exactly what followed is left.
pub proof fn lemma_merge_repeated_roundtrip(v: i32, values: Seq<i32>, tail: Seq<u8>)
    requires
        packed_body(values).len() <= usize::MAX,
    ensures
        merge_repeated_spec(WireType::Varint, value_bytes(v) + tail) == (seq![v], Ok::<(), DecodeError>(()), tail),
        merge_repeated_spec(
            WireType::LengthDelimited,
            varint_bytes(packed_body(values).len()) + packed_body(values) + tail,
        ) == (values, Ok::<(), DecodeError>(()), tail),
{
    lemma_roundtrip(v, tail);
    let body = packed_body(values);
    varint_usize::lemma_roundtrip(body.len() as usize, body + tail);
    assert(varint_bytes(body.len()) + body + tail =~= varint_bytes(body.len()) + (body + tail));
    lemma_packed_roundtrip(values, tail);
}

} // verus!


