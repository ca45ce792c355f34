//! Fields of protobuf type `string`: length-delimited UTF-8.

use crate::buf::ReadBuf;
use crate::encoding::bytes::{delimited_bytes, merge_spec, repeated_delimited};
use crate::encoding::{
    encode_tag, tag_len, valid_field_number, DecodeContext, StringAdapter,
};
use crate::error::DecodeError;
use crate::utf8::{is_utf8, is_valid_utf8};
use crate::varint::usize as varint_usize;
use crate::wire_type::WireType;
use vstd::prelude::*;

verus! {

/// What `merge` decodes from `s`: the bytes of a well-formed string, or the
/// error. Ill-formed UTF-8 is refused after the bytes have been read.
pub open spec fn merge_string_spec(wire_type: WireType, s: Seq<u8>) -> Result<Seq<u8>, DecodeError> {
    match merge_spec(wire_type, s).0 {
        Err(e) => Err(e),
        Ok(content) => if is_utf8(content) {
            Ok(content)
        } else {
            Err(DecodeError::InvalidString)
        },
    }
}

/// Encodes one field: the key, the length, the UTF-8 bytes.
pub fn encode<S: StringAdapter>(number: u32, value: &S, buf: &mut Vec<u8>)
    requires
        valid_field_number(number),
    ensures
        final(buf)@ == old(buf)@ + delimited_bytes(number as nat, value.bytes_view()),
{
    encode_tag(number, WireType::LengthDelimited, buf);
    varint_usize::encode_varint(value.len(), buf);
    let bytes = value.as_bytes();
    let mut i: usize = 0;
    while i < bytes.len()
        invariant
            i <= bytes@.len(),
            bytes@ == value.bytes_view(),
            buf@ == old(buf)@ + crate::encoding::tag_bytes(number as nat, WireType::LengthDelimited)
                + crate::varint::varint_bytes(value.bytes_view().len()) + bytes@.take(i as int),
        decreases bytes@.len() - i,
    {
        buf.push(bytes[i]);
        assert(bytes@.take(i + 1int) =~= bytes@.take(i as int).push(bytes@[i as int]));
        i += 1;
    }
    assert(bytes@.take(bytes@.len() as int) =~= bytes@);
    assert(final(buf)@ =~= old(buf)@ + delimited_bytes(number as nat, value.bytes_view()));
}

/// Decodes the payload of a field whose key has been read into `value`. On
/// any error, ill-formed UTF-8 included, `value` is left empty, so that it
/// never holds a partly read string.
pub fn merge<S: StringAdapter>(wire_type: WireType, value: &mut S, buf: &mut ReadBuf, ctx: DecodeContext) -> (r:
    Result<(), DecodeError>)
    ensures
        final(buf)@ == merge_spec(wire_type, old(buf)@).1,
        match merge_string_spec(wire_type, old(buf)@) {
            Ok(content) => r == Ok::<(), DecodeError>(()) && final(value).bytes_view() == content,
            Err(e) => r == Err::<(), DecodeError>(e) && final(value).bytes_view() == Seq::<u8>::empty(),
        },
{
    let mut content: Vec<u8> = Vec::new();
    match crate::encoding::bytes::merge(wire_type, &mut content, buf, ctx) {
        Err(e) => {
            value.clear();
            Err(e)
        },
        Ok(()) => {
            if is_valid_utf8(content.as_slice()) {
                value.set_utf8(content);
                Ok(())
            } else {
                value.clear();
                Err(DecodeError::InvalidString)
            }
        },
    }
}

/// Encodes every value as a field of its own.
pub fn encode_repeated<S: StringAdapter>(number: u32, values: &[S], buf: &mut Vec<u8>)
    requires
        valid_field_number(number),
    ensures
        final(buf)@ == old(buf)@ + repeated_delimited(
            number as nat,
            values@.map_values(|v: S| v.bytes_view()),
        ),
{
    let ghost contents = values@.map_values(|v: S| v.bytes_view());
    let mut i: usize = 0;
    while i < values.len()
        invariant
            valid_field_number(number),
            i <= values@.len(),
            contents == values@.map_values(|v: S| v.bytes_view()),
            buf@ == old(buf)@ + repeated_delimited(number as nat, contents.take(i as int)),
        decreases values@.len() - i,
    {
        encode(number, &values[i], buf);
        assert(contents.take(i + 1int).drop_last() =~= contents.take(i as int));
        assert(buf@ =~= old(buf)@ + repeated_delimited(number as nat, contents.take(i + 1int)));
        i += 1;
    }
    assert(contents.take(values@.len() as int) =~= contents);
}

/// Decodes one more element of a repeated `string` field and appends it; on
/// error nothing is appended.
pub fn merge_repeated<S: StringAdapter + Default>(
    wire_type: WireType,
    values: &mut Vec<S>,
    buf: &mut ReadBuf,
    ctx: DecodeContext,
) -> (r: Result<(), DecodeError>)
    ensures
        final(buf)@ == merge_spec(wire_type, old(buf)@).1,
        match merge_string_spec(wire_type, old(buf)@) {
            Ok(content) => r == Ok::<(), DecodeError>(()) && final(values)@.len() == old(values)@.len()
                + 1 && final(values)@.drop_last() == old(values)@ && final(values)@.last().bytes_view()
                == content,
            Err(e) => r == Err::<(), DecodeError>(e) && final(values)@ == old(values)@,
        },
{
    crate::wire_type::check_wire_type(WireType::LengthDelimited, wire_type)?;
    let mut value: S = S::default();
    merge(wire_type, &mut value, buf, ctx)?;
    values.push(value);
    Ok(())
}

/// Length of one encoded field.
pub fn encoded_len<S: StringAdapter>(number: u32, value: &S) -> (n: usize)
    requires
        valid_field_number(number),
        delimited_bytes(number as nat, value.bytes_view()).len() <= usize::MAX,
    ensures
        n == delimited_bytes(number as nat, value.bytes_view()).len(),
{
    tag_len(number) + varint_usize::encoded_len_varint(value.len()) + value.len()
}

/// Length of the unpacked encoding of `values`.
pub fn encoded_len_repeated<S: StringAdapter>(number: u32, values: &[S]) -> (n: usize)
    requires
        valid_field_number(number),
        repeated_delimited(number as nat, values@.map_values(|v: S| v.bytes_view())).len()
            <= usize::MAX,
    ensures
        n == repeated_delimited(number as nat, values@.map_values(|v: S| v.bytes_view())).len(),
{
    let ghost contents = values@.map_values(|v: S| v.bytes_view());
    let mut total: usize = 0;
    let mut i: usize = 0;
    while i < values.len()
        invariant
            valid_field_number(number),
            i <= values@.len(),
            contents == values@.map_values(|v: S| v.bytes_view()),
            total == repeated_delimited(number as nat, contents.take(i as int)).len(),
            repeated_delimited(number as nat, contents).len() <= usize::MAX,
        decreases values@.len() - i,
    {
        assert(contents.take(i + 1int).drop_last() =~= contents.take(i as int));
        proof {
            crate::encoding::bytes::lemma_repeated_prefix(number as nat, contents, (i + 1) as nat);
        }
        let v = &values[i];
        total = total + tag_len(number) + varint_usize::encoded_len_varint(v.len()) + v.len();
        i += 1;
    }
    assert(contents.take(values@.len() as int) =~= contents);
    total
}

/// Reading back the payload of an encoded string field gives its bytes when
/// they are UTF-8, and leaves what followed.
pub proof fn lemma_roundtrip(content: Seq<u8>, tail: Seq<u8>)
    requires
        content.len() <= usize::MAX,
        is_utf8(content),
    ensures
        merge_string_spec(
            WireType::LengthDelimited,
            crate::varint::varint_bytes(content.len()) + content + tail,
        ) == Ok::<Seq<u8>, DecodeError>(content),
        merge_spec(
            WireType::LengthDelimited,
            crate::varint::varint_bytes(content.len()) + content + tail,
        ).1 == tail,
{
    crate::encoding::bytes::lemma_roundtrip(content, tail);
}

/// A string field written by `encode` reads back: its key gives the field
/// number and the length-delimited wire type, and reading the payload gives
/// the same UTF-8 bytes and leaves exactly what followed the field.
pub proof fn lemma_field_roundtrip(number: u32, content: Seq<u8>, tail: Seq<u8>)
    requires
        valid_field_number(number),
        content.len() <= usize::MAX,
        is_utf8(content),
    ensures
        crate::encoding::tag_result(delimited_bytes(number as nat, content) + tail) == Ok::<
            (u32, WireType),
            DecodeError,
        >((number, WireType::LengthDelimited)),
        merge_string_spec(
            WireType::LengthDelimited,
            crate::varint::varint32_rest(delimited_bytes(number as nat, content) + tail),
        ) == Ok::<Seq<u8>, DecodeError>(content),
        merge_spec(
            WireType::LengthDelimited,
            crate::varint::varint32_rest(delimited_bytes(number as nat, content) + tail),
        ).1 == tail,
{
    let payload = crate::varint::varint_bytes(content.len()) + content + tail;
    crate::encoding::lemma_tag_roundtrip(number, WireType::LengthDelimited, payload);
    assert(delimited_bytes(number as nat, content) + tail =~= crate::encoding::tag_bytes(
        number as nat,
        WireType::LengthDelimited,
    ) + payload);
    lemma_roundtrip(content, tail);
}

} // verus!
