//! Fields of protobuf type `bytes`: length-delimited runs of bytes.

use crate::buf::ReadBuf;
use crate::encoding::{
    encode_tag, is_suffix, lemma_suffix_refl, lemma_suffix_trans, lemma_varint64_rest_suffix,
    tag_bytes, tag_len, valid_field_number, BytesAdapter, DecodeContext,
};
use crate::error::DecodeError;
use crate::varint::usize as varint_usize;
use crate::varint::varint_bytes;
use crate::wire_type::{check_wire_type, WireType};
use vstd::prelude::*;

verus! {

/// The bytes of a length-delimited field holding `content`.
pub open spec fn delimited_bytes(number: nat, content: Seq<u8>) -> Seq<u8> {
    tag_bytes(number, WireType::LengthDelimited) + varint_bytes(content.len()) + content
}

/// The bytes of an unpacked repeated length-delimited field.
pub open spec fn repeated_delimited(number: nat, contents: Seq<Seq<u8>>) -> Seq<u8>
    decreases contents.len(),
{
    if contents.len() == 0 {
        Seq::<u8>::empty()
    } else {
        repeated_delimited(number, contents.drop_last()) + delimited_bytes(number, contents.last())
    }
}

/// What `merge` decodes from `s` for wire type `wire_type`: the content or
/// the error, and what is left unread.
pub open spec fn merge_spec(wire_type: WireType, s: Seq<u8>) -> (Result<Seq<u8>, DecodeError>, Seq<u8>) {
    if wire_type != WireType::LengthDelimited {
        (
            Err(DecodeError::UnexpectedWireType {
                actual: wire_type,
                expected: WireType::LengthDelimited,
            }),
            s,
        )
    } else {
        match varint_usize::decoded(s) {
            Err(e) => (Err(e), varint_usize::rest(s)),
            Ok(len) => {
                let s1 = varint_usize::rest(s);
                if len > s1.len() {
                    (Err(DecodeError::BufferUnderflow), s1)
                } else {
                    (Ok(s1.take(len as int)), s1.skip(len as int))
                }
            },
        }
    }
}

/// Decoding a payload leaves a suffix of its input.
pub proof fn lemma_merge_suffix(wire_type: WireType, s: Seq<u8>)
    ensures
        is_suffix(merge_spec(wire_type, s).1, s),
{
    lemma_suffix_refl(s);
    lemma_varint64_rest_suffix(s);
    let s1 = varint_usize::rest(s);
    if let Ok(len) = varint_usize::decoded(s) {
        if len <= s1.len() {
            assert(s1.skip(len as int) =~= s1.skip(s1.len() - s1.skip(len as int).len()));
            lemma_suffix_trans(s1.skip(len as int), s1, s);
        }
    }
}

/// Encodes one field: the key, the length, the bytes.
pub fn encode<B: BytesAdapter>(number: u32, value: &B, buf: &mut Vec<u8>)
    requires
        valid_field_number(number),
    ensures
        final(buf)@ == old(buf)@ + delimited_bytes(number as nat, value.bytes_view()),
{
    encode_tag(number, WireType::LengthDelimited, buf);
    varint_usize::encode_varint(value.len(), buf);
    value.append_to(buf);
    assert(final(buf)@ =~= old(buf)@ + delimited_bytes(number as nat, value.bytes_view()));
}

/// Decodes the payload of a field whose key has been read, replacing the
/// contents of `value`; on error `value` is left as it was.
pub fn merge<B: BytesAdapter>(wire_type: WireType, value: &mut B, buf: &mut ReadBuf, ctx: DecodeContext) -> (r:
    Result<(), DecodeError>)
    ensures
        final(buf)@ == merge_spec(wire_type, old(buf)@).1,
        match merge_spec(wire_type, old(buf)@).0 {
            Ok(content) => r == Ok::<(), DecodeError>(()) && final(value).bytes_view() == content,
            Err(e) => r == Err::<(), DecodeError>(e) && *final(value) == *old(value),
        },
{
    check_wire_type(WireType::LengthDelimited, wire_type)?;
    let len = varint_usize::decode_varint(buf)?;
    if len > buf.remaining() {
        return Err(DecodeError::BufferUnderflow);
    }
    value.merge_from_buf(buf, len);
    Ok(())
}

/// Encodes every value as a field of its own.
pub fn encode_repeated<B: BytesAdapter>(number: u32, values: &[B], buf: &mut Vec<u8>)
    requires
        valid_field_number(number),
    ensures
        final(buf)@ == old(buf)@ + repeated_delimited(
            number as nat,
            values@.map_values(|v: B| v.bytes_view()),
        ),
{
    let ghost contents = values@.map_values(|v: B| v.bytes_view());
    let mut i: usize = 0;
    while i < values.len()
        invariant
            valid_field_number(number),
            i <= values@.len(),
            contents == values@.map_values(|v: B| v.bytes_view()),
            buf@ == old(buf)@ + repeated_delimited(number as nat, contents.take(i as int)),
        decreases values@.len() - i,
    {
        encode(number, &values[i], buf);
        assert(contents.take(i + 1int).drop_last() =~= contents.take(i as int));
        assert(buf@ =~= old(buf)@ + repeated_delimited(number as nat, contents.take(i + 1int)));
        i += 1;
    }
    assert(contents.take(values@.len() as int) =~= contents);
}

/// Decodes one more element of a repeated `bytes` field and appends it.
pub fn merge_repeated<B: BytesAdapter + Default>(
    wire_type: WireType,
    values: &mut Vec<B>,
    buf: &mut ReadBuf,
    ctx: DecodeContext,
) -> (r: Result<(), DecodeError>)
    ensures
        final(buf)@ == merge_spec(wire_type, old(buf)@).1,
        match merge_spec(wire_type, old(buf)@).0 {
            Ok(content) => r == Ok::<(), DecodeError>(()) && final(values)@.len() == old(values)@.len()
                + 1 && final(values)@.drop_last() == old(values)@ && final(values)@.last().bytes_view()
                == content,
            Err(e) => r == Err::<(), DecodeError>(e) && final(values)@ == old(values)@,
        },
{
    check_wire_type(WireType::LengthDelimited, wire_type)?;
    let mut value: B = B::default();
    merge(wire_type, &mut value, buf, ctx)?;
    values.push(value);
    Ok(())
}

/// Length of one encoded field.
pub fn encoded_len<B: BytesAdapter>(number: u32, value: &B) -> (n: usize)
    requires
        valid_field_number(number),
        delimited_bytes(number as nat, value.bytes_view()).len() <= usize::MAX,
    ensures
        n == delimited_bytes(number as nat, value.bytes_view()).len(),
{
    tag_len(number) + varint_usize::encoded_len_varint(value.len()) + value.len()
}

/// Length of the unpacked encoding of `values`.
pub fn encoded_len_repeated<B: BytesAdapter>(number: u32, values: &[B]) -> (n: usize)
    requires
        valid_field_number(number),
        repeated_delimited(number as nat, values@.map_values(|v: B| v.bytes_view())).len()
            <= usize::MAX,
    ensures
        n == repeated_delimited(number as nat, values@.map_values(|v: B| v.bytes_view())).len(),
{
    let ghost contents = values@.map_values(|v: B| v.bytes_view());
    let mut total: usize = 0;
    let mut i: usize = 0;
    while i < values.len()
        invariant
            valid_field_number(number),
            i <= values@.len(),
            contents == values@.map_values(|v: B| v.bytes_view()),
            total == repeated_delimited(number as nat, contents.take(i as int)).len(),
            repeated_delimited(number as nat, contents).len() <= usize::MAX,
        decreases values@.len() - i,
    {
        assert(contents.take(i + 1int).drop_last() =~= contents.take(i as int));
        proof {
            lemma_repeated_prefix(number as nat, contents, (i + 1) as nat);
        }
        let v = &values[i];
        total = total + tag_len(number) + varint_usize::encoded_len_varint(v.len()) + v.len();
        i += 1;
    }
    assert(contents.take(values@.len() as int) =~= contents);
    total
}

pub(crate) proof fn lemma_repeated_prefix(number: nat, contents: Seq<Seq<u8>>, n: nat)
    requires
        n <= contents.len(),
    ensures
        repeated_delimited(number, contents.take(n as int)).len() <= repeated_delimited(
            number,
            contents,
        ).len(),
    decreases contents.len() - n,
{
    if n < contents.len() {
        lemma_repeated_prefix(number, contents, n + 1);
        assert(contents.take(n + 1int).drop_last() =~= contents.take(n as int));
    } else {
        assert(contents.take(n as int) =~= contents);
    }
}

/// Reading back the payload of an encoded field gives its content and leaves
/// what followed.
pub proof fn lemma_roundtrip(content: Seq<u8>, tail: Seq<u8>)
    requires
        content.len() <= usize::MAX,
    ensures
        merge_spec(WireType::LengthDelimited, varint_bytes(content.len()) + content + tail) == (
            Ok::<Seq<u8>, DecodeError>(content),
            tail,
        ),
{
    let s = varint_bytes(content.len()) + content + tail;
    assert(s =~= varint_bytes(content.len()) + (content + tail));
    varint_usize::lemma_roundtrip(content.len() as usize, content + tail);
    assert((content + tail).take(content.len() as int) =~= content);
    assert((content + tail).skip(content.len() as int) =~= tail);
}

} // verus!
