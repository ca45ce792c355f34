//! Fields that hold an embedded message, written length-delimited.

use crate::buf::ReadBuf;
use crate::encoding::bytes::{delimited_bytes, lemma_repeated_prefix, repeated_delimited};
use crate::encoding::{
    decode_tag, encode_tag, is_suffix, lemma_suffix_refl, lemma_suffix_trans, lemma_varint32_rest_shrinks,
    lemma_varint32_rest_suffix, merge_loop, region_model, region_outcome, tag_bytes, tag_len, tag_result,
    valid_field_number, DecodeContext, MergeStep,
};
use crate::error::DecodeError;
use crate::message::Message;
use crate::varint::usize as varint_usize;
use crate::varint::{varint32_rest, varint_bytes};
use crate::wire_type::{check_wire_type, WireType};
use vstd::prelude::*;

verus! {

/// Reads one field of a message: its key, then its payload.
pub struct MessageFields;

/// The outcome of reading one field of a message of type `M` from `s`.
pub open spec fn field_step_outcome<M: Message>(s: Seq<u8>, depth: nat) -> (Result<(), DecodeError>, Seq<u8>) {
    match tag_result(s) {
        Err(e) => (Err(e), varint32_rest(s)),
        Ok((number, wire_type)) => M::field_outcome(number, wire_type, varint32_rest(s), depth),
    }
}

/// The message after reading one of its fields from `s` into `m`.
pub open spec fn field_step_model<M: Message>(m: M, s: Seq<u8>, depth: nat) -> M {
    match tag_result(s) {
        Err(_) => m,
        Ok((number, wire_type)) => m.merged(number, wire_type, varint32_rest(s), depth),
    }
}

impl<M: Message> MergeStep<M> for MessageFields {
    type Model = M;

    open spec fn model(value: M) -> M {
        value
    }

    open spec fn step_outcome(&self, s: Seq<u8>, depth: nat) -> (Result<(), DecodeError>, Seq<u8>) {
        field_step_outcome::<M>(s, depth)
    }

    open spec fn step_model(&self, m: M, s: Seq<u8>, depth: nat) -> M {
        field_step_model::<M>(m, s, depth)
    }

    fn merge_step(&self, msg: &mut M, buf: &mut ReadBuf, ctx: DecodeContext) -> (r: Result<
        (),
        DecodeError,
    >) {
        let ghost s0 = buf@;
        proof {
            lemma_varint32_rest_suffix(s0);
            lemma_varint32_rest_shrinks(s0);
        }
        let (number, wire_type) = decode_tag(buf)?;
        let ghost s1 = buf@;
        let r = msg.merge_field(number, wire_type, buf, ctx);
        proof {
            lemma_suffix_trans(buf@, s1, s0);
        }
        r
    }
}

/// Encodes one field: the key, the length, the body. The body is written
/// once, behind room kept for the length, which is filled in afterwards; the
/// body is then moved up to close the gap.
pub fn encode<M: Message>(number: u32, msg: &M, buf: &mut Vec<u8>)
    requires
        valid_field_number(number),
    ensures
        final(buf)@ == old(buf)@ + delimited_bytes(number as nat, msg.body()),
{
    encode_tag(number, WireType::LengthDelimited, buf);
    let ghost with_tag = buf@;
    let start = varint_usize::reserve_length_room(buf);
    let ghost with_room = buf@;
    msg.encode_raw(buf);
    let ghost body = msg.body();
    assert(buf@ == with_room + body);
    let body_len = buf.len() - start - varint_usize::LENGTH_ROOM;
    proof {
        assert(buf@.take(start as int) =~= with_tag);
        assert(buf@.skip(start + varint_usize::LENGTH_ROOM) =~= body);
    }
    varint_usize::close_length_room(buf, start, body_len);
    assert(final(buf)@ =~= old(buf)@ + delimited_bytes(number as nat, body)) by {
        assert(with_tag =~= old(buf)@ + tag_bytes(number as nat, WireType::LengthDelimited));
    }
}

/// What `merge` reads for a message field: the wire type must be
/// length-delimited and another level of nesting must be allowed; the body is
/// then decoded as `merge_loop` describes.
pub open spec fn merge_precheck(wire_type: WireType, ctx: DecodeContext) -> Result<(), DecodeError> {
    if wire_type != WireType::LengthDelimited {
        Err(DecodeError::UnexpectedWireType { actual: wire_type, expected: WireType::LengthDelimited })
    } else if ctx.depth() == 0 {
        Err(DecodeError::RecursionLimitReached)
    } else {
        Ok(())
    }
}

/// The outcome of reading a length-delimited body from `s` when the prefix
/// itself is at fault, or `None` when the prefix is sound.
pub open spec fn prefix_error(s: Seq<u8>) -> Option<(DecodeError, Seq<u8>)> {
    match varint_usize::decoded(s) {
        Err(e) => Some((e, varint_usize::rest(s))),
        Ok(len) => if len > varint_usize::rest(s).len() {
            Some((DecodeError::BufferUnderflow, varint_usize::rest(s)))
        } else {
            None
        },
    }
}

/// What decoding a message field of type `M` from `s` returns and leaves
/// unread, at nesting depth `depth`.
pub open spec fn merge_outcome<M: Message>(wire_type: WireType, s: Seq<u8>, depth: nat) -> (Result<
    (),
    DecodeError,
>, Seq<u8>) {
    if wire_type != WireType::LengthDelimited {
        (
            Err(DecodeError::UnexpectedWireType { actual: wire_type, expected: WireType::LengthDelimited }),
            s,
        )
    } else if depth == 0 {
        (Err(DecodeError::RecursionLimitReached), s)
    } else {
        region_outcome::<M, MessageFields>(MessageFields, s, (depth - 1) as nat)
    }
}

/// The message after decoding a message field from `s` into `m` at nesting
/// depth `depth`: unchanged when the wire type or the depth refuses it.
pub open spec fn merged<M: Message>(wire_type: WireType, m: M, s: Seq<u8>, depth: nat) -> M {
    if wire_type != WireType::LengthDelimited || depth == 0 {
        m
    } else {
        region_model::<M, MessageFields>(MessageFields, m, s, (depth - 1) as nat)
    }
}

/// Decodes a message field whose key has been read, merging its fields into
/// `msg`.
pub fn merge<M: Message>(wire_type: WireType, msg: &mut M, buf: &mut ReadBuf, ctx: DecodeContext) -> (r:
    Result<(), DecodeError>)
    ensures
        (r, final(buf)@) == merge_outcome::<M>(wire_type, old(buf)@, ctx.depth()),
        *final(msg) == merged::<M>(wire_type, *old(msg), old(buf)@, ctx.depth()),
        is_suffix(final(buf)@, old(buf)@),
        merge_precheck(wire_type, ctx) is Err ==> *final(msg) == *old(msg),
        merge_precheck(wire_type, ctx) is Ok && prefix_error(old(buf)@) is Some ==> *final(msg)
            == *old(msg),
{
    proof {
        lemma_suffix_refl(old(buf)@);
    }
    check_wire_type(WireType::LengthDelimited, wire_type)?;
    ctx.limit_reached()?;
    merge_loop(msg, buf, ctx.enter_recursion(), MessageFields)
}

/// Encodes every message as a field of its own.
pub fn encode_repeated<M: Message>(number: u32, messages: &[M], buf: &mut Vec<u8>)
    requires
        valid_field_number(number),
    ensures
        final(buf)@ == old(buf)@ + repeated_delimited(
            number as nat,
            messages@.map_values(|m: M| m.body()),
        ),
{
    let ghost bodies = messages@.map_values(|m: M| m.body());
    let mut i: usize = 0;
    while i < messages.len()
        invariant
            valid_field_number(number),
            i <= messages@.len(),
            bodies == messages@.map_values(|m: M| m.body()),
            buf@ == old(buf)@ + repeated_delimited(number as nat, bodies.take(i as int)),
        decreases messages@.len() - i,
    {
        encode(number, &messages[i], buf);
        assert(bodies.take(i + 1int).drop_last() =~= bodies.take(i as int));
        assert(buf@ =~= old(buf)@ + repeated_delimited(number as nat, bodies.take(i + 1int)));
        i += 1;
    }
    assert(bodies.take(messages@.len() as int) =~= bodies);
}

/// Decodes one more element of a repeated message field and appends it; on
/// error nothing is appended.
pub fn merge_repeated<M: Message + Default>(
    wire_type: WireType,
    messages: &mut Vec<M>,
    buf: &mut ReadBuf,
    ctx: DecodeContext,
) -> (r: Result<(), DecodeError>)
    ensures
        (r, final(buf)@) == merge_outcome::<M>(wire_type, old(buf)@, ctx.depth()),
        is_suffix(final(buf)@, old(buf)@),
        r is Ok ==> final(messages)@.len() == old(messages)@.len() + 1 && final(messages)@.drop_last()
            == old(messages)@,
        r is Ok ==> exists|m: M|
            #![trigger call_ensures(M::default, (), m)]
            call_ensures(M::default, (), m) && final(messages)@.last() == merged::<M>(
                wire_type,
                m,
                old(buf)@,
                ctx.depth(),
            ),
        r is Err ==> final(messages)@ == old(messages)@,
{
    proof {
        lemma_suffix_refl(old(buf)@);
    }
    check_wire_type(WireType::LengthDelimited, wire_type)?;
    let mut msg = M::default();
    let ghost m0 = msg;
    merge(WireType::LengthDelimited, &mut msg, buf, ctx)?;
    messages.push(msg);
    assert(messages@.drop_last() =~= old(messages)@);
    assert(call_ensures(M::default, (), m0));
    assert(messages@.last() == merged::<M>(wire_type, m0, old(buf)@, ctx.depth()));
    Ok(())
}

/// Length of one encoded field.
pub fn encoded_len<M: Message>(number: u32, msg: &M) -> (n: usize)
    requires
        valid_field_number(number),
        delimited_bytes(number as nat, msg.body()).len() <= usize::MAX,
    ensures
        n == delimited_bytes(number as nat, msg.body()).len(),
{
    let len = msg.encoded_len();
    tag_len(number) + varint_usize::encoded_len_varint(len) + len
}

/// Length of the encoding of `messages`, one field each.
pub fn encoded_len_repeated<M: Message>(number: u32, messages: &[M]) -> (n: usize)
    requires
        valid_field_number(number),
        repeated_delimited(number as nat, messages@.map_values(|m: M| m.body())).len()
            <= usize::MAX,
    ensures
        n == repeated_delimited(number as nat, messages@.map_values(|m: M| m.body())).len(),
{
    let ghost bodies = messages@.map_values(|m: M| m.body());
    let mut total: usize = 0;
    let mut i: usize = 0;
    while i < messages.len()
        invariant
            valid_field_number(number),
            i <= messages@.len(),
            bodies == messages@.map_values(|m: M| m.body()),
            total == repeated_delimited(number as nat, bodies.take(i as int)).len(),
            repeated_delimited(number as nat, bodies).len() <= usize::MAX,
        decreases messages@.len() - i,
    {
        assert(bodies.take(i + 1int).drop_last() =~= bodies.take(i as int));
        proof {
            lemma_repeated_prefix(number as nat, bodies, (i + 1) as nat);
        }
        let len = messages[i].encoded_len();
        total = total + tag_len(number) + varint_usize::encoded_len_varint(len) + len;
        i += 1;
    }
    assert(bodies.take(messages@.len() as int) =~= bodies);
    total
}

/// A message field takes its key, the varint of the body length and the
/// body, whatever the length of the body.
pub proof fn lemma_field_len(number: nat, body: Seq<u8>)
    ensures
        delimited_bytes(number, body).len() == varint_bytes(number * 8).len() + varint_bytes(
            body.len(),
        ).len() + body.len(),
{
    crate::encoding::lemma_tag_len(number, WireType::LengthDelimited);
}

} // verus!
