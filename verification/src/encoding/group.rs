//! Fields that hold a message as a group: its fields between a start-group
//! and an end-group key.

use crate::buf::ReadBuf;
use crate::encoding::{
    decode_tag, encode_tag, is_suffix, lemma_suffix_refl, lemma_suffix_trans, lemma_varint32_rest_shrinks,
    lemma_varint32_rest_suffix, tag_bytes, tag_len, tag_result, valid_field_number, DecodeContext,
};
use crate::error::DecodeError;
use crate::message::Message;
use crate::varint::varint32_rest;
use crate::wire_type::{check_wire_type, WireType};
use vstd::prelude::*;

verus! {

/// The bytes of a group field with the given body.
pub open spec fn group_bytes(number: nat, body: Seq<u8>) -> Seq<u8> {
    tag_bytes(number, WireType::StartGroup) + body + tag_bytes(number, WireType::EndGroup)
}

/// The bytes of a repeated group field, one group per body.
pub open spec fn repeated_groups(number: nat, bodies: Seq<Seq<u8>>) -> Seq<u8>
    decreases bodies.len(),
{
    if bodies.len() == 0 {
        Seq::<u8>::empty()
    } else {
        repeated_groups(number, bodies.drop_last()) + group_bytes(number, bodies.last())
    }
}

/// `s` holds, at offset `k`, the end-group key of field `number`, and `rest`
/// is what follows that key.
pub open spec fn ends_group_at(s: Seq<u8>, k: int, number: u32, rest: Seq<u8>) -> bool {
    &&& 0 <= k <= s.len()
    &&& tag_result(s.skip(k)) == Ok::<(u32, WireType), DecodeError>((number, WireType::EndGroup))
    &&& rest == varint32_rest(s.skip(k))
}

/// The outcome of reading the fields of a group of type `M` from `s` up to
/// its end key: the result and what is left unread.
pub open spec fn group_outcome<M: Message>(number: u32, s: Seq<u8>, depth: nat) -> (Result<
    (),
    DecodeError,
>, Seq<u8>)
    decreases s.len(),
{
    match tag_result(s) {
        Err(e) => (Err(e), varint32_rest(s)),
        Ok((n, w)) => {
            let s1 = varint32_rest(s);
            if w == WireType::EndGroup {
                if n != number {
                    (Err(DecodeError::UnexpectedEndGroupTag), s1)
                } else {
                    (Ok(()), s1)
                }
            } else {
                let (r, s2) = M::field_outcome(n, w, s1, (depth - 1) as nat);
                match r {
                    Err(e) => (Err(e), s2),
                    Ok(()) => if s2.len() < s.len() {
                        group_outcome::<M>(number, s2, depth)
                    } else {
                        (Ok(()), s2)
                    },
                }
            }
        },
    }
}

/// The message after reading the fields of a group from `s` into `m`, up to
/// its end key or the first field that fails.
pub open spec fn group_model<M: Message>(number: u32, m: M, s: Seq<u8>, depth: nat) -> M
    decreases s.len(),
{
    match tag_result(s) {
        Err(_) => m,
        Ok((n, w)) => {
            let s1 = varint32_rest(s);
            if w == WireType::EndGroup {
                m
            } else {
                let (r, s2) = M::field_outcome(n, w, s1, (depth - 1) as nat);
                let m1 = m.merged(n, w, s1, (depth - 1) as nat);
                match r {
                    Err(_) => m1,
                    Ok(()) => if s2.len() < s.len() {
                        group_model::<M>(number, m1, s2, depth)
                    } else {
                        m1
                    },
                }
            }
        },
    }
}

/// The message after decoding a group field from `s` into `m` at nesting
/// depth `depth`: unchanged when the wire type or the depth refuses it.
pub open spec fn merged<M: Message>(number: u32, wire_type: WireType, m: M, s: Seq<u8>, depth: nat) -> M {
    if wire_type != WireType::StartGroup || depth == 0 {
        m
    } else {
        group_model::<M>(number, m, s, depth)
    }
}

/// What decoding a group field of type `M` from `s` returns and leaves
/// unread, at nesting depth `depth`.
pub open spec fn merge_outcome<M: Message>(number: u32, wire_type: WireType, s: Seq<u8>, depth: nat) -> (Result<
    (),
    DecodeError,
>, Seq<u8>) {
    if wire_type != WireType::StartGroup {
        (Err(DecodeError::UnexpectedWireType { actual: wire_type, expected: WireType::StartGroup }), s)
    } else if depth == 0 {
        (Err(DecodeError::RecursionLimitReached), s)
    } else {
        group_outcome::<M>(number, s, depth)
    }
}

/// Encodes one group: the start key, the fields, the end key.
pub fn encode<M: Message>(number: u32, msg: &M, buf: &mut Vec<u8>)
    requires
        valid_field_number(number),
    ensures
        final(buf)@ == old(buf)@ + group_bytes(number as nat, msg.body()),
{
    encode_tag(number, WireType::StartGroup, buf);
    msg.encode_raw(buf);
    encode_tag(number, WireType::EndGroup, buf);
    assert(final(buf)@ =~= old(buf)@ + group_bytes(number as nat, msg.body()));
}

/// Decodes the fields of a group whose start key has been read, up to and
/// including its end key, merging them into `msg`.
pub fn merge<M: Message>(number: u32, wire_type: WireType, msg: &mut M, buf: &mut ReadBuf, ctx: DecodeContext) -> (r:
    Result<(), DecodeError>)
    ensures
        is_suffix(final(buf)@, old(buf)@),
        wire_type != WireType::StartGroup ==> r == Err::<(), DecodeError>(
            DecodeError::UnexpectedWireType { actual: wire_type, expected: WireType::StartGroup },
        ) && final(buf)@ == old(buf)@ && *final(msg) == *old(msg),
        wire_type == WireType::StartGroup && ctx.depth() == 0 ==> r == Err::<(), DecodeError>(
            DecodeError::RecursionLimitReached,
        ) && final(buf)@ == old(buf)@ && *final(msg) == *old(msg),
        r is Ok ==> exists|k: int| ends_group_at(old(buf)@, k, number, final(buf)@),
        (r, final(buf)@) == merge_outcome::<M>(number, wire_type, old(buf)@, ctx.depth()),
        *final(msg) == merged::<M>(number, wire_type, *old(msg), old(buf)@, ctx.depth()),
{
    proof {
        lemma_suffix_refl(old(buf)@);
    }
    check_wire_type(WireType::StartGroup, wire_type)?;
    ctx.limit_reached()?;
    let ghost s0 = buf@;
    let ghost d = ctx.depth();
    let ghost m0 = *msg;
    let mut result: Result<(), DecodeError> = Ok(());
    loop
        invariant_except_break
            result == Ok::<(), DecodeError>(()),
            ctx.depth() > 0,
            group_outcome::<M>(number, buf@, d) == group_outcome::<M>(number, s0, d),
            group_model::<M>(number, *msg, buf@, d) == group_model::<M>(number, m0, s0, d),
        invariant
            is_suffix(buf@, s0),
            d == ctx.depth(),
        ensures
            is_suffix(buf@, s0),
            result is Ok ==> exists|k: int| ends_group_at(s0, k, number, buf@),
            (result, buf@) == group_outcome::<M>(number, s0, d),
            *msg == group_model::<M>(number, m0, s0, d),
        decreases buf@.len(),
    {
        let ghost s = buf@;
        proof {
            lemma_varint32_rest_suffix(s);
            lemma_varint32_rest_shrinks(s);
            lemma_suffix_trans(varint32_rest(s), s, s0);
        }
        let tag = decode_tag(buf);
        match tag {
            Err(e) => {
                result = Err(e);
                break ;
            },
            Ok((field_number, field_wire_type)) => {
                assert(tag_result(s) == Ok::<(u32, WireType), DecodeError>((field_number, field_wire_type)));
                if field_wire_type == WireType::EndGroup {
                    assert(group_outcome::<M>(number, s, d) == (
                        if field_number != number {
                            Err::<(), DecodeError>(DecodeError::UnexpectedEndGroupTag)
                        } else {
                            Ok(())
                        },
                        buf@,
                    ));
                    if field_number != number {
                        result = Err(DecodeError::UnexpectedEndGroupTag);
                    } else {
                        proof {
                            let k = s0.len() - s.len();
                            assert(s0.skip(k) == s);
                            assert(ends_group_at(s0, k, number, buf@));
                        }
                    }
                    break ;
                }
                let ghost s1 = buf@;
                let field = msg.merge_field(field_number, field_wire_type, buf, ctx.enter_recursion());
                proof {
                    lemma_suffix_trans(buf@, s1, s0);
                }
                if let Err(e) = field {
                    result = Err(e);
                    break ;
                }
            },
        }
    }
    result
}

/// Encodes every message as a group of its own.
pub fn encode_repeated<M: Message>(number: u32, messages: &[M], buf: &mut Vec<u8>)
    requires
        valid_field_number(number),
    ensures
        final(buf)@ == old(buf)@ + repeated_groups(number as nat, messages@.map_values(|m: M| m.body())),
{
    let ghost bodies = messages@.map_values(|m: M| m.body());
    let mut i: usize = 0;
    while i < messages.len()
        invariant
            valid_field_number(number),
            i <= messages@.len(),
            bodies == messages@.map_values(|m: M| m.body()),
            buf@ == old(buf)@ + repeated_groups(number as nat, bodies.take(i as int)),
        decreases messages@.len() - i,
    {
        encode(number, &messages[i], buf);
        assert(bodies.take(i + 1int).drop_last() =~= bodies.take(i as int));
        assert(buf@ =~= old(buf)@ + repeated_groups(number as nat, bodies.take(i + 1int)));
        i += 1;
    }
    assert(bodies.take(messages@.len() as int) =~= bodies);
}

/// Decodes one more group of a repeated group field and appends it; on error
/// nothing is appended.
pub fn merge_repeated<M: Message + Default>(
    number: u32,
    wire_type: WireType,
    messages: &mut Vec<M>,
    buf: &mut ReadBuf,
    ctx: DecodeContext,
) -> (r: Result<(), DecodeError>)
    ensures
        is_suffix(final(buf)@, old(buf)@),
        wire_type != WireType::StartGroup ==> r == Err::<(), DecodeError>(
            DecodeError::UnexpectedWireType { actual: wire_type, expected: WireType::StartGroup },
        ) && final(buf)@ == old(buf)@,
        wire_type == WireType::StartGroup && ctx.depth() == 0 ==> r == Err::<(), DecodeError>(
            DecodeError::RecursionLimitReached,
        ) && final(buf)@ == old(buf)@,
        r is Ok ==> exists|k: int| ends_group_at(old(buf)@, k, number, final(buf)@),
        (r, final(buf)@) == merge_outcome::<M>(number, wire_type, old(buf)@, ctx.depth()),
        r is Ok ==> final(messages)@.len() == old(messages)@.len() + 1 && final(messages)@.drop_last()
            == old(messages)@,
        r is Ok ==> exists|m: M|
            #![trigger call_ensures(M::default, (), m)]
            call_ensures(M::default, (), m) && final(messages)@.last() == merged::<M>(
                number,
                wire_type,
                m,
                old(buf)@,
                ctx.depth(),
            ),
        r is Err ==> final(messages)@ == old(messages)@,
{
    proof {
        lemma_suffix_refl(old(buf)@);
    }
    check_wire_type(WireType::StartGroup, wire_type)?;
    let mut msg = M::default();
    let ghost m0 = msg;
    merge(number, WireType::StartGroup, &mut msg, buf, ctx)?;
    messages.push(msg);
    assert(messages@.drop_last() =~= old(messages)@);
    assert(call_ensures(M::default, (), m0));
    assert(messages@.last() == merged::<M>(number, wire_type, m0, old(buf)@, ctx.depth()));
    Ok(())
}

/// Length of one encoded group.
pub fn encoded_len<M: Message>(number: u32, msg: &M) -> (n: usize)
    requires
        valid_field_number(number),
        group_bytes(number as nat, msg.body()).len() <= usize::MAX,
    ensures
        n == group_bytes(number as nat, msg.body()).len(),
{
    2 * tag_len(number) + msg.encoded_len()
}

proof fn lemma_groups_prefix(number: nat, bodies: Seq<Seq<u8>>, n: nat)
    requires
        n <= bodies.len(),
    ensures
        repeated_groups(number, bodies.take(n as int)).len() <= repeated_groups(number, bodies).len(),
    decreases bodies.len() - n,
{
    if n < bodies.len() {
        lemma_groups_prefix(number, bodies, n + 1);
        assert(bodies.take(n + 1int).drop_last() =~= bodies.take(n as int));
    } else {
        assert(bodies.take(n as int) =~= bodies);
    }
}

/// Length of the encoding of `messages`, one group each.
pub fn encoded_len_repeated<M: Message>(number: u32, messages: &[M]) -> (n: usize)
    requires
        valid_field_number(number),
        repeated_groups(number as nat, messages@.map_values(|m: M| m.body())).len() <= usize::MAX,
    ensures
        n == repeated_groups(number as nat, messages@.map_values(|m: M| m.body())).len(),
{
    let ghost bodies = messages@.map_values(|m: M| m.body());
    let mut total: usize = 0;
    let mut i: usize = 0;
    while i < messages.len()
        invariant
            valid_field_number(number),
            i <= messages@.len(),
            bodies == messages@.map_values(|m: M| m.body()),
            total == repeated_groups(number as nat, bodies.take(i as int)).len(),
            repeated_groups(number as nat, bodies).len() <= usize::MAX,
        decreases messages@.len() - i,
    {
        assert(bodies.take(i + 1int).drop_last() =~= bodies.take(i as int));
        proof {
            lemma_groups_prefix(number as nat, bodies, (i + 1) as nat);
        }
        total = total + 2 * tag_len(number) + messages[i].encoded_len();
        i += 1;
    }
    assert(bodies.take(messages@.len() as int) =~= bodies);
    total
}

/// A group field takes its start key, the body and its end key, the two keys
/// being of the same length, whatever the length of the body.
pub proof fn lemma_group_len(number: nat, body: Seq<u8>)
    ensures
        group_bytes(number, body).len() == 2 * crate::varint::varint_bytes(number * 8).len() + body.len(),
{
    crate::encoding::lemma_tag_len(number, WireType::StartGroup);
    crate::encoding::lemma_tag_len(number, WireType::EndGroup);
}

} // verus!
