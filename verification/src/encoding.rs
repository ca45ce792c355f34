//! Field-level protobuf encoding: tags, skipping unknown fields, and the
//! per-type encoders and decoders.

use crate::buf::ReadBuf;
use crate::error::DecodeError;
use crate::varint::usize as varint_usize;
use crate::varint::{
    varint64_rest, varint64_result,
    decode_varint32, encode_varint32, encoded_len_varint32, lemma_varint_bytes_facts,
    varint32_rest, varint32_result, varint_bytes,
};
use crate::wire_type::{wire_type_number, wire_type_of, WireType};
use vstd::prelude::*;

pub mod bool;
pub mod btree_map;
pub mod bytes;
pub mod codec;
pub mod group;
pub mod hash_map;
pub mod message;
pub mod enum_value;
pub mod fixed32;
pub mod fixed64;
pub mod int32;
pub mod int64;
pub mod sfixed32;
pub mod sfixed64;
pub mod sint32;
pub mod sint64;
pub mod string;
pub mod uint32;
pub mod uint64;

verus! {

/// How deep messages and groups may nest while decoding.
pub const RECURSION_LIMIT: u32 = 100;

/// The largest field number a tag can carry.
pub const MAX_FIELD_NUMBER: u32 = 0x1fff_ffff;

/// Information handed down to every decoder: how many more levels of nesting
/// are allowed.
#[derive(Debug)]
pub struct DecodeContext {
    recurse_count: u32,
}

impl DecodeContext {
    /// Levels of nesting still allowed.
    pub closed spec fn depth(self) -> nat {
        self.recurse_count as nat
    }

    /// A context at the top level: the full recursion limit is available.
    pub fn new() -> (r: DecodeContext)
        ensures
            r.depth() == RECURSION_LIMIT,
    {
        DecodeContext { recurse_count: RECURSION_LIMIT }
    }

    /// The context for decoding one level further down.
    pub fn enter_recursion(&self) -> (r: DecodeContext)
        requires
            self.depth() > 0,
        ensures
            r.depth() == self.depth() - 1,
    {
        DecodeContext { recurse_count: self.recurse_count - 1 }
    }

    /// `Ok` while another level of nesting is allowed, an error once the limit
    /// is reached.
    pub fn limit_reached(&self) -> (r: Result<(), DecodeError>)
        ensures
            r == limit_outcome(self.depth()),
    {
        if self.recurse_count == 0 {
            Err(DecodeError::RecursionLimitReached)
        } else {
            Ok(())
        }
    }
}

impl Clone for DecodeContext {
    fn clone(&self) -> (r: DecodeContext)
        ensures
            r.depth() == self.depth(),
    {
        DecodeContext { recurse_count: self.recurse_count }
    }
}

/// What `limit_reached` answers at nesting depth `depth`.
pub open spec fn limit_outcome(depth: nat) -> Result<(), DecodeError> {
    if depth == 0 {
        Err(DecodeError::RecursionLimitReached)
    } else {
        Ok(())
    }
}

/// The depth left after entering `k` levels from a fresh context, one
/// `enter_recursion` at a time.
pub open spec fn entered_depth(k: nat) -> int
    decreases k,
{
    if k == 0 {
        RECURSION_LIMIT as int
    } else {
        entered_depth((k - 1) as nat) - 1
    }
}

/// From a fresh context, `k` calls of `enter_recursion` (each one allowed
/// while the depth is above zero) leave `RECURSION_LIMIT - k` levels, and
/// `limit_reached` refuses exactly after `RECURSION_LIMIT` of them.
pub proof fn lemma_recursion_limit(k: nat)
    requires
        k <= RECURSION_LIMIT,
    ensures
        entered_depth(k) == RECURSION_LIMIT - k,
        k < RECURSION_LIMIT ==> entered_depth(k) > 0,
        (limit_outcome(entered_depth(k) as nat) == Err::<(), DecodeError>(DecodeError::RecursionLimitReached))
            <==> k == RECURSION_LIMIT,
        k < RECURSION_LIMIT ==> limit_outcome(entered_depth(k) as nat) == Ok::<(), DecodeError>(()),
    decreases k,
{
    if k > 0 {
        lemma_recursion_limit((k - 1) as nat);
    }
}

impl Default for DecodeContext {
    fn default() -> (r: DecodeContext)
        ensures
            r.depth() == RECURSION_LIMIT,
    {
        DecodeContext::new()
    }
}

/// The tag value of a field: its number shifted past the three wire-type bits.
pub open spec fn tag_value(number: nat, wire_type: WireType) -> nat {
    number * 8 + wire_type_number(wire_type)
}

/// The bytes of a field's key.
pub open spec fn tag_bytes(number: nat, wire_type: WireType) -> Seq<u8> {
    varint_bytes(tag_value(number, wire_type))
}

/// Whether `number` is a valid field number.
pub open spec fn valid_field_number(number: u32) -> bool {
    1 <= number <= MAX_FIELD_NUMBER
}

/// Encodes a field key: the field number and the wire type.
pub fn encode_tag(number: u32, wire_type: WireType, buf: &mut Vec<u8>)
    requires
        valid_field_number(number),
    ensures
        final(buf)@ == old(buf)@ + tag_bytes(number as nat, wire_type),
{
    let w = wire_type.number();
    assert((number << 3u32) | w == number * 8 + w) by (bit_vector)
        requires
            number <= 0x1fff_ffff,
            w <= 5,
    ;
    let tag = (number << 3) | w;
    encode_varint32(tag, buf);
}

/// What `decode_tag` returns on input `s`.
pub open spec fn tag_result(s: Seq<u8>) -> Result<(u32, WireType), DecodeError> {
    match varint32_result(s) {
        Ok(tag) => match wire_type_of(tag as nat % 8) {
            Some(w) => if tag / 8 == 0 {
                Err(DecodeError::InvalidFieldNumber)
            } else {
                Ok(((tag / 8) as u32, w))
            },
            None => Err(DecodeError::InvalidWireType { value: (tag % 8) as u32 }),
        },
        Err(e) => Err(e),
    }
}

/// Decodes a field key into its field number and wire type.
pub fn decode_tag(buf: &mut ReadBuf) -> (r: Result<(u32, WireType), DecodeError>)
    ensures
        r == tag_result(old(buf)@),
        final(buf)@ == varint32_rest(old(buf)@),
{
    let tag = decode_varint32(buf)?;
    let (wire_type, number) = WireType::try_from_tag(tag)?;
    if number != 0 {
        Ok((number, wire_type))
    } else {
        Err(DecodeError::InvalidFieldNumber)
    }
}

proof fn lemma_varint_len_div128(a: nat, b: nat)
    requires
        a / 128 == b / 128,
    ensures
        varint_bytes(a).len() == varint_bytes(b).len(),
{
    if a >= 128 && b < 128 {
        assert(a / 128 >= 1);
    }
    if b >= 128 && a < 128 {
        assert(b / 128 >= 1);
    }
}

/// The wire type bits never change the length of a key.
pub proof fn lemma_tag_len(number: nat, wire_type: WireType)
    ensures
        tag_bytes(number, wire_type).len() == varint_bytes(number * 8).len(),
{
    lemma_varint_len_div128(tag_value(number, wire_type), number * 8);
}

/// Width of the key of field `number` (1 to 5 bytes).
pub fn tag_len(number: u32) -> (n: usize)
    requires
        valid_field_number(number),
    ensures
        n == varint_bytes(number as nat * 8).len(),
        forall|w: WireType| n == #[trigger] tag_bytes(number as nat, w).len(),
        1 <= n <= 5,
{
    assert(number << 3u32 == number * 8) by (bit_vector)
        requires
            number <= 0x1fff_ffff,
    ;
    proof {
        assert forall|w: WireType| varint_bytes(number as nat * 8).len() == #[trigger] tag_bytes(
            number as nat,
            w,
        ).len() by {
            lemma_tag_len(number as nat, w);
        }
    }
    encoded_len_varint32(number << 3)
}


/// Skipping a fixed number of bytes: an error when fewer remain.
pub open spec fn skip_len(len: nat, s: Seq<u8>) -> (Result<(), DecodeError>, Seq<u8>) {
    if len > s.len() {
        (Err(DecodeError::BufferUnderflow), s)
    } else {
        (Ok(()), s.skip(len as int))
    }
}

/// Outcome of skipping the payload of a field of wire type `wire_type` and
/// number `number` with `depth` levels of nesting allowed: the result and
/// what is left unread.
pub open spec fn skip_spec(wire_type: WireType, number: u32, s: Seq<u8>, depth: nat) -> (Result<
    (),
    DecodeError,
>, Seq<u8>)
    decreases depth, s.len(), 1nat,
{
    if depth == 0 {
        (Err(DecodeError::RecursionLimitReached), s)
    } else {
        match wire_type {
            WireType::Varint => match varint64_result(s) {
                Ok(_) => (Ok(()), varint64_rest(s)),
                Err(e) => (Err(e), varint64_rest(s)),
            },
            WireType::ThirtyTwoBit => skip_len(4, s),
            WireType::SixtyFourBit => skip_len(8, s),
            WireType::LengthDelimited => match varint64_result(s) {
                Ok(len) => skip_len((len as usize) as nat, varint64_rest(s)),
                Err(e) => (Err(e), varint64_rest(s)),
            },
            WireType::StartGroup => skip_group_spec(number, s, depth),
            WireType::EndGroup => (Err(DecodeError::UnexpectedEndGroupTag), s),
        }
    }
}

/// Outcome of skipping the fields of a group up to its end tag, which must
/// carry the group's own number.
pub open spec fn skip_group_spec(number: u32, s: Seq<u8>, depth: nat) -> (Result<
    (),
    DecodeError,
>, Seq<u8>)
    decreases depth, s.len(), 0nat,
{
    match tag_result(s) {
        Err(e) => (Err(e), varint32_rest(s)),
        Ok((n, w)) => {
            let s1 = varint32_rest(s);
            if w == WireType::EndGroup {
                if n != number {
                    (Err(DecodeError::UnexpectedEndGroupTag), s1)
                } else {
                    (Ok(()), s1)
                }
            } else if depth == 0 {
                (Err(DecodeError::RecursionLimitReached), s1)
            } else {
                let inner = skip_spec(w, n, s1, (depth - 1) as nat);
                match inner.0 {
                    Err(e) => (Err(e), inner.1),
                    Ok(()) => if inner.1.len() < s.len() {
                        skip_group_spec(number, inner.1, depth)
                    } else {
                        (Ok(()), inner.1)
                    },
                }
            }
        }
    }
}

pub(crate) proof fn lemma_varint32_rest_shrinks(s: Seq<u8>)
    ensures
        varint32_rest(s).len() <= s.len(),
        varint32_result(s) is Ok ==> varint32_rest(s).len() < s.len(),
{
    crate::varint::lemma_decode32_span(s);
}

proof fn lemma_varint64_rest_shrinks(s: Seq<u8>)
    ensures
        varint64_rest(s).len() <= s.len(),
{
    crate::varint::lemma_decode64_span(s);
}

proof fn lemma_skip_shrinks(wire_type: WireType, number: u32, s: Seq<u8>, depth: nat)
    ensures
        skip_spec(wire_type, number, s, depth).1.len() <= s.len(),
    decreases depth, s.len(), 1nat,
{
    lemma_varint64_rest_shrinks(s);
    if depth > 0 && wire_type == WireType::StartGroup {
        lemma_group_shrinks(number, s, depth);
    }
}

proof fn lemma_group_shrinks(number: u32, s: Seq<u8>, depth: nat)
    ensures
        skip_group_spec(number, s, depth).1.len() <= s.len(),
    decreases depth, s.len(), 0nat,
{
    lemma_varint32_rest_shrinks(s);
    match tag_result(s) {
        Err(e) => {},
        Ok((n, w)) => {
            let s1 = varint32_rest(s);
            if w != WireType::EndGroup && depth > 0 {
                lemma_skip_shrinks(w, n, s1, (depth - 1) as nat);
                let inner = skip_spec(w, n, s1, (depth - 1) as nat);
                if inner.0 is Ok && inner.1.len() < s.len() {
                    lemma_group_shrinks(number, inner.1, depth);
                }
            }
        },
    }
}

/// Skips the payload of a field whose tag has been read: a varint, four or
/// eight bytes, a length-delimited run, or a whole group.
pub fn skip_field(wire_type: WireType, number: u32, buf: &mut ReadBuf, ctx: DecodeContext) -> (r:
    Result<(), DecodeError>)
    ensures
        (r, final(buf)@) == skip_spec(wire_type, number, old(buf)@, ctx.depth()),
    decreases ctx.depth(), 1nat,
{
    ctx.limit_reached()?;
    let len: usize = match wire_type {
        WireType::Varint => {
            varint_usize::decode_varint(buf)?;
            0
        },
        WireType::ThirtyTwoBit => 4,
        WireType::SixtyFourBit => 8,
        WireType::LengthDelimited => varint_usize::decode_varint(buf)?,
        WireType::StartGroup => {
            return skip_group(number, buf, &ctx);
        },
        WireType::EndGroup => {
            return Err(DecodeError::UnexpectedEndGroupTag);
        },
    };
    if len > buf.remaining() {
        return Err(DecodeError::BufferUnderflow);
    }
    buf.advance(len);
    Ok(())
}

/// Skips the fields of a group until its end tag.
fn skip_group(number: u32, buf: &mut ReadBuf, ctx: &DecodeContext) -> (r: Result<(), DecodeError>)
    requires
        ctx.depth() > 0,
    ensures
        (r, final(buf)@) == skip_group_spec(number, old(buf)@, ctx.depth()),
    decreases ctx.depth(), 0nat,
{
    let ghost s0 = old(buf)@;
    let ghost d = ctx.depth();
    let mut result: Result<(), DecodeError> = Ok(());
    loop
        invariant_except_break
            d == ctx.depth(),
            d > 0,
            skip_group_spec(number, buf@, d) == skip_group_spec(number, s0, d),
            result == Ok::<(), DecodeError>(()),
        ensures
            (result, buf@) == skip_group_spec(number, s0, d),
        decreases buf@.len(),
    {
        let ghost s = buf@;
        let tag = decode_tag(buf);
        match tag {
            Err(e) => {
                result = Err(e);
                break ;
            },
            Ok((inner_number, inner_wire_type)) => {
                if inner_wire_type == WireType::EndGroup {
                    if inner_number != number {
                        result = Err(DecodeError::UnexpectedEndGroupTag);
                    }
                    break ;
                }
                let ghost s1 = buf@;
                let inner = skip_field(inner_wire_type, inner_number, buf, ctx.enter_recursion());
                proof {
                    lemma_varint32_rest_shrinks(s);
                    lemma_skip_shrinks(inner_wire_type, inner_number, s1, (d - 1) as nat);
                }
                if let Err(e) = inner {
                    result = Err(e);
                    break ;
                }
            },
        }
    }
    result
}


/// `a` is what is left of `b` once some of its front has been read.
pub open spec fn is_suffix(a: Seq<u8>, b: Seq<u8>) -> bool {
    a.len() <= b.len() && a == b.skip(b.len() - a.len())
}

/// Reading nothing leaves the whole input.
pub proof fn lemma_suffix_refl(s: Seq<u8>)
    ensures
        is_suffix(s, s),
{
    assert(s.skip(0) =~= s);
}

/// Reading from what was left of a read leaves a suffix of the first input.
pub proof fn lemma_suffix_trans(a: Seq<u8>, b: Seq<u8>, c: Seq<u8>)
    requires
        is_suffix(a, b),
        is_suffix(b, c),
    ensures
        is_suffix(a, c),
{
    assert(a =~= c.skip(c.len() - a.len()));
}

/// Decoding a 32-bit varint, a field key in particular, leaves a suffix of
/// its input.
pub proof fn lemma_varint32_rest_suffix(s: Seq<u8>)
    ensures
        is_suffix(varint32_rest(s), s),
{
    crate::varint::lemma_decode32_span(s);
    if varint32_rest(s).len() == 0 {
        assert(varint32_rest(s) =~= s.skip(s.len() as int));
    } else if varint32_rest(s).len() == s.len() {
        assert(s =~= s.skip(0));
    }
}

/// Decoding a length prefix leaves a suffix of its input.
pub proof fn lemma_varint64_rest_suffix(s: Seq<u8>)
    ensures
        is_suffix(varint64_rest(s), s),
{
    crate::varint::lemma_decode64_span(s);
    if varint64_rest(s).len() == 0 {
        assert(varint64_rest(s) =~= s.skip(s.len() as int));
    } else if varint64_rest(s).len() == s.len() {
        assert(s =~= s.skip(0));
    }
}

/// Skipping a field leaves a suffix of its input.
pub proof fn lemma_skip_suffix(wire_type: WireType, number: u32, s: Seq<u8>, depth: nat)
    ensures
        is_suffix(skip_spec(wire_type, number, s, depth).1, s),
    decreases depth, s.len(), 1nat,
{
    lemma_suffix_refl(s);
    lemma_varint64_rest_suffix(s);
    if depth > 0 {
        match wire_type {
            WireType::ThirtyTwoBit => {
                if s.len() >= 4 {
                    assert(s.skip(4) =~= s.skip(s.len() - s.skip(4).len()));
                }
            },
            WireType::SixtyFourBit => {
                if s.len() >= 8 {
                    assert(s.skip(8) =~= s.skip(s.len() - s.skip(8).len()));
                }
            },
            WireType::LengthDelimited => {
                let s1 = varint64_rest(s);
                if let Ok(len) = varint64_result(s) {
                    let n = (len as usize) as nat;
                    if n <= s1.len() {
                        assert(s1.skip(n as int) =~= s1.skip(s1.len() - s1.skip(n as int).len()));
                        lemma_suffix_trans(s1.skip(n as int), s1, s);
                    }
                }
            },
            WireType::StartGroup => {
                lemma_group_suffix(number, s, depth);
            },
            _ => {},
        }
    }
}

/// Skipping the rest of a group leaves a suffix of its input.
pub proof fn lemma_group_suffix(number: u32, s: Seq<u8>, depth: nat)
    ensures
        is_suffix(skip_group_spec(number, s, depth).1, s),
    decreases depth, s.len(), 0nat,
{
    lemma_varint32_rest_suffix(s);
    lemma_varint32_rest_shrinks(s);
    match tag_result(s) {
        Err(e) => {},
        Ok((n, w)) => {
            let s1 = varint32_rest(s);
            if w != WireType::EndGroup && depth > 0 {
                lemma_skip_suffix(w, n, s1, (depth - 1) as nat);
                let inner = skip_spec(w, n, s1, (depth - 1) as nat);
                lemma_suffix_trans(inner.1, s1, s);
                if inner.0 is Ok && inner.1.len() < s.len() {
                    lemma_group_suffix(number, inner.1, depth);
                    lemma_suffix_trans(skip_group_spec(number, inner.1, depth).1, inner.1, s);
                }
            }
        },
    }
}

/// One step of a loop that decodes a length-delimited region: it reads from
/// the front of `buf` into `value`, and reads at least one byte whenever it
/// succeeds. What it reads and whether it fails depends on the bytes and the
/// nesting depth alone.
pub trait MergeStep<T> {
    /// What a value being decoded is taken as in contracts.
    type Model;

    /// The model of `value`.
    spec fn model(value: T) -> Self::Model;

    /// The outcome of one step on input `s` at nesting depth `depth`: the
    /// result and what is left unread.
    spec fn step_outcome(&self, s: Seq<u8>, depth: nat) -> (Result<(), DecodeError>, Seq<u8>);

    /// The model of the value after one step on input `s`, from a value whose
    /// model is `m`.
    spec fn step_model(&self, m: Self::Model, s: Seq<u8>, depth: nat) -> Self::Model;

    fn merge_step(&self, value: &mut T, buf: &mut ReadBuf, ctx: DecodeContext) -> (r: Result<
        (),
        DecodeError,
    >)
        ensures
            (r, final(buf)@) == self.step_outcome(old(buf)@, ctx.depth()),
            Self::model(*final(value)) == self.step_model(Self::model(*old(value)), old(buf)@, ctx.depth()),
            is_suffix(final(buf)@, old(buf)@),
            r is Ok ==> final(buf)@.len() < old(buf)@.len(),
    ;
}

/// The outcome of running steps over `s` until only `limit` bytes are left:
/// the first error of a step, `DelimitedLengthExceeded` when the steps read
/// past the limit, else `Ok`; and what is left unread.
pub open spec fn loop_outcome<T, M: MergeStep<T>>(step: M, s: Seq<u8>, limit: nat, depth: nat) -> (Result<
    (),
    DecodeError,
>, Seq<u8>)
    decreases s.len(),
{
    if s.len() <= limit {
        (
            if s.len() == limit {
                Ok(())
            } else {
                Err(DecodeError::DelimitedLengthExceeded)
            },
            s,
        )
    } else {
        let (r, s1) = step.step_outcome(s, depth);
        match r {
            Err(e) => (Err(e), s1),
            Ok(()) => if s1.len() < s.len() {
                loop_outcome::<T, M>(step, s1, limit, depth)
            } else {
                (Ok(()), s1)
            },
        }
    }
}

/// The model of the value after running steps over `s` until only `limit`
/// bytes are left, from a value whose model is `m`: each step changes it, the
/// one that fails included.
pub open spec fn loop_model<T, M: MergeStep<T>>(step: M, m: M::Model, s: Seq<u8>, limit: nat, depth: nat) -> M::Model
    decreases s.len(),
{
    if s.len() <= limit {
        m
    } else {
        let (r, s1) = step.step_outcome(s, depth);
        let m1 = step.step_model(m, s, depth);
        match r {
            Err(_) => m1,
            Ok(()) => if s1.len() < s.len() {
                loop_model::<T, M>(step, m1, s1, limit, depth)
            } else {
                m1
            },
        }
    }
}

/// The model of the value after reading a length-delimited region from `s`
/// with `step`, from a value whose model is `m`: unchanged when the length
/// prefix is at fault.
pub open spec fn region_model<T, M: MergeStep<T>>(step: M, m: M::Model, s: Seq<u8>, depth: nat) -> M::Model {
    match varint_usize::decoded(s) {
        Err(_) => m,
        Ok(len) => {
            let s1 = varint_usize::rest(s);
            if len > s1.len() {
                m
            } else {
                loop_model::<T, M>(step, m, s1, (s1.len() - len) as nat, depth)
            }
        },
    }
}

/// The outcome of reading a length-delimited region from `s` with `step`:
/// the length prefix, then the steps over exactly that many bytes.
pub open spec fn region_outcome<T, M: MergeStep<T>>(step: M, s: Seq<u8>, depth: nat) -> (Result<
    (),
    DecodeError,
>, Seq<u8>) {
    match varint_usize::decoded(s) {
        Err(e) => (Err(e), varint_usize::rest(s)),
        Ok(len) => {
            let s1 = varint_usize::rest(s);
            if len > s1.len() {
                (Err(DecodeError::BufferUnderflow), s1)
            } else {
                loop_outcome::<T, M>(step, s1, (s1.len() - len) as nat, depth)
            }
        },
    }
}

/// Reads a length prefix, then runs `merge` until exactly that many bytes
/// have been read. A region that a step overran is refused with
/// `DelimitedLengthExceeded`; the first error of a step is returned as is.
pub fn merge_loop<T, M: MergeStep<T>>(value: &mut T, buf: &mut ReadBuf, ctx: DecodeContext, merge: M) -> (r:
    Result<(), DecodeError>)
    ensures
        (r, final(buf)@) == region_outcome::<T, M>(merge, old(buf)@, ctx.depth()),
        M::model(*final(value)) == region_model::<T, M>(merge, M::model(*old(value)), old(buf)@, ctx.depth()),
        is_suffix(final(buf)@, old(buf)@),
        match varint_usize::decoded(old(buf)@) {
            Err(_) => *final(value) == *old(value),
            Ok(len) => len > varint_usize::rest(old(buf)@).len() ==> *final(value) == *old(value),
        },
{
    let ghost s0 = buf@;
    let ghost d = ctx.depth();
    proof {
        lemma_varint64_rest_suffix(s0);
    }
    let len = varint_usize::decode_varint(buf)?;
    let ghost s1 = buf@;
    let ghost m1 = M::model(*value);
    proof {
        lemma_suffix_refl(s1);
    }
    let remaining = buf.remaining();
    if len > remaining {
        return Err(DecodeError::BufferUnderflow);
    }
    let limit = remaining - len;
    let mut result: Result<(), DecodeError> = Ok(());
    while buf.remaining() > limit
        invariant_except_break
            result is Ok,
            loop_outcome::<T, M>(merge, buf@, limit as nat, d) == loop_outcome::<T, M>(
                merge,
                s1,
                limit as nat,
                d,
            ),
            loop_model::<T, M>(merge, M::model(*value), buf@, limit as nat, d) == loop_model::<T, M>(
                merge,
                m1,
                s1,
                limit as nat,
                d,
            ),
        invariant
            is_suffix(buf@, s1),
            limit == s1.len() - len,
            d == ctx.depth(),
        ensures
            is_suffix(buf@, s1),
            result is Ok ==> buf@.len() <= limit && loop_outcome::<T, M>(merge, buf@, limit as nat, d)
                == loop_outcome::<T, M>(merge, s1, limit as nat, d),
            result is Ok ==> M::model(*value) == loop_model::<T, M>(merge, m1, s1, limit as nat, d),
            result is Err ==> (result, buf@) == loop_outcome::<T, M>(merge, s1, limit as nat, d),
            result is Err ==> M::model(*value) == loop_model::<T, M>(merge, m1, s1, limit as nat, d),
        decreases buf@.len(),
    {
        let ghost before = buf@;
        let step = merge.merge_step(value, buf, ctx.clone());
        proof {
            lemma_suffix_trans(buf@, before, s1);
        }
        if let Err(e) = step {
            result = Err(e);
            break ;
        }
    }
    proof {
        lemma_suffix_trans(buf@, s1, s0);
    }
    if result.is_err() {
        return result;
    }
    if buf.remaining() != limit {
        return Err(DecodeError::DelimitedLengthExceeded);
    }
    Ok(())
}

/// Reading the key of field `number` and wire type `wire_type` gives them
/// back and leaves what followed the key.
pub proof fn lemma_tag_roundtrip(number: u32, wire_type: WireType, tail: Seq<u8>)
    requires
        valid_field_number(number),
    ensures
        tag_result(tag_bytes(number as nat, wire_type) + tail) == Ok::<(u32, WireType), DecodeError>(
            (number, wire_type),
        ),
        varint32_rest(tag_bytes(number as nat, wire_type) + tail) == tail,
{
    let t = tag_value(number as nat, wire_type);
    assert(t < 0x1_0000_0000);
    crate::varint::lemma_decode32_of_encoding(t as u32, tail);
    let b = tag_bytes(number as nat, wire_type);
    assert((b + tail).skip(b.len() as int) =~= tail);
    assert(t % 8 == wire_type_number(wire_type));
    assert(t / 8 == number);
}


/// Byte containers a `bytes` field can be decoded into.
pub trait BytesAdapter: Sized {
    /// The bytes held.
    spec fn bytes_view(&self) -> Seq<u8>;

    /// Number of bytes held.
    fn len(&self) -> (n: usize)
        ensures
            n == self.bytes_view().len(),
    ;

    /// Replaces the contents with everything left in `buf`.
    fn replace_with(&mut self, buf: ReadBuf)
        ensures
            final(self).bytes_view() == buf@,
    ;

    /// Appends the contents to `buf`.
    fn append_to(&self, buf: &mut Vec<u8>)
        ensures
            final(buf)@ == old(buf)@ + self.bytes_view(),
    ;

    /// Replaces the contents with the next `len` bytes of `buf`.
    fn merge_from_buf(&mut self, buf: &mut ReadBuf, len: usize)
        requires
            len <= old(buf)@.len(),
        ensures
            final(self).bytes_view() == old(buf)@.take(len as int),
            final(buf)@ == old(buf)@.skip(len as int),
    ;

    /// Empties the container.
    fn clear(&mut self)
        ensures
            final(self).bytes_view() == Seq::<u8>::empty(),
    ;
}

impl BytesAdapter for Vec<u8> {
    open spec fn bytes_view(&self) -> Seq<u8> {
        self@
    }

    fn len(&self) -> (n: usize) {
        Vec::len(self)
    }

    fn replace_with(&mut self, buf: ReadBuf) {
        let mut buf = buf;
        let n = buf.remaining();
        *self = buf.copy_to_vec(n);
    }

    fn append_to(&self, buf: &mut Vec<u8>) {
        let mut copy = self.clone();
        buf.append(&mut copy);
    }

    fn merge_from_buf(&mut self, buf: &mut ReadBuf, len: usize) {
        self.clear();
        let mut taken = buf.copy_to_vec(len);
        self.append(&mut taken);
    }

    fn clear(&mut self) {
        Vec::clear(self);
    }
}

impl<B: BytesAdapter> BytesAdapter for crate::proto_value::Bytes<B> {
    open spec fn bytes_view(&self) -> Seq<u8> {
        self.0.bytes_view()
    }

    fn len(&self) -> (n: usize) {
        self.0.len()
    }

    fn replace_with(&mut self, buf: ReadBuf) {
        self.0.replace_with(buf)
    }

    fn append_to(&self, buf: &mut Vec<u8>) {
        self.0.append_to(buf)
    }

    fn merge_from_buf(&mut self, buf: &mut ReadBuf, len: usize) {
        self.0.merge_from_buf(buf, len)
    }

    fn clear(&mut self) {
        self.0.clear()
    }
}

/// String types a `string` field can be decoded into: they hold UTF-8.
pub trait StringAdapter: Sized {
    /// The UTF-8 bytes held.
    spec fn bytes_view(&self) -> Seq<u8>;

    /// Length in bytes.
    fn len(&self) -> (n: usize)
        ensures
            n == self.bytes_view().len(),
    ;

    /// The UTF-8 bytes; they are always well-formed.
    fn as_bytes(&self) -> (b: &[u8])
        ensures
            b@ == self.bytes_view(),
            crate::utf8::is_utf8(self.bytes_view()),
    ;

    /// Replaces the contents with well-formed UTF-8 bytes.
    fn set_utf8(&mut self, bytes: Vec<u8>)
        requires
            crate::utf8::is_utf8(bytes@),
        ensures
            final(self).bytes_view() == bytes@,
    ;

    /// Empties the string.
    fn clear(&mut self)
        ensures
            final(self).bytes_view() == Seq::<u8>::empty(),
    ;
}

impl StringAdapter for crate::byte_str::ByteStr {
    open spec fn bytes_view(&self) -> Seq<u8> {
        self@
    }

    fn len(&self) -> (n: usize) {
        crate::byte_str::ByteStr::len(self)
    }

    fn as_bytes(&self) -> (b: &[u8]) {
        crate::byte_str::ByteStr::as_bytes(self)
    }

    fn set_utf8(&mut self, bytes: Vec<u8>) {
        *self = crate::byte_str::ByteStr::from_utf8_unchecked(bytes);
    }

    fn clear(&mut self) {
        crate::byte_str::ByteStr::clear(self)
    }
}

impl StringAdapter for String {
    open spec fn bytes_view(&self) -> Seq<u8> {
        vstd::utf8::encode_utf8(self@)
    }

    fn len(&self) -> (n: usize) {
        self.as_str().as_bytes().len()
    }

    fn as_bytes(&self) -> (b: &[u8]) {
        proof {
            vstd::utf8::encode_utf8_valid_utf8(self@);
            crate::utf8::lemma_is_utf8_valid_utf8(vstd::utf8::encode_utf8(self@));
        }
        self.as_str().as_bytes()
    }

    fn set_utf8(&mut self, bytes: Vec<u8>) {
        proof {
            crate::utf8::lemma_is_utf8_valid_utf8(bytes@);
        }
        match crate::byte_str::str_from_utf8(bytes.as_slice()) {
            Some(s) => {
                *self = String::from_str(s);
            },
            None => {
                assert(false);
            },
        }
    }

    fn clear(&mut self) {
        *self = String::new();
        assert(vstd::utf8::encode_utf8(self@) =~= Seq::<u8>::empty());
    }
}

/// Skipping a field reads exactly its payload: 8 bytes for the 64-bit wire
/// type and 4 for the 32-bit one when that many are left (else
/// `BufferUnderflow`, reading nothing); a varint, a length and its content,
/// or a fixed-width value as the encoders write them, are skipped whole and
/// leave exactly what followed.
pub proof fn lemma_skip_payloads(
    number: u32,
    s: Seq<u8>,
    v: u64,
    content: Seq<u8>,
    f64v: u64,
    f32v: u32,
    tail: Seq<u8>,
    depth: nat,
)
    requires
        depth > 0,
        content.len() <= usize::MAX,
    ensures
        s.len() >= 8 ==> skip_spec(WireType::SixtyFourBit, number, s, depth) == (Ok::<(), DecodeError>(()), s.skip(8)),
        s.len() < 8 ==> skip_spec(WireType::SixtyFourBit, number, s, depth) == (Err::<(), DecodeError>(
            DecodeError::BufferUnderflow,
        ), s),
        s.len() >= 4 ==> skip_spec(WireType::ThirtyTwoBit, number, s, depth) == (Ok::<(), DecodeError>(()), s.skip(4)),
        s.len() < 4 ==> skip_spec(WireType::ThirtyTwoBit, number, s, depth) == (Err::<(), DecodeError>(
            DecodeError::BufferUnderflow,
        ), s),
        skip_spec(WireType::Varint, number, varint_bytes(v as nat) + tail, depth) == (Ok::<(), DecodeError>(()), tail),
        skip_spec(WireType::LengthDelimited, number, varint_bytes(content.len()) + content + tail, depth) == (Ok::<
            (),
            DecodeError,
        >(()), tail),
        skip_spec(WireType::SixtyFourBit, number, crate::fixed_width::fixed64::value_bytes(f64v) + tail, depth)
            == (Ok::<(), DecodeError>(()), tail),
        skip_spec(WireType::ThirtyTwoBit, number, crate::fixed_width::fixed32::value_bytes(f32v) + tail, depth)
            == (Ok::<(), DecodeError>(()), tail),
{
    crate::varint::uint64::lemma_roundtrip(v, tail);
    let b = varint_bytes(content.len());
    crate::varint::usize::lemma_roundtrip(content.len() as usize, content + tail);
    assert(b + content + tail =~= b + (content + tail));
    assert((content + tail).skip(content.len() as int) =~= tail);
    crate::fixed_width::fixed64::lemma_layout(f64v, s);
    crate::fixed_width::fixed32::lemma_layout(f32v, s);
    let e8 = crate::fixed_width::fixed64::value_bytes(f64v);
    let e4 = crate::fixed_width::fixed32::value_bytes(f32v);
    assert((e8 + tail).skip(8) =~= tail);
    assert((e4 + tail).skip(4) =~= tail);
}

} // verus!

