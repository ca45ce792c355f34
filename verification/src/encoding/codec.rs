//! Field codecs: one type per kind of protobuf field, saying how a value of
//! that kind is written as a numbered field and read back. Map fields are
//! written in terms of the codecs of their keys and values.

use crate::buf::ReadBuf;
use crate::encoding::bytes::delimited_bytes;
use crate::encoding::{
    decode_tag, is_suffix, lemma_skip_suffix, lemma_suffix_refl, lemma_suffix_trans,
    lemma_varint32_rest_shrinks, lemma_varint32_rest_suffix, lemma_varint64_rest_suffix,
    loop_model, loop_outcome, region_model, region_outcome, skip_field, skip_spec, tag_result, valid_field_number, DecodeContext,
    MergeStep,
};
use crate::varint::varint32_rest;
use crate::error::DecodeError;
use crate::proto_value::Enum;
use crate::wire_type::WireType;
use vstd::prelude::*;

verus! {

/// How values of one kind are written as a field and read back.
pub trait FieldCodec: Sized {
    /// The Rust type of the values.
    type Value;

    /// What a value is taken as in contracts.
    type Model;

    /// The model of `value`.
    spec fn model(value: Self::Value) -> Self::Model;

    /// The model of the default value.
    spec fn default_model() -> Self::Model;

    /// The bytes of field `number` holding `value`.
    spec fn field(number: nat, value: Self::Value) -> Seq<u8>;

    /// Whether two values are the same protobuf value.
    spec fn same_spec(a: Self::Value, b: Self::Value) -> bool;

    /// Whether `value` is the default of its kind.
    spec fn is_default_spec(value: Self::Value) -> bool;

    /// The default value.
    fn default_value() -> (r: Self::Value)
        ensures
            Self::is_default_spec(r),
            Self::model(r) == Self::default_model(),
    ;

    /// Every default value has the model of the default.
    proof fn lemma_model_default(value: Self::Value)
        requires
            Self::is_default_spec(value),
        ensures
            Self::model(value) == Self::default_model(),
    ;

    /// The same values have the same model.
    proof fn lemma_model_same(a: Self::Value, b: Self::Value)
        requires
            Self::same_spec(a, b),
        ensures
            Self::model(a) == Self::model(b),
    ;

    /// Whether `value` is the default.
    fn is_default(value: &Self::Value) -> (r: bool)
        ensures
            r == Self::is_default_spec(*value),
    ;

    /// Whether two values are the same.
    fn same(a: &Self::Value, b: &Self::Value) -> (r: bool)
        ensures
            r == Self::same_spec(*a, *b),
    ;

    /// Appends field `number` holding `value`.
    fn encode(number: u32, value: &Self::Value, buf: &mut Vec<u8>)
        requires
            valid_field_number(number),
        ensures
            final(buf)@ == old(buf)@ + Self::field(number as nat, *value),
    ;

    /// Length of field `number` holding `value`.
    fn encoded_len(number: u32, value: &Self::Value) -> (n: usize)
        requires
            valid_field_number(number),
            Self::field(number as nat, *value).len() <= usize::MAX,
        ensures
            n == Self::field(number as nat, *value).len(),
    ;

    /// What reading the payload of a field with wire type `wire_type` from
    /// `s` returns, and what it leaves unread.
    spec fn merge_outcome(wire_type: WireType, s: Seq<u8>, depth: nat) -> (Result<(), DecodeError>, Seq<u8>);

    /// The model of the value after reading the payload of a field with wire
    /// type `wire_type` from `s` into a value whose model is `m`.
    spec fn merged(wire_type: WireType, m: Self::Model, s: Seq<u8>, depth: nat) -> Self::Model;

    /// A field written by `encode` reads back: its key gives the field
    /// number, and its payload is read whole into the value written, whatever
    /// value it is read into, leaving what follows.
    proof fn lemma_field_roundtrip(number: u32, value: Self::Value, m: Self::Model, tail: Seq<u8>, depth: nat)
        requires
            valid_field_number(number),
            Self::field(number as nat, value).len() <= usize::MAX,
        ensures
            tag_result(Self::field(number as nat, value) + tail) is Ok,
            tag_result(Self::field(number as nat, value) + tail)->Ok_0.0 == number,
            Self::merge_outcome(
                tag_result(Self::field(number as nat, value) + tail)->Ok_0.1,
                varint32_rest(Self::field(number as nat, value) + tail),
                depth,
            ) == (Ok::<(), DecodeError>(()), tail),
            Self::merged(
                tag_result(Self::field(number as nat, value) + tail)->Ok_0.1,
                m,
                varint32_rest(Self::field(number as nat, value) + tail),
                depth,
            ) == Self::model(value),
            Self::field(number as nat, value).len() >= 1,
    ;

    /// Reads the payload of a field whose key has been read into `value`.
    fn merge(wire_type: WireType, value: &mut Self::Value, buf: &mut ReadBuf, ctx: DecodeContext) -> (r:
        Result<(), DecodeError>)
        ensures
            (r, final(buf)@) == Self::merge_outcome(wire_type, old(buf)@, ctx.depth()),
            Self::model(*final(value)) == Self::merged(wire_type, Self::model(*old(value)), old(buf)@, ctx.depth()),
            is_suffix(final(buf)@, old(buf)@),
    ;
}

/// A result with its value dropped.
pub open spec fn unit_result<X>(r: Result<X, DecodeError>) -> Result<(), DecodeError> {
    match r {
        Ok(_) => Ok(()),
        Err(e) => Err(e),
    }
}

/// The outcome of reading a one-value payload that needs wire type
/// `expected`: a refusal of any other wire type, else what decoding gives.
pub open spec fn scalar_outcome<X>(
    wire_type: WireType,
    expected: WireType,
    decoded: Result<X, DecodeError>,
    s: Seq<u8>,
    rest: Seq<u8>,
) -> (Result<(), DecodeError>, Seq<u8>) {
    if wire_type != expected {
        (Err(DecodeError::UnexpectedWireType { actual: wire_type, expected }), s)
    } else {
        (unit_result(decoded), rest)
    }
}

/// The value after reading a one-value payload that needs wire type
/// `expected`: the decoded value, else `m` unchanged.
pub open spec fn scalar_merged<X>(wire_type: WireType, expected: WireType, decoded: Result<X, DecodeError>, m: X) -> X {
    if wire_type != expected {
        m
    } else {
        match decoded {
            Ok(v) => v,
            Err(_) => m,
        }
    }
}

/// A field starts with its key, so it is never empty.
proof fn lemma_key_nonempty(number: u32, wire_type: WireType, rest: Seq<u8>)
    ensures
        (crate::encoding::tag_bytes(number as nat, wire_type) + rest).len() >= 1,
{
    crate::varint::lemma_varint_bytes_facts(crate::encoding::tag_value(number as nat, wire_type));
}

proof fn lemma_skip_front_suffix(s: Seq<u8>, n: int)
    requires
        0 <= n,
    ensures
        n <= s.len() ==> is_suffix(s.skip(n), s),
        is_suffix(s, s),
{
    lemma_suffix_refl(s);
    if n <= s.len() {
        assert(s.skip(n) =~= s.skip(s.len() - s.skip(n).len()));
    }
}

/// Fields of protobuf type `uint32`.
pub struct Uint32;

impl FieldCodec for Uint32 {
    type Value = u32;

    type Model = u32;

    open spec fn model(value: u32) -> u32 {
        value
    }

    open spec fn default_model() -> u32 {
        0
    }

    open spec fn field(number: nat, value: u32) -> Seq<u8> {
        crate::encoding::uint32::field_bytes(number, value)
    }

    open spec fn same_spec(a: u32, b: u32) -> bool {
        a == b
    }

    open spec fn is_default_spec(value: u32) -> bool {
        value == 0
    }

    open spec fn merge_outcome(wire_type: WireType, s: Seq<u8>, depth: nat) -> (Result<(), DecodeError>, Seq<u8>) {
        scalar_outcome(wire_type, WireType::Varint, crate::varint::uint32::decoded(s), s, crate::varint::uint32::rest(s))
    }

    open spec fn merged(wire_type: WireType, m: Self::Model, s: Seq<u8>, depth: nat) -> Self::Model {
        scalar_merged(wire_type, WireType::Varint, crate::varint::uint32::decoded(s), m)
    }

    proof fn lemma_model_default(value: Self::Value) {
    }

    proof fn lemma_model_same(a: Self::Value, b: Self::Value) {
    }

    proof fn lemma_field_roundtrip(number: u32, value: u32, m: Self::Model, tail: Seq<u8>, depth: nat) {
        crate::encoding::uint32::lemma_field_roundtrip(number, value, tail);
        lemma_key_nonempty(number, WireType::Varint, crate::varint::uint32::value_bytes(value));
    }

    fn default_value() -> (r: u32) {
        0
    }

    fn is_default(value: &u32) -> (r: bool) {
        *value == 0
    }

    fn same(a: &u32, b: &u32) -> (r: bool) {
        *a == *b
    }

    fn encode(number: u32, value: &u32, buf: &mut Vec<u8>) {
        crate::encoding::uint32::encode(number, value, buf)
    }

    fn encoded_len(number: u32, value: &u32) -> (n: usize) {
        crate::encoding::uint32::encoded_len(number, value)
    }

    fn merge(wire_type: WireType, value: &mut u32, buf: &mut ReadBuf, ctx: DecodeContext) -> (r: Result<
        (),
        DecodeError,
    >) {
        let ghost s = buf@;
        proof {
            lemma_suffix_refl(s);
            lemma_varint32_rest_suffix(s);
        }
        crate::encoding::uint32::merge(wire_type, value, buf, ctx)
    }
}

/// Fields of protobuf type `uint64`.
pub struct Uint64;

impl FieldCodec for Uint64 {
    type Value = u64;

    type Model = u64;

    open spec fn model(value: u64) -> u64 {
        value
    }

    open spec fn default_model() -> u64 {
        0
    }

    open spec fn field(number: nat, value: u64) -> Seq<u8> {
        crate::encoding::uint64::field_bytes(number, value)
    }

    open spec fn same_spec(a: u64, b: u64) -> bool {
        a == b
    }

    open spec fn is_default_spec(value: u64) -> bool {
        value == 0
    }

    open spec fn merge_outcome(wire_type: WireType, s: Seq<u8>, depth: nat) -> (Result<(), DecodeError>, Seq<u8>) {
        scalar_outcome(wire_type, WireType::Varint, crate::varint::uint64::decoded(s), s, crate::varint::uint64::rest(s))
    }

    open spec fn merged(wire_type: WireType, m: Self::Model, s: Seq<u8>, depth: nat) -> Self::Model {
        scalar_merged(wire_type, WireType::Varint, crate::varint::uint64::decoded(s), m)
    }

    proof fn lemma_model_default(value: Self::Value) {
    }

    proof fn lemma_model_same(a: Self::Value, b: Self::Value) {
    }

    proof fn lemma_field_roundtrip(number: u32, value: u64, m: Self::Model, tail: Seq<u8>, depth: nat) {
        crate::encoding::uint64::lemma_field_roundtrip(number, value, tail);
        lemma_key_nonempty(number, WireType::Varint, crate::varint::uint64::value_bytes(value));
    }

    fn default_value() -> (r: u64) {
        0
    }

    fn is_default(value: &u64) -> (r: bool) {
        *value == 0
    }

    fn same(a: &u64, b: &u64) -> (r: bool) {
        *a == *b
    }

    fn encode(number: u32, value: &u64, buf: &mut Vec<u8>) {
        crate::encoding::uint64::encode(number, value, buf)
    }

    fn encoded_len(number: u32, value: &u64) -> (n: usize) {
        crate::encoding::uint64::encoded_len(number, value)
    }

    fn merge(wire_type: WireType, value: &mut u64, buf: &mut ReadBuf, ctx: DecodeContext) -> (r: Result<
        (),
        DecodeError,
    >) {
        let ghost s = buf@;
        proof {
            lemma_suffix_refl(s);
            lemma_varint64_rest_suffix(s);
        }
        crate::encoding::uint64::merge(wire_type, value, buf, ctx)
    }
}

/// Fields of protobuf type `int32`.
pub struct Int32;

impl FieldCodec for Int32 {
    type Value = i32;

    type Model = i32;

    open spec fn model(value: i32) -> i32 {
        value
    }

    open spec fn default_model() -> i32 {
        0
    }

    open spec fn field(number: nat, value: i32) -> Seq<u8> {
        crate::encoding::int32::field_bytes(number, value)
    }

    open spec fn same_spec(a: i32, b: i32) -> bool {
        a == b
    }

    open spec fn is_default_spec(value: i32) -> bool {
        value == 0
    }

    open spec fn merge_outcome(wire_type: WireType, s: Seq<u8>, depth: nat) -> (Result<(), DecodeError>, Seq<u8>) {
        scalar_outcome(wire_type, WireType::Varint, crate::varint::int32::decoded(s), s, crate::varint::int32::rest(s))
    }

    open spec fn merged(wire_type: WireType, m: Self::Model, s: Seq<u8>, depth: nat) -> Self::Model {
        scalar_merged(wire_type, WireType::Varint, crate::varint::int32::decoded(s), m)
    }

    proof fn lemma_model_default(value: Self::Value) {
    }

    proof fn lemma_model_same(a: Self::Value, b: Self::Value) {
    }

    proof fn lemma_field_roundtrip(number: u32, value: i32, m: Self::Model, tail: Seq<u8>, depth: nat) {
        crate::encoding::int32::lemma_field_roundtrip(number, value, tail);
        lemma_key_nonempty(number, WireType::Varint, crate::varint::int32::value_bytes(value));
    }

    fn default_value() -> (r: i32) {
        0
    }

    fn is_default(value: &i32) -> (r: bool) {
        *value == 0
    }

    fn same(a: &i32, b: &i32) -> (r: bool) {
        *a == *b
    }

    fn encode(number: u32, value: &i32, buf: &mut Vec<u8>) {
        crate::encoding::int32::encode(number, value, buf)
    }

    fn encoded_len(number: u32, value: &i32) -> (n: usize) {
        crate::encoding::int32::encoded_len(number, value)
    }

    fn merge(wire_type: WireType, value: &mut i32, buf: &mut ReadBuf, ctx: DecodeContext) -> (r: Result<
        (),
        DecodeError,
    >) {
        let ghost s = buf@;
        proof {
            lemma_suffix_refl(s);
            lemma_varint64_rest_suffix(s);
        }
        crate::encoding::int32::merge(wire_type, value, buf, ctx)
    }
}

/// Fields of protobuf type `int64`.
pub struct Int64;

impl FieldCodec for Int64 {
    type Value = i64;

    type Model = i64;

    open spec fn model(value: i64) -> i64 {
        value
    }

    open spec fn default_model() -> i64 {
        0
    }

    open spec fn field(number: nat, value: i64) -> Seq<u8> {
        crate::encoding::int64::field_bytes(number, value)
    }

    open spec fn same_spec(a: i64, b: i64) -> bool {
        a == b
    }

    open spec fn is_default_spec(value: i64) -> bool {
        value == 0
    }

    open spec fn merge_outcome(wire_type: WireType, s: Seq<u8>, depth: nat) -> (Result<(), DecodeError>, Seq<u8>) {
        scalar_outcome(wire_type, WireType::Varint, crate::varint::int64::decoded(s), s, crate::varint::int64::rest(s))
    }

    open spec fn merged(wire_type: WireType, m: Self::Model, s: Seq<u8>, depth: nat) -> Self::Model {
        scalar_merged(wire_type, WireType::Varint, crate::varint::int64::decoded(s), m)
    }

    proof fn lemma_model_default(value: Self::Value) {
    }

    proof fn lemma_model_same(a: Self::Value, b: Self::Value) {
    }

    proof fn lemma_field_roundtrip(number: u32, value: i64, m: Self::Model, tail: Seq<u8>, depth: nat) {
        crate::encoding::int64::lemma_field_roundtrip(number, value, tail);
        lemma_key_nonempty(number, WireType::Varint, crate::varint::int64::value_bytes(value));
    }

    fn default_value() -> (r: i64) {
        0
    }

    fn is_default(value: &i64) -> (r: bool) {
        *value == 0
    }

    fn same(a: &i64, b: &i64) -> (r: bool) {
        *a == *b
    }

    fn encode(number: u32, value: &i64, buf: &mut Vec<u8>) {
        crate::encoding::int64::encode(number, value, buf)
    }

    fn encoded_len(number: u32, value: &i64) -> (n: usize) {
        crate::encoding::int64::encoded_len(number, value)
    }

    fn merge(wire_type: WireType, value: &mut i64, buf: &mut ReadBuf, ctx: DecodeContext) -> (r: Result<
        (),
        DecodeError,
    >) {
        let ghost s = buf@;
        proof {
            lemma_suffix_refl(s);
            lemma_varint64_rest_suffix(s);
        }
        crate::encoding::int64::merge(wire_type, value, buf, ctx)
    }
}

/// Fields of protobuf type `sint32`.
pub struct Sint32;

impl FieldCodec for Sint32 {
    type Value = i32;

    type Model = i32;

    open spec fn model(value: i32) -> i32 {
        value
    }

    open spec fn default_model() -> i32 {
        0
    }

    open spec fn field(number: nat, value: i32) -> Seq<u8> {
        crate::encoding::sint32::field_bytes(number, value)
    }

    open spec fn same_spec(a: i32, b: i32) -> bool {
        a == b
    }

    open spec fn is_default_spec(value: i32) -> bool {
        value == 0
    }

    open spec fn merge_outcome(wire_type: WireType, s: Seq<u8>, depth: nat) -> (Result<(), DecodeError>, Seq<u8>) {
        scalar_outcome(wire_type, WireType::Varint, crate::varint::sint32::decoded(s), s, crate::varint::sint32::rest(s))
    }

    open spec fn merged(wire_type: WireType, m: Self::Model, s: Seq<u8>, depth: nat) -> Self::Model {
        scalar_merged(wire_type, WireType::Varint, crate::varint::sint32::decoded(s), m)
    }

    proof fn lemma_model_default(value: Self::Value) {
    }

    proof fn lemma_model_same(a: Self::Value, b: Self::Value) {
    }

    proof fn lemma_field_roundtrip(number: u32, value: i32, m: Self::Model, tail: Seq<u8>, depth: nat) {
        crate::encoding::sint32::lemma_field_roundtrip(number, value, tail);
        lemma_key_nonempty(number, WireType::Varint, crate::varint::sint32::value_bytes(value));
    }

    fn default_value() -> (r: i32) {
        0
    }

    fn is_default(value: &i32) -> (r: bool) {
        *value == 0
    }

    fn same(a: &i32, b: &i32) -> (r: bool) {
        *a == *b
    }

    fn encode(number: u32, value: &i32, buf: &mut Vec<u8>) {
        crate::encoding::sint32::encode(number, value, buf)
    }

    fn encoded_len(number: u32, value: &i32) -> (n: usize) {
        crate::encoding::sint32::encoded_len(number, value)
    }

    fn merge(wire_type: WireType, value: &mut i32, buf: &mut ReadBuf, ctx: DecodeContext) -> (r: Result<
        (),
        DecodeError,
    >) {
        let ghost s = buf@;
        proof {
            lemma_suffix_refl(s);
            lemma_varint32_rest_suffix(s);
        }
        crate::encoding::sint32::merge(wire_type, value, buf, ctx)
    }
}

/// Fields of protobuf type `sint64`.
pub struct Sint64;

impl FieldCodec for Sint64 {
    type Value = i64;

    type Model = i64;

    open spec fn model(value: i64) -> i64 {
        value
    }

    open spec fn default_model() -> i64 {
        0
    }

    open spec fn field(number: nat, value: i64) -> Seq<u8> {
        crate::encoding::sint64::field_bytes(number, value)
    }

    open spec fn same_spec(a: i64, b: i64) -> bool {
        a == b
    }

    open spec fn is_default_spec(value: i64) -> bool {
        value == 0
    }

    open spec fn merge_outcome(wire_type: WireType, s: Seq<u8>, depth: nat) -> (Result<(), DecodeError>, Seq<u8>) {
        scalar_outcome(wire_type, WireType::Varint, crate::varint::sint64::decoded(s), s, crate::varint::sint64::rest(s))
    }

    open spec fn merged(wire_type: WireType, m: Self::Model, s: Seq<u8>, depth: nat) -> Self::Model {
        scalar_merged(wire_type, WireType::Varint, crate::varint::sint64::decoded(s), m)
    }

    proof fn lemma_model_default(value: Self::Value) {
    }

    proof fn lemma_model_same(a: Self::Value, b: Self::Value) {
    }

    proof fn lemma_field_roundtrip(number: u32, value: i64, m: Self::Model, tail: Seq<u8>, depth: nat) {
        crate::encoding::sint64::lemma_field_roundtrip(number, value, tail);
        lemma_key_nonempty(number, WireType::Varint, crate::varint::sint64::value_bytes(value));
    }

    fn default_value() -> (r: i64) {
        0
    }

    fn is_default(value: &i64) -> (r: bool) {
        *value == 0
    }

    fn same(a: &i64, b: &i64) -> (r: bool) {
        *a == *b
    }

    fn encode(number: u32, value: &i64, buf: &mut Vec<u8>) {
        crate::encoding::sint64::encode(number, value, buf)
    }

    fn encoded_len(number: u32, value: &i64) -> (n: usize) {
        crate::encoding::sint64::encoded_len(number, value)
    }

    fn merge(wire_type: WireType, value: &mut i64, buf: &mut ReadBuf, ctx: DecodeContext) -> (r: Result<
        (),
        DecodeError,
    >) {
        let ghost s = buf@;
        proof {
            lemma_suffix_refl(s);
            lemma_varint64_rest_suffix(s);
        }
        crate::encoding::sint64::merge(wire_type, value, buf, ctx)
    }
}

/// Fields of protobuf type `fixed32`.
pub struct Fixed32;

impl FieldCodec for Fixed32 {
    type Value = u32;

    type Model = u32;

    open spec fn model(value: u32) -> u32 {
        value
    }

    open spec fn default_model() -> u32 {
        0
    }

    open spec fn field(number: nat, value: u32) -> Seq<u8> {
        crate::encoding::fixed32::field_bytes(number, value)
    }

    open spec fn same_spec(a: u32, b: u32) -> bool {
        a == b
    }

    open spec fn is_default_spec(value: u32) -> bool {
        value == 0
    }

    open spec fn merge_outcome(wire_type: WireType, s: Seq<u8>, depth: nat) -> (Result<(), DecodeError>, Seq<u8>) {
        scalar_outcome(wire_type, WireType::ThirtyTwoBit, crate::fixed_width::fixed32::decoded(s), s, crate::fixed_width::fixed32::rest(s))
    }

    open spec fn merged(wire_type: WireType, m: Self::Model, s: Seq<u8>, depth: nat) -> Self::Model {
        scalar_merged(wire_type, WireType::ThirtyTwoBit, crate::fixed_width::fixed32::decoded(s), m)
    }

    proof fn lemma_model_default(value: Self::Value) {
    }

    proof fn lemma_model_same(a: Self::Value, b: Self::Value) {
    }

    proof fn lemma_field_roundtrip(number: u32, value: u32, m: Self::Model, tail: Seq<u8>, depth: nat) {
        crate::encoding::fixed32::lemma_field_roundtrip(number, value, tail);
        lemma_key_nonempty(number, WireType::ThirtyTwoBit, crate::fixed_width::fixed32::value_bytes(value));
    }

    fn default_value() -> (r: u32) {
        0
    }

    fn is_default(value: &u32) -> (r: bool) {
        *value == 0
    }

    fn same(a: &u32, b: &u32) -> (r: bool) {
        *a == *b
    }

    fn encode(number: u32, value: &u32, buf: &mut Vec<u8>) {
        crate::encoding::fixed32::encode(number, value, buf)
    }

    fn encoded_len(number: u32, value: &u32) -> (n: usize) {
        crate::encoding::fixed32::encoded_len(number, value)
    }

    fn merge(wire_type: WireType, value: &mut u32, buf: &mut ReadBuf, ctx: DecodeContext) -> (r: Result<
        (),
        DecodeError,
    >) {
        let ghost s = buf@;
        proof {
            lemma_suffix_refl(s);
            lemma_skip_front_suffix(s, 4);
        }
        crate::encoding::fixed32::merge(wire_type, value, buf, ctx)
    }
}

/// Fields of protobuf type `fixed64`.
pub struct Fixed64;

impl FieldCodec for Fixed64 {
    type Value = u64;

    type Model = u64;

    open spec fn model(value: u64) -> u64 {
        value
    }

    open spec fn default_model() -> u64 {
        0
    }

    open spec fn field(number: nat, value: u64) -> Seq<u8> {
        crate::encoding::fixed64::field_bytes(number, value)
    }

    open spec fn same_spec(a: u64, b: u64) -> bool {
        a == b
    }

    open spec fn is_default_spec(value: u64) -> bool {
        value == 0
    }

    open spec fn merge_outcome(wire_type: WireType, s: Seq<u8>, depth: nat) -> (Result<(), DecodeError>, Seq<u8>) {
        scalar_outcome(wire_type, WireType::SixtyFourBit, crate::fixed_width::fixed64::decoded(s), s, crate::fixed_width::fixed64::rest(s))
    }

    open spec fn merged(wire_type: WireType, m: Self::Model, s: Seq<u8>, depth: nat) -> Self::Model {
        scalar_merged(wire_type, WireType::SixtyFourBit, crate::fixed_width::fixed64::decoded(s), m)
    }

    proof fn lemma_model_default(value: Self::Value) {
    }

    proof fn lemma_model_same(a: Self::Value, b: Self::Value) {
    }

    proof fn lemma_field_roundtrip(number: u32, value: u64, m: Self::Model, tail: Seq<u8>, depth: nat) {
        crate::encoding::fixed64::lemma_field_roundtrip(number, value, tail);
        lemma_key_nonempty(number, WireType::SixtyFourBit, crate::fixed_width::fixed64::value_bytes(value));
    }

    fn default_value() -> (r: u64) {
        0
    }

    fn is_default(value: &u64) -> (r: bool) {
        *value == 0
    }

    fn same(a: &u64, b: &u64) -> (r: bool) {
        *a == *b
    }

    fn encode(number: u32, value: &u64, buf: &mut Vec<u8>) {
        crate::encoding::fixed64::encode(number, value, buf)
    }

    fn encoded_len(number: u32, value: &u64) -> (n: usize) {
        crate::encoding::fixed64::encoded_len(number, value)
    }

    fn merge(wire_type: WireType, value: &mut u64, buf: &mut ReadBuf, ctx: DecodeContext) -> (r: Result<
        (),
        DecodeError,
    >) {
        let ghost s = buf@;
        proof {
            lemma_suffix_refl(s);
            lemma_skip_front_suffix(s, 8);
        }
        crate::encoding::fixed64::merge(wire_type, value, buf, ctx)
    }
}

/// Fields of protobuf type `sfixed32`.
pub struct Sfixed32;

impl FieldCodec for Sfixed32 {
    type Value = i32;

    type Model = i32;

    open spec fn model(value: i32) -> i32 {
        value
    }

    open spec fn default_model() -> i32 {
        0
    }

    open spec fn field(number: nat, value: i32) -> Seq<u8> {
        crate::encoding::sfixed32::field_bytes(number, value)
    }

    open spec fn same_spec(a: i32, b: i32) -> bool {
        a == b
    }

    open spec fn is_default_spec(value: i32) -> bool {
        value == 0
    }

    open spec fn merge_outcome(wire_type: WireType, s: Seq<u8>, depth: nat) -> (Result<(), DecodeError>, Seq<u8>) {
        scalar_outcome(wire_type, WireType::ThirtyTwoBit, crate::fixed_width::sfixed32::decoded(s), s, crate::fixed_width::sfixed32::rest(s))
    }

    open spec fn merged(wire_type: WireType, m: Self::Model, s: Seq<u8>, depth: nat) -> Self::Model {
        scalar_merged(wire_type, WireType::ThirtyTwoBit, crate::fixed_width::sfixed32::decoded(s), m)
    }

    proof fn lemma_model_default(value: Self::Value) {
    }

    proof fn lemma_model_same(a: Self::Value, b: Self::Value) {
    }

    proof fn lemma_field_roundtrip(number: u32, value: i32, m: Self::Model, tail: Seq<u8>, depth: nat) {
        crate::encoding::sfixed32::lemma_field_roundtrip(number, value, tail);
        lemma_key_nonempty(number, WireType::ThirtyTwoBit, crate::fixed_width::sfixed32::value_bytes(value));
    }

    fn default_value() -> (r: i32) {
        0
    }

    fn is_default(value: &i32) -> (r: bool) {
        *value == 0
    }

    fn same(a: &i32, b: &i32) -> (r: bool) {
        *a == *b
    }

    fn encode(number: u32, value: &i32, buf: &mut Vec<u8>) {
        crate::encoding::sfixed32::encode(number, value, buf)
    }

    fn encoded_len(number: u32, value: &i32) -> (n: usize) {
        crate::encoding::sfixed32::encoded_len(number, value)
    }

    fn merge(wire_type: WireType, value: &mut i32, buf: &mut ReadBuf, ctx: DecodeContext) -> (r: Result<
        (),
        DecodeError,
    >) {
        let ghost s = buf@;
        proof {
            lemma_suffix_refl(s);
            lemma_skip_front_suffix(s, 4);
        }
        crate::encoding::sfixed32::merge(wire_type, value, buf, ctx)
    }
}

/// Fields of protobuf type `sfixed64`.
pub struct Sfixed64;

impl FieldCodec for Sfixed64 {
    type Value = i64;

    type Model = i64;

    open spec fn model(value: i64) -> i64 {
        value
    }

    open spec fn default_model() -> i64 {
        0
    }

    open spec fn field(number: nat, value: i64) -> Seq<u8> {
        crate::encoding::sfixed64::field_bytes(number, value)
    }

    open spec fn same_spec(a: i64, b: i64) -> bool {
        a == b
    }

    open spec fn is_default_spec(value: i64) -> bool {
        value == 0
    }

    open spec fn merge_outcome(wire_type: WireType, s: Seq<u8>, depth: nat) -> (Result<(), DecodeError>, Seq<u8>) {
        scalar_outcome(wire_type, WireType::SixtyFourBit, crate::fixed_width::sfixed64::decoded(s), s, crate::fixed_width::sfixed64::rest(s))
    }

    open spec fn merged(wire_type: WireType, m: Self::Model, s: Seq<u8>, depth: nat) -> Self::Model {
        scalar_merged(wire_type, WireType::SixtyFourBit, crate::fixed_width::sfixed64::decoded(s), m)
    }

    proof fn lemma_model_default(value: Self::Value) {
    }

    proof fn lemma_model_same(a: Self::Value, b: Self::Value) {
    }

    proof fn lemma_field_roundtrip(number: u32, value: i64, m: Self::Model, tail: Seq<u8>, depth: nat) {
        crate::encoding::sfixed64::lemma_field_roundtrip(number, value, tail);
        lemma_key_nonempty(number, WireType::SixtyFourBit, crate::fixed_width::sfixed64::value_bytes(value));
    }

    fn default_value() -> (r: i64) {
        0
    }

    fn is_default(value: &i64) -> (r: bool) {
        *value == 0
    }

    fn same(a: &i64, b: &i64) -> (r: bool) {
        *a == *b
    }

    fn encode(number: u32, value: &i64, buf: &mut Vec<u8>) {
        crate::encoding::sfixed64::encode(number, value, buf)
    }

    fn encoded_len(number: u32, value: &i64) -> (n: usize) {
        crate::encoding::sfixed64::encoded_len(number, value)
    }

    fn merge(wire_type: WireType, value: &mut i64, buf: &mut ReadBuf, ctx: DecodeContext) -> (r: Result<
        (),
        DecodeError,
    >) {
        let ghost s = buf@;
        proof {
            lemma_suffix_refl(s);
            lemma_skip_front_suffix(s, 8);
        }
        crate::encoding::sfixed64::merge(wire_type, value, buf, ctx)
    }
}

/// Fields of protobuf type `bool`.
pub struct Bool;

impl FieldCodec for Bool {
    type Value = bool;

    type Model = bool;

    open spec fn model(value: bool) -> bool {
        value
    }

    open spec fn default_model() -> bool {
        false
    }

    open spec fn field(number: nat, value: bool) -> Seq<u8> {
        crate::encoding::bool::field_bytes(number, value)
    }

    open spec fn same_spec(a: bool, b: bool) -> bool {
        a == b
    }

    open spec fn is_default_spec(value: bool) -> bool {
        value == false
    }

    open spec fn merge_outcome(wire_type: WireType, s: Seq<u8>, depth: nat) -> (Result<(), DecodeError>, Seq<u8>) {
        scalar_outcome(wire_type, WireType::Varint, crate::varint::bool::decoded(s), s, crate::varint::bool::rest(s))
    }

    open spec fn merged(wire_type: WireType, m: Self::Model, s: Seq<u8>, depth: nat) -> Self::Model {
        scalar_merged(wire_type, WireType::Varint, crate::varint::bool::decoded(s), m)
    }

    proof fn lemma_model_default(value: Self::Value) {
    }

    proof fn lemma_model_same(a: Self::Value, b: Self::Value) {
    }

    proof fn lemma_field_roundtrip(number: u32, value: bool, m: Self::Model, tail: Seq<u8>, depth: nat) {
        crate::encoding::bool::lemma_field_roundtrip(number, value, tail);
        lemma_key_nonempty(number, WireType::Varint, crate::varint::bool::value_bytes(value));
    }

    fn default_value() -> (r: bool) {
        false
    }

    fn is_default(value: &bool) -> (r: bool) {
        *value == false
    }

    fn same(a: &bool, b: &bool) -> (r: bool) {
        *a == *b
    }

    fn encode(number: u32, value: &bool, buf: &mut Vec<u8>) {
        crate::encoding::bool::encode(number, value, buf)
    }

    fn encoded_len(number: u32, value: &bool) -> (n: usize) {
        crate::encoding::bool::encoded_len(number, value)
    }

    fn merge(wire_type: WireType, value: &mut bool, buf: &mut ReadBuf, ctx: DecodeContext) -> (r: Result<
        (),
        DecodeError,
    >) {
        let ghost s = buf@;
        proof {
            lemma_suffix_refl(s);
            lemma_skip_front_suffix(s, 1);
            if s.len() > 0 {
                assert(s.drop_first() =~= s.skip(1));
            }
        }
        crate::encoding::bool::merge(wire_type, value, buf, ctx)
    }
}

/// Fields of protobuf type `string`.
pub struct Text;

impl FieldCodec for Text {
    type Value = String;

    type Model = Seq<u8>;

    open spec fn model(value: String) -> Seq<u8> {
        vstd::utf8::encode_utf8(value@)
    }

    open spec fn default_model() -> Seq<u8> {
        Seq::<u8>::empty()
    }

    open spec fn merged(wire_type: WireType, m: Seq<u8>, s: Seq<u8>, depth: nat) -> Seq<u8> {
        match crate::encoding::string::merge_string_spec(wire_type, s) {
            Ok(content) => content,
            Err(_) => Seq::<u8>::empty(),
        }
    }

    proof fn lemma_model_default(value: String) {
        assert(vstd::utf8::encode_utf8(value@) =~= Seq::<u8>::empty());
    }

    proof fn lemma_model_same(a: String, b: String) {
    }

    open spec fn field(number: nat, value: String) -> Seq<u8> {
        delimited_bytes(number, vstd::utf8::encode_utf8(value@))
    }

    open spec fn same_spec(a: String, b: String) -> bool {
        a@ == b@
    }

    open spec fn is_default_spec(value: String) -> bool {
        value@.len() == 0
    }

    open spec fn merge_outcome(wire_type: WireType, s: Seq<u8>, depth: nat) -> (Result<(), DecodeError>, Seq<u8>) {
        (
            unit_result(crate::encoding::string::merge_string_spec(wire_type, s)),
            crate::encoding::bytes::merge_spec(wire_type, s).1,
        )
    }

    proof fn lemma_field_roundtrip(number: u32, value: String, m: Self::Model, tail: Seq<u8>, depth: nat) {
        let content = vstd::utf8::encode_utf8(value@);
        let payload = crate::varint::varint_bytes(content.len()) + content + tail;
        crate::encoding::lemma_tag_roundtrip(number, WireType::LengthDelimited, payload);
        assert(delimited_bytes(number as nat, content) + tail =~= crate::encoding::tag_bytes(
            number as nat,
            WireType::LengthDelimited,
        ) + payload);
        vstd::utf8::encode_utf8_valid_utf8(value@);
        crate::utf8::lemma_is_utf8_valid_utf8(content);
        crate::encoding::string::lemma_roundtrip(content, tail);
        lemma_key_nonempty(number, WireType::LengthDelimited, crate::varint::varint_bytes(content.len()) + content);
        assert(delimited_bytes(number as nat, content) =~= crate::encoding::tag_bytes(
            number as nat,
            WireType::LengthDelimited,
        ) + (crate::varint::varint_bytes(content.len()) + content));
    }

    fn default_value() -> (r: String) {
        let r = String::new();
        assert(vstd::utf8::encode_utf8(r@) =~= Seq::<u8>::empty());
        r
    }

    fn is_default(value: &String) -> (r: bool) {
        value.as_str().is_empty()
    }

    fn same(a: &String, b: &String) -> (r: bool) {
        <String as PartialEq>::eq(a, b)
    }

    fn encode(number: u32, value: &String, buf: &mut Vec<u8>) {
        crate::encoding::string::encode(number, value, buf)
    }

    fn encoded_len(number: u32, value: &String) -> (n: usize) {
        crate::encoding::string::encoded_len(number, value)
    }

    fn merge(wire_type: WireType, value: &mut String, buf: &mut ReadBuf, ctx: DecodeContext) -> (r: Result<
        (),
        DecodeError,
    >) {
        proof {
            crate::encoding::bytes::lemma_merge_suffix(wire_type, buf@);
        }
        crate::encoding::string::merge(wire_type, value, buf, ctx)
    }
}

/// Fields of protobuf type `bytes`.
pub struct Binary;

impl FieldCodec for Binary {
    type Value = Vec<u8>;

    type Model = Seq<u8>;

    open spec fn model(value: Vec<u8>) -> Seq<u8> {
        value@
    }

    open spec fn default_model() -> Seq<u8> {
        Seq::<u8>::empty()
    }

    open spec fn merged(wire_type: WireType, m: Seq<u8>, s: Seq<u8>, depth: nat) -> Seq<u8> {
        match crate::encoding::bytes::merge_spec(wire_type, s).0 {
            Ok(content) => content,
            Err(_) => m,
        }
    }

    proof fn lemma_model_default(value: Vec<u8>) {
        assert(value@ =~= Seq::<u8>::empty());
    }

    proof fn lemma_model_same(a: Vec<u8>, b: Vec<u8>) {
    }

    open spec fn field(number: nat, value: Vec<u8>) -> Seq<u8> {
        delimited_bytes(number, value@)
    }

    open spec fn same_spec(a: Vec<u8>, b: Vec<u8>) -> bool {
        a@ == b@
    }

    open spec fn is_default_spec(value: Vec<u8>) -> bool {
        value@.len() == 0
    }

    open spec fn merge_outcome(wire_type: WireType, s: Seq<u8>, depth: nat) -> (Result<(), DecodeError>, Seq<u8>) {
        (unit_result(crate::encoding::bytes::merge_spec(wire_type, s).0), crate::encoding::bytes::merge_spec(wire_type, s).1)
    }

    proof fn lemma_field_roundtrip(number: u32, value: Vec<u8>, m: Self::Model, tail: Seq<u8>, depth: nat) {
        let content = value@;
        let payload = crate::varint::varint_bytes(content.len()) + content + tail;
        crate::encoding::lemma_tag_roundtrip(number, WireType::LengthDelimited, payload);
        assert(delimited_bytes(number as nat, content) + tail =~= crate::encoding::tag_bytes(
            number as nat,
            WireType::LengthDelimited,
        ) + payload);
        crate::encoding::bytes::lemma_roundtrip(content, tail);
        lemma_key_nonempty(number, WireType::LengthDelimited, crate::varint::varint_bytes(content.len()) + content);
        assert(delimited_bytes(number as nat, content) =~= crate::encoding::tag_bytes(
            number as nat,
            WireType::LengthDelimited,
        ) + (crate::varint::varint_bytes(content.len()) + content));
    }

    fn default_value() -> (r: Vec<u8>) {
        let r = Vec::new();
        assert(r@ =~= Seq::<u8>::empty());
        r
    }

    fn is_default(value: &Vec<u8>) -> (r: bool) {
        value.is_empty()
    }

    fn same(a: &Vec<u8>, b: &Vec<u8>) -> (r: bool) {
        crate::utils::bytes_equal(a.as_slice(), b.as_slice())
    }

    fn encode(number: u32, value: &Vec<u8>, buf: &mut Vec<u8>) {
        crate::encoding::bytes::encode(number, value, buf)
    }

    fn encoded_len(number: u32, value: &Vec<u8>) -> (n: usize) {
        crate::encoding::bytes::encoded_len(number, value)
    }

    fn merge(wire_type: WireType, value: &mut Vec<u8>, buf: &mut ReadBuf, ctx: DecodeContext) -> (r: Result<
        (),
        DecodeError,
    >) {
        proof {
            crate::encoding::bytes::lemma_merge_suffix(wire_type, buf@);
        }
        crate::encoding::bytes::merge(wire_type, value, buf, ctx)
    }
}

/// Fields of an open protobuf enum type.
pub struct EnumOf<T>(core::marker::PhantomData<T>);

impl<T> FieldCodec for EnumOf<T> {
    type Value = Enum<T>;

    type Model = i32;

    open spec fn model(value: Enum<T>) -> i32 {
        value.0
    }

    open spec fn default_model() -> i32 {
        0
    }

    open spec fn merged(wire_type: WireType, m: i32, s: Seq<u8>, depth: nat) -> i32 {
        if wire_type != WireType::Varint {
            m
        } else {
            match crate::varint::enum_value::decoded::<T>(s) {
                Ok(v) => v.0,
                Err(_) => m,
            }
        }
    }

    proof fn lemma_model_default(value: Enum<T>) {
    }

    proof fn lemma_model_same(a: Enum<T>, b: Enum<T>) {
    }

    open spec fn field(number: nat, value: Enum<T>) -> Seq<u8> {
        crate::encoding::enum_value::field_bytes(number, value)
    }

    open spec fn same_spec(a: Enum<T>, b: Enum<T>) -> bool {
        a.0 == b.0
    }

    open spec fn is_default_spec(value: Enum<T>) -> bool {
        value.0 == 0
    }

    open spec fn merge_outcome(wire_type: WireType, s: Seq<u8>, depth: nat) -> (Result<(), DecodeError>, Seq<u8>) {
        scalar_outcome(
            wire_type,
            WireType::Varint,
            crate::varint::enum_value::decoded::<T>(s),
            s,
            crate::varint::enum_value::rest(s),
        )
    }

    proof fn lemma_field_roundtrip(number: u32, value: Enum<T>, m: Self::Model, tail: Seq<u8>, depth: nat) {
        crate::encoding::enum_value::lemma_field_roundtrip::<T>(number, value, tail);
        lemma_key_nonempty(number, WireType::Varint, crate::varint::enum_value::value_bytes(value));
    }

    fn default_value() -> (r: Enum<T>) {
        Enum::new(0)
    }

    fn is_default(value: &Enum<T>) -> (r: bool) {
        value.0 == 0
    }

    fn same(a: &Enum<T>, b: &Enum<T>) -> (r: bool) {
        a.0 == b.0
    }

    fn encode(number: u32, value: &Enum<T>, buf: &mut Vec<u8>) {
        crate::encoding::enum_value::encode(number, value, buf)
    }

    fn encoded_len(number: u32, value: &Enum<T>) -> (n: usize) {
        crate::encoding::enum_value::encoded_len(number, value)
    }

    fn merge(wire_type: WireType, value: &mut Enum<T>, buf: &mut ReadBuf, ctx: DecodeContext) -> (r: Result<
        (),
        DecodeError,
    >) {
        let ghost s = buf@;
        proof {
            lemma_suffix_refl(s);
            lemma_varint64_rest_suffix(s);
        }
        crate::encoding::enum_value::merge(wire_type, value, buf, ctx)
    }
}

/// Whether the order of `K` is a lawful total order, as a sorted map needs.
pub open spec fn lawful_order<K: Ord>() -> bool {
    vstd::laws_cmp::obeys_cmp::<K>()
}

/// The bytes inside a map entry: the key unless it is the default, then the
/// value unless it equals `val_default`.
pub open spec fn entry_body<KC: FieldCodec, VC: FieldCodec>(
    key: KC::Value,
    val: VC::Value,
    val_default: VC::Value,
) -> Seq<u8> {
    (if KC::is_default_spec(key) {
        Seq::<u8>::empty()
    } else {
        KC::field(1, key)
    }) + (if VC::same_spec(val, val_default) {
        Seq::<u8>::empty()
    } else {
        VC::field(2, val)
    })
}

/// The bytes of the map entries, one length-delimited field each.
pub open spec fn entries_bytes<KC: FieldCodec, VC: FieldCodec>(
    number: nat,
    entries: Seq<(KC::Value, VC::Value)>,
    val_default: VC::Value,
) -> Seq<u8>
    decreases entries.len(),
{
    if entries.len() == 0 {
        Seq::<u8>::empty()
    } else {
        entries_bytes::<KC, VC>(number, entries.drop_last(), val_default) + delimited_bytes(
            number,
            entry_body::<KC, VC>(entries.last().0, entries.last().1, val_default),
        )
    }
}

/// A prefix of the entries takes no more bytes than all of them.
pub proof fn lemma_entries_prefix<KC: FieldCodec, VC: FieldCodec>(
    number: nat,
    entries: Seq<(KC::Value, VC::Value)>,
    val_default: VC::Value,
    n: nat,
)
    requires
        n <= entries.len(),
    ensures
        entries_bytes::<KC, VC>(number, entries.take(n as int), val_default).len()
            <= entries_bytes::<KC, VC>(number, entries, val_default).len(),
    decreases entries.len() - n,
{
    if n < entries.len() {
        lemma_entries_prefix::<KC, VC>(number, entries, val_default, n + 1);
        assert(entries.take(n + 1int).drop_last() =~= entries.take(n as int));
    } else {
        assert(entries.take(n as int) =~= entries);
    }
}

/// One field of an entry, followed by `rest`, is read whole by one step.
proof fn lemma_entry_field_step<KC: FieldCodec, VC: FieldCodec>(
    key_field: bool,
    key: KC::Value,
    val: VC::Value,
    m: (KC::Model, VC::Model),
    rest: Seq<u8>,
    depth: nat,
)
    requires
        key_field ==> KC::field(1, key).len() <= usize::MAX,
        !key_field ==> VC::field(2, val).len() <= usize::MAX,
    ensures
        ({
            let f = if key_field {
                KC::field(1, key)
            } else {
                VC::field(2, val)
            };
            &&& f.len() >= 1
            &&& entry_step_outcome::<KC, VC>(f + rest, depth) == (Ok::<(), DecodeError>(()), rest)
            &&& entry_step_model::<KC, VC>(m, f + rest, depth) == if key_field {
                (KC::model(key), m.1)
            } else {
                (m.0, VC::model(val))
            }
        }),
{
    if key_field {
        KC::lemma_field_roundtrip(1, key, m.0, rest, depth);
    } else {
        VC::lemma_field_roundtrip(2, val, m.1, rest, depth);
    }
}

/// An encoded map entry reads back whole: reading its region into an entry
/// that holds the default key and `val_default` succeeds, gives back the key
/// and the value, and leaves exactly what followed it.
pub proof fn lemma_entry_roundtrip<KC: FieldCodec, VC: FieldCodec>(
    key: KC::Value,
    val: VC::Value,
    val_default: VC::Value,
    tail: Seq<u8>,
    depth: nat,
)
    requires
        entry_body::<KC, VC>(key, val, val_default).len() <= usize::MAX,
    ensures
        region_outcome::<(KC::Value, VC::Value), EntryFields<KC, VC>>(
            EntryFields::<KC, VC>::spec_new(),
            crate::varint::varint_bytes(entry_body::<KC, VC>(key, val, val_default).len())
                + entry_body::<KC, VC>(key, val, val_default) + tail,
            depth,
        ) == (Ok::<(), DecodeError>(()), tail),
        region_model::<(KC::Value, VC::Value), EntryFields<KC, VC>>(
            EntryFields::<KC, VC>::spec_new(),
            (KC::default_model(), VC::model(val_default)),
            crate::varint::varint_bytes(entry_body::<KC, VC>(key, val, val_default).len())
                + entry_body::<KC, VC>(key, val, val_default) + tail,
            depth,
        ) == (KC::model(key), VC::model(val)),
{
    let step = EntryFields::<KC, VC>::spec_new();
    let m0 = (KC::default_model(), VC::model(val_default));
    let kb = if KC::is_default_spec(key) {
        Seq::<u8>::empty()
    } else {
        KC::field(1, key)
    };
    let vb = if VC::same_spec(val, val_default) {
        Seq::<u8>::empty()
    } else {
        VC::field(2, val)
    };
    let m1 = if KC::is_default_spec(key) {
        m0
    } else {
        (KC::model(key), m0.1)
    };
    if KC::is_default_spec(key) {
        KC::lemma_model_default(key);
    }
    if VC::same_spec(val, val_default) {
        VC::lemma_model_same(val, val_default);
    }
    assert(m1.0 == KC::model(key));
    let body = entry_body::<KC, VC>(key, val, val_default);
    assert(body == kb + vb);
    let len = body.len();
    crate::varint::usize::lemma_roundtrip(len as usize, body + tail);
    assert(crate::varint::varint_bytes(len) + body + tail =~= crate::varint::varint_bytes(len) + (
    body + tail));
    let limit = tail.len();
    assert((body + tail).len() - len == limit);
    // The value's field, then nothing.
    assert(loop_outcome::<(KC::Value, VC::Value), EntryFields<KC, VC>>(step, tail, limit, depth)
        == (Ok::<(), DecodeError>(()), tail));
    assert(loop_outcome::<(KC::Value, VC::Value), EntryFields<KC, VC>>(step, vb + tail, limit, depth)
        == (Ok::<(), DecodeError>(()), tail) && loop_model::<(KC::Value, VC::Value), EntryFields<KC, VC>>(
        step,
        m1,
        vb + tail,
        limit,
        depth,
    ) == (KC::model(key), VC::model(val))) by {
        if VC::same_spec(val, val_default) {
            assert(vb + tail =~= tail);
        } else {
            lemma_entry_field_step::<KC, VC>(false, key, val, m1, tail, depth);
            assert(step.step_outcome(vb + tail, depth) == (Ok::<(), DecodeError>(()), tail));
            assert(step.step_model(m1, vb + tail, depth) == (KC::model(key), VC::model(val)));
            assert(loop_model::<(KC::Value, VC::Value), EntryFields<KC, VC>>(
                step,
                (KC::model(key), VC::model(val)),
                tail,
                limit,
                depth,
            ) == (KC::model(key), VC::model(val)));
        }
    }
    // The key's field first, when there is one.
    assert(body + tail =~= kb + (vb + tail));
    assert(loop_outcome::<(KC::Value, VC::Value), EntryFields<KC, VC>>(step, kb + (vb + tail), limit, depth)
        == (Ok::<(), DecodeError>(()), tail) && loop_model::<(KC::Value, VC::Value), EntryFields<KC, VC>>(
        step,
        m0,
        kb + (vb + tail),
        limit,
        depth,
    ) == (KC::model(key), VC::model(val))) by {
        if KC::is_default_spec(key) {
            assert(kb + (vb + tail) =~= vb + tail);
        } else {
            lemma_entry_field_step::<KC, VC>(true, key, val, m0, vb + tail, depth);
            assert(step.step_outcome(kb + (vb + tail), depth) == (Ok::<(), DecodeError>(()), vb + tail));
            assert(step.step_model(m0, kb + (vb + tail), depth) == m1);
        }
    }
}

/// Reads one field of a map entry: the key is field 1, the value field 2,
/// and other fields are skipped.
pub struct EntryFields<KC, VC>(pub core::marker::PhantomData<(KC, VC)>);

impl<KC, VC> EntryFields<KC, VC> {
    /// The step for entries with these codecs.
    pub open spec fn spec_new() -> Self {
        EntryFields(core::marker::PhantomData)
    }

    /// The step for entries with these codecs.
    pub fn new() -> (r: Self)
        ensures
            r == Self::spec_new(),
    {
        EntryFields(core::marker::PhantomData)
    }
}

/// The outcome of reading one field of a map entry from `s`.
pub open spec fn entry_step_outcome<KC: FieldCodec, VC: FieldCodec>(s: Seq<u8>, depth: nat) -> (Result<
    (),
    DecodeError,
>, Seq<u8>) {
    match tag_result(s) {
        Err(e) => (Err(e), varint32_rest(s)),
        Ok((number, wire_type)) => {
            let s1 = varint32_rest(s);
            if number == 1 {
                KC::merge_outcome(wire_type, s1, depth)
            } else if number == 2 {
                VC::merge_outcome(wire_type, s1, depth)
            } else {
                skip_spec(wire_type, number, s1, depth)
            }
        },
    }
}

/// The models of the key and the value after reading one field of a map
/// entry from `s`; a field other than the key and the value changes neither.
pub open spec fn entry_step_model<KC: FieldCodec, VC: FieldCodec>(
    m: (KC::Model, VC::Model),
    s: Seq<u8>,
    depth: nat,
) -> (KC::Model, VC::Model) {
    match tag_result(s) {
        Err(_) => m,
        Ok((number, wire_type)) => {
            let s1 = varint32_rest(s);
            if number == 1 {
                (KC::merged(wire_type, m.0, s1, depth), m.1)
            } else if number == 2 {
                (m.0, VC::merged(wire_type, m.1, s1, depth))
            } else {
                m
            }
        },
    }
}

impl<KC: FieldCodec, VC: FieldCodec> MergeStep<(KC::Value, VC::Value)> for EntryFields<KC, VC> {
    type Model = (KC::Model, VC::Model);

    open spec fn model(value: (KC::Value, VC::Value)) -> (KC::Model, VC::Model) {
        (KC::model(value.0), VC::model(value.1))
    }

    open spec fn step_outcome(&self, s: Seq<u8>, depth: nat) -> (Result<(), DecodeError>, Seq<u8>) {
        entry_step_outcome::<KC, VC>(s, depth)
    }

    open spec fn step_model(&self, m: (KC::Model, VC::Model), s: Seq<u8>, depth: nat) -> (KC::Model, VC::Model) {
        entry_step_model::<KC, VC>(m, s, depth)
    }

    fn merge_step(&self, entry: &mut (KC::Value, VC::Value), buf: &mut ReadBuf, ctx: DecodeContext) -> (r: Result<
        (),
        DecodeError,
    >) {
        let ghost s0 = buf@;
        proof {
            lemma_varint32_rest_suffix(s0);
            lemma_varint32_rest_shrinks(s0);
        }
        let (number, wire_type) = decode_tag(buf)?;
        let ghost s1 = buf@;
        proof {
            lemma_skip_suffix(wire_type, number, s1, ctx.depth());
        }
        let r = if number == 1 {
            KC::merge(wire_type, &mut entry.0, buf, ctx)
        } else if number == 2 {
            VC::merge(wire_type, &mut entry.1, buf, ctx)
        } else {
            skip_field(wire_type, number, buf, ctx)
        };
        proof {
            lemma_suffix_trans(buf@, s1, s0);
        }
        r
    }
}

} // verus!
