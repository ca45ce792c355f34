use cursor_api::buf::ReadBuf;
use cursor_api::encoding::codec::{Binary, Sint32, Text, Uint64};
use cursor_api::encoding::{btree_map, hash_map};
use std::collections::{BTreeMap, HashMap};
use cursor_api::byte_str::ByteStr;
use cursor_api::encoding::{
    bool as bool_field, bytes, decode_tag, encode_tag, enum_value, fixed32, fixed64, group, int32,
    int64, merge_loop, message, sfixed32, sfixed64, sint32, sint64, skip_field, string, tag_len,
    uint32, uint64, DecodeContext, MergeStep, MAX_FIELD_NUMBER, RECURSION_LIMIT,
};
use cursor_api::error::DecodeError;
use cursor_api::message::Message;
use cursor_api::proto_value::{Bytes, Enum};
use cursor_api::wire_type::WireType;

/// A message with one `uint64` field (number 1) and one `string` field
/// (number 2).
#[derive(Debug, Default, Clone, PartialEq)]
struct Sample {
    id: u64,
    name: String,
}

impl Message for Sample {
    fn body(&self) -> vstd::seq::Seq<u8> {
        unreachable!("the encoded body is only described in proofs")
    }

    fn field_outcome(
        _number: u32,
        _wire_type: WireType,
        _s: vstd::seq::Seq<u8>,
        _depth: vstd::prelude::nat,
    ) -> (Result<(), DecodeError>, vstd::seq::Seq<u8>) {
        unreachable!("the outcome of a field is only described in proofs")
    }

    fn merged(
        self,
        _number: u32,
        _wire_type: WireType,
        _s: vstd::seq::Seq<u8>,
        _depth: vstd::prelude::nat,
    ) -> Self {
        unreachable!("the merged message is only described in proofs")
    }

    fn encode_raw(&self, buf: &mut Vec<u8>) {
        if self.id != 0 {
            uint64::encode(1, &self.id, buf);
        }
        if !self.name.is_empty() {
            string::encode(2, &self.name, buf);
        }
    }

    fn encoded_len(&self) -> usize {
        let mut n = 0;
        if self.id != 0 {
            n += uint64::encoded_len(1, &self.id);
        }
        if !self.name.is_empty() {
            n += string::encoded_len(2, &self.name);
        }
        n
    }

    fn merge_field(
        &mut self,
        number: u32,
        wire_type: WireType,
        buf: &mut ReadBuf,
        ctx: DecodeContext,
    ) -> Result<(), DecodeError> {
        match number {
            1 => uint64::merge(wire_type, &mut self.id, buf, ctx),
            2 => string::merge(wire_type, &mut self.name, buf, ctx),
            _ => skip_field(wire_type, number, buf, ctx),
        }
    }
}

fn ctx() -> DecodeContext {
    DecodeContext::new()
}

#[test]
fn tags_roundtrip() {
    for (number, wire_type) in [
        (1u32, WireType::Varint),
        (15, WireType::LengthDelimited),
        (16, WireType::SixtyFourBit),
        (2047, WireType::StartGroup),
        (MAX_FIELD_NUMBER, WireType::ThirtyTwoBit),
    ] {
        let mut buf = Vec::new();
        encode_tag(number, wire_type, &mut buf);
        assert_eq!(buf.len(), tag_len(number));
        let mut rb = ReadBuf::new(buf);
        assert_eq!(decode_tag(&mut rb), Ok((number, wire_type)));
        assert!(!rb.has_remaining());
    }
    let mut buf = Vec::new();
    encode_tag(1, WireType::LengthDelimited, &mut buf);
    assert_eq!(buf, vec![0x0a]);
    assert_eq!(tag_len(1), 1);
    assert_eq!(tag_len(16), 2);
    assert_eq!(tag_len(MAX_FIELD_NUMBER), 5);
}

#[test]
fn tag_errors() {
    let mut zero = ReadBuf::new(vec![0x02]);
    assert_eq!(decode_tag(&mut zero), Err(DecodeError::InvalidFieldNumber));
    let mut six = ReadBuf::new(vec![0x0e]);
    assert_eq!(decode_tag(&mut six), Err(DecodeError::InvalidWireType { value: 6 }));
    let mut seven = ReadBuf::new(vec![0x0f]);
    assert_eq!(decode_tag(&mut seven), Err(DecodeError::InvalidWireType { value: 7 }));
    let mut empty = ReadBuf::new(vec![]);
    assert_eq!(decode_tag(&mut empty), Err(DecodeError::InvalidVarint));
}

#[test]
fn wire_type_numbers() {
    assert_eq!(WireType::try_from_number(5), Ok(WireType::ThirtyTwoBit));
    assert_eq!(WireType::try_from_number(6), Err(DecodeError::InvalidWireType { value: 6 }));
    assert_eq!(WireType::LengthDelimited.number(), 2);
    assert_eq!(
        cursor_api::wire_type::check_wire_type(WireType::Varint, WireType::SixtyFourBit),
        Err(DecodeError::UnexpectedWireType {
            actual: WireType::SixtyFourBit,
            expected: WireType::Varint,
        })
    );
}

#[test]
fn skip_each_wire_type() {
    let mut rb = ReadBuf::new(vec![0xac, 0x02, 0x33]);
    assert_eq!(skip_field(WireType::Varint, 1, &mut rb, ctx()), Ok(()));
    assert_eq!(rb.chunk(), &[0x33]);

    let mut rb = ReadBuf::new(vec![1, 2, 3, 4, 5]);
    assert_eq!(skip_field(WireType::ThirtyTwoBit, 1, &mut rb, ctx()), Ok(()));
    assert_eq!(rb.chunk(), &[5]);

    let mut rb = ReadBuf::new(vec![1, 2, 3, 4, 5, 6, 7]);
    assert_eq!(skip_field(WireType::SixtyFourBit, 1, &mut rb, ctx()), Err(DecodeError::BufferUnderflow));

    let mut rb = ReadBuf::new(vec![3, b'a', b'b', b'c', 9]);
    assert_eq!(skip_field(WireType::LengthDelimited, 1, &mut rb, ctx()), Ok(()));
    assert_eq!(rb.chunk(), &[9]);

    let mut rb = ReadBuf::new(vec![]);
    assert_eq!(skip_field(WireType::EndGroup, 1, &mut rb, ctx()), Err(DecodeError::UnexpectedEndGroupTag));
}

#[test]
fn skip_groups() {
    // Field 5 group holding a varint field 1 and a nested group 2, then the end key.
    let mut bytes = Vec::new();
    encode_tag(1, WireType::Varint, &mut bytes);
    bytes.push(7);
    encode_tag(2, WireType::StartGroup, &mut bytes);
    encode_tag(2, WireType::EndGroup, &mut bytes);
    encode_tag(5, WireType::EndGroup, &mut bytes);
    bytes.push(0x42);
    let mut rb = ReadBuf::new(bytes.clone());
    assert_eq!(skip_field(WireType::StartGroup, 5, &mut rb, ctx()), Ok(()));
    assert_eq!(rb.chunk(), &[0x42]);

    // The same group closed by the end key of another field.
    let mut rb = ReadBuf::new(bytes);
    assert_eq!(
        skip_field(WireType::StartGroup, 6, &mut rb, ctx()),
        Err(DecodeError::UnexpectedEndGroupTag)
    );
}

#[test]
fn recursion_limit_is_enforced() {
    assert_eq!(RECURSION_LIMIT, 100);
    let mut c = ctx();
    for _ in 0..RECURSION_LIMIT {
        assert_eq!(c.limit_reached(), Ok(()));
        c = c.enter_recursion();
    }
    assert_eq!(c.limit_reached(), Err(DecodeError::RecursionLimitReached));
    let mut rb = ReadBuf::new(vec![0]);
    assert_eq!(skip_field(WireType::Varint, 1, &mut rb, c), Err(DecodeError::RecursionLimitReached));
}

#[test]
fn scalar_fields_roundtrip() {
    let mut buf = Vec::new();
    uint64::encode(1, &u64::MAX, &mut buf);
    int64::encode(2, &-5, &mut buf);
    sint64::encode(3, &-5, &mut buf);
    uint32::encode(4, &300, &mut buf);
    int32::encode(5, &-7, &mut buf);
    sint32::encode(6, &-7, &mut buf);
    bool_field::encode(7, &true, &mut buf);
    fixed32::encode(8, &0xdead_beef, &mut buf);
    fixed64::encode(9, &1, &mut buf);
    sfixed32::encode(10, &-1, &mut buf);
    sfixed64::encode(11, &-1, &mut buf);
    enum_value::encode(12, &Enum::<i32>::new(3), &mut buf);
    assert_eq!(&buf[..2], &[0x08, 0xff]);

    let mut rb = ReadBuf::new(buf);
    let mut a = 0u64;
    let mut b = 0i64;
    let mut c = 0i64;
    let mut d = 0u32;
    let mut e = 0i32;
    let mut f = 0i32;
    let mut g = false;
    let mut h = 0u32;
    let mut i = 0u64;
    let mut j = 0i32;
    let mut k = 0i64;
    let mut l = Enum::<i32>::new(0);
    let next = |rb: &mut ReadBuf| decode_tag(rb).unwrap().1;
    let w = next(&mut rb);
    uint64::merge(w, &mut a, &mut rb, ctx()).unwrap();
    let w = next(&mut rb);
    int64::merge(w, &mut b, &mut rb, ctx()).unwrap();
    let w = next(&mut rb);
    sint64::merge(w, &mut c, &mut rb, ctx()).unwrap();
    let w = next(&mut rb);
    uint32::merge(w, &mut d, &mut rb, ctx()).unwrap();
    let w = next(&mut rb);
    int32::merge(w, &mut e, &mut rb, ctx()).unwrap();
    let w = next(&mut rb);
    sint32::merge(w, &mut f, &mut rb, ctx()).unwrap();
    let w = next(&mut rb);
    bool_field::merge(w, &mut g, &mut rb, ctx()).unwrap();
    let w = next(&mut rb);
    fixed32::merge(w, &mut h, &mut rb, ctx()).unwrap();
    let w = next(&mut rb);
    fixed64::merge(w, &mut i, &mut rb, ctx()).unwrap();
    let w = next(&mut rb);
    sfixed32::merge(w, &mut j, &mut rb, ctx()).unwrap();
    let w = next(&mut rb);
    sfixed64::merge(w, &mut k, &mut rb, ctx()).unwrap();
    let w = next(&mut rb);
    enum_value::merge(w, &mut l, &mut rb, ctx()).unwrap();
    assert_eq!((a, b, c, d, e, f, g), (u64::MAX, -5, -5, 300, -7, -7, true));
    assert_eq!((h, i, j, k, l.get()), (0xdead_beef, 1, -1, -1, 3));
    assert!(!rb.has_remaining());
}

#[test]
fn scalar_merge_wrong_wire_type() {
    let mut v = 9u64;
    let mut rb = ReadBuf::new(vec![1, 2, 3, 4]);
    assert_eq!(
        uint64::merge(WireType::ThirtyTwoBit, &mut v, &mut rb, ctx()),
        Err(DecodeError::UnexpectedWireType {
            actual: WireType::ThirtyTwoBit,
            expected: WireType::Varint,
        })
    );
    assert_eq!(v, 9);
    assert_eq!(rb.remaining(), 4);
}

#[test]
fn repeated_and_packed_fields() {
    let values = [1u64, 150, u64::MAX];
    let mut packed = Vec::new();
    uint64::encode_packed(4, &values, &mut packed);
    // key, length 13, then the varints.
    assert_eq!(&packed[..2], &[0x22, 13]);
    assert_eq!(packed.len(), uint64::encoded_len_packed(4, &values));

    let mut unpacked = Vec::new();
    uint64::encode_repeated(4, &values, &mut unpacked);
    assert_eq!(unpacked.len(), uint64::encoded_len_repeated(4, &values));
    assert_eq!(&unpacked[..2], &[0x20, 0x01]);

    // A packed run and single values both append.
    let mut out = Vec::new();
    let mut rb = ReadBuf::new(packed);
    let (_, w) = decode_tag(&mut rb).unwrap();
    uint64::merge_repeated(w, &mut out, &mut rb, ctx()).unwrap();
    let mut rb2 = ReadBuf::new(unpacked);
    while rb2.has_remaining() {
        let (_, w) = decode_tag(&mut rb2).unwrap();
        uint64::merge_repeated(w, &mut out, &mut rb2, ctx()).unwrap();
    }
    assert_eq!(out, vec![1, 150, u64::MAX, 1, 150, u64::MAX]);

    assert_eq!(uint64::encoded_len_packed(4, &[]), 0);
    let mut none = Vec::new();
    uint64::encode_packed(4, &[], &mut none);
    assert!(none.is_empty());

    let mut fixed = Vec::new();
    fixed32::encode_packed(1, &[1, 2], &mut fixed);
    assert_eq!(fixed, vec![0x0a, 8, 1, 0, 0, 0, 2, 0, 0, 0]);
    assert_eq!(fixed32::encoded_len_packed(1, &[1, 2]), 10);
}

#[test]
fn packed_run_past_its_end_is_refused() {
    // Length 3, but the last varint runs on past the run.
    let mut rb = ReadBuf::new(vec![3, 0x01, 0x01, 0x80, 0x01]);
    let mut out: Vec<u64> = Vec::new();
    assert!(uint64::merge_repeated(WireType::LengthDelimited, &mut out, &mut rb, ctx()).is_err());
}

#[test]
fn bytes_fields() {
    let mut buf = Vec::new();
    bytes::encode(3, &vec![1u8, 2, 3], &mut buf);
    assert_eq!(buf, vec![0x1a, 3, 1, 2, 3]);
    assert_eq!(bytes::encoded_len(3, &vec![1u8, 2, 3]), 5);

    let mut value: Vec<u8> = vec![9, 9];
    let mut rb = ReadBuf::new(buf[1..].to_vec());
    bytes::merge(WireType::LengthDelimited, &mut value, &mut rb, ctx()).unwrap();
    assert_eq!(value, vec![1, 2, 3]);

    let mut wrapped: Bytes<Vec<u8>> = Bytes(Vec::new());
    let mut rb = ReadBuf::new(vec![2, 7, 8]);
    bytes::merge(WireType::LengthDelimited, &mut wrapped, &mut rb, ctx()).unwrap();
    assert_eq!(wrapped.0, vec![7, 8]);

    let mut short: Vec<u8> = vec![5];
    let mut rb = ReadBuf::new(vec![4, 1, 2]);
    assert_eq!(
        bytes::merge(WireType::LengthDelimited, &mut short, &mut rb, ctx()),
        Err(DecodeError::BufferUnderflow)
    );
    assert_eq!(short, vec![5]);

    let mut many: Vec<Vec<u8>> = Vec::new();
    let mut rb = ReadBuf::new(vec![1, 0xaa]);
    bytes::merge_repeated(WireType::LengthDelimited, &mut many, &mut rb, ctx()).unwrap();
    assert_eq!(many, vec![vec![0xaa]]);

    let values = vec![vec![1u8], vec![]];
    let mut out = Vec::new();
    bytes::encode_repeated(1, &values, &mut out);
    assert_eq!(out, vec![0x0a, 1, 1, 0x0a, 0]);
    assert_eq!(bytes::encoded_len_repeated(1, &values), 5);
}

#[test]
fn string_fields() {
    let mut buf = Vec::new();
    string::encode(2, &String::from("hé"), &mut buf);
    assert_eq!(buf, vec![0x12, 3, b'h', 0xc3, 0xa9]);
    assert_eq!(string::encoded_len(2, &String::from("hé")), 5);

    let mut s = ByteStr::new();
    let mut rb = ReadBuf::new(vec![3, b'h', 0xc3, 0xa9]);
    string::merge(WireType::LengthDelimited, &mut s, &mut rb, ctx()).unwrap();
    assert_eq!(s.as_str(), "hé");

    let mut list: Vec<String> = Vec::new();
    let mut rb = ReadBuf::new(vec![2, b'o', b'k']);
    string::merge_repeated(WireType::LengthDelimited, &mut list, &mut rb, ctx()).unwrap();
    assert_eq!(list, vec![String::from("ok")]);

    let mut out = Vec::new();
    string::encode_repeated(1, &list, &mut out);
    assert_eq!(out, vec![0x0a, 2, b'o', b'k']);
    assert_eq!(string::encoded_len_repeated(1, &list), 4);
}

#[test]
fn string_merge_invalid_utf8() {
    let mut s = String::new();
    let buf = b"\x02\x80\x80";

    let r = string::merge(
        WireType::LengthDelimited,
        &mut s,
        &mut ReadBuf::new(buf.to_vec()),
        DecodeContext::default(),
    );
    r.expect_err("must be an error");
    assert!(s.is_empty());
}

#[test]
fn string_merge_clears_on_error() {
    let mut s = String::from("previous");
    let mut rb = ReadBuf::new(vec![2, 0xff, 0xfe]);
    assert_eq!(
        string::merge(WireType::LengthDelimited, &mut s, &mut rb, ctx()),
        Err(DecodeError::InvalidString)
    );
    assert!(s.is_empty());

    let mut s = String::from("previous");
    let mut rb = ReadBuf::new(vec![5, b'a']);
    assert_eq!(
        string::merge(WireType::LengthDelimited, &mut s, &mut rb, ctx()),
        Err(DecodeError::BufferUnderflow)
    );
    assert!(s.is_empty());
}

#[test]
fn message_fields_roundtrip() {
    let msg = Sample { id: 150, name: String::from("testing") };
    let mut buf = Vec::new();
    message::encode(3, &msg, &mut buf);
    // key, body length, then the body: 08 96 01 12 07 "testing".
    let mut expected = vec![0x1a, 12, 0x08, 0x96, 0x01, 0x12, 7];
    expected.extend_from_slice(b"testing");
    assert_eq!(buf, expected);
    assert_eq!(message::encoded_len(3, &msg), buf.len());

    let mut rb = ReadBuf::new(buf);
    let (number, w) = decode_tag(&mut rb).unwrap();
    assert_eq!(number, 3);
    let mut out = Sample::default();
    message::merge(w, &mut out, &mut rb, ctx()).unwrap();
    assert_eq!(out, msg);
    assert!(!rb.has_remaining());
}

#[test]
fn message_with_long_body_is_moved_into_place() {
    // A body of 300 bytes needs a two-byte length in front of it.
    let msg = Sample { id: 0, name: "x".repeat(297) };
    let mut buf = vec![0xee];
    message::encode(1, &msg, &mut buf);
    assert_eq!(buf[0], 0xee);
    assert_eq!(&buf[1..4], &[0x0a, 0xac, 0x02]);
    assert_eq!(buf.len(), 1 + 3 + 300);
    assert_eq!(&buf[4..7], &[0x12, 0xa9, 0x02]);
    assert!(buf[7..].iter().all(|&b| b == b'x'));
    assert_eq!(message::encoded_len(1, &msg), 303);
}

#[test]
fn message_repeated_and_errors() {
    let msgs = vec![Sample { id: 1, name: String::new() }, Sample::default()];
    let mut buf = Vec::new();
    message::encode_repeated(2, &msgs, &mut buf);
    assert_eq!(buf, vec![0x12, 2, 0x08, 0x01, 0x12, 0]);
    assert_eq!(message::encoded_len_repeated(2, &msgs), 6);

    let mut rb = ReadBuf::new(buf);
    let mut out: Vec<Sample> = Vec::new();
    while rb.has_remaining() {
        let (_, w) = decode_tag(&mut rb).unwrap();
        message::merge_repeated(w, &mut out, &mut rb, ctx()).unwrap();
    }
    assert_eq!(out, msgs);

    let mut m = Sample::default();
    let mut rb = ReadBuf::new(vec![0]);
    assert_eq!(
        message::merge(WireType::Varint, &mut m, &mut rb, ctx()),
        Err(DecodeError::UnexpectedWireType {
            actual: WireType::Varint,
            expected: WireType::LengthDelimited,
        })
    );
    // The length says 1 byte, but the field inside runs over it.
    let mut rb = ReadBuf::new(vec![1, 0x08, 0x96, 0x01]);
    assert_eq!(
        message::merge(WireType::LengthDelimited, &mut m, &mut rb, ctx()),
        Err(DecodeError::DelimitedLengthExceeded)
    );
    let mut rb = ReadBuf::new(vec![9, 0x08]);
    assert_eq!(
        message::merge(WireType::LengthDelimited, &mut m, &mut rb, ctx()),
        Err(DecodeError::BufferUnderflow)
    );
}

#[test]
fn group_fields_roundtrip() {
    let msg = Sample { id: 2, name: String::from("g") };
    let mut buf = Vec::new();
    group::encode(4, &msg, &mut buf);
    assert_eq!(buf, vec![0x23, 0x08, 0x02, 0x12, 1, b'g', 0x24]);
    assert_eq!(group::encoded_len(4, &msg), buf.len());

    let mut rb = ReadBuf::new(buf);
    let (number, w) = decode_tag(&mut rb).unwrap();
    let mut out = Sample::default();
    group::merge(number, w, &mut out, &mut rb, ctx()).unwrap();
    assert_eq!(out, msg);

    let mut list: Vec<Sample> = Vec::new();
    let mut rb = ReadBuf::new(vec![0x08, 0x05, 0x2c]);
    assert_eq!(
        group::merge_repeated(4, WireType::StartGroup, &mut list, &mut rb, ctx()),
        Err(DecodeError::UnexpectedEndGroupTag)
    );
    assert!(list.is_empty());

    let mut out = Vec::new();
    group::encode_repeated(1, &[Sample::default(), Sample::default()], &mut out);
    assert_eq!(out, vec![0x0b, 0x0c, 0x0b, 0x0c]);
    assert_eq!(group::encoded_len_repeated(1, &[Sample::default(), Sample::default()]), 4);
}

/// Counts the bytes of a region one at a time.
struct CountBytes;

impl MergeStep<usize> for CountBytes {
    type Model = usize;

    fn model(_value: usize) -> usize {
        unreachable!("the model is only described in proofs")
    }

    fn step_model(&self, _m: usize, _s: vstd::seq::Seq<u8>, _depth: vstd::prelude::nat) -> usize {
        unreachable!("the model is only described in proofs")
    }

    fn step_outcome(
        &self,
        _s: vstd::seq::Seq<u8>,
        _depth: vstd::prelude::nat,
    ) -> (Result<(), DecodeError>, vstd::seq::Seq<u8>) {
        unreachable!("the outcome of a step is only described in proofs")
    }

    fn merge_step(&self, count: &mut usize, buf: &mut ReadBuf, _ctx: DecodeContext) -> Result<(), DecodeError> {
        buf.get_u8();
        *count += 1;
        Ok(())
    }
}

#[test]
fn merge_loop_reads_exactly_the_region() {
    let mut count = 0usize;
    let mut rb = ReadBuf::new(vec![3, 1, 2, 3, 4]);
    assert_eq!(merge_loop(&mut count, &mut rb, ctx(), CountBytes), Ok(()));
    assert_eq!(count, 3);
    assert_eq!(rb.chunk(), &[4]);

    let mut rb = ReadBuf::new(vec![5, 1]);
    assert_eq!(merge_loop(&mut count, &mut rb, ctx(), CountBytes), Err(DecodeError::BufferUnderflow));
}

#[test]
fn btree_map_fields() {

    let mut map = BTreeMap::new();
    map.insert(2u64, String::new());
    map.insert(1u64, String::from("a"));
    let mut buf = Vec::new();
    btree_map::encode::<Uint64, Text>(5, &map, &mut buf);
    // Entries in key order; the empty value of key 2 is left out.
    assert_eq!(buf, vec![0x2a, 5, 0x08, 1, 0x12, 1, b'a', 0x2a, 2, 0x08, 2]);
    assert_eq!(btree_map::encoded_len::<Uint64, Text>(5, &map), buf.len());

    let mut back: BTreeMap<u64, String> = BTreeMap::new();
    let mut rb = ReadBuf::new(buf);
    while rb.has_remaining() {
        let (number, w) = decode_tag(&mut rb).unwrap();
        assert_eq!((number, w), (5, WireType::LengthDelimited));
        btree_map::merge::<Uint64, Text>(&mut back, &mut rb, ctx()).unwrap();
    }
    assert_eq!(back, map);

    // An entry with neither key nor value stands for the defaults.
    let mut rb = ReadBuf::new(vec![0]);
    let mut m: BTreeMap<u64, String> = BTreeMap::new();
    btree_map::merge::<Uint64, Text>(&mut m, &mut rb, ctx()).unwrap();
    assert_eq!(m.get(&0), Some(&String::new()));

    // A value default other than the type's own.
    let mut with_default = Vec::new();
    let mut one = BTreeMap::new();
    one.insert(0u64, 7u64);
    btree_map::encode_with_default::<Uint64, Uint64>(&7, 1, &one, &mut with_default);
    assert_eq!(with_default, vec![0x0a, 0]);
    assert_eq!(btree_map::encoded_len_with_default::<Uint64, Uint64>(&7, 1, &one), 2);
}

#[test]
fn hash_map_fields() {

    let mut map = HashMap::new();
    map.insert(-1i32, vec![9u8, 8]);
    let mut buf = Vec::new();
    hash_map::encode::<Sint32, Binary>(1, &map, &mut buf);
    assert_eq!(buf, vec![0x0a, 6, 0x08, 1, 0x12, 2, 9, 8]);
    assert_eq!(hash_map::encoded_len::<Sint32, Binary>(1, &map), 8);

    let mut back = HashMap::new();
    let mut rb = ReadBuf::new(buf[1..].to_vec());
    hash_map::merge::<Sint32, Binary>(&mut back, &mut rb, ctx()).unwrap();
    assert_eq!(back, map);

    let mut rb = ReadBuf::new(vec![3, 0x08, 1]);
    assert_eq!(
        hash_map::merge::<Sint32, Binary>(&mut back, &mut rb, ctx()),
        Err(DecodeError::BufferUnderflow)
    );
}

#[test]
fn negative_enum_field_takes_eleven_bytes() {
    let value: Enum<i32> = Enum::new(-1);
    assert_eq!(enum_value::encoded_len(1, &value), 11);
    let mut buf = Vec::new();
    enum_value::encode(1, &value, &mut buf);
    assert_eq!(buf.len(), 11);
    assert_eq!(buf[0], 0x08);
    let mut rb = ReadBuf::new(buf);
    let (number, w) = decode_tag(&mut rb).unwrap();
    assert_eq!(number, 1);
    let mut back: Enum<i32> = Enum::new(0);
    enum_value::merge(w, &mut back, &mut rb, ctx()).unwrap();
    assert_eq!(back.get(), -1);
    assert!(!rb.has_remaining());

    assert_eq!(int32::encoded_len(1, &-1), 11);
}

#[test]
fn recursion_limit_after_k_levels() {
    let mut c = DecodeContext::default();
    for k in 0..RECURSION_LIMIT {
        assert_eq!(c.limit_reached(), Ok(()), "{k}");
        let next = c.enter_recursion();
        // The context entered from stays as it was.
        assert_eq!(c.limit_reached(), Ok(()));
        c = next;
    }
    assert_eq!(c.limit_reached(), Err(DecodeError::RecursionLimitReached));
}
