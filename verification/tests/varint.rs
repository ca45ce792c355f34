use cursor_api::buf::ReadBuf;
use cursor_api::error::DecodeError;
use cursor_api::fixed_width::{fixed32, fixed64, sfixed32, sfixed64};
use cursor_api::varint::{
    decode_varint32, decode_varint64, decode_zigzag32, decode_zigzag64, encode_varint32,
    encode_varint64, encode_zigzag32, encode_zigzag64, encoded_len_varint32,
    encoded_len_varint64, int32, int64, sint32, sint64, uint32, uint64, usize as varint_usize,
};

fn encoded64(v: u64) -> Vec<u8> {
    let mut buf = Vec::new();
    let n = encode_varint64(v, &mut buf);
    assert_eq!(n, buf.len());
    buf
}

#[test]
fn varint64_known_encodings() {
    assert_eq!(encoded64(0), vec![0x00]);
    assert_eq!(encoded64(1), vec![0x01]);
    assert_eq!(encoded64(127), vec![0x7f]);
    assert_eq!(encoded64(128), vec![0x80, 0x01]);
    assert_eq!(encoded64(300), vec![0xac, 0x02]);
    assert_eq!(encoded64(16_383), vec![0xff, 0x7f]);
    assert_eq!(encoded64(16_384), vec![0x80, 0x80, 0x01]);
    assert_eq!(
        encoded64(u64::MAX),
        vec![0xff, 0xff, 0xff, 0xff, 0xff, 0xff, 0xff, 0xff, 0xff, 0x01]
    );
}

#[test]
fn varint64_lengths() {
    let cases: [(u64, usize); 8] = [
        (0, 1),
        (127, 1),
        (128, 2),
        (16_383, 2),
        (16_384, 3),
        ((1 << 35) - 1, 5),
        (1 << 63, 10),
        (u64::MAX, 10),
    ];
    for (v, n) in cases {
        assert_eq!(encoded_len_varint64(v), n, "length of {v}");
        assert_eq!(encoded64(v).len(), n);
    }
}

#[test]
fn varint64_roundtrip_keeps_what_follows() {
    for v in [0u64, 1, 127, 128, 255, 300, 1 << 32, (1 << 56) + 7, u64::MAX - 1, u64::MAX] {
        let mut bytes = encoded64(v);
        bytes.extend_from_slice(&[9, 8, 7]);
        let mut buf = ReadBuf::new(bytes);
        assert_eq!(decode_varint64(&mut buf), Ok(v));
        assert_eq!(buf.chunk(), &[9, 8, 7]);
    }
}

#[test]
fn varint64_decode_errors() {
    let mut empty = ReadBuf::new(vec![]);
    assert_eq!(decode_varint64(&mut empty), Err(DecodeError::InvalidVarint));

    let mut truncated = ReadBuf::new(vec![0x80, 0x80]);
    assert_eq!(decode_varint64(&mut truncated), Err(DecodeError::InvalidVarint));

    let mut eleven = ReadBuf::new(vec![0xff; 11]);
    assert_eq!(decode_varint64(&mut eleven), Err(DecodeError::InvalidVarint));

    // The tenth byte may only carry the top bit of the value.
    let mut too_big = ReadBuf::new(vec![0xff, 0xff, 0xff, 0xff, 0xff, 0xff, 0xff, 0xff, 0xff, 0x02]);
    assert_eq!(decode_varint64(&mut too_big), Err(DecodeError::InvalidVarint));
}

#[test]
fn varint32_encodings_and_roundtrip() {
    let mut buf = Vec::new();
    assert_eq!(encode_varint32(300, &mut buf), 2);
    assert_eq!(buf, vec![0xac, 0x02]);
    assert_eq!(encoded_len_varint32(u32::MAX), 5);
    for v in [0u32, 1, 127, 128, 300, 1 << 21, u32::MAX] {
        let mut bytes = Vec::new();
        encode_varint32(v, &mut bytes);
        assert_eq!(bytes.len(), encoded_len_varint32(v));
        bytes.push(0x55);
        let mut rb = ReadBuf::new(bytes);
        assert_eq!(decode_varint32(&mut rb), Ok(v));
        assert_eq!(rb.chunk(), &[0x55]);
    }
    let mut six = ReadBuf::new(vec![0xff, 0xff, 0xff, 0xff, 0xff, 0x01]);
    assert_eq!(decode_varint32(&mut six), Err(DecodeError::InvalidVarint));
}

#[test]
fn zigzag_known_values() {
    assert_eq!(encode_zigzag32(0), 0);
    assert_eq!(encode_zigzag32(-1), 1);
    assert_eq!(encode_zigzag32(1), 2);
    assert_eq!(encode_zigzag32(-2), 3);
    assert_eq!(encode_zigzag32(i32::MAX), u32::MAX - 1);
    assert_eq!(encode_zigzag32(i32::MIN), u32::MAX);
    assert_eq!(encode_zigzag64(i64::MIN), u64::MAX);
    assert_eq!(encode_zigzag64(-3), 5);
    for v in [0i32, 1, -1, 1000, -1000, i32::MAX, i32::MIN] {
        assert_eq!(decode_zigzag32(encode_zigzag32(v)), v);
    }
    for v in [0i64, 1, -1, 1 << 40, -(1 << 40), i64::MAX, i64::MIN] {
        assert_eq!(decode_zigzag64(encode_zigzag64(v)), v);
    }
}

#[test]
fn typed_varints_roundtrip() {
    let mut buf = Vec::new();
    int32::encode_varint(-1, &mut buf);
    // A negative int32 is sign-extended to 64 bits: ten bytes.
    assert_eq!(buf, vec![0xff, 0xff, 0xff, 0xff, 0xff, 0xff, 0xff, 0xff, 0xff, 0x01]);
    assert_eq!(int32::encoded_len_varint(-1), 10);
    sint32::encode_varint(-1, &mut buf);
    assert_eq!(buf.len(), 11);
    int64::encode_varint(i64::MIN, &mut buf);
    sint64::encode_varint(i64::MIN, &mut buf);
    uint32::encode_varint(u32::MAX, &mut buf);
    uint64::encode_varint(u64::MAX, &mut buf);
    varint_usize::encode_varint(12345, &mut buf);
    let mut rb = ReadBuf::new(buf);
    assert_eq!(int32::decode_varint(&mut rb), Ok(-1));
    assert_eq!(sint32::decode_varint(&mut rb), Ok(-1));
    assert_eq!(int64::decode_varint(&mut rb), Ok(i64::MIN));
    assert_eq!(sint64::decode_varint(&mut rb), Ok(i64::MIN));
    assert_eq!(uint32::decode_varint(&mut rb), Ok(u32::MAX));
    assert_eq!(uint64::decode_varint(&mut rb), Ok(u64::MAX));
    assert_eq!(varint_usize::decode_varint(&mut rb), Ok(12345));
    assert!(!rb.has_remaining());
}

#[test]
fn packed_varints_follow_their_length() {
    let mut buf = Vec::new();
    uint64::encode_packed_fast(&[1, 300, u64::MAX], &mut buf);
    let mut expected = vec![13, 0x01, 0xac, 0x02];
    expected.extend_from_slice(&[0xff, 0xff, 0xff, 0xff, 0xff, 0xff, 0xff, 0xff, 0xff, 0x01]);
    assert_eq!(buf, expected);

    let mut neg = Vec::new();
    sint32::encode_packed_fast(&[0, -1, 1, -2], &mut neg);
    assert_eq!(neg, vec![4, 0, 1, 2, 3]);
}

#[test]
fn packed_varints_after_earlier_bytes() {
    // What the buffer held stays in front; a body of 200 bytes takes a
    // two-byte length.
    let values: Vec<u64> = (0..200).map(|i| i % 100).collect();
    let mut buf = vec![0xaa, 0xbb];
    uint64::encode_packed_fast(&values, &mut buf);
    let mut expected = vec![0xaa, 0xbb, 0xc8, 0x01];
    expected.extend(values.iter().map(|&v| v as u8));
    assert_eq!(buf, expected);
}

#[test]
fn fixed_width_little_endian() {
    let mut buf = Vec::new();
    fixed32::encode_fixed(0x0403_0201, &mut buf);
    assert_eq!(buf, vec![1, 2, 3, 4]);
    fixed64::encode_fixed(0x0807_0605_0403_0201, &mut buf);
    sfixed32::encode_fixed(-2, &mut buf);
    sfixed64::encode_fixed(-3, &mut buf);
    assert_eq!(buf.len(), 4 + 8 + 4 + 8);
    assert_eq!(&buf[12..16], &[0xfe, 0xff, 0xff, 0xff]);
    let mut rb = ReadBuf::new(buf);
    assert_eq!(fixed32::decode_fixed(&mut rb), Ok(0x0403_0201));
    assert_eq!(fixed64::decode_fixed(&mut rb), Ok(0x0807_0605_0403_0201));
    assert_eq!(sfixed32::decode_fixed(&mut rb), Ok(-2));
    assert_eq!(sfixed64::decode_fixed(&mut rb), Ok(-3));
    assert_eq!(fixed32::decode_fixed(&mut rb), Err(DecodeError::BufferUnderflow));
}

#[test]
fn int32_reads_sign_extended_and_truncated_varints() {
    // The 64-bit varint of i32::MIN sign-extended reads back as i32::MIN.
    let mut buf = Vec::new();
    int32::encode_varint(i32::MIN, &mut buf);
    assert_eq!(buf.len(), 10);
    let mut rb = ReadBuf::new(buf);
    assert_eq!(int32::decode_varint(&mut rb), Ok(i32::MIN));
    // A five-byte varint of the 32-bit pattern also reads back as -1.
    let mut rb = ReadBuf::new(vec![0xff, 0xff, 0xff, 0xff, 0x0f]);
    assert_eq!(int32::decode_varint(&mut rb), Ok(-1));
    // The low 32 bits of a wider value are kept.
    let mut rb = ReadBuf::new(vec![0x80, 0x80, 0x80, 0x80, 0x10]);
    assert_eq!(int32::decode_varint(&mut rb), Ok(0));
}
