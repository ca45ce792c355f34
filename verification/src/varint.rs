//! LEB128 variable-length integers as used by the protobuf wire format.

use crate::buf::ReadBuf;
use crate::error::DecodeError;
use vstd::prelude::*;

pub mod bool;
pub mod enum_value;
pub mod int32;
pub mod int64;
pub mod sint32;
pub mod sint64;
pub mod uint32;
pub mod uint64;
pub mod usize;

verus! {

/// The LEB128 encoding of `v`: seven payload bits per byte, least significant
/// group first, the high bit set on every byte but the last.
pub open spec fn varint_bytes(v: nat) -> Seq<u8>
    decreases v,
{
    if v < 128 {
        seq![v as u8]
    } else {
        seq![(v % 128 + 128) as u8] + varint_bytes(v / 128)
    }
}

/// Number of significant bits of `v`.
pub open spec fn bit_len(v: nat) -> nat
    decreases v,
{
    if v == 0 {
        0
    } else {
        1 + bit_len(v / 2)
    }
}

proof fn lemma_bit_len_leading_zeros(v: u64)
    ensures
        vstd::std_specs::bits::u64_leading_zeros(v) == 64 - bit_len(v as nat),
        bit_len(v as nat) <= 64,
    decreases v,
{
    reveal(vstd::std_specs::bits::u64_leading_zeros);
    if v != 0 {
        lemma_bit_len_leading_zeros(v / 2);
    }
    broadcast use vstd::std_specs::bits::axiom_u64_leading_zeros;
}

proof fn lemma_bit_len_small(v: nat)
    requires
        v < 128,
    ensures
        bit_len(v) <= 7,
{
    reveal_with_fuel(bit_len, 8);
}

proof fn lemma_bit_len_div128(v: nat)
    requires
        v >= 128,
    ensures
        bit_len(v / 128) + 7 == bit_len(v),
{
    let v1 = v / 2;
    let v2 = v1 / 2;
    let v3 = v2 / 2;
    let v4 = v3 / 2;
    let v5 = v4 / 2;
    let v6 = v5 / 2;
    let v7 = v6 / 2;
    assert(v7 == v / 128);
    assert(bit_len(v) == 1 + bit_len(v1));
    assert(bit_len(v1) == 1 + bit_len(v2));
    assert(bit_len(v2) == 1 + bit_len(v3));
    assert(bit_len(v3) == 1 + bit_len(v4));
    assert(bit_len(v4) == 1 + bit_len(v5));
    assert(bit_len(v5) == 1 + bit_len(v6));
    assert(bit_len(v6) == 1 + bit_len(v7));
}

/// The encoded length grows by one byte per seven significant bits.
pub proof fn lemma_varint_len_formula(v: nat)
    requires
        bit_len(v) <= 64,
    ensures
        varint_bytes(v).len() == (bit_len(v) * 9) / 64 + 1,
        1 <= varint_bytes(v).len() <= 10,
    decreases v,
{
    if v < 128 {
        lemma_bit_len_small(v);
        let b = bit_len(v);
        assert((b * 9) / 64 == 0) by (nonlinear_arith)
            requires
                b <= 7,
        ;
    } else {
        lemma_bit_len_div128(v);
        lemma_varint_len_formula(v / 128);
        let b = bit_len(v) as u64;
        assert(8 <= b <= 64 ==> (b * 9) / 64 == ((b - 7) * 9) / 64 + 1) by (bit_vector);
        lemma_bit_len_small_inverse(v);
    }
}

proof fn lemma_bit_len_small_inverse(v: nat)
    requires
        v >= 128,
    ensures
        bit_len(v) >= 8,
{
    lemma_bit_len_div128(v);
    if bit_len(v / 128) == 0 {
        assert(v / 128 >= 1);
    }
}

/// Length in bytes of the LEB128 encoding of a 64-bit value (1 to 10).
pub fn encoded_len_varint64(value: u64) -> (n: usize)
    ensures
        n == varint_bytes(value as nat).len(),
        1 <= n <= 10,
{
    proof {
        lemma_bit_len_leading_zeros(value);
        lemma_varint_len_formula(value as nat);
    }
    let bw: u32 = 64 - value.leading_zeros();
    assert(bw == bit_len(value as nat));
    let scaled: u32 = bw * 9;
    assert(scaled >> 6u32 == scaled / 64) by (bit_vector);
    ((scaled >> 6) + 1) as usize
}


/// A 64-bit value takes one to ten bytes.
pub proof fn lemma_varint_len_u64(v: u64)
    ensures
        1 <= varint_bytes(v as nat).len() <= 10,
{
    lemma_bit_len_leading_zeros(v);
    lemma_varint_len_formula(v as nat);
}

/// `128` to the power `i`.
pub open spec fn pow128(i: nat) -> nat
    decreases i,
{
    if i == 0 {
        1
    } else {
        128 * pow128((i - 1) as nat)
    }
}

/// The number a LEB128 byte string stands for, ignoring the continuation bits.
pub open spec fn leb_value(s: Seq<u8>) -> nat
    decreases s.len(),
{
    if s.len() == 0 {
        0
    } else {
        (s[0] % 128) as nat + 128 * leb_value(s.drop_first())
    }
}

/// Length of the varint at the start of `s`: the bytes up to and including the
/// first one below `0x80`, if such a byte occurs among the first `limit` bytes.
pub open spec fn varint_span(s: Seq<u8>, limit: nat) -> Option<nat>
    decreases limit,
{
    if limit == 0 || s.len() == 0 {
        None
    } else if s[0] < 128 {
        Some(1)
    } else {
        match varint_span(s.drop_first(), (limit - 1) as nat) {
            Some(n) => Some(n + 1),
            None => None,
        }
    }
}

/// Decoding of a varint of at most `max_len` bytes whose last byte, when it is
/// the `max_len`-th, may not exceed `last_max`: the value and the bytes used.
pub open spec fn varint_decode(s: Seq<u8>, max_len: nat, last_max: nat) -> Option<(nat, nat)> {
    match varint_span(s, max_len) {
        Some(n) => if n == max_len && s[n - 1] > last_max {
            None
        } else {
            Some((leb_value(s.take(n as int)), n))
        },
        None => None,
    }
}

/// Decoding of a 64-bit varint: at most ten bytes, the tenth at most `1`.
pub open spec fn decode64(s: Seq<u8>) -> Option<(nat, nat)> {
    varint_decode(s, 10, 1)
}

/// Decoding of a 32-bit varint: at most five bytes, the fifth at most `15`.
pub open spec fn decode32(s: Seq<u8>) -> Option<(nat, nat)> {
    varint_decode(s, 5, 15)
}

/// Whether the first `n` bytes of `s` all carry the continuation bit.
pub open spec fn all_continued(s: Seq<u8>, n: int) -> bool {
    forall|j: int| 0 <= j < n ==> s[j] >= 128
}

proof fn lemma_span_at(s: Seq<u8>, limit: nat, i: nat)
    requires
        i < limit,
        i < s.len(),
        all_continued(s, i as int),
        s[i as int] < 128,
    ensures
        varint_span(s, limit) == Some(i + 1),
    decreases i,
{
    if i > 0 {
        let t = s.drop_first();
        assert(all_continued(t, (i - 1) as int)) by {
            assert forall|j: int| 0 <= j < i - 1 implies t[j] >= 128 by {
                assert(t[j] == s[j + 1]);
            }
        }
        lemma_span_at(t, (limit - 1) as nat, (i - 1) as nat);
    }
}

proof fn lemma_span_none(s: Seq<u8>, limit: nat)
    requires
        all_continued(s, if s.len() < limit { s.len() as int } else { limit as int }),
    ensures
        varint_span(s, limit) is None,
    decreases limit,
{
    if limit > 0 && s.len() > 0 {
        let t = s.drop_first();
        let m = if t.len() < limit - 1 { t.len() as int } else { limit - 1 };
        assert(all_continued(t, m)) by {
            assert forall|j: int| 0 <= j < m implies t[j] >= 128 by {
                assert(t[j] == s[j + 1]);
            }
        }
        lemma_span_none(t, (limit - 1) as nat);
    }
}

proof fn lemma_span_bounds(s: Seq<u8>, limit: nat)
    ensures
        varint_span(s, limit) matches Some(n) ==> 1 <= n <= s.len() && n <= limit,
    decreases limit,
{
    if limit > 0 && s.len() > 0 {
        lemma_span_bounds(s.drop_first(), (limit - 1) as nat);
    }
}

proof fn lemma_leb_take_step(s: Seq<u8>, i: nat)
    requires
        i < s.len(),
    ensures
        leb_value(s.take(i + 1int)) == leb_value(s.take(i as int)) + (s[i as int] % 128) as nat
            * pow128(i),
        leb_value(s.take(i as int)) < pow128(i),
    decreases i,
{
    if i == 0 {
        assert(s.take(1).drop_first() =~= Seq::<u8>::empty());
        assert(s.take(0) =~= Seq::<u8>::empty());
        assert(leb_value(Seq::<u8>::empty()) == 0);
        assert(leb_value(s.take(1)) == (s[0] % 128) as nat);
        assert(pow128(0) == 1);
        assert((s[0] % 128) as nat * 1 == (s[0] % 128) as nat);
    } else {
        let t = s.drop_first();
        lemma_leb_take_step(t, (i - 1) as nat);
        assert(s.take(i + 1int).drop_first() =~= t.take(i as int));
        assert(s.take(i as int).drop_first() =~= t.take(i - 1));
        let a = leb_value(t.take(i - 1));
        let c = (s[i as int] % 128) as nat;
        let p = pow128((i - 1) as nat);
        assert(t[i - 1] == s[i as int]);
        assert(pow128(i) == 128 * p);
        assert(s.take(i + 1int)[0] == s[0]);
        assert(s.take(i as int)[0] == s[0]);
        assert(leb_value(s.take(i + 1int)) == (s[0] % 128) as nat + 128 * leb_value(t.take(i as int)));
        assert(leb_value(s.take(i as int)) == (s[0] % 128) as nat + 128 * a);
        assert(128 * (a + c * p) == 128 * a + c * (128 * p)) by (nonlinear_arith);
        assert(leb_value(t.take(i as int)) == a + c * p);
        assert(leb_value(s.take(i + 1int)) == leb_value(s.take(i as int)) + c * pow128(i));
        assert(a < p ==> (s[0] % 128) as nat + 128 * a < 128 * p) by (nonlinear_arith)
            requires
                (s[0] % 128) < 128,
        ;
    }
}

proof fn lemma_pow128_shift(i: nat)
    requires
        i <= 9,
    ensures
        pow128(i) == (1u64 << (7 * i) as u64) as nat,
    decreases i,
{
    if i == 0 {
        lemma_shift_step64(0, 7);
    } else {
        lemma_pow128_shift((i - 1) as nat);
        let s = (7 * (i - 1)) as u64;
        let t = (7 * i) as u64;
        assert(t == s + 7);
        lemma_shift_step64(s, t);
    }
}

proof fn lemma_shift_step64(s: u64, t: u64)
    by (bit_vector)
    ensures
        1u64 << 0u64 == 1u64,
        t == s + 7 && s <= 56 ==> (1u64 << t) as int == 128 * (1u64 << s),
{
}


proof fn lemma_or_shift64(v: u64, c: u64, i: nat)
    requires
        i <= 9,
        (v as nat) < pow128(i),
        c < 128,
        i == 9 ==> c <= 1,
    ensures
        (v | (c << (7 * i) as u64)) as nat == v as nat + c as nat * pow128(i),
{
    lemma_pow128_shift(i);
    let s = (7 * i) as u64;
    lemma_or_shift_bits64(v, c, s);
}

proof fn lemma_or_shift_bits64(v: u64, c: u64, s: u64)
    by (bit_vector)
    requires
        s < 64,
        v < (1u64 << s),
        (s <= 56 && c < 128) || (s == 63 && c <= 1),
    ensures
        (v | (c << s)) as int == v as int + c as int * (1u64 << s) as int,
{
}

proof fn lemma_byte_bits(b: u8)
    by (bit_vector)
    ensures
        b & 0x7f == b % 128,
        b < 0x80 ==> b & 0x7f == b,
{
}

proof fn lemma_continued_extend(s: Seq<u8>, i: int)
    requires
        all_continued(s, i),
        0 <= i < s.len(),
        s[i] >= 128,
    ensures
        all_continued(s, i + 1),
{
}

/// Decodes a varint at the start of `bytes`, which holds a complete varint or
/// at least ten bytes; `None` when the bytes are not a valid 64-bit varint.
fn decode_varint64_fast(bytes: &[u8]) -> (r: Option<(u64, usize)>)
    requires
        bytes@.len() >= 10 || (bytes@.len() > 0 && bytes@.last() < 128),
    ensures
        match decode64(bytes@) {
            Some((v, n)) => r == Some((v as u64, n as usize)) && v < 0x1_0000_0000_0000_0000,
            None => r is None,
        },
{
    let mut value: u64 = 0;
    let mut i: usize = 0;
    while i < 10
        invariant
            i <= 10,
            bytes@.len() >= 10 || (bytes@.len() > 0 && bytes@.last() < 128),
            all_continued(bytes@, i as int),
            i < 10 ==> value as nat == leb_value(bytes@.take(i as int)),
            i <= bytes@.len(),
        decreases 10 - i,
    {
        if i == bytes.len() {
            assert(bytes@[i - 1] >= 128);
        }
        let byte = bytes[i];
        proof {
            lemma_byte_bits(byte);
            lemma_leb_take_step(bytes@, i as nat);
            if i < 9 || byte & 0x7f <= 1 {
                lemma_or_shift64(value, (byte & 0x7f) as u64, i as nat);
            }
            lemma_byte_bits(byte);
        }
        value = value | (((byte & 0x7F) as u64) << (i * 7) as u64);
        if byte < 0x80 {
            proof {
                lemma_span_at(bytes@, 10, i as nat);
            }
            if i == 9 && byte > 1 {
                return None;
            }
            proof {
                lemma_byte_bits(byte);
                lemma_leb_take_step(bytes@, i as nat);
            }
            return Some((value, i + 1));
        }
        proof {
            lemma_continued_extend(bytes@, i as int);
        }
        i += 1;
    }
    proof {
        lemma_span_none(bytes@, 10);
    }
    None
}


/// Whether `decode_varint64` falls back to reading byte by byte: the input
/// starts with a continued byte, is shorter than ten bytes and ends with a
/// continued byte.
pub open spec fn slow_case64(s: Seq<u8>) -> bool {
    s.len() > 0 && s[0] >= 128 && s.len() < 10 && s.last() >= 128
}

/// Whether `decode_varint32` falls back to reading byte by byte.
pub open spec fn slow_case32(s: Seq<u8>) -> bool {
    s.len() > 0 && s[0] >= 128 && s.len() < 5 && s.last() >= 128
}

/// What `decode_varint64` returns on input `s`.
pub open spec fn varint64_result(s: Seq<u8>) -> Result<u64, DecodeError> {
    match decode64(s) {
        Some((v, _)) => Ok(v as u64),
        None => Err(DecodeError::InvalidVarint),
    }
}

/// What `decode_varint64` leaves unread of input `s`.
pub open spec fn varint64_rest(s: Seq<u8>) -> Seq<u8> {
    match decode64(s) {
        Some((_, n)) => s.skip(n as int),
        None => if slow_case64(s) {
            Seq::<u8>::empty()
        } else {
            s
        },
    }
}

/// What `decode_varint32` returns on input `s`.
pub open spec fn varint32_result(s: Seq<u8>) -> Result<u32, DecodeError> {
    match decode32(s) {
        Some((v, _)) => Ok(v as u32),
        None => Err(DecodeError::InvalidVarint),
    }
}

/// What `decode_varint32` leaves unread of input `s`.
pub open spec fn varint32_rest(s: Seq<u8>) -> Seq<u8> {
    match decode32(s) {
        Some((_, n)) => s.skip(n as int),
        None => if slow_case32(s) {
            Seq::<u8>::empty()
        } else {
            s
        },
    }
}

/// Byte-by-byte decoding that consumes what it reads.
fn decode_varint64_slow(buf: &mut ReadBuf) -> (r: Option<u64>)
    ensures
        match decode64(old(buf)@) {
            Some((v, n)) => r == Some(v as u64) && final(buf)@ == old(buf)@.skip(n as int),
            None => r is None && final(buf)@ == old(buf)@.skip(
                if old(buf)@.len() < 10 { old(buf)@.len() as int } else { 10 },
            ),
        },
{
    let ghost s = old(buf)@;
    let mut value: u64 = 0;
    let mut i: usize = 0;
    let mut result: Option<u64> = None;
    assert(s.skip(0) =~= s);
    while i < 10
        invariant_except_break
            i <= 10,
            i <= s.len(),
            buf@ == s.skip(i as int),
            all_continued(s, i as int),
            i < 10 ==> value as nat == leb_value(s.take(i as int)),
            result is None,
            i == 10 ==> decode64(s) is None,
        ensures
            match decode64(s) {
                Some((v, n)) => result == Some(v as u64) && buf@ == s.skip(n as int),
                None => result is None && buf@ == s.skip(
                    if s.len() < 10 { s.len() as int } else { 10 },
                ),
            },
        decreases 10 - i,
    {
        if !buf.has_remaining() {
            proof {
                assert(s.skip(i as int).len() == s.len() - i);
                lemma_span_none(s, 10);
            }
            break;
        }
        let byte = buf.get_u8();
        proof {
            assert(byte == s[i as int]);
            assert(s.skip(i as int).drop_first() =~= s.skip(i + 1int));
            lemma_byte_bits(byte);
            lemma_leb_take_step(s, i as nat);
            if i < 9 || byte & 0x7f <= 1 {
                lemma_or_shift64(value, (byte & 0x7f) as u64, i as nat);
            }
        }
        value = value | (((byte & 0x7F) as u64) << (i * 7) as u64);
        if byte < 0x80 {
            proof {
                lemma_span_at(s, 10, i as nat);
                lemma_byte_bits(byte);
            }
            if !(i == 9 && byte > 1) {
                assert(leb_value(s.take(i + 1int)) as u64 == value);
                result = Some(value);
            }
            break;
        }
        proof {
            lemma_continued_extend(s, i as int);
        }
        i += 1;
        proof {
            if i == 10 {
                lemma_span_none(s, 10);
            }
        }
    }
    result
}

/// Decodes a 64-bit LEB128 varint from the front of `buf` and consumes it.
pub fn decode_varint64(buf: &mut ReadBuf) -> (r: Result<u64, DecodeError>)
    ensures
        r == varint64_result(old(buf)@),
        final(buf)@ == varint64_rest(old(buf)@),
{
    let ghost s = old(buf)@;
    let bytes = buf.chunk();
    let len = bytes.len();
    if len == 0 {
        return Err(DecodeError::InvalidVarint);
    }
    let first = bytes[0];
    if first < 0x80 {
        proof {
            lemma_span_at(s, 10, 0);
            assert(s.take(1).drop_first() =~= Seq::<u8>::empty());
            assert(leb_value(Seq::<u8>::empty()) == 0);
            assert(s.take(1)[0] == first);
            assert(leb_value(s.take(1)) == (first % 128) as nat);
        }
        buf.advance(1);
        return Ok(first as u64);
    }
    if len >= 10 || bytes[len - 1] < 0x80 {
        let fast = decode_varint64_fast(bytes);
        proof {
            lemma_span_bounds(s, 10);
        }
        match fast {
            Some((value, advance)) => {
                buf.advance(advance);
                Ok(value)
            },
            None => Err(DecodeError::InvalidVarint),
        }
    } else {
        match decode_varint64_slow(buf) {
            Some(value) => Ok(value),
            None => {
                assert(buf@ =~= Seq::<u8>::empty());
                Err(DecodeError::InvalidVarint)
            },
        }
    }
}


proof fn lemma_varint_bytes_step(v: u64)
    requires
        v >= 128,
    ensures
        varint_bytes(v as nat) =~= seq![(((v & 0x7f) as u8) | 0x80)] + varint_bytes((v >> 7) as nat),
{
    lemma_group_bits64(v);
}

proof fn lemma_group_bits64(v: u64)
    by (bit_vector)
    ensures
        (((v & 0x7f) as u8) | 0x80) as int == v % 128 + 128,
        (v >> 7) as int == v / 128,
{
}

/// Appends the LEB128 encoding of `value` to `buf`; returns its length.
pub fn encode_varint64(value: u64, buf: &mut Vec<u8>) -> (len: usize)
    ensures
        final(buf)@ == old(buf)@ + varint_bytes(value as nat),
        len == varint_bytes(value as nat).len(),
{
    let len = encoded_len_varint64(value);
    let mut v = value;
    let mut i: usize = 0;
    while i < len - 1
        invariant
            1 <= len <= 10,
            len == varint_bytes(value as nat).len(),
            i <= len - 1,
            buf@ + varint_bytes(v as nat) == old(buf)@ + varint_bytes(value as nat),
            varint_bytes(v as nat).len() == len - i,
        decreases len - 1 - i,
    {
        proof {
            lemma_varint_bytes_step(v);
        }
        let ghost before = buf@;
        buf.push(((v & 0x7F) as u8) | 0x80);
        assert(buf@ + varint_bytes((v >> 7) as nat) =~= before + varint_bytes(v as nat));
        v = v >> 7;
        i += 1;
    }
    proof {
        if v >= 128 {
            lemma_varint_bytes_facts(v as nat / 128);
        }
    }
    let ghost before = buf@;
    buf.push(v as u8);
    assert(buf@ =~= before + varint_bytes(v as nat));
    len
}

/// Length in bytes of the LEB128 encoding of a 32-bit value (1 to 5).
pub fn encoded_len_varint32(value: u32) -> (n: usize)
    ensures
        n == varint_bytes(value as nat).len(),
        1 <= n <= 5,
{
    proof {
        lemma_varint_bytes_facts(value as nat);
        lemma_pow128_values();
        if varint_bytes(value as nat).len() > 5 {
            lemma_pow128_mono(5, (varint_bytes(value as nat).len() - 1) as nat);
        }
    }
    encoded_len_varint64(value as u64)
}

proof fn lemma_varint_bytes_step32(v: u32)
    requires
        v >= 128,
    ensures
        varint_bytes(v as nat) =~= seq![(((v & 0x7f) as u8) | 0x80)] + varint_bytes((v >> 7) as nat),
{
    lemma_group_bits32(v);
}

proof fn lemma_group_bits32(v: u32)
    by (bit_vector)
    ensures
        (((v & 0x7f) as u8) | 0x80) as int == v % 128 + 128,
        (v >> 7) as int == v / 128,
{
}

/// Appends the LEB128 encoding of the 32-bit `value` to `buf`; returns its length.
pub fn encode_varint32(value: u32, buf: &mut Vec<u8>) -> (len: usize)
    ensures
        final(buf)@ == old(buf)@ + varint_bytes(value as nat),
        len == varint_bytes(value as nat).len(),
        1 <= len <= 5,
{
    let len = encoded_len_varint32(value);
    let mut v = value;
    let mut i: usize = 0;
    while i < len - 1
        invariant
            1 <= len <= 5,
            len == varint_bytes(value as nat).len(),
            i <= len - 1,
            buf@ + varint_bytes(v as nat) == old(buf)@ + varint_bytes(value as nat),
            varint_bytes(v as nat).len() == len - i,
        decreases len - 1 - i,
    {
        proof {
            lemma_varint_bytes_step32(v);
        }
        let ghost before = buf@;
        buf.push(((v & 0x7F) as u8) | 0x80);
        assert(buf@ + varint_bytes((v >> 7) as nat) =~= before + varint_bytes(v as nat));
        v = v >> 7;
        i += 1;
    }
    proof {
        if v >= 128 {
            lemma_varint_bytes_facts(v as nat / 128);
        }
    }
    let ghost before = buf@;
    buf.push(v as u8);
    assert(buf@ =~= before + varint_bytes(v as nat));
    len
}

proof fn lemma_pow128_values()
    ensures
        pow128(1) == 0x80,
        pow128(4) == 0x1000_0000,
        pow128(5) == 0x8_0000_0000,
        pow128(9) == 0x8000_0000_0000_0000,
        pow128(10) == 0x40_0000_0000_0000_0000,
{
    reveal_with_fuel(pow128, 11);
}

proof fn lemma_pow128_mono(i: nat, j: nat)
    requires
        i <= j,
    ensures
        pow128(i) <= pow128(j),
        pow128(i) >= 1,
    decreases j,
{
    if i < j {
        lemma_pow128_mono(i, (j - 1) as nat);
    } else if i > 0 {
        lemma_pow128_mono((i - 1) as nat, (i - 1) as nat);
    }
}

/// Facts about the encoding of `v`: only its last byte ends the varint, it
/// reads back as `v`, its length bounds `v`, and its last byte is `v`'s top
/// seven-bit group.
pub proof fn lemma_varint_bytes_facts(v: nat)
    ensures
        varint_bytes(v).len() >= 1,
        all_continued(varint_bytes(v), varint_bytes(v).len() - 1),
        varint_bytes(v).last() < 128,
        leb_value(varint_bytes(v)) == v,
        v < pow128(varint_bytes(v).len()),
        varint_bytes(v).len() >= 2 ==> v >= pow128((varint_bytes(v).len() - 1) as nat),
        varint_bytes(v).last() as nat == v / pow128((varint_bytes(v).len() - 1) as nat),
    decreases v,
{
    let b = varint_bytes(v);
    if v < 128 {
        assert(b.drop_first() =~= Seq::<u8>::empty());
        assert(leb_value(Seq::<u8>::empty()) == 0);
        assert(pow128(1) == 128 * pow128(0));
    } else {
        let w = v / 128;
        let c = varint_bytes(w);
        lemma_varint_bytes_facts(w);
        assert(b.drop_first() =~= c);
        assert(b.len() == c.len() + 1);
        assert(b.last() == c.last());
        assert forall|j: int| 0 <= j < b.len() - 1 implies b[j] >= 128 by {
            if j > 0 {
                assert(b[j] == c[j - 1]);
            }
        }
        let k = c.len();
        let p = pow128((k - 1) as nat);
        assert(pow128(k) == 128 * p);
        assert(pow128(k + 1) == 128 * pow128(k));
        assert(v == 128 * w + v % 128);
        assert(w < pow128(k) ==> v < 128 * pow128(k)) by (nonlinear_arith)
            requires
                v == 128 * w + v % 128,
                v % 128 < 128,
        ;
        if k >= 2 {
            assert(w >= p ==> v >= 128 * p) by (nonlinear_arith)
                requires
                    v == 128 * w + v % 128,
                    v % 128 >= 0,
            ;
        } else {
            assert(p == 1);
        }
        lemma_pow128_mono(0, (k - 1) as nat);
        vstd::arithmetic::div_mod::lemma_div_denominator(v as int, 128, p as int);
        assert(b.last() as nat == v / pow128((b.len() - 1) as nat));
    }
}

/// Decoding the encoding of a 64-bit value, whatever follows it, gives back the
/// value and consumes exactly the encoding.
pub proof fn lemma_decode64_of_encoding(v: u64, rest: Seq<u8>)
    ensures
        decode64(varint_bytes(v as nat) + rest) == Some((v as nat, varint_bytes(v as nat).len())),
{
    let b = varint_bytes(v as nat);
    let s = b + rest;
    lemma_varint_bytes_facts(v as nat);
    lemma_pow128_values();
    let n = b.len();
    if n > 10 {
        lemma_pow128_mono(10, (n - 1) as nat);
    }
    assert(all_continued(s, n - 1)) by {
        assert forall|j: int| 0 <= j < n - 1 implies s[j] >= 128 by {
            assert(s[j] == b[j]);
        }
    }
    assert(s[n - 1] == b.last());
    lemma_span_at(s, 10, (n - 1) as nat);
    assert(s.take(n as int) =~= b);
    if n == 10 {
        assert(v as nat / pow128(9) <= 1);
    }
}

/// Decoding the encoding of a 32-bit value, whatever follows it, gives back the
/// value and consumes exactly the encoding.
pub proof fn lemma_decode32_of_encoding(v: u32, rest: Seq<u8>)
    ensures
        decode32(varint_bytes(v as nat) + rest) == Some((v as nat, varint_bytes(v as nat).len())),
{
    let b = varint_bytes(v as nat);
    let s = b + rest;
    lemma_varint_bytes_facts(v as nat);
    lemma_pow128_values();
    let n = b.len();
    if n > 5 {
        lemma_pow128_mono(5, (n - 1) as nat);
    }
    assert(all_continued(s, n - 1)) by {
        assert forall|j: int| 0 <= j < n - 1 implies s[j] >= 128 by {
            assert(s[j] == b[j]);
        }
    }
    assert(s[n - 1] == b.last());
    lemma_span_at(s, 5, (n - 1) as nat);
    assert(s.take(n as int) =~= b);
    if n == 5 {
        assert(v as nat / pow128(4) <= 15);
    }
}


proof fn lemma_pow128_shift32(i: nat)
    requires
        i <= 4,
    ensures
        pow128(i) == (1u32 << (7 * i) as u32) as nat,
    decreases i,
{
    if i == 0 {
        lemma_shift_step32(0, 7);
    } else {
        lemma_pow128_shift32((i - 1) as nat);
        let s = (7 * (i - 1)) as u32;
        let t = (7 * i) as u32;
        assert(t == s + 7);
        lemma_shift_step32(s, t);
    }
}

proof fn lemma_shift_step32(s: u32, t: u32)
    by (bit_vector)
    ensures
        1u32 << 0u32 == 1u32,
        t == s + 7 && s <= 21 ==> (1u32 << t) as int == 128 * (1u32 << s),
{
}

proof fn lemma_or_shift32(v: u32, c: u32, i: nat)
    requires
        i <= 4,
        (v as nat) < pow128(i),
        c < 128,
        i == 4 ==> c <= 15,
    ensures
        (v | (c << (7 * i) as u32)) as nat == v as nat + c as nat * pow128(i),
{
    lemma_pow128_shift32(i);
    let s = (7 * i) as u32;
    lemma_or_shift_bits32(v, c, s);
}

proof fn lemma_or_shift_bits32(v: u32, c: u32, s: u32)
    by (bit_vector)
    requires
        s < 32,
        v < (1u32 << s),
        (s <= 21 && c < 128) || (s == 28 && c <= 15),
    ensures
        (v | (c << s)) as int == v as int + c as int * (1u32 << s) as int,
{
}

/// Decodes a varint at the start of `bytes`, which holds a complete varint or
/// at least five bytes; `None` when the bytes are not a valid 32-bit varint.
fn decode_varint32_fast(bytes: &[u8]) -> (r: Option<(u32, usize)>)
    requires
        bytes@.len() >= 5 || (bytes@.len() > 0 && bytes@.last() < 128),
    ensures
        match decode32(bytes@) {
            Some((v, n)) => r == Some((v as u32, n as usize)) && v < 0x1_0000_0000,
            None => r is None,
        },
{
    let mut value: u32 = 0;
    let mut i: usize = 0;
    while i < 5
        invariant
            i <= 5,
            bytes@.len() >= 5 || (bytes@.len() > 0 && bytes@.last() < 128),
            all_continued(bytes@, i as int),
            i < 5 ==> value as nat == leb_value(bytes@.take(i as int)),
            i <= bytes@.len(),
        decreases 5 - i,
    {
        if i == bytes.len() {
            assert(bytes@[i - 1] >= 128);
        }
        let byte = bytes[i];
        proof {
            lemma_byte_bits(byte);
            lemma_leb_take_step(bytes@, i as nat);
            if i < 4 || byte & 0x7f <= 15 {
                lemma_or_shift32(value, (byte & 0x7f) as u32, i as nat);
            }
            lemma_byte_bits(byte);
        }
        value = value | (((byte & 0x7F) as u32) << (i * 7) as u32);
        if byte < 0x80 {
            proof {
                lemma_span_at(bytes@, 5, i as nat);
            }
            if i == 4 && byte > 15 {
                return None;
            }
            proof {
                lemma_byte_bits(byte);
                lemma_leb_take_step(bytes@, i as nat);
            }
            return Some((value, i + 1));
        }
        proof {
            lemma_continued_extend(bytes@, i as int);
        }
        i += 1;
    }
    proof {
        lemma_span_none(bytes@, 5);
    }
    None
}

/// Byte-by-byte decoding that consumes what it reads.
fn decode_varint32_slow(buf: &mut ReadBuf) -> (r: Option<u32>)
    ensures
        match decode32(old(buf)@) {
            Some((v, n)) => r == Some(v as u32) && final(buf)@ == old(buf)@.skip(n as int),
            None => r is None && final(buf)@ == old(buf)@.skip(
                if old(buf)@.len() < 5 { old(buf)@.len() as int } else { 5 },
            ),
        },
{
    let ghost s = old(buf)@;
    let mut value: u32 = 0;
    let mut i: usize = 0;
    let mut result: Option<u32> = None;
    assert(s.skip(0) =~= s);
    while i < 5
        invariant_except_break
            i <= 5,
            i <= s.len(),
            buf@ == s.skip(i as int),
            all_continued(s, i as int),
            i < 5 ==> value as nat == leb_value(s.take(i as int)),
            result is None,
            i == 5 ==> decode32(s) is None,
        ensures
            match decode32(s) {
                Some((v, n)) => result == Some(v as u32) && buf@ == s.skip(n as int),
                None => result is None && buf@ == s.skip(
                    if s.len() < 5 { s.len() as int } else { 5 },
                ),
            },
        decreases 5 - i,
    {
        if !buf.has_remaining() {
            proof {
                assert(s.skip(i as int).len() == s.len() - i);
                lemma_span_none(s, 5);
            }
            break;
        }
        let byte = buf.get_u8();
        proof {
            assert(byte == s[i as int]);
            assert(s.skip(i as int).drop_first() =~= s.skip(i + 1int));
            lemma_byte_bits(byte);
            lemma_leb_take_step(s, i as nat);
            if i < 4 || byte & 0x7f <= 15 {
                lemma_or_shift32(value, (byte & 0x7f) as u32, i as nat);
            }
        }
        value = value | (((byte & 0x7F) as u32) << (i * 7) as u32);
        if byte < 0x80 {
            proof {
                lemma_span_at(s, 5, i as nat);
                lemma_byte_bits(byte);
            }
            assert(varint_span(s, 5) == Some((i + 1) as nat));
            assert(buf@ == s.skip(i + 1int));
            if !(i == 4 && byte > 15) {
                assert(leb_value(s.take(i + 1int)) as u32 == value);
                result = Some(value);
            }
            break;
        }
        proof {
            lemma_continued_extend(s, i as int);
        }
        i += 1;
        proof {
            if i == 5 {
                lemma_span_none(s, 5);
            }
        }
    }
    result
}

/// Decodes a 32-bit LEB128 varint from the front of `buf` and consumes it.
pub fn decode_varint32(buf: &mut ReadBuf) -> (r: Result<u32, DecodeError>)
    ensures
        r == varint32_result(old(buf)@),
        final(buf)@ == varint32_rest(old(buf)@),
{
    let ghost s = old(buf)@;
    let bytes = buf.chunk();
    let len = bytes.len();
    if len == 0 {
        return Err(DecodeError::InvalidVarint);
    }
    let first = bytes[0];
    if first < 0x80 {
        proof {
            lemma_span_at(s, 5, 0);
            assert(s.take(1).drop_first() =~= Seq::<u8>::empty());
            assert(leb_value(Seq::<u8>::empty()) == 0);
            assert(s.take(1)[0] == first);
            assert(leb_value(s.take(1)) == (first % 128) as nat);
        }
        buf.advance(1);
        return Ok(first as u32);
    }
    if len >= 5 || bytes[len - 1] < 0x80 {
        let fast = decode_varint32_fast(bytes);
        proof {
            lemma_span_bounds(s, 5);
        }
        match fast {
            Some((value, advance)) => {
                buf.advance(advance);
                Ok(value)
            },
            None => Err(DecodeError::InvalidVarint),
        }
    } else {
        match decode_varint32_slow(buf) {
            Some(value) => Ok(value),
            None => {
                assert(buf@ =~= Seq::<u8>::empty());
                Err(DecodeError::InvalidVarint)
            },
        }
    }
}


/// ZigZag mapping of a signed value to an unsigned one: `0, -1, 1, -2, …` go
/// to `0, 1, 2, 3, …`.
pub open spec fn zigzag(v: int) -> int {
    if v >= 0 {
        2 * v
    } else {
        -2 * v - 1
    }
}

/// The inverse of [`zigzag`].
pub open spec fn unzigzag(u: int) -> int {
    if u % 2 == 0 {
        u / 2
    } else {
        -((u + 1) / 2)
    }
}

/// ZigZag-encodes a 32-bit signed integer.
pub fn encode_zigzag32(value: i32) -> (r: u32)
    ensures
        r as int == zigzag(value as int),
{
    let r = ((value as u32) << 1u32) ^ ((value >> 31u32) as u32);
    assert(r as int == zigzag(value as int)) by (bit_vector)
        requires
            r == ((value as u32) << 1u32) ^ ((value >> 31u32) as u32),
    ;
    r
}

/// ZigZag-decodes a 32-bit unsigned integer.
pub fn decode_zigzag32(value: u32) -> (r: i32)
    ensures
        r as int == unzigzag(value as int),
{
    let low = value & 1;
    assert(low <= 1) by (bit_vector)
        requires
            low == value & 1,
    ;
    let mask: i32 = -(low as i32);
    let r = ((value >> 1u32) as i32) ^ mask;
    assert(r as int == unzigzag(value as int)) by (bit_vector)
        requires
            low == value & 1,
            mask == -(low as i32),
            r == ((value >> 1u32) as i32) ^ mask,
    ;
    r
}

/// ZigZag-encodes a 64-bit signed integer.
pub fn encode_zigzag64(value: i64) -> (r: u64)
    ensures
        r as int == zigzag(value as int),
{
    let r = ((value as u64) << 1u64) ^ ((value >> 63u64) as u64);
    assert(r as int == zigzag(value as int)) by (bit_vector)
        requires
            r == ((value as u64) << 1u64) ^ ((value >> 63u64) as u64),
    ;
    r
}

/// ZigZag-decodes a 64-bit unsigned integer.
pub fn decode_zigzag64(value: u64) -> (r: i64)
    ensures
        r as int == unzigzag(value as int),
{
    let low = value & 1;
    assert(low <= 1) by (bit_vector)
        requires
            low == value & 1,
    ;
    let mask: i64 = -(low as i64);
    let r = ((value >> 1u64) as i64) ^ mask;
    assert(r as int == unzigzag(value as int)) by (bit_vector)
        requires
            low == value & 1,
            mask == -(low as i64),
            r == ((value >> 1u64) as i64) ^ mask,
    ;
    r
}

/// ZigZag decoding undoes ZigZag encoding.
pub proof fn lemma_unzigzag_zigzag(v: int)
    ensures
        unzigzag(zigzag(v)) == v,
{
}

/// ZigZag encoding undoes ZigZag decoding on naturals.
pub proof fn lemma_zigzag_unzigzag(u: int)
    requires
        u >= 0,
    ensures
        zigzag(unzigzag(u)) == u,
{
}


/// A successful 64-bit decode uses between one byte and all of its input.
pub proof fn lemma_decode64_span(s: Seq<u8>)
    ensures
        decode64(s) matches Some((_, n)) ==> 1 <= n <= s.len(),
        varint64_rest(s).len() <= s.len(),
{
    lemma_span_bounds(s, 10);
}

/// A successful 32-bit decode uses between one byte and all of its input.
pub proof fn lemma_decode32_span(s: Seq<u8>)
    ensures
        decode32(s) matches Some((_, n)) ==> 1 <= n <= s.len(),
        varint32_rest(s).len() <= s.len(),
        varint32_result(s) is Ok ==> varint32_rest(s).len() < s.len(),
{
    lemma_span_bounds(s, 5);
}

} // verus!
