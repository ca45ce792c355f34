//! UTF-8 validation: how far a byte string is well-formed UTF-8.

use vstd::prelude::*;
use vstd::utf8::{
    codepoint_width_2, codepoint_width_3, codepoint_width_4, length_of_first_scalar, pop_first_scalar,
    valid_first_scalar, valid_utf8,
};

verus! {

/// Whether `b` lies in the inclusive range `lo..=hi`.
pub open spec fn in_range(b: u8, lo: u8, hi: u8) -> bool {
    lo <= b <= hi
}

/// Whether `b` is a continuation byte.
pub open spec fn is_cont(b: u8) -> bool {
    in_range(b, 0x80, 0xbf)
}

/// The range the second byte of a multi-byte sequence must lie in, given its
/// lead byte (table 3-7 of the Unicode standard).
pub open spec fn second_range(lead: u8) -> (u8, u8) {
    if lead == 0xe0 {
        (0xa0, 0xbf)
    } else if lead == 0xed {
        (0x80, 0x9f)
    } else if lead == 0xf0 {
        (0x90, 0xbf)
    } else if lead == 0xf4 {
        (0x80, 0x8f)
    } else {
        (0x80, 0xbf)
    }
}

/// The length of the sequence a lead byte opens; `0` for bytes that cannot
/// open one.
pub open spec fn lead_len(lead: u8) -> nat {
    if lead < 0x80 {
        1
    } else if in_range(lead, 0xc2, 0xdf) {
        2
    } else if in_range(lead, 0xe0, 0xef) {
        3
    } else if in_range(lead, 0xf0, 0xf4) {
        4
    } else {
        0
    }
}

/// Whether the `k`-th byte (`k >= 1`) after the lead may follow it.
pub open spec fn fits(lead: u8, k: nat, b: u8) -> bool {
    if k == 1 {
        in_range(b, second_range(lead).0, second_range(lead).1)
    } else {
        is_cont(b)
    }
}

/// Whether byte `j` of the sequence starting at `i` fits its lead.
pub open spec fn fits_at(s: Seq<u8>, i: int, j: nat) -> bool {
    fits(s[i], j, s[i + j])
}

/// Whether bytes `1..k` of the sequence starting at `i` fit its lead.
pub open spec fn fits_up_to(s: Seq<u8>, i: int, k: nat) -> bool {
    forall|j: nat| 1 <= j < k ==> #[trigger] fits_at(s, i, j)
}

/// The length of the well-formed sequence starting at `i`, if there is one.
pub open spec fn char_len(s: Seq<u8>, i: int) -> Option<nat> {
    let n = lead_len(s[i]);
    if n == 0 || i + n > s.len() || !fits_up_to(s, i, n) {
        None
    } else {
        Some(n)
    }
}

/// End of the longest prefix of `s` made of well-formed sequences, reading
/// from index `i` on.
pub open spec fn valid_up_to_from(s: Seq<u8>, i: int) -> int
    decreases s.len() - i,
{
    if i < 0 || i >= s.len() {
        i
    } else {
        match char_len(s, i) {
            Some(n) => valid_up_to_from(s, i + n),
            None => i,
        }
    }
}

/// Length of the longest prefix of `s` that is well-formed UTF-8.
pub open spec fn valid_up_to(s: Seq<u8>) -> int {
    valid_up_to_from(s, 0)
}

/// Whether all of `s` is well-formed UTF-8.
pub open spec fn is_utf8(s: Seq<u8>) -> bool {
    valid_up_to(s) == s.len()
}

/// Whether `i` lies in the inclusive range `start..=end`, by one comparison.
pub fn in_inclusive_range8(i: u8, start: u8, end: u8) -> (r: bool)
    requires
        start <= end,
    ensures
        r == in_range(i, start, end),
{
    i.wrapping_sub(start) <= (end - start)
}

/// The first byte that is not ASCII and its index, or `None` when all bytes
/// are ASCII.
pub fn validate_ascii(src: &[u8]) -> (r: Option<(u8, usize)>)
    ensures
        match r {
            None => forall|j: int| 0 <= j < src@.len() ==> src@[j] < 0x80,
            Some((b, i)) => i < src@.len() && b == src@[i as int] && b >= 0x80 && forall|j: int|
                0 <= j < i ==> src@[j] < 0x80,
        },
{
    let mut i: usize = 0;
    while i < src.len()
        invariant
            i <= src@.len(),
            forall|j: int| 0 <= j < i ==> src@[j] < 0x80,
        decreases src@.len() - i,
    {
        if src[i] >= 0x80 {
            return Some((src[i], i));
        }
        i += 1;
    }
    None
}

/// Whether every byte is ASCII.
pub fn is_valid_ascii(src: &[u8]) -> (r: bool)
    ensures
        r == forall|j: int| 0 <= j < src@.len() ==> src@[j] < 0x80,
{
    validate_ascii(src).is_none()
}

/// The class of a byte that follows a lead byte, as the lookup table holds it
/// at the byte's own index.
pub open spec fn second_class(b: u8) -> u8 {
    if b < 0x80 {
        252
    } else if b < 0x90 {
        84
    } else if b < 0xa0 {
        148
    } else if b < 0xc0 {
        164
    } else {
        252
    }
}

/// The mask of a byte `0x80..=0xff` taken as a lead byte, as the lookup table
/// holds it at index `lead + 0x80`: a second byte fits the lead exactly when
/// its class shares no bit with the mask.
pub open spec fn lead_mask(lead: u8) -> u8 {
    if lead < 0xc2 {
        4
    } else if lead < 0xe0 {
        8
    } else if lead == 0xe0 {
        16
    } else if lead < 0xed {
        8
    } else if lead == 0xed {
        32
    } else if lead < 0xf0 {
        8
    } else if lead == 0xf0 {
        64
    } else if lead < 0xf4 {
        8
    } else if lead == 0xf4 {
        128
    } else {
        4
    }
}

/// Entry `i` of the lookup table.
pub open spec fn table_entry(i: int) -> u8 {
    if i < 0x100 {
        second_class(i as u8)
    } else {
        lead_mask((i - 0x80) as u8)
    }
}

/// Lookup data for the bytes after a lead byte: entries `0..0x100` give the
/// class of each byte, entries `0x100..0x180` the mask of each lead byte
/// `0x80..=0xff`, at index `lead + 0x80`.
pub struct Utf8Data {
    pub table: [u8; 384],
}

impl Utf8Data {
    /// Whether the table holds the classes and masks.
    pub open spec fn wf(&self) -> bool {
        forall|i: int| 0 <= i < 384 ==> #[trigger] self.table@[i] == table_entry(i)
    }

    /// The lookup data.
    pub fn new() -> (d: Utf8Data)
        ensures
            d.wf(),
    {
        Utf8Data {
            table: [
                252, 252, 252, 252, 252, 252, 252, 252, 252, 252, 252, 252, 252, 252, 252, 252,
                252, 252, 252, 252, 252, 252, 252, 252, 252, 252, 252, 252, 252, 252, 252, 252,
                252, 252, 252, 252, 252, 252, 252, 252, 252, 252, 252, 252, 252, 252, 252, 252,
                252, 252, 252, 252, 252, 252, 252, 252, 252, 252, 252, 252, 252, 252, 252, 252,
                252, 252, 252, 252, 252, 252, 252, 252, 252, 252, 252, 252, 252, 252, 252, 252,
                252, 252, 252, 252, 252, 252, 252, 252, 252, 252, 252, 252, 252, 252, 252, 252,
                252, 252, 252, 252, 252, 252, 252, 252, 252, 252, 252, 252, 252, 252, 252, 252,
                252, 252, 252, 252, 252, 252, 252, 252, 252, 252, 252, 252, 252, 252, 252, 252,
                84, 84, 84, 84, 84, 84, 84, 84, 84, 84, 84, 84, 84, 84, 84, 84,
                148, 148, 148, 148, 148, 148, 148, 148, 148, 148, 148, 148, 148, 148, 148, 148,
                164, 164, 164, 164, 164, 164, 164, 164, 164, 164, 164, 164, 164, 164, 164, 164,
                164, 164, 164, 164, 164, 164, 164, 164, 164, 164, 164, 164, 164, 164, 164, 164,
                252, 252, 252, 252, 252, 252, 252, 252, 252, 252, 252, 252, 252, 252, 252, 252,
                252, 252, 252, 252, 252, 252, 252, 252, 252, 252, 252, 252, 252, 252, 252, 252,
                252, 252, 252, 252, 252, 252, 252, 252, 252, 252, 252, 252, 252, 252, 252, 252,
                252, 252, 252, 252, 252, 252, 252, 252, 252, 252, 252, 252, 252, 252, 252, 252,
                4, 4, 4, 4, 4, 4, 4, 4, 4, 4, 4, 4, 4, 4, 4, 4,
                4, 4, 4, 4, 4, 4, 4, 4, 4, 4, 4, 4, 4, 4, 4, 4,
                4, 4, 4, 4, 4, 4, 4, 4, 4, 4, 4, 4, 4, 4, 4, 4,
                4, 4, 4, 4, 4, 4, 4, 4, 4, 4, 4, 4, 4, 4, 4, 4,
                4, 4, 8, 8, 8, 8, 8, 8, 8, 8, 8, 8, 8, 8, 8, 8,
                8, 8, 8, 8, 8, 8, 8, 8, 8, 8, 8, 8, 8, 8, 8, 8,
                16, 8, 8, 8, 8, 8, 8, 8, 8, 8, 8, 8, 8, 32, 8, 8,
                64, 8, 8, 8, 128, 4, 4, 4, 4, 4, 4, 4, 4, 4, 4, 4,
            ],
        }
    }
}

/// Where the scan goes after a run of three-byte sequences.
enum After {
    /// An ASCII byte followed, and was read.
    Ascii,
    /// Another lead byte follows, with room for its longest sequence.
    Lead,
    /// Fewer than four bytes are left.
    Tail,
}

/// Whether `b` fits as the byte after the lead byte `lead` (the lead itself
/// opening a sequence of two bytes or more).
pub open spec fn fits_second(lead: u8, b: u8) -> bool {
    if lead < 0xc2 || lead > 0xf4 {
        false
    } else if lead == 0xe0 {
        0xa0 <= b && b <= 0xbf
    } else if lead == 0xed {
        0x80 <= b && b <= 0x9f
    } else if lead == 0xf0 {
        0x90 <= b && b <= 0xbf
    } else if lead == 0xf4 {
        0x80 <= b && b <= 0x8f
    } else {
        0x80 <= b && b <= 0xbf
    }
}

/// The class of `b` and the mask of `lead` share no bit exactly when `b` may
/// follow `lead`; they never share the two lowest bits.
proof fn lemma_table_fits(lead: u8, b: u8)
    by (bit_vector)
    requires
        0x80 <= lead,
    ensures
        (second_class(b) & lead_mask(lead)) & 3 == 0,
        ((second_class(b) & lead_mask(lead)) == 0) == fits_second(lead, b),
{
}

/// The three-byte check: no shared bit and a continuation third byte.
proof fn lemma_three_check(x: u8, third: u8)
    by (bit_vector)
    requires
        x & 3 == 0,
    ensures
        ((x | (third >> 6u8)) == 2) == (x == 0 && 0x80 <= third && third <= 0xbf),
{
}

/// The four-byte check: no shared bit and continuation third and fourth
/// bytes.
proof fn lemma_four_check(x: u8, third: u8, fourth: u8)
    by (bit_vector)
    requires
        x & 3 == 0,
    ensures
        (((x as u16) | ((third >> 6u8) as u16) | (((fourth & 0xc0u8) as u16) << 2u16)) == 0x202)
            == (x == 0 && 0x80 <= third && third <= 0xbf && 0x80 <= fourth && fourth <= 0xbf),
{
}

/// How the table's verdict on the byte after `lead` reads in terms of the
/// sequence rules.
proof fn lemma_fits_second(lead: u8, b: u8)
    ensures
        fits_second(lead, b) == (lead_len(lead) >= 2 && fits(lead, 1, b)),
{
}

/// No well-formed sequence starts at `i`: the scan ends there.
proof fn lemma_stop(s: Seq<u8>, i: int)
    requires
        0 <= i < s.len(),
        char_len(s, i) is None,
    ensures
        valid_up_to_from(s, i) == i,
{
}

/// A well-formed sequence of `n` bytes starts at `i`: the scan goes on after
/// it.
proof fn lemma_step(s: Seq<u8>, i: int, n: nat)
    requires
        0 <= i < s.len(),
        char_len(s, i) == Some(n),
    ensures
        valid_up_to_from(s, i) == valid_up_to_from(s, i + n),
{
}

/// Whether the sequence of `n` bytes at `i`, whose lead opens one of that
/// length, is well-formed, read off the bytes after the lead.
proof fn lemma_char_len_bytes(s: Seq<u8>, i: int, n: nat)
    requires
        0 <= i,
        i + n <= s.len(),
        2 <= n <= 4,
        lead_len(s[i]) == n,
    ensures
        (char_len(s, i) == Some(n)) == (fits(s[i], 1, s[i + 1]) && (n >= 3 ==> is_cont(s[i + 2])) && (
        n == 4 ==> is_cont(s[i + 3]))),
        char_len(s, i) is None || char_len(s, i) == Some(n),
{
    if fits(s[i], 1, s[i + 1]) && (n >= 3 ==> is_cont(s[i + 2])) && (n == 4 ==> is_cont(s[i + 3])) {
        assert forall|j: nat| 1 <= j < n implies #[trigger] fits_at(s, i, j) by {
            if j == 1 {
            } else if j == 2 {
            } else {
            }
        }
    } else {
        if !fits(s[i], 1, s[i + 1]) {
            assert(!fits_at(s, i, 1));
        } else if n >= 3 && !is_cont(s[i + 2]) {
            assert(!fits_at(s, i, 2));
        } else {
            assert(!fits_at(s, i, 3));
        }
    }
}

/// Length of the longest prefix of `src` that is well-formed UTF-8.
///
/// ASCII runs are skipped first; while four bytes are left, each sequence is
/// checked at once, its lead and second byte by the lookup table; the last
/// few bytes are checked one sequence at a time.
pub fn utf8_valid_up_to(src: &[u8]) -> (n: usize)
    ensures
        n == valid_up_to(src@),
        n <= src@.len(),
{
    let data = Utf8Data::new();
    let len = src.len();
    let ghost s = src@;
    let mut read: usize = 0;
    'outer: loop
        invariant
            len == s.len(),
            s == src@,
            read <= len,
            valid_up_to_from(s, read as int) == valid_up_to(s),
            data.wf(),
        ensures
            read == valid_up_to(s),
        decreases len - read,
    {
        let ghost outer_start = read;
        let mut byte = {
            let (_, rest) = src.split_at(read);
            assert(rest@.len() == len - read);
            assert(forall|j: int| 0 <= j < rest@.len() ==> rest@[j] == s[read + j]);
            match validate_ascii(rest) {
                None => {
                    proof {
                        assert forall|j: int| read <= j < len implies s[j] < 0x80 by {
                            assert(rest@[j - read] == s[j]);
                        }
                        lemma_ascii_run(s, read as int, len as int);
                    }
                    return len;
                },
                Some((non_ascii, consumed)) => {
                    proof {
                        assert forall|j: int| read <= j < read + consumed implies s[j] < 0x80 by {
                            assert(rest@[j - read] == s[j]);
                        }
                        lemma_ascii_run(s, read as int, read + consumed);
                    }
                    read += consumed;
                    non_ascii
                },
            }
        };
        // Set when a sequence read below is followed by an ASCII byte, which
        // the next round skips with the run it starts.
        let mut to_ascii = false;
        if crate::utils::likely(len - read >= 4) {
            loop
                invariant_except_break
                    read + 4 <= len,
                    byte == s[read as int],
                    byte >= 0x80,
                invariant
                    len == s.len(),
                    s == src@,
                    read <= len,
                    read >= outer_start,
                    valid_up_to_from(s, read as int) == valid_up_to(s),
                    data.wf(),
                ensures
                    to_ascii ==> read > outer_start,
                    !to_ascii ==> read + 4 > len,
                decreases len - read,
            {
                let ghost inner_start = read;
                if crate::utils::likely(in_inclusive_range8(byte, 0xc2, 0xdf)) {
                    // Two-byte
                    let second = src[read + 1];
                    proof {
                        lemma_char_len_bytes(s, read as int, 2);
                    }
                    if !in_inclusive_range8(second, 0x80, 0xbf) {
                        proof {
                            lemma_stop(s, read as int);
                        }
                        break 'outer;
                    }
                    proof {
                        lemma_step(s, read as int, 2);
                    }
                    read += 2;
                    // Next lead
                    if crate::utils::likely(len - read >= 4) {
                        byte = src[read];
                        if byte < 0x80 {
                            proof {
                                assert(char_len(s, read as int) == Some(1nat));
                                lemma_step(s, read as int, 1);
                            }
                            read += 1;
                            to_ascii = true;
                            break;
                        }
                        continue;
                    }
                    break;
                }
                if crate::utils::likely(byte < 0xf0) {
                    let mut after = After::Tail;
                    loop
                        invariant_except_break
                            read + 4 <= len,
                            byte == s[read as int],
                            0x80 <= byte < 0xf0,
                            !in_range(byte, 0xc2, 0xdf),
                        invariant
                            len == s.len(),
                            s == src@,
                            read <= len,
                            read >= inner_start,
                            inner_start >= outer_start,
                            valid_up_to_from(s, read as int) == valid_up_to(s),
                            data.wf(),
                        ensures
                            read > inner_start,
                            after is Lead ==> read + 4 <= len && byte == s[read as int] && byte >= 0x80,
                            after is Tail ==> read + 4 > len,
                        decreases len - read,
                    {
                        // Three-byte
                        let second = src[read + 1];
                        let third = src[read + 2];
                        let x = data.table[second as usize] & data.table[byte as usize + 0x80];
                        proof {
                            assert(data.table@[second as int] == second_class(second));
                            assert(data.table@[byte + 0x80] == lead_mask(byte));
                            lemma_table_fits(byte, second);
                            lemma_three_check(x, third);
                            lemma_fits_second(byte, second);
                        }
                        if (x | (third >> 6u8)) != 2 {
                            proof {
                                if lead_len(byte) == 3 {
                                    lemma_char_len_bytes(s, read as int, 3);
                                }
                                lemma_stop(s, read as int);
                            }
                            break 'outer;
                        }
                        proof {
                            lemma_char_len_bytes(s, read as int, 3);
                            lemma_step(s, read as int, 3);
                        }
                        read += 3;
                        // Next lead
                        if crate::utils::likely(len - read >= 4) {
                            byte = src[read];
                            if in_inclusive_range8(byte, 0xe0, 0xef) {
                                continue;
                            }
                            if crate::utils::likely(byte < 0x80) {
                                proof {
                                    assert(char_len(s, read as int) == Some(1nat));
                                    lemma_step(s, read as int, 1);
                                }
                                read += 1;
                                after = After::Ascii;
                                break;
                            }
                            after = After::Lead;
                            break;
                        }
                        after = After::Tail;
                        break;
                    }
                    match after {
                        After::Ascii => {
                            to_ascii = true;
                            break;
                        },
                        After::Lead => {
                            continue;
                        },
                        After::Tail => {
                            break;
                        },
                    }
                }
                // Four-byte
                let second = src[read + 1];
                let third = src[read + 2];
                let fourth = src[read + 3];
                let x = data.table[second as usize] & data.table[byte as usize + 0x80];
                proof {
                    assert(data.table@[second as int] == second_class(second));
                    assert(data.table@[byte + 0x80] == lead_mask(byte));
                    lemma_table_fits(byte, second);
                    lemma_four_check(x, third, fourth);
                    lemma_fits_second(byte, second);
                }
                if ((x as u16) | ((third >> 6u8) as u16) | (((fourth & 0xc0u8) as u16) << 2u16)) != 0x202 {
                    proof {
                        if lead_len(byte) == 4 {
                            lemma_char_len_bytes(s, read as int, 4);
                        }
                        lemma_stop(s, read as int);
                    }
                    break 'outer;
                }
                proof {
                    lemma_char_len_bytes(s, read as int, 4);
                    lemma_step(s, read as int, 4);
                }
                read += 4;
                // Next lead
                if crate::utils::likely(len - read >= 4) {
                    byte = src[read];
                    if byte < 0x80 {
                        proof {
                            assert(char_len(s, read as int) == Some(1nat));
                            lemma_step(s, read as int, 1);
                        }
                        read += 1;
                        to_ascii = true;
                        break;
                    }
                    continue;
                }
                break;
            }
        }
        if !to_ascii {
            // Fewer than four bytes are left: one to three shorter sequences
            // may still follow.
            loop
                invariant
                    len == s.len(),
                    s == src@,
                    read <= len,
                    read + 4 > len,
                    valid_up_to_from(s, read as int) == valid_up_to(s),
                    data.wf(),
                decreases len - read,
            {
                if read >= len {
                    break 'outer;
                }
                byte = src[read];
                if byte < 0x80 {
                    proof {
                        assert(char_len(s, read as int) == Some(1nat));
                        lemma_step(s, read as int, 1);
                    }
                    read += 1;
                    continue;
                }
                if in_inclusive_range8(byte, 0xc2, 0xdf) {
                    // Two-byte
                    if len - read < 2 {
                        proof {
                            lemma_stop(s, read as int);
                        }
                        break 'outer;
                    }
                    let second = src[read + 1];
                    proof {
                        lemma_char_len_bytes(s, read as int, 2);
                    }
                    if !in_inclusive_range8(second, 0x80, 0xbf) {
                        proof {
                            lemma_stop(s, read as int);
                        }
                        break 'outer;
                    }
                    proof {
                        lemma_step(s, read as int, 2);
                    }
                    read += 2;
                    continue;
                }
                if byte < 0xf0 {
                    // Three-byte
                    if len - read < 3 {
                        proof {
                            lemma_stop(s, read as int);
                        }
                        break 'outer;
                    }
                    let second = src[read + 1];
                    let third = src[read + 2];
                    let x = data.table[second as usize] & data.table[byte as usize + 0x80];
                    proof {
                        assert(data.table@[second as int] == second_class(second));
                        assert(data.table@[byte + 0x80] == lead_mask(byte));
                        lemma_table_fits(byte, second);
                        lemma_three_check(x, third);
                        lemma_fits_second(byte, second);
                    }
                    if (x | (third >> 6u8)) != 2 {
                        proof {
                            if lead_len(byte) == 3 {
                                lemma_char_len_bytes(s, read as int, 3);
                            }
                            lemma_stop(s, read as int);
                        }
                        break 'outer;
                    }
                    proof {
                        lemma_char_len_bytes(s, read as int, 3);
                        lemma_step(s, read as int, 3);
                    }
                    read += 3;
                    // No room is left for another sequence.
                    break 'outer;
                }
                proof {
                    lemma_stop(s, read as int);
                }
                break 'outer;
            }
        }
    }
    read
}

proof fn lemma_ascii_run(s: Seq<u8>, from: int, to: int)
    requires
        0 <= from <= to <= s.len(),
        forall|j: int| from <= j < to ==> s[j] < 0x80,
    ensures
        valid_up_to_from(s, from) == valid_up_to_from(s, to),
    decreases to - from,
{
    if from < to {
        assert(char_len(s, from) == Some(1nat));
        lemma_ascii_run(s, from + 1, to);
    }
}

/// Whether all of `v` is well-formed UTF-8.
pub fn is_valid_utf8(v: &[u8]) -> (r: bool)
    ensures
        r == is_utf8(v@),
{
    utf8_valid_up_to(v) == v.len()
}


/// The index of the first byte `k >= start` of the sequence at `i` that does
/// not fit its lead, or `None` when the input ends first.
pub open spec fn first_misfit(s: Seq<u8>, i: int, n: nat, k: nat) -> Option<nat>
    decreases n - k,
{
    if k >= n {
        Some(n)
    } else if i + k >= s.len() {
        None
    } else if !fits(s[i], k, s[i + k]) {
        Some(k)
    } else {
        first_misfit(s, i, n, k + 1)
    }
}

/// Length of the invalid sequence at `i`: the bytes that still form the
/// beginning of a well-formed sequence (at least one); `None` when the input
/// ends in the middle of a sequence that could still be completed.
pub open spec fn error_len_at(s: Seq<u8>, i: int) -> Option<nat> {
    if lead_len(s[i]) == 0 {
        Some(1)
    } else {
        first_misfit(s, i, lead_len(s[i]), 1)
    }
}

/// Why a byte string is not UTF-8: where the valid prefix ends, and how long
/// the invalid sequence there is (`None` at an unexpected end of input).
#[derive(Debug, Clone, Copy, PartialEq, Eq, Structural)]
pub struct Utf8Error {
    valid_up_to: usize,
    error_len: Option<u8>,
}

impl Utf8Error {
    /// The index up to which the input was valid UTF-8.
    pub closed spec fn spec_valid_up_to(self) -> usize {
        self.valid_up_to
    }

    /// The length of the invalid sequence, if the input did not just end.
    pub closed spec fn spec_error_len(self) -> Option<u8> {
        self.error_len
    }

    /// The index up to which the input was valid UTF-8.
    pub fn valid_up_to(&self) -> (r: usize)
        ensures
            r == self.spec_valid_up_to(),
    {
        self.valid_up_to
    }

    /// The length of the invalid sequence, or `None` when the input ended
    /// inside a sequence.
    pub fn error_len(&self) -> (r: Option<u8>)
        ensures
            r == self.spec_error_len(),
    {
        self.error_len
    }
}

/// Whether `e` describes how `s` fails to be UTF-8: where its valid prefix
/// ends and how long the invalid sequence there is.
pub open spec fn describes(e: Utf8Error, s: Seq<u8>) -> bool {
    &&& e.spec_valid_up_to() == valid_up_to(s)
    &&& match error_len_at(s, valid_up_to(s)) {
        Some(n) => e.spec_error_len() == Some(n as u8),
        None => e.spec_error_len() is None,
    }
}

/// Length of the invalid sequence at `pos`, which starts no well-formed one.
fn invalid_sequence_len(src: &[u8], pos: usize) -> (r: Option<u8>)
    requires
        pos < src@.len(),
        char_len(src@, pos as int) is None,
    ensures
        match error_len_at(src@, pos as int) {
            Some(n) => r == Some(n as u8) && 1 <= n <= 3,
            None => r is None,
        },
{
    let lead = src[pos];
    let n: usize = if lead < 0x80 {
        1
    } else if in_inclusive_range8(lead, 0xc2, 0xdf) {
        2
    } else if in_inclusive_range8(lead, 0xe0, 0xef) {
        3
    } else if in_inclusive_range8(lead, 0xf0, 0xf4) {
        4
    } else {
        return Some(1);
    };
    let (lo, hi): (u8, u8) = if lead == 0xe0 {
        (0xa0, 0xbf)
    } else if lead == 0xed {
        (0x80, 0x9f)
    } else if lead == 0xf0 {
        (0x90, 0xbf)
    } else if lead == 0xf4 {
        (0x80, 0x8f)
    } else {
        (0x80, 0xbf)
    };
    let mut k: usize = 1;
    while k < n
        invariant
            1 <= k <= n,
            n == lead_len(lead),
            lead == src@[pos as int],
            n <= 4,
            pos < src@.len(),
            lo == second_range(lead).0,
            hi == second_range(lead).1,
            char_len(src@, pos as int) is None,
            first_misfit(src@, pos as int, n as nat, k as nat) == first_misfit(
                src@,
                pos as int,
                n as nat,
                1,
            ),
            fits_up_to(src@, pos as int, k as nat),
            k <= src@.len() - pos,
        decreases n - k,
    {
        if k >= src.len() - pos {
            return None;
        }
        let b = src[pos + k];
        let ok = if k == 1 {
            in_inclusive_range8(b, lo, hi)
        } else {
            in_inclusive_range8(b, 0x80, 0xbf)
        };
        if !ok {
            return Some(k as u8);
        }
        assert(fits_up_to(src@, pos as int, (k + 1) as nat)) by {
            assert forall|j: nat| 1 <= j < k + 1 implies #[trigger] fits_at(src@, pos as int, j) by {
                if j < k {
                    assert(fits_at(src@, pos as int, j));
                }
            }
        }
        k += 1;
    }
    assert(false);
    None
}

/// `Ok` when all of `v` is UTF-8, else where and how validation failed.
pub fn validate_utf8(v: &[u8]) -> (r: Result<(), Utf8Error>)
    ensures
        match r {
            Ok(_) => is_utf8(v@),
            Err(e) => !is_utf8(v@) && describes(e, v@),
        },
{
    let index = utf8_valid_up_to(v);
    if index == v.len() {
        Ok(())
    } else {
        proof {
            lemma_stop_is_invalid(v@, 0);
        }
        let error_len = invalid_sequence_len(v, index);
        Err(Utf8Error { valid_up_to: index, error_len })
    }
}

/// Where the scan stops short of the end, no well-formed sequence starts.
pub proof fn lemma_stop_is_invalid(s: Seq<u8>, i: int)
    requires
        0 <= i <= s.len(),
    ensures
        i <= valid_up_to_from(s, i) <= s.len(),
        valid_up_to_from(s, i) < s.len() ==> char_len(s, valid_up_to_from(s, i)) is None,
    decreases s.len() - i,
{
    if i < s.len() {
        if let Some(n) = char_len(s, i) {
            lemma_stop_is_invalid(s, i + n);
        }
    }
}


proof fn lemma_width2_bits(b1: u8, b2: u8)
    by (bit_vector)
    requires
        0xc0 <= b1 <= 0xdf,
        0x80 <= b2 <= 0xbf,
    ensures
        (0x80 <= ((((b1 & 0x1f) as u32) << 6) | ((b2 & 0x3f) as u32))) <==> b1 >= 0xc2,
        ((((b1 & 0x1f) as u32) << 6) | ((b2 & 0x3f) as u32)) < 0xd800,
{
}

proof fn lemma_width3_bits(b1: u8, b2: u8, b3: u8)
    by (bit_vector)
    requires
        0xe0 <= b1 <= 0xef,
        0x80 <= b2 <= 0xbf,
        0x80 <= b3 <= 0xbf,
    ensures
        (0x800 <= ((((b1 & 0x0f) as u32) << 12) | (((b2 & 0x3f) as u32) << 6) | ((b3 & 0x3f) as u32)))
            <==> !(b1 == 0xe0 && b2 < 0xa0),
        (0xd800 <= ((((b1 & 0x0f) as u32) << 12) | (((b2 & 0x3f) as u32) << 6) | ((b3 & 0x3f) as u32))
            <= 0xdfff) <==> (b1 == 0xed && b2 >= 0xa0),
{
}

proof fn lemma_width4_bits(b1: u8, b2: u8, b3: u8, b4: u8)
    by (bit_vector)
    requires
        0xf0 <= b1 <= 0xf7,
        0x80 <= b2 <= 0xbf,
        0x80 <= b3 <= 0xbf,
        0x80 <= b4 <= 0xbf,
    ensures
        (0x10000 <= ((((b1 & 0x07) as u32) << 18) | (((b2 & 0x3f) as u32) << 12) | (((b3 & 0x3f)
            as u32) << 6) | ((b4 & 0x3f) as u32)) <= 0x10ffff) <==> (!(b1 == 0xf0 && b2 < 0x90) && (
        b1 < 0xf4 || (b1 == 0xf4 && b2 <= 0x8f))),
{
}

/// The sequence at the start of `s` is well-formed by the lead-byte table
/// exactly when it is a well-formed scalar by the bit patterns of UTF-8,
/// and both agree on its length.
pub proof fn lemma_char_len_first_scalar(s: Seq<u8>)
    requires
        s.len() > 0,
    ensures
        (char_len(s, 0) is Some) == valid_first_scalar(s),
        char_len(s, 0) matches Some(n) ==> n == length_of_first_scalar(s),
{
    let b1 = s[0];
    if s.len() >= 2 && 0xc0 <= b1 <= 0xdf && is_cont(s[1]) {
        lemma_width2_bits(b1, s[1]);
        assert(codepoint_width_2(b1, s[1]) == ((((b1 & 0x1f) as u32) << 6) | ((s[1] & 0x3f) as u32)));
    }
    if s.len() >= 3 && 0xe0 <= b1 <= 0xef && is_cont(s[1]) && is_cont(s[2]) {
        lemma_width3_bits(b1, s[1], s[2]);
    }
    if s.len() >= 4 && 0xf0 <= b1 <= 0xf7 && is_cont(s[1]) && is_cont(s[2]) && is_cont(s[3]) {
        lemma_width4_bits(b1, s[1], s[2], s[3]);
    }
    let n = lead_len(b1);
    if n >= 2 && n as int <= s.len() {
        if fits_up_to(s, 0, n) {
            assert(fits_at(s, 0, 1));
            if n >= 3 {
                assert(fits_at(s, 0, 2));
            }
            if n >= 4 {
                assert(fits_at(s, 0, 3));
            }
        } else {
            assert(!fits_up_to(s, 0, n));
            let j = choose|j: nat| 1 <= j < n && !#[trigger] fits_at(s, 0, j);
            assert(!fits_at(s, 0, j));
        }
    }
}

/// A scan from `i` reaches the end exactly when the rest of `s` from `i` is
/// valid UTF-8.
proof fn lemma_valid_from(s: Seq<u8>, i: int)
    requires
        0 <= i <= s.len(),
    ensures
        (valid_up_to_from(s, i) == s.len()) == valid_utf8(s.subrange(i, s.len() as int)),
    decreases s.len() - i,
{
    let t = s.subrange(i, s.len() as int);
    if i < s.len() {
        assert(char_len(s, i) == char_len(t, 0)) by {
            assert forall|j: nat| 1 <= j < 4 && i + j < s.len() implies s[i + j] == #[trigger] t[0int + j] by {}
            assert(s[i] == t[0]);
            if i + lead_len(s[i]) <= s.len() {
                assert(fits_up_to(s, i, lead_len(s[i])) == fits_up_to(t, 0, lead_len(t[0]))) by {
                    assert(s[i] == t[0]);
                    if fits_up_to(s, i, lead_len(s[i])) && i + lead_len(s[i]) <= s.len() {
                        assert forall|j: nat| 1 <= j < lead_len(t[0]) implies #[trigger] fits_at(t, 0, j) by {
                            assert(fits_at(s, i, j));
                            assert(t[0int + j] == s[i + j]);
                        }
                    }
                    if fits_up_to(t, 0, lead_len(t[0])) && i + lead_len(s[i]) <= s.len() {
                        assert forall|j: nat| 1 <= j < lead_len(s[i]) implies #[trigger] fits_at(s, i, j) by {
                            assert(fits_at(t, 0, j));
                            assert(t[0int + j] == s[i + j]);
                        }
                    }
                }
            }
        }
        lemma_char_len_first_scalar(t);
        if let Some(n) = char_len(s, i) {
            lemma_valid_from(s, i + n);
            assert(pop_first_scalar(t) =~= s.subrange(i + n, s.len() as int));
            lemma_stop_is_invalid(s, i + n);
        }
    } else {
        assert(t.len() == 0);
    }
}

/// The table-driven notion of well-formed UTF-8 used here is the one of
/// `vstd::utf8::valid_utf8`.
pub proof fn lemma_is_utf8_valid_utf8(s: Seq<u8>)
    ensures
        is_utf8(s) == valid_utf8(s),
{
    lemma_valid_from(s, 0);
    assert(s.subrange(0, s.len() as int) =~= s);
}

/// The sequence at `i` reads the same in a prefix of `s` that holds all of
/// it, and does not read as well-formed in a prefix that cuts it short or in
/// which `s` has none.
proof fn lemma_char_len_prefix(s: Seq<u8>, k: int, i: int)
    requires
        0 <= i < k <= s.len(),
    ensures
        char_len(s, i) is None ==> char_len(s.take(k), i) is None,
        char_len(s, i) matches Some(n) && i + n <= k ==> char_len(s.take(k), i) == char_len(s, i),
{
    let t = s.take(k);
    assert(t[i] == s[i]);
    let n = lead_len(s[i]);
    if n > 0 && i + n <= k {
        assert forall|j: nat| 1 <= j < n implies #[trigger] fits_at(t, i, j) == fits_at(s, i, j) by {
            assert(t[i + j] == s[i + j]);
        }
        if !fits_up_to(s, i, n) {
            let j = choose|j: nat| 1 <= j < n && !#[trigger] fits_at(s, i, j);
            assert(!fits_at(t, i, j));
        }
        if fits_up_to(s, i, n) {
            assert forall|j: nat| 1 <= j < n implies #[trigger] fits_at(t, i, j) by {
                assert(fits_at(s, i, j));
            }
        }
    }
}

/// Scanning a prefix of `s` that reaches at least as far as the scan of `s`
/// from `i` stops at the same place.
proof fn lemma_scan_prefix(s: Seq<u8>, k: int, i: int)
    requires
        0 <= i <= valid_up_to_from(s, i) <= k <= s.len(),
    ensures
        valid_up_to_from(s.take(k), i) == valid_up_to_from(s, i),
    decreases s.len() - i,
{
    let t = s.take(k);
    if i < s.len() {
        match char_len(s, i) {
            Some(n) => {
                lemma_stop_is_invalid(s, i + n);
                lemma_char_len_prefix(s, k, i);
                lemma_scan_prefix(s, k, i + n);
            },
            None => {
                if i < k {
                    lemma_char_len_prefix(s, k, i);
                }
            },
        }
    }
}

/// `utf8_valid_up_to` finds the longest valid prefix: the bytes before
/// `valid_up_to(s)` are well-formed UTF-8 as std defines it, and no longer
/// prefix is, so an incomplete sequence at the end is not counted.
pub proof fn lemma_longest_valid_prefix(s: Seq<u8>)
    ensures
        0 <= valid_up_to(s) <= s.len(),
        valid_utf8(s.take(valid_up_to(s))),
        forall|k: int| valid_up_to(s) < k <= s.len() ==> !valid_utf8(#[trigger] s.take(k)),
{
    lemma_stop_is_invalid(s, 0);
    let v = valid_up_to(s);
    lemma_scan_prefix(s, v, 0);
    assert(s.take(v).len() == v);
    lemma_is_utf8_valid_utf8(s.take(v));
    assert forall|k: int| v < k <= s.len() implies !valid_utf8(#[trigger] s.take(k)) by {
        lemma_scan_prefix(s, k, 0);
        lemma_is_utf8_valid_utf8(s.take(k));
    }
}

} // verus!

