//! `ByteStr`: an owned byte string that always holds well-formed UTF-8.

use crate::utf8::{
    describes, is_utf8, lemma_is_utf8_valid_utf8, validate_utf8, Utf8Error,
};
use vstd::utf8::{is_char_boundary, length_of_first_scalar, pop_first_scalar, valid_utf8};
use vstd::prelude::*;
use vstd::string::StringSliceAdditionalSpecFns;

verus! {

/// `std::str::from_utf8`, which its documentation says succeeds exactly when
/// the bytes are well-formed UTF-8, and then returns a string slice over
/// those same bytes.
#[verifier::external_body]
pub(crate) fn str_from_utf8(v: &[u8]) -> (r: Option<&str>)
    ensures
        r is Some <==> vstd::utf8::valid_utf8(v@),
        r matches Some(s) ==> s.spec_bytes() == v@,
{
    std::str::from_utf8(v).ok()
}

/// Whether `d` occurs in `s` at index `i`.
pub open spec fn matches_at(s: Seq<u8>, d: Seq<u8>, i: int) -> bool {
    0 <= i && i + d.len() <= s.len() && s.subrange(i, i + d.len()) == d
}

/// Whether `d` occurs in `s`, as the byte string it is.
pub open spec fn occurs(s: Seq<u8>, d: Seq<u8>) -> bool {
    exists|i: int| #[trigger] matches_at(s, d, i)
}

/// Whether `i` is where `d` first occurs in `s`.
pub open spec fn first_match(s: Seq<u8>, d: Seq<u8>, i: int) -> bool {
    matches_at(s, d, i) && forall|j: int| 0 <= j < i ==> !#[trigger] matches_at(s, d, j)
}

/// Whether `i` is where `d` last occurs in `s`.
pub open spec fn last_match(s: Seq<u8>, d: Seq<u8>, i: int) -> bool {
    matches_at(s, d, i) && forall|j: int| i < j <= s.len() ==> !#[trigger] matches_at(s, d, j)
}

/// Whether `d` occurs in `s` at index `i`.
fn bytes_match_at(s: &[u8], d: &[u8], i: usize) -> (r: bool)
    requires
        i + d@.len() <= s@.len(),
    ensures
        r == matches_at(s@, d@, i as int),
{
    let n = s.len();
    let mut k: usize = 0;
    while k < d.len()
        invariant
            k <= d@.len(),
            i + d@.len() <= s@.len(),
            s@.len() == n,
            forall|j: int| 0 <= j < k ==> s@[i + j] == d@[j],
        decreases d@.len() - k,
    {
        if s[i + k] != d[k] {
            assert(s@.subrange(i as int, i + d@.len())[k as int] != d@[k as int]);
            return false;
        }
        k += 1;
    }
    assert(s@.subrange(i as int, i + d@.len()) =~= d@);
    true
}

/// A well-formed prefix of a well-formed string ends on a character
/// boundary, and what follows it is well-formed too.
proof fn lemma_prefix_boundary(d: Seq<u8>, u: Seq<u8>)
    requires
        valid_utf8(d),
        valid_utf8(d + u),
    ensures
        valid_utf8(u),
        is_char_boundary(d + u, d.len() as int),
    decreases d.len(),
{
    let t = d + u;
    if d.len() == 0 {
        assert(t =~= u);
    } else {
        let n = length_of_first_scalar(d);
        assert(t[0] == d[0]);
        assert(n <= d.len());
        assert(forall|k: int| 0 <= k < n ==> t[k] == d[k]);
        assert(length_of_first_scalar(t) == n);
        assert(pop_first_scalar(t) =~= pop_first_scalar(d) + u);
        lemma_prefix_boundary(pop_first_scalar(d), u);
    }
}

/// The well-formed string `s` splits at a match of the well-formed `d` into
/// two well-formed parts.
proof fn lemma_split_at_match(s: Seq<u8>, d: Seq<u8>, i: int)
    requires
        valid_utf8(s),
        valid_utf8(d),
        matches_at(s, d, i),
        d.len() > 0 || i == 0 || i == s.len(),
    ensures
        valid_utf8(s.subrange(0, i)),
        valid_utf8(s.subrange(i + d.len(), s.len() as int)),
{
    vstd::utf8::is_char_boundary_start_end_of_seq(s);
    if i < s.len() && d.len() > 0 {
        vstd::utf8::is_char_boundary_start_end_of_seq(d);
        vstd::utf8::is_char_boundary_iff_not_is_continuation_byte(d, 0);
        assert(s[i] == s.subrange(i, i + d.len())[0]);
        vstd::utf8::is_char_boundary_iff_not_is_continuation_byte(s, i);
    }
    vstd::utf8::valid_utf8_split(s, i);
    let t = s.subrange(i, s.len() as int);
    let u = s.subrange(i + d.len(), s.len() as int);
    assert(t =~= d + u);
    lemma_prefix_boundary(d, u);
}

/// An owned string whose bytes are always well-formed UTF-8.
#[derive(Debug, PartialEq, Eq, PartialOrd, Ord, Hash)]
pub struct ByteStr {
    bytes: Vec<u8>,
}

impl View for ByteStr {
    type V = Seq<u8>;

    /// The UTF-8 bytes of the string.
    closed spec fn view(&self) -> Seq<u8> {
        self.bytes@
    }
}

impl ByteStr {
    #[verifier::type_invariant]
    spec fn inv(self) -> bool {
        is_utf8(self.bytes@)
    }

    /// The empty string.
    pub fn new() -> (r: ByteStr)
        ensures
            r@ == Seq::<u8>::empty(),
    {
        assert(is_utf8(Seq::<u8>::empty()));
        ByteStr { bytes: Vec::new() }
    }

    /// The bytes of a string slice.
    pub fn from_static(val: &'static str) -> (r: ByteStr)
        ensures
            r@ == val.spec_bytes(),
    {
        ByteStr::from_str_slice(val)
    }

    /// The bytes of an owned string.
    pub fn from_string(src: String) -> (r: ByteStr)
        ensures
            r@ == vstd::utf8::encode_utf8(src@),
    {
        ByteStr::from_str_slice(src.as_str())
    }

    /// The bytes of a string slice, copied.
    pub fn from_str_slice(val: &str) -> (r: ByteStr)
        ensures
            r@ == val.spec_bytes(),
    {
        let bytes = vstd::slice::slice_to_vec(val.as_bytes());
        proof {
            vstd::utf8::encode_utf8_valid_utf8(val@);
            lemma_is_utf8_valid_utf8(bytes@);
        }
        ByteStr { bytes }
    }

    /// Wraps bytes the caller knows to be well-formed UTF-8.
    pub fn from_utf8_unchecked(bytes: Vec<u8>) -> (r: ByteStr)
        requires
            is_utf8(bytes@),
        ensures
            r@ == bytes@,
    {
        ByteStr { bytes }
    }

    /// Wraps `bytes` when they are well-formed UTF-8, else says where they
    /// stop being so.
    pub fn from_utf8(bytes: Vec<u8>) -> (r: Result<ByteStr, Utf8Error>)
        ensures
            match r {
                Ok(s) => is_utf8(bytes@) && s@ == bytes@,
                Err(e) => !is_utf8(bytes@) && describes(e, bytes@),
            },
    {
        match validate_utf8(bytes.as_slice()) {
            Ok(()) => Ok(ByteStr { bytes }),
            Err(e) => Err(e),
        }
    }

    /// Length in bytes.
    pub fn len(&self) -> (n: usize)
        ensures
            n == self@.len(),
    {
        self.bytes.len()
    }

    /// Whether the string is empty.
    pub fn is_empty(&self) -> (b: bool)
        ensures
            b == (self@.len() == 0),
    {
        self.len() == 0
    }

    /// The UTF-8 bytes.
    pub fn as_bytes(&self) -> (b: &[u8])
        ensures
            b@ == self@,
            is_utf8(self@),
    {
        proof {
            use_type_invariant(self);
        }
        self.bytes.as_slice()
    }

    /// The string as a string slice.
    pub fn as_str(&self) -> (s: &str)
        ensures
            s.spec_bytes() == self@,
    {
        proof {
            use_type_invariant(self);
            lemma_is_utf8_valid_utf8(self.bytes@);
        }
        match str_from_utf8(self.bytes.as_slice()) {
            Some(s) => s,
            None => {
                assert(false);
                ""
            },
        }
    }

    /// The UTF-8 bytes, taking ownership.
    pub fn into_bytes(self) -> (b: Vec<u8>)
        ensures
            b@ == self@,
    {
        self.bytes
    }

    /// The part of the string from `start` to `end`, which must itself be
    /// well-formed.
    pub fn slice(&self, start: usize, end: usize) -> (r: ByteStr)
        requires
            start <= end <= self@.len(),
            is_utf8(self@.subrange(start as int, end as int)),
        ensures
            r@ == self@.subrange(start as int, end as int),
    {
        let bytes = vstd::slice::slice_to_vec(
            vstd::slice::slice_subrange(self.bytes.as_slice(), start, end),
        );
        ByteStr { bytes }
    }

    /// The text before and after the first occurrence of `delimiter`, or
    /// `None` when it does not occur.
    pub fn split_once(&self, delimiter: &str) -> (r: Option<(ByteStr, ByteStr)>)
        ensures
            match r {
                None => !occurs(self@, delimiter.spec_bytes()),
                Some((a, b)) => exists|i: int|
                    first_match(self@, delimiter.spec_bytes(), i) && a@ == self@.subrange(0, i) && b@
                        == self@.subrange(i + delimiter.spec_bytes().len(), self@.len() as int),
            },
    {
        proof {
            use_type_invariant(self);
        }
        let s = self.bytes.as_slice();
        let d = delimiter.as_bytes();
        if d.len() > s.len() {
            proof {
                assert forall|i: int| !#[trigger] matches_at(s@, d@, i) by {}
            }
            return None;
        }
        let last = s.len() - d.len();
        let mut i: usize = 0;
        loop
            invariant
                last == s@.len() - d@.len(),
                d@.len() <= s@.len(),
                s@.len() == s.len(),
                i <= last,
                s@ == self@,
                d@ == delimiter.spec_bytes(),
                is_utf8(s@),
                forall|j: int| 0 <= j < i ==> !#[trigger] matches_at(s@, d@, j),
            decreases last - i,
        {
            if bytes_match_at(s, d, i) {
                proof {
                    lemma_is_utf8_valid_utf8(s@);
                    vstd::utf8::encode_utf8_valid_utf8(delimiter@);
                    if d@.len() == 0 && i > 0 {
                        assert(s@.subrange(0, 0) =~= d@);
                        assert(matches_at(s@, d@, 0));
                    }
                    lemma_split_at_match(s@, d@, i as int);
                    lemma_is_utf8_valid_utf8(s@.subrange(0, i as int));
                    lemma_is_utf8_valid_utf8(s@.subrange(i + d@.len(), s@.len() as int));
                }
                let end = i + d.len();
                let before = self.slice(0, i);
                let after = self.slice(end, s.len());
                assert(matches_at(self@, delimiter.spec_bytes(), i as int));
                return Some((before, after));
            }
            if i == last {
                proof {
                    assert forall|j: int| !#[trigger] matches_at(s@, d@, j) by {
                        if 0 <= j && j + d@.len() <= s@.len() {
                            assert(j <= last);
                        }
                    }
                }
                return None;
            }
            i += 1;
        }
    }

    /// The text before and after the last occurrence of `delimiter`, or
    /// `None` when it does not occur.
    pub fn rsplit_once(&self, delimiter: &str) -> (r: Option<(ByteStr, ByteStr)>)
        ensures
            match r {
                None => !occurs(self@, delimiter.spec_bytes()),
                Some((a, b)) => exists|i: int|
                    last_match(self@, delimiter.spec_bytes(), i) && a@ == self@.subrange(0, i) && b@
                        == self@.subrange(i + delimiter.spec_bytes().len(), self@.len() as int),
            },
    {
        proof {
            use_type_invariant(self);
        }
        let s = self.bytes.as_slice();
        let d = delimiter.as_bytes();
        if d.len() > s.len() {
            proof {
                assert forall|i: int| !#[trigger] matches_at(s@, d@, i) by {}
            }
            return None;
        }
        let mut i: usize = s.len() - d.len();
        loop
            invariant
                i <= s@.len() - d@.len(),
                d@.len() <= s@.len(),
                s@.len() == s.len(),
                s@ == self@,
                d@ == delimiter.spec_bytes(),
                is_utf8(s@),
                forall|j: int| i < j <= s@.len() ==> !#[trigger] matches_at(s@, d@, j),
            decreases i,
        {
            if bytes_match_at(s, d, i) {
                proof {
                    lemma_is_utf8_valid_utf8(s@);
                    vstd::utf8::encode_utf8_valid_utf8(delimiter@);
                    if d@.len() == 0 && i < s@.len() {
                        assert(s@.subrange(i + 1, i + 1) =~= d@);
                        assert(matches_at(s@, d@, i + 1));
                    }
                    lemma_split_at_match(s@, d@, i as int);
                    lemma_is_utf8_valid_utf8(s@.subrange(0, i as int));
                    lemma_is_utf8_valid_utf8(s@.subrange(i + d@.len(), s@.len() as int));
                }
                let end = i + d.len();
                let before = self.slice(0, i);
                let after = self.slice(end, s.len());
                assert(matches_at(self@, delimiter.spec_bytes(), i as int));
                return Some((before, after));
            }
            if i == 0 {
                proof {
                    assert forall|j: int| !#[trigger] matches_at(s@, d@, j) by {}
                }
                return None;
            }
            i -= 1;
        }
    }

    /// Whether the string holds the same text as `other`.
    pub fn eq_str(&self, other: &str) -> (r: bool)
        ensures
            r == (self@ == other.spec_bytes()),
    {
        crate::utils::bytes_equal(self.bytes.as_slice(), other.as_bytes())
    }

    /// Empties the string.
    pub fn clear(&mut self)
        ensures
            final(self)@ == Seq::<u8>::empty(),
    {
        self.bytes = Vec::new();
        assert(is_utf8(Seq::<u8>::empty()));
    }
}

impl Clone for ByteStr {
    fn clone(&self) -> (r: ByteStr)
        ensures
            r@ == self@,
    {
        proof {
            use_type_invariant(self);
        }
        ByteStr { bytes: self.bytes.clone() }
    }
}

impl Default for ByteStr {
    fn default() -> (r: ByteStr)
        ensures
            r@ == Seq::<u8>::empty(),
    {
        ByteStr::new()
    }
}

} // verus!
