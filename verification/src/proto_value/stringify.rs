//! 64-bit integers that travel as decimal text, so that readers limited to
//! double-precision numbers (JavaScript) do not lose precision. They are
//! written as a string of digits and read back from either a number or such a
//! string.

use vstd::prelude::*;

verus! {

/// The character of the decimal digit `d`.
pub open spec fn digit_char(d: nat) -> char {
    (48 + d) as char
}

/// The decimal digits of `n`, most significant first, without leading zeros.
pub open spec fn decimal(n: nat) -> Seq<char>
    decreases n,
{
    if n < 10 {
        seq![digit_char(n)]
    } else {
        decimal(n / 10).push(digit_char(n % 10))
    }
}

/// The decimal text of `v`: a minus sign in front of negative numbers.
pub open spec fn decimal_int(v: int) -> Seq<char> {
    if v < 0 {
        seq!['-'] + decimal((-v) as nat)
    } else {
        decimal(v as nat)
    }
}

/// Whether `c` is one of `0` to `9`.
pub open spec fn is_digit(c: char) -> bool {
    48 <= c as int <= 57
}

/// The number that the digits `s` stand for.
pub open spec fn digits_value(s: Seq<char>) -> int
    decreases s.len(),
{
    if s.len() == 0 {
        0
    } else {
        digits_value(s.drop_last()) * 10 + (s.last() as int - 48)
    }
}

/// One or more digits and nothing else.
pub open spec fn is_digits(s: Seq<char>) -> bool {
    s.len() > 0 && forall|i: int| 0 <= i < s.len() ==> is_digit(#[trigger] s[i])
}

/// The value of text that the standard parser of an unsigned type accepts:
/// an optional `+`, then digits.
pub open spec fn unsigned_text(s: Seq<char>) -> Option<int> {
    let d = if s.len() > 0 && s[0] == '+' {
        s.drop_first()
    } else {
        s
    };
    if is_digits(d) {
        Some(digits_value(d))
    } else {
        None
    }
}

/// The value of text that the standard parser of a signed type accepts: an
/// optional `+` or `-`, then digits.
pub open spec fn signed_text(s: Seq<char>) -> Option<int> {
    if s.len() > 0 && s[0] == '-' {
        if is_digits(s.drop_first()) {
            Some(-digits_value(s.drop_first()))
        } else {
            None
        }
    } else {
        unsigned_text(s)
    }
}

/// `itoa::Buffer::format`: the decimal text of `v`, with `-` in front of a
/// negative number, as its documentation and source show.
#[verifier::external_body]
fn itoa_format(v: i128) -> (s: String)
    ensures
        s@ == decimal_int(v as int),
{
    String::from(itoa::Buffer::new().format(v))
}

/// `<u64 as FromStr>::from_str`: its documentation accepts an optional `+`
/// followed by digits whose value fits, and refuses anything else.
#[verifier::external_body]
fn parse_u64(s: &str) -> (r: Option<u64>)
    ensures
        match r {
            Some(v) => unsigned_text(s@) == Some(v as int),
            None => match unsigned_text(s@) {
                Some(n) => n > u64::MAX,
                None => true,
            },
        },
{
    s.parse::<u64>().ok()
}

/// `<i64 as FromStr>::from_str`: its documentation accepts an optional `+` or
/// `-` followed by digits whose value fits, and refuses anything else.
#[verifier::external_body]
fn parse_i64(s: &str) -> (r: Option<i64>)
    ensures
        match r {
            Some(v) => signed_text(s@) == Some(v as int),
            None => match signed_text(s@) {
                Some(n) => n < i64::MIN || n > i64::MAX,
                None => true,
            },
        },
{
    s.parse::<i64>().ok()
}

/// Why a value could not be read as a 64-bit integer.
#[derive(Debug, Clone, Copy, PartialEq, Eq, Structural)]
pub enum BigIntError {
    /// A number outside the range of the type.
    OutOfRange,
    /// Text that is not an integer of the type, or one out of its range.
    InvalidText,
}

/// Integers that must travel as text: `i64` and `u64`.
pub trait BigInt: Sized + Copy {
    /// The value as a mathematical integer.
    spec fn int_value(&self) -> int;

    /// Whether the type can hold `v`.
    spec fn in_range(v: int) -> bool;

    /// What the type's parser makes of text `s`, whether in range or not.
    spec fn text_value(s: Seq<char>) -> Option<int>;

    /// The decimal text the value is written as.
    fn to_text(&self) -> (s: String)
        ensures
            s@ == decimal_int(self.int_value()),
    ;

    /// The value read from a signed number.
    fn from_i64(v: i64) -> (r: Result<Self, BigIntError>)
        ensures
            match r {
                Ok(x) => x.int_value() == v,
                Err(e) => e == BigIntError::OutOfRange,
            },
            r is Ok <==> Self::in_range(v as int),
    ;

    /// The value read from an unsigned number.
    fn from_u64(v: u64) -> (r: Result<Self, BigIntError>)
        ensures
            match r {
                Ok(x) => x.int_value() == v,
                Err(e) => e == BigIntError::OutOfRange,
            },
            r is Ok <==> Self::in_range(v as int),
    ;

    /// The value read from text.
    fn from_text(s: &str) -> (r: Result<Self, BigIntError>)
        ensures
            match r {
                Ok(x) => Self::text_value(s@) == Some(x.int_value()),
                Err(e) => e == BigIntError::InvalidText,
            },
            r is Ok <==> (Self::text_value(s@) matches Some(n) && Self::in_range(n)),
    ;
}

impl BigInt for u64 {
    open spec fn int_value(&self) -> int {
        *self as int
    }

    open spec fn in_range(v: int) -> bool {
        0 <= v <= u64::MAX
    }

    open spec fn text_value(s: Seq<char>) -> Option<int> {
        unsigned_text(s)
    }

    fn to_text(&self) -> (s: String) {
        itoa_format(*self as i128)
    }

    fn from_i64(v: i64) -> (r: Result<u64, BigIntError>) {
        if v < 0 {
            Err(BigIntError::OutOfRange)
        } else {
            Ok(v as u64)
        }
    }

    fn from_u64(v: u64) -> (r: Result<u64, BigIntError>) {
        Ok(v)
    }

    fn from_text(s: &str) -> (r: Result<u64, BigIntError>) {
        match parse_u64(s) {
            Some(v) => Ok(v),
            None => Err(BigIntError::InvalidText),
        }
    }
}

impl BigInt for i64 {
    open spec fn int_value(&self) -> int {
        *self as int
    }

    open spec fn in_range(v: int) -> bool {
        i64::MIN <= v <= i64::MAX
    }

    open spec fn text_value(s: Seq<char>) -> Option<int> {
        signed_text(s)
    }

    fn to_text(&self) -> (s: String) {
        itoa_format(*self as i128)
    }

    fn from_i64(v: i64) -> (r: Result<i64, BigIntError>) {
        Ok(v)
    }

    fn from_u64(v: u64) -> (r: Result<i64, BigIntError>) {
        if v > i64::MAX as u64 {
            Err(BigIntError::OutOfRange)
        } else {
            Ok(v as i64)
        }
    }

    fn from_text(s: &str) -> (r: Result<i64, BigIntError>) {
        match parse_i64(s) {
            Some(v) => Ok(v),
            None => Err(BigIntError::InvalidText),
        }
    }
}

/// A value that is written as decimal text and read from a number or text.
#[derive(Debug, Copy, PartialEq, Eq, PartialOrd, Ord, Hash, Default)]
pub struct Stringify<T>(pub T);

impl<T: Clone> Clone for Stringify<T> {
    fn clone(&self) -> (r: Self)
        ensures
            cloned::<T>(self.0, r.0),
    {
        Stringify(self.0.clone())
    }
}

impl<T> Stringify<T> {
    /// Wraps a value.
    pub fn new(value: T) -> (r: Self)
        ensures
            r.0 == value,
    {
        Stringify(value)
    }

    /// The wrapped value.
    pub fn inner(&self) -> (r: &T)
        ensures
            *r == self.0,
    {
        &self.0
    }

    /// Unwraps the value.
    pub fn into_inner(self) -> (r: T)
        ensures
            r == self.0,
    {
        self.0
    }
}

proof fn lemma_digit_char(d: nat)
    requires
        d < 10,
    ensures
        is_digit(digit_char(d)),
        digit_char(d) as int - 48 == d,
        digit_char(d) != '+',
        digit_char(d) != '-',
{
}

/// The digits of `n` are digits, and they stand for `n`.
proof fn lemma_decimal(n: nat)
    ensures
        is_digits(decimal(n)),
        digits_value(decimal(n)) == n,
        decimal(n)[0] != '+',
        decimal(n)[0] != '-',
    decreases n,
{
    if n < 10 {
        lemma_digit_char(n);
        assert(decimal(n).drop_last() =~= Seq::<char>::empty());
        assert(digits_value(Seq::<char>::empty()) == 0);
        assert(digits_value(decimal(n)) == n);
    } else {
        lemma_decimal(n / 10);
        lemma_digit_char(n % 10);
        let s = decimal(n);
        assert(s.drop_last() =~= decimal(n / 10));
        assert(s.last() == digit_char(n % 10));
        assert(digits_value(s) == digits_value(decimal(n / 10)) * 10 + (n % 10));
        assert((n / 10) * 10 + n % 10 == n);
        assert(digits_value(s) == n);
        assert forall|i: int| 0 <= i < s.len() implies is_digit(#[trigger] s[i]) by {
            if i < s.len() - 1 {
                assert(s[i] == decimal(n / 10)[i]);
            }
        }
    }
}

/// Writing a number out and parsing the text gives the number back: the text
/// of a non-negative number is read by the unsigned parser, and the text of
/// any number by the signed one.
pub proof fn lemma_text_roundtrip(v: int)
    ensures
        v >= 0 ==> unsigned_text(decimal_int(v)) == Some(v),
        signed_text(decimal_int(v)) == Some(v),
{
    if v >= 0 {
        lemma_decimal(v as nat);
    } else {
        lemma_decimal((-v) as nat);
        let s = decimal_int(v);
        assert(s.drop_first() =~= decimal((-v) as nat));
    }
}

/// The text a `u64` is written as reads back as the same `u64`.
pub proof fn lemma_u64_text_roundtrip(x: u64)
    ensures
        <u64 as BigInt>::text_value(decimal_int(x.int_value())) == Some(x as int),
        <u64 as BigInt>::in_range(x as int),
{
    lemma_text_roundtrip(x as int);
}

/// The text an `i64` is written as reads back as the same `i64`.
pub proof fn lemma_i64_text_roundtrip(x: i64)
    ensures
        <i64 as BigInt>::text_value(decimal_int(x.int_value())) == Some(x as int),
        <i64 as BigInt>::in_range(x as int),
{
    lemma_text_roundtrip(x as int);
}

} // verus!
