//! Small value types that generated protobuf code is built from.

use crate::byte_str::ByteStr;
use crate::encoding::BytesAdapter;
use vstd::prelude::*;
use vstd::string::StringSliceAdditionalSpecFns;

pub mod stringify;

verus! {

/// Values that have a protobuf default, which is left out when encoding.
pub trait IsDefault: Sized {
    /// Whether the value is the default of its type.
    spec fn holds_default(&self) -> bool;

    /// Whether the value is the default of its type.
    fn is_default(&self) -> (r: bool)
        ensures
            r == self.holds_default(),
    ;
}

/// Whether `value` is the default of its type.
pub fn is_default<V: IsDefault>(value: &V) -> (r: bool)
    ensures
        r == value.holds_default(),
{
    value.is_default()
}

impl IsDefault for bool {
    open spec fn holds_default(&self) -> bool {
        *self == false
    }

    fn is_default(&self) -> (r: bool) {
        *self == false
    }
}

impl IsDefault for i32 {
    open spec fn holds_default(&self) -> bool {
        *self == 0
    }

    fn is_default(&self) -> (r: bool) {
        *self == 0
    }
}

impl IsDefault for i64 {
    open spec fn holds_default(&self) -> bool {
        *self == 0
    }

    fn is_default(&self) -> (r: bool) {
        *self == 0
    }
}

impl IsDefault for u32 {
    open spec fn holds_default(&self) -> bool {
        *self == 0
    }

    fn is_default(&self) -> (r: bool) {
        *self == 0
    }
}

impl IsDefault for u64 {
    open spec fn holds_default(&self) -> bool {
        *self == 0
    }

    fn is_default(&self) -> (r: bool) {
        *self == 0
    }
}

impl IsDefault for String {
    open spec fn holds_default(&self) -> bool {
        self@.len() == 0
    }

    fn is_default(&self) -> (r: bool) {
        self.as_str().is_empty()
    }
}

impl IsDefault for ByteStr {
    open spec fn holds_default(&self) -> bool {
        self@.len() == 0
    }

    fn is_default(&self) -> (r: bool) {
        self.is_empty()
    }
}

impl<T> IsDefault for Vec<T> {
    open spec fn holds_default(&self) -> bool {
        self@.len() == 0
    }

    fn is_default(&self) -> (r: bool) {
        self.is_empty()
    }
}

impl<T> IsDefault for Enum<T> {
    open spec fn holds_default(&self) -> bool {
        self.0 == 0
    }

    fn is_default(&self) -> (r: bool) {
        self.get().is_default()
    }
}

impl<B: IsDefault> IsDefault for Bytes<B> {
    open spec fn holds_default(&self) -> bool {
        self.0.holds_default()
    }

    fn is_default(&self) -> (r: bool) {
        self.0.is_default()
    }
}

impl<T> IsDefault for Option<T> {
    open spec fn holds_default(&self) -> bool {
        self is None
    }

    fn is_default(&self) -> (r: bool) {
        self.is_none()
    }
}

impl<K, V, S> IsDefault for std::collections::HashMap<K, V, S> {
    open spec fn holds_default(&self) -> bool {
        self@.is_empty()
    }

    fn is_default(&self) -> (r: bool) {
        self.is_empty()
    }
}

impl<K, V> IsDefault for std::collections::BTreeMap<K, V> {
    open spec fn holds_default(&self) -> bool {
        self@.is_empty()
    }

    fn is_default(&self) -> (r: bool) {
        self.is_empty()
    }
}

/// The protobuf defaults, value by value: a number is the default exactly
/// when it is zero, a `bool` when it is `false`, a string, byte string or
/// vector when it is empty, an `Option` when it is `None`, a map when it has
/// no entry, an enum when its raw value is zero, and a `bytes` value when the
/// container it wraps is.
pub proof fn lemma_default_values<K, V, S, T, B: IsDefault>(
    b: bool,
    i: i32,
    l: i64,
    u: u32,
    w: u64,
    text: String,
    bs: ByteStr,
    v: Vec<T>,
    o: Option<T>,
    hm: std::collections::HashMap<K, V, S>,
    bm: std::collections::BTreeMap<K, V>,
    e: Enum<T>,
    by: Bytes<B>,
)
    ensures
        b.holds_default() <==> !b,
        i.holds_default() <==> i == 0,
        l.holds_default() <==> l == 0,
        u.holds_default() <==> u == 0,
        w.holds_default() <==> w == 0,
        text.holds_default() <==> text@ == Seq::<char>::empty(),
        bs.holds_default() <==> bs@ == Seq::<u8>::empty(),
        v.holds_default() <==> v@ == Seq::<T>::empty(),
        o.holds_default() <==> o == None::<T>,
        hm.holds_default() <==> hm@ == Map::<K, V>::empty(),
        bm.holds_default() <==> bm@ == Map::<K, V>::empty(),
        e.holds_default() <==> e.0 == 0,
        by.holds_default() <==> by.0.holds_default(),
{
    if text@.len() == 0 {
        assert(text@ =~= Seq::<char>::empty());
    }
    if bs@.len() == 0 {
        assert(bs@ =~= Seq::<u8>::empty());
    }
    if v@.len() == 0 {
        assert(v@ =~= Seq::<T>::empty());
    }
    if hm@.is_empty() {
        assert(hm@ =~= Map::<K, V>::empty());
    }
    if bm@.is_empty() {
        assert(bm@ =~= Map::<K, V>::empty());
    }
}

/// An open protobuf enum: any `i32` is a valid value, known or not; `T` names
/// the Rust enum the known values convert to.
#[derive(Debug, PartialEq, Eq, PartialOrd, Ord, Hash)]
pub struct Enum<T>(pub i32, pub core::marker::PhantomData<T>);

impl<T> Enum<T> {
    /// Wraps a raw enum value.
    pub fn new(value: i32) -> (r: Self)
        ensures
            r.0 == value,
    {
        Enum(value, core::marker::PhantomData)
    }

    /// The raw enum value.
    pub fn get(self) -> (r: i32)
        ensures
            r == self.0,
    {
        self.0
    }

    /// The enum value a signed number stands for, or `None` when it does not
    /// fit an `i32`.
    pub fn from_i64(v: i64) -> (r: Option<Self>)
        ensures
            r is Some <==> i32::MIN <= v <= i32::MAX,
            r matches Some(e) ==> e.0 == v,
    {
        if v < i32::MIN as i64 || v > i32::MAX as i64 {
            None
        } else {
            Some(Enum(v as i32, core::marker::PhantomData))
        }
    }

    /// The enum value an unsigned number stands for, or `None` when it does
    /// not fit an `i32`.
    pub fn from_u64(v: u64) -> (r: Option<Self>)
        ensures
            r is Some <==> v <= i32::MAX,
            r matches Some(e) ==> e.0 == v,
    {
        if v > i32::MAX as u64 {
            None
        } else {
            Some(Enum(v as i32, core::marker::PhantomData))
        }
    }

    /// The known enum value, or the error of the conversion when the raw value
    /// names no variant.
    pub fn try_get(self) -> (r: Result<T, <T as TryFrom<i32>>::Error>) where T: TryFrom<i32>
        ensures
            <T as vstd::std_specs::convert::TryFromSpec<i32>>::obeys_try_from_spec() ==> r
                == <T as vstd::std_specs::convert::TryFromSpec<i32>>::try_from_spec(self.0),
    {
        T::try_from(self.0)
    }
}

impl<T> Clone for Enum<T> {
    fn clone(&self) -> (r: Self)
        ensures
            r.0 == self.0,
    {
        Enum(self.0, core::marker::PhantomData)
    }
}

impl<T> Copy for Enum<T> {

}

impl<T: Into<i32>> vstd::std_specs::convert::FromSpecImpl<T> for Enum<T> {
    open spec fn obeys_from_spec() -> bool {
        <T as vstd::std_specs::convert::IntoSpec<i32>>::obeys_into_spec()
    }

    open spec fn from_spec(v: T) -> Enum<T> {
        Enum(<T as vstd::std_specs::convert::IntoSpec<i32>>::into_spec(v), core::marker::PhantomData)
    }
}

impl<T: Into<i32>> From<T> for Enum<T> {
    /// The raw value of a known variant.
    fn from(value: T) -> (r: Enum<T>)
        ensures
            <T as vstd::std_specs::convert::IntoSpec<i32>>::obeys_into_spec() ==> r.0
                == <T as vstd::std_specs::convert::IntoSpec<i32>>::into_spec(value),
    {
        Enum::new(value.into())
    }
}

impl<T: Into<i32> + Default> Default for Enum<T> {
    /// The raw value of the default variant.
    fn default() -> (r: Enum<T>)
        ensures
            exists|d: T|
                #![trigger call_ensures(T::default, (), d)]
                call_ensures(T::default, (), d) && (<T as vstd::std_specs::convert::IntoSpec<
                    i32,
                >>::obeys_into_spec() ==> r.0 == <T as vstd::std_specs::convert::IntoSpec<
                    i32,
                >>::into_spec(d)),
    {
        let d = T::default();
        let ghost g = d;
        let r = Enum::new(d.into());
        assert(call_ensures(T::default, (), g));
        r
    }
}


/// A byte container used as a protobuf `bytes` field; serialised as Base64
/// text. It compares, orders and hashes as the container does.
#[derive(Debug, PartialEq, Eq, PartialOrd, Ord, Hash)]
pub struct Bytes<B>(pub B);

impl<B> vstd::std_specs::convert::FromSpecImpl<B> for Bytes<B> {
    open spec fn obeys_from_spec() -> bool {
        true
    }

    open spec fn from_spec(v: B) -> Bytes<B> {
        Bytes(v)
    }
}

impl<B> From<B> for Bytes<B> {
    fn from(value: B) -> (r: Bytes<B>)
        ensures
            r == Bytes(value),
    {
        Bytes(value)
    }
}

impl<B: Clone> Clone for Bytes<B> {
    fn clone(&self) -> (r: Bytes<B>)
        ensures
            cloned::<B>(self.0, r.0),
    {
        Bytes(self.0.clone())
    }
}

impl<B: Default> Default for Bytes<B> {
    fn default() -> (r: Bytes<B>)
        ensures
            call_ensures(B::default, (), r.0),
    {
        Bytes(B::default())
    }
}

/// The character of the standard Base64 alphabet for the 6-bit value `v`.
pub open spec fn base64_digit(v: int) -> char {
    if v < 26 {
        (65 + v) as char
    } else if v < 52 {
        (97 + (v - 26)) as char
    } else if v < 62 {
        (48 + (v - 52)) as char
    } else if v == 62 {
        '+'
    } else {
        '/'
    }
}

/// The standard Base64 text of at most three bytes: four characters, with
/// `=` in place of those the missing bytes would have given.
pub open spec fn base64_group(g: Seq<u8>) -> Seq<char> {
    let b0: int = g[0] as int;
    let b1: int = if g.len() > 1 { g[1] as int } else { 0 };
    let b2: int = if g.len() > 2 { g[2] as int } else { 0 };
    let n = b0 * 65536 + b1 * 256 + b2;
    seq![
        base64_digit(n / 262144),
        base64_digit((n / 4096) % 64),
        if g.len() > 1 { base64_digit((n / 64) % 64) } else { '=' },
        if g.len() > 2 { base64_digit(n % 64) } else { '=' },
    ]
}

/// The standard Base64 text, with padding, of `bytes`: each group of three
/// bytes, the last one possibly shorter, written as four characters.
pub open spec fn base64_standard(bytes: Seq<u8>) -> Seq<char>
    decreases bytes.len(),
{
    if bytes.len() == 0 {
        Seq::<char>::empty()
    } else if bytes.len() <= 3 {
        base64_group(bytes)
    } else {
        base64_group(bytes.take(3)) + base64_standard(bytes.skip(3))
    }
}

/// What forgiving Base64 decoding makes of `text`: the bytes, or `None` when
/// the text is refused.
pub uninterp spec fn base64_forgiving(text: Seq<u8>) -> Option<Seq<u8>>;

/// `base64_simd::STANDARD.encode_to_string`: its result is the standard
/// Base64 text of the bytes, with padding, and, as the crate's own example
/// shows, decoding that text gives the bytes back.
#[verifier::external_body]
fn base64_encode(data: &[u8]) -> (r: String)
    ensures
        r@ == base64_standard(data@),
        base64_forgiving(vstd::utf8::encode_utf8(r@)) == Some(data@),
{
    base64_simd::STANDARD.encode_to_string(data)
}

/// `base64_simd::forgiving_decode_to_vec`: its result, the bytes or a
/// refusal, is a function of the text alone.
#[verifier::external_body]
fn base64_forgiving_decode(data: &[u8]) -> (r: Option<Vec<u8>>)
    ensures
        match r {
            Some(v) => base64_forgiving(data@) == Some(v@),
            None => base64_forgiving(data@) is None,
        },
{
    base64_simd::forgiving_decode_to_vec(data).ok()
}

/// Text that is not Base64.
#[derive(Debug, Clone, Copy, PartialEq, Eq, Structural)]
pub struct InvalidBase64;

impl<B: BytesAdapter> Bytes<B> {
    /// The Base64 text the bytes are written as.
    pub fn to_base64(&self) -> (s: String)
        ensures
            s@ == base64_standard(self.0.bytes_view()),
            base64_forgiving(vstd::utf8::encode_utf8(s@)) == Some(self.0.bytes_view()),
    {
        let mut data: Vec<u8> = Vec::new();
        self.0.append_to(&mut data);
        assert(data@ =~= self.0.bytes_view());
        base64_encode(data.as_slice())
    }
}

/// The value made from the outcome of decoding Base64 text: the bytes, or
/// the refusal of the text.
pub fn bytes_from_decoded<B: From<Vec<u8>>>(decoded: Option<Vec<u8>>) -> (r: Result<Bytes<B>, InvalidBase64>)
    ensures
        decoded is None <==> r is Err,
        decoded matches Some(v) ==> (r matches Ok(b) && (<B as vstd::std_specs::convert::FromSpec<
            Vec<u8>,
        >>::obeys_from_spec() ==> b.0 == <B as vstd::std_specs::convert::FromSpec<
            Vec<u8>,
        >>::from_spec(v))),
{
    match decoded {
        Some(v) => Ok(Bytes(B::from(v))),
        None => Err(InvalidBase64),
    }
}

/// Reads bytes from Base64 text; whitespace is skipped and padding may be
/// left out.
pub fn bytes_from_base64<B: From<Vec<u8>>>(text: &str) -> (r: Result<Bytes<B>, InvalidBase64>)
    ensures
        base64_forgiving(text.spec_bytes()) is None <==> r is Err,
        r matches Ok(b) ==> (<B as vstd::std_specs::convert::FromSpec<Vec<u8>>>::obeys_from_spec()
            ==> exists|v: Vec<u8>|
            base64_forgiving(text.spec_bytes()) == Some(v@) && b.0
                == <B as vstd::std_specs::convert::FromSpec<Vec<u8>>>::from_spec(v)),
{
    let decoded = base64_forgiving_decode(text.as_bytes());
    bytes_from_decoded(decoded)
}

} // verus!
