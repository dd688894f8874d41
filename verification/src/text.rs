//! Character-level helpers shared by the parsers: character classes, and
//! moving between `str`, `String` and character vectors.

use vstd::prelude::*;
use vstd::utf8::{decode_utf8, valid_utf8};

verus! {

broadcast use vstd::string::axiom_spec_iter;

/// The Unicode `White_Space=True` property (the characters listed for it in
/// the Unicode Character Database's PropList.txt).
pub open spec fn is_white_space(c: char) -> bool {
    let u = c as u32;
    ||| 0x09 <= u <= 0x0D
    ||| u == 0x20
    ||| u == 0x85
    ||| u == 0xA0
    ||| u == 0x1680
    ||| 0x2000 <= u <= 0x200A
    ||| u == 0x2028
    ||| u == 0x2029
    ||| u == 0x202F
    ||| u == 0x205F
    ||| u == 0x3000
}

/// Whether `c` has the Unicode `White_Space` property.
pub fn is_whitespace(c: char) -> (b: bool)
    ensures
        b == is_white_space(c),
{
    let u = c as u32;
    (0x09 <= u && u <= 0x0D) || u == 0x20 || u == 0x85 || u == 0xA0 || u == 0x1680 || (0x2000 <= u
        && u <= 0x200A) || u == 0x2028 || u == 0x2029 || u == 0x202F || u == 0x205F || u == 0x3000
}

/// An ASCII character (code point below 128).
pub open spec fn is_ascii_char(c: char) -> bool {
    (c as u32) < 128
}

/// An ASCII hexadecimal digit, in either case.
pub open spec fn is_hex_digit(c: char) -> bool {
    ||| '0' <= c <= '9'
    ||| 'a' <= c <= 'f'
    ||| 'A' <= c <= 'F'
}

/// The value of an ASCII hexadecimal digit (meaningful only for digits).
pub open spec fn hex_digit_value(c: char) -> u8 {
    if '0' <= c <= '9' {
        (c as u32 - '0' as u32) as u8
    } else if 'a' <= c <= 'f' {
        (c as u32 - 'a' as u32 + 10) as u8
    } else {
        (c as u32 - 'A' as u32 + 10) as u8
    }
}

/// The value of `c` as a hexadecimal digit, if it is one.
pub fn hex_digit(c: char) -> (r: Option<u8>)
    ensures
        r == (if is_hex_digit(c) { Some(hex_digit_value(c)) } else { None::<u8> }),
        r matches Some(v) ==> v < 16,
{
    let u = c as u32;
    if '0' <= c && c <= '9' {
        Some((u - 0x30) as u8)
    } else if 'a' <= c && c <= 'f' {
        Some((u - 0x61 + 10) as u8)
    } else if 'A' <= c && c <= 'F' {
        Some((u - 0x41 + 10) as u8)
    } else {
        None
    }
}

/// The characters of `s`, in order.
pub fn chars_of(s: &str) -> (out: Vec<char>)
    ensures
        out@ == s@,
{
    let mut out: Vec<char> = Vec::new();
    for c in it: s.chars()
        invariant
            it.seq() == s@,
            out@ == it.seq().take(it.index()),
    {
        out.push(c);
    }
    out
}

/// A `String` holding exactly the characters of `chars`.
///
/// Collects the characters through std's `FromIterator<char>` for `String`,
/// which is documented to append each character in turn.
#[verifier::external_body]
pub(crate) fn string_from_chars(chars: &[char]) -> (s: String)
    ensures
        s@ == chars@,
{
    chars.iter().collect()
}


/// The text that `bytes` encode, if they are valid UTF-8.
///
/// Calls std's `str::from_utf8`, which is documented to accept exactly the
/// well-formed UTF-8 byte sequences; the text is then the one they encode.
#[verifier::external_body]
pub(crate) fn utf8_str(bytes: &[u8]) -> (r: Option<&str>)
    ensures
        r is Some <==> valid_utf8(bytes@),
        r matches Some(s) ==> s@ == decode_utf8(bytes@),
{
    std::str::from_utf8(bytes).ok()
}


/// `s` ends with `suffix`.
pub open spec fn has_suffix(s: Seq<char>, suffix: Seq<char>) -> bool {
    suffix.len() <= s.len() && s.skip(s.len() - suffix.len()) == suffix
}

/// Whether `s` ends with `suffix`.
pub fn ends_with(s: &str, suffix: &str) -> (r: bool)
    ensures
        r == has_suffix(s@, suffix@),
{
    let a = chars_of(s);
    let b = chars_of(suffix);
    if b.len() > a.len() {
        return false;
    }
    let alen = a.len();
    let off = alen - b.len();
    let mut i: usize = 0;
    while i < b.len()
        invariant
            alen == a@.len(),
            a@ == s@,
            b@ == suffix@,
            off + b@.len() == a@.len(),
            i <= b@.len(),
            forall|j: int| 0 <= j < i ==> a@[off + j] == b@[j],
        decreases b.len() - i,
    {
        if a[off + i] != b[i] {
            assert(a@.skip(off as int)[i as int] == a@[off + i]);
            return false;
        }
        i = i + 1;
    }
    assert(a@.skip(off as int) =~= b@);
    true
}

/// `s` without `suffix`, if it ends with it.
pub fn strip_suffix(s: &str, suffix: &str) -> (r: Option<String>)
    ensures
        match r {
            Some(t) => has_suffix(s@, suffix@) && t@ == s@.take(s@.len() - suffix@.len()),
            None => !has_suffix(s@, suffix@),
        },
{
    if !ends_with(s, suffix) {
        return None;
    }
    let a = chars_of(s);
    let b = chars_of(suffix);
    let keep = a.len() - b.len();
    let mut out: Vec<char> = Vec::new();
    let mut i: usize = 0;
    while i < keep
        invariant
            keep <= a@.len(),
            i <= keep,
            out@ == a@.take(i as int),
        decreases keep - i,
    {
        out.push(a[i]);
        assert(a@.take(i + 1) =~= a@.take(i as int).push(a@[i as int]));
        i = i + 1;
    }
    Some(string_from_chars(out.as_slice()))
}

/// `a` followed by `b`.
pub fn concat(a: &str, b: &str) -> (r: String)
    ensures
        r@ == a@ + b@,
{
    let mut out = chars_of(a);
    let c = chars_of(b);
    let ghost start = out@;
    let mut i: usize = 0;
    while i < c.len()
        invariant
            i <= c@.len(),
            out@ == start + c@.take(i as int),
        decreases c.len() - i,
    {
        out.push(c[i]);
        assert(c@.take(i + 1) =~= c@.take(i as int).push(c@[i as int]));
        i = i + 1;
    }
    assert(c@.take(c@.len() as int) == c@);
    string_from_chars(out.as_slice())
}


/// Whether two texts are equal.
pub fn str_eq(a: &str, b: &str) -> (r: bool)
    ensures
        r == (a@ == b@),
{
    let x = chars_of(a);
    let y = chars_of(b);
    if x.len() != y.len() {
        return false;
    }
    let mut i: usize = 0;
    while i < x.len()
        invariant
            x@ == a@,
            y@ == b@,
            i <= x@.len() == y@.len(),
            forall|j: int| 0 <= j < i ==> x@[j] == y@[j],
        decreases x.len() - i,
    {
        if x[i] != y[i] {
            return false;
        }
        i = i + 1;
    }
    assert(x@ =~= y@);
    true
}


/// What std's `Utf8Error` says of bytes that are not UTF-8.
pub uninterp spec fn utf8_error_of(bytes: Seq<u8>) -> Seq<char>;

/// The message of the error that `str::from_utf8` reports for bytes that
/// are not UTF-8 (its `Display`); the contract names it.
#[verifier::external_body]
pub(crate) fn utf8_error_message(bytes: &[u8]) -> (r: String)
    requires
        !valid_utf8(bytes@),
    ensures
        r@ == utf8_error_of(bytes@),
{
    match std::str::from_utf8(bytes) {
        Err(e) => e.to_string(),
        Ok(_) => String::new(),
    }
}

} // verus!
