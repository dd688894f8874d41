//! The `hex` input mini-language.
//!
//! * Pairs of hex digits encode one byte each; letters are case-insensitive.
//! * Whitespace (any character with the Unicode `White_Space` property) is
//!   ignored between tokens.
//! * `#` starts a comment that runs to the end of the line.
//! * `"..."` is a run of ASCII characters (anything but `"`) whose bytes are
//!   emitted verbatim.
//!
//! Hex digits pair up across whitespace and comments, so `0a0b`, `0a 0b` and
//! `0a # x\n0b` all give the same two bytes. An odd number of digits is an error.

use vstd::prelude::*;
use crate::text::{chars_of, string_from_chars, hex_digit, hex_digit_value, is_ascii_char, is_hex_digit, is_white_space, is_whitespace};

verus! {

/// Why a `hex` data region was rejected.
#[derive(Debug, Clone, Copy, PartialEq, Eq)]
pub enum HexError {
    /// A `"` appeared while half a byte was pending.
    QuoteMidByte,
    /// A non-ASCII character inside a quoted string.
    NonAsciiInQuote(char),
    /// A quoted string that is never closed.
    UnterminatedQuote,
    /// A character that is none of: digit, whitespace, `#`, `"`.
    UnexpectedChar(char),
    /// The digits did not pair up.
    OddDigitCount,
}

/// Where the scanner is: between tokens, inside a comment, or inside a
/// quoted string.
#[derive(Debug, Clone, Copy, PartialEq, Eq)]
pub enum HexMode {
    Normal,
    Comment,
    Quote,
}

/// The meaning of the characters `s[i..]`, given the scanner's mode, the
/// pending high nibble, and the bytes `acc` produced so far.
pub open spec fn decode_from(
    s: Seq<char>,
    i: int,
    mode: HexMode,
    pending: Option<u8>,
    acc: Seq<u8>,
) -> Result<Seq<u8>, HexError>
    decreases s.len() - i,
{
    if i >= s.len() {
        match mode {
            HexMode::Quote => Err(HexError::UnterminatedQuote),
            _ => if pending is None {
                Ok(acc)
            } else {
                Err(HexError::OddDigitCount)
            },
        }
    } else {
        let c = s[i];
        match mode {
            HexMode::Comment => {
                let next = if c == '\n' { HexMode::Normal } else { HexMode::Comment };
                decode_from(s, i + 1, next, pending, acc)
            },
            HexMode::Quote => {
                if c == '"' {
                    decode_from(s, i + 1, HexMode::Normal, pending, acc)
                } else if !is_ascii_char(c) {
                    Err(HexError::NonAsciiInQuote(c))
                } else {
                    decode_from(s, i + 1, HexMode::Quote, pending, acc.push(c as u8))
                }
            },
            HexMode::Normal => {
                if c == '#' {
                    decode_from(s, i + 1, HexMode::Comment, pending, acc)
                } else if c == '"' {
                    if pending is Some {
                        Err(HexError::QuoteMidByte)
                    } else {
                        decode_from(s, i + 1, HexMode::Quote, pending, acc)
                    }
                } else if is_hex_digit(c) {
                    match pending {
                        None => decode_from(s, i + 1, mode, Some(hex_digit_value(c)), acc),
                        Some(hi) => decode_from(
                            s,
                            i + 1,
                            mode,
                            None,
                            acc.push((hi * 16 + hex_digit_value(c)) as u8),
                        ),
                    }
                } else if is_white_space(c) {
                    decode_from(s, i + 1, mode, pending, acc)
                } else {
                    Err(HexError::UnexpectedChar(c))
                }
            },
        }
    }
}

/// The bytes that a `hex` data region stands for, or why it is rejected.
pub open spec fn hex_decoded(s: Seq<char>) -> Result<Seq<u8>, HexError> {
    decode_from(s, 0, HexMode::Normal, None, seq![])
}

/// Parse a `hex`-format data region into its raw bytes.
pub fn decode(input: &str) -> (res: Result<Vec<u8>, HexError>)
    ensures
        match (res, hex_decoded(input@)) {
            (Ok(v), Ok(b)) => v@ == b,
            (Err(e), Err(f)) => e == f,
            _ => false,
        },
{
    let s = chars_of(input);
    let mut out: Vec<u8> = Vec::new();
    let mut mode = HexMode::Normal;
    let mut pending: Option<u8> = None;
    let mut i: usize = 0;
    while i < s.len()
        invariant
            i <= s@.len(),
            s@ == input@,
            pending matches Some(p) ==> p < 16,
            hex_decoded(s@) == decode_from(s@, i as int, mode, pending, out@),
        decreases s.len() - i,
    {
        let c = s[i];
        match mode {
            HexMode::Comment => {
                if c == '\n' {
                    mode = HexMode::Normal;
                }
            },
            HexMode::Quote => {
                if c == '"' {
                    mode = HexMode::Normal;
                } else if (c as u32) >= 128 {
                    return Err(HexError::NonAsciiInQuote(c));
                } else {
                    out.push(c as u8);
                }
            },
            HexMode::Normal => {
                if c == '#' {
                    mode = HexMode::Comment;
                } else if c == '"' {
                    if pending.is_some() {
                        return Err(HexError::QuoteMidByte);
                    }
                    mode = HexMode::Quote;
                } else {
                    match hex_digit(c) {
                        Some(nibble) => {
                            match pending {
                                None => {
                                    pending = Some(nibble);
                                },
                                Some(hi) => {
                                    out.push(hi * 16 + nibble);
                                    pending = None;
                                },
                            }
                        },
                        None => {
                            if !is_whitespace(c) {
                                return Err(HexError::UnexpectedChar(c));
                            }
                        },
                    }
                }
            },
        }
        i = i + 1;
    }
    match mode {
        HexMode::Quote => Err(HexError::UnterminatedQuote),
        _ => {
            if pending.is_some() {
                Err(HexError::OddDigitCount)
            } else {
                Ok(out)
            }
        },
    }
}


/// The lowercase hexadecimal digit for a nibble below 16.
pub open spec fn lower_hex_char(n: u8) -> char {
    if n < 10 {
        (('0' as u8) + n) as char
    } else {
        (('a' as u8) + n - 10) as char
    }
}

/// One byte as two lowercase hex digits.
pub open spec fn hex_pair(b: u8) -> Seq<char> {
    seq![lower_hex_char(b / 16), lower_hex_char(b % 16)]
}

/// Bytes as space-separated two-digit lowercase hex, without a line end.
pub open spec fn hex_body(b: Seq<u8>) -> Seq<char>
    decreases b.len(),
{
    if b.len() == 0 {
        seq![]
    } else if b.len() == 1 {
        hex_pair(b[0])
    } else {
        hex_body(b.drop_last()) + seq![' '] + hex_pair(b.last())
    }
}

/// Bytes as space-separated two-digit lowercase hex, ending in a newline:
/// the text that [`hex_encode`] writes for a `hex` data region.
pub open spec fn hex_text(b: Seq<u8>) -> Seq<char> {
    hex_body(b).push('\n')
}

fn lower_hex_digit(n: u8) -> (c: char)
    requires
        n < 16,
    ensures
        c == lower_hex_char(n),
{
    if n < 10 {
        (0x30u8 + n) as char
    } else {
        (0x61u8 + n - 10) as char
    }
}

/// Render bytes as space-separated lowercase hex with a trailing newline, a
/// form that [`decode`] reads back.
pub fn hex_encode(bytes: &[u8]) -> (s: String)
    ensures
        s@ == hex_text(bytes@),
{
    let mut out: Vec<char> = Vec::new();
    for i in 0..bytes.len()
        invariant
            out@ == hex_body(bytes@.take(i as int)),
    {
        let b = bytes[i];
        assert(bytes@.take(i + 1).drop_last() == bytes@.take(i as int));
        if i > 0 {
            out.push(' ');
        }
        out.push(lower_hex_digit(b / 16));
        out.push(lower_hex_digit(b % 16));
    }
    assert(bytes@.take(bytes.len() as int) == bytes@);
    out.push('\n');
    string_from_chars(out.as_slice())
}

proof fn lemma_lower_hex_char(n: u8)
    requires
        n < 16,
    ensures
        is_hex_digit(lower_hex_char(n)),
        hex_digit_value(lower_hex_char(n)) == n,
        !is_white_space(lower_hex_char(n)),
        lower_hex_char(n) != '#',
        lower_hex_char(n) != '"',
{
}

proof fn lemma_hex_body_layout(b: Seq<u8>)
    ensures
        hex_body(b).len() == (if b.len() == 0 { 0 } else { 3 * b.len() - 1 }),
        forall|k: int|
            0 <= k < b.len() ==> #[trigger] hex_body(b)[3 * k] == lower_hex_char(b[k] / 16)
                && hex_body(b)[3 * k + 1] == lower_hex_char(b[k] % 16),
        forall|k: int| 0 <= k < b.len() - 1 ==> #[trigger] hex_body(b)[3 * k + 2] == ' ',
    decreases b.len(),
{
    if b.len() > 1 {
        let p = b.drop_last();
        lemma_hex_body_layout(p);
        assert forall|k: int| 0 <= k < b.len() implies #[trigger] hex_body(b)[3 * k]
            == lower_hex_char(b[k] / 16) && hex_body(b)[3 * k + 1] == lower_hex_char(b[k] % 16) by {
            if k < b.len() - 1 {
                assert(hex_body(p)[3 * k] == lower_hex_char(p[k] / 16));
            }
        }
        assert forall|k: int| 0 <= k < b.len() - 1 implies #[trigger] hex_body(b)[3 * k + 2]
            == ' ' by {
            if k < b.len() - 2 {
                assert(hex_body(p)[3 * k + 2] == ' ');
            }
        }
    }
}

proof fn lemma_decode_hex_text_from(b: Seq<u8>, k: int)
    requires
        b.len() > 0,
        0 <= k <= b.len(),
    ensures
        decode_from(hex_text(b), 3 * k, HexMode::Normal, None, b.take(k)) == Ok::<Seq<u8>, HexError>(b),
    decreases b.len() - k,
{
    let s = hex_text(b);
    lemma_hex_body_layout(b);
    if k == b.len() {
        assert(b.take(k) == b);
    } else {
        let x = b[k];
        lemma_lower_hex_char(x / 16);
        lemma_lower_hex_char(x % 16);
        assert(s[3 * k] == lower_hex_char(x / 16));
        assert(s[3 * k + 1] == lower_hex_char(x % 16));
        assert(is_white_space(s[3 * k + 2])) by {
            if k < b.len() - 1 {
                assert(hex_body(b)[3 * k + 2] == ' ');
            }
        }
        assert(((x / 16) * 16 + x % 16) as u8 == x);
        let acc = b.take(k);
        assert(acc.push(x) == b.take(k + 1));
        assert(decode_from(s, 3 * k, HexMode::Normal, None, acc) == decode_from(
            s,
            3 * k + 1,
            HexMode::Normal,
            Some(x / 16),
            acc,
        ));
        assert(decode_from(s, 3 * k + 1, HexMode::Normal, Some(x / 16), acc) == decode_from(
            s,
            3 * k + 2,
            HexMode::Normal,
            None,
            acc.push(x),
        ));
        assert(decode_from(s, 3 * k + 2, HexMode::Normal, None, acc.push(x)) == decode_from(
            s,
            3 * k + 3,
            HexMode::Normal,
            None,
            acc.push(x),
        ));
        lemma_decode_hex_text_from(b, k + 1);
        assert(3 * (k + 1) == 3 * k + 3);
    }
}

/// Rendering bytes with [`hex_encode`] and reading the text back with
/// [`decode`] gives the same bytes.
pub proof fn lemma_hex_round_trip(b: Seq<u8>)
    ensures
        hex_decoded(hex_text(b)) == Ok::<Seq<u8>, HexError>(b),
{
    if b.len() == 0 {
        let s = hex_text(b);
        assert(s == seq!['\n']);
        assert(b == Seq::<u8>::empty());
        assert(is_white_space(s[0]));
        assert(decode_from(s, 0, HexMode::Normal, None, seq![]) == decode_from(
            s,
            1,
            HexMode::Normal,
            None,
            seq![],
        ));
    } else {
        lemma_decode_hex_text_from(b, 0);
        assert(b.take(0) == Seq::<u8>::empty());
    }
}

/// The bytes of an ASCII text, one per character.
pub open spec fn ascii_bytes(t: Seq<char>) -> Seq<u8> {
    t.map_values(|c: char| c as u8)
}

/// Inside a quoted run, every character up to the closing `"` gives its own
/// byte, in order.
proof fn lemma_quote_scan(s: Seq<char>, i: int, j: int, acc: Seq<u8>)
    requires
        0 <= i <= j < s.len(),
        s[j] == '"',
        forall|k: int| i <= k < j ==> (s[k] as u32) < 128 && s[k] != '"',
    ensures
        decode_from(s, i, HexMode::Quote, None, acc) == decode_from(
            s,
            j + 1,
            HexMode::Normal,
            None,
            acc + ascii_bytes(s.subrange(i, j)),
        ),
    decreases j - i,
{
    if i == j {
        assert(acc + ascii_bytes(s.subrange(i, j)) =~= acc);
    } else {
        lemma_quote_scan(s, i + 1, j, acc.push(s[i] as u8));
        assert(acc.push(s[i] as u8) + ascii_bytes(s.subrange(i + 1, j)) =~= acc + ascii_bytes(
            s.subrange(i, j),
        ));
    }
}

/// A quoted run of ASCII characters (none of them `"`) stands for exactly
/// its characters' bytes, whitespace included, in order.
pub proof fn lemma_quoted_run_verbatim(t: Seq<char>)
    requires
        forall|k: int| 0 <= k < t.len() ==> (t[k] as u32) < 128 && t[k] != '"',
    ensures
        hex_decoded(seq!['"'] + t + seq!['"']) == Ok::<Seq<u8>, HexError>(ascii_bytes(t)),
{
    let s = seq!['"'] + t + seq!['"'];
    let n = t.len() as int;
    assert(s[0] == '"');
    assert(s[n + 1] == '"');
    assert forall|k: int| 1 <= k < n + 1 implies (s[k] as u32) < 128 && s[k] != '"' by {
        assert(s[k] == t[k - 1]);
    }
    assert(decode_from(s, 0, HexMode::Normal, None, seq![]) == decode_from(
        s,
        1,
        HexMode::Quote,
        None,
        seq![],
    ));
    lemma_quote_scan(s, 1, n + 1, seq![]);
    assert(s.subrange(1, n + 1) =~= t);
    assert(Seq::<u8>::empty() + ascii_bytes(t) =~= ascii_bytes(t));
}

} // verus!
