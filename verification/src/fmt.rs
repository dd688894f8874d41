//! Rendering numbers as text: decimal, and uppercase hexadecimal padded to a
//! minimum width.

use vstd::prelude::*;
use crate::text::string_from_chars;

verus! {

/// The character of a digit below 16, uppercase for 10 to 15.
pub open spec fn digit_char(d: nat) -> char {
    if d < 10 {
        ((('0' as u8) as nat + d) as u8) as char
    } else {
        ((('A' as u8) as nat + d - 10) as u8) as char
    }
}

/// The digits of `n` in `base` (10 or 16), most significant first, without
/// leading zeros (`0` is one digit).
pub open spec fn digits(n: nat, base: nat) -> Seq<char>
    decreases n,
{
    if base < 2 || n < base {
        seq![digit_char(n)]
    } else {
        proof {
            vstd::arithmetic::div_mod::lemma_div_decreases(n as int, base as int);
        }
        digits(n / base, base).push(digit_char(n % base))
    }
}

/// `s` with `0`s in front, up to `width` characters.
pub open spec fn zero_padded(s: Seq<char>, width: nat) -> Seq<char> {
    if s.len() >= width {
        s
    } else {
        Seq::new((width - s.len()) as nat, |i: int| '0') + s
    }
}

fn digit(d: u64) -> (c: char)
    requires
        d < 16,
    ensures
        c == digit_char(d as nat),
{
    if d < 10 {
        ((0x30u8 + d as u8) as char)
    } else {
        ((0x41u8 + (d as u8) - 10) as char)
    }
}

fn push_digits(n: u64, base: u64, out: &mut Vec<char>)
    requires
        base == 10 || base == 16,
    ensures
        final(out)@ == old(out)@ + digits(n as nat, base as nat),
    decreases n,
{
    if n >= base {
        push_digits(n / base, base, out);
    }
    out.push(digit(n % base));
    assert(n < base ==> n % base == n);
}

/// `n` in decimal.
pub fn decimal(n: u64) -> (s: String)
    ensures
        s@ == digits(n as nat, 10),
{
    let mut out: Vec<char> = Vec::new();
    push_digits(n, 10, &mut out);
    assert(out@ =~= digits(n as nat, 10));
    string_from_chars(out.as_slice())
}

/// `n` in uppercase hexadecimal, with `0`s in front up to `width` digits.
pub fn upper_hex(n: u64, width: usize) -> (s: String)
    ensures
        s@ == zero_padded(digits(n as nat, 16), width as nat),
{
    let mut d: Vec<char> = Vec::new();
    push_digits(n, 16, &mut d);
    assert(d@ =~= digits(n as nat, 16));
    let mut out: Vec<char> = Vec::new();
    if d.len() < width {
        let pad = width - d.len();
        let mut i: usize = 0;
        while i < pad
            invariant
                i <= pad,
                out@ == Seq::new(i as nat, |j: int| '0'),
            decreases pad - i,
        {
            out.push('0');
            assert(out@ =~= Seq::new((i + 1) as nat, |j: int| '0'));
            i = i + 1;
        }
    }
    let ghost head = out@;
    let mut i: usize = 0;
    while i < d.len()
        invariant
            i <= d@.len(),
            out@ == head + d@.take(i as int),
        decreases d.len() - i,
    {
        out.push(d[i]);
        assert(d@.take(i + 1) =~= d@.take(i as int).push(d@[i as int]));
        i = i + 1;
    }
    assert(d@.take(d@.len() as int) == d@);
    proof {
        if d@.len() >= width {
            assert(head =~= Seq::<char>::empty());
            assert(out@ =~= d@);
        } else {
            assert(out@ =~= zero_padded(d@, width as nat));
        }
    }
    string_from_chars(out.as_slice())
}

/// The text that `{:?}` gives for `s`: quoted, with escapes.
pub uninterp spec fn debug_text_of(s: Seq<char>) -> Seq<char>;

/// `s` as `format!("{:?}")` renders it, through std's `Debug` for `str`.
#[verifier::external_body]
pub(crate) fn debug_text(s: &str) -> (r: String)
    ensures
        r@ == debug_text_of(s@),
{
    format!("{:?}", s)
}

} // verus!
