//! Splitting an input file into its YAML frontmatter and its data region.
//!
//! Everything before the first `\n---\n` is the frontmatter document and
//! everything after it is the data region.

use vstd::prelude::*;
use vstd::string::StringSliceAdditionalSpecFns;
use crate::text::{chars_of, string_from_chars};
use vstd::utf8::{
    encode_utf8, encode_utf8_valid_utf8, is_char_boundary, is_char_boundary_iff_not_is_continuation_byte,
    valid_utf8, valid_utf8_split,
};

verus! {

/// The bytes of the separator line, `\n---\n`.
pub open spec fn separator_bytes() -> Seq<u8> {
    seq![0x0Au8, 0x2Du8, 0x2Du8, 0x2Du8, 0x0Au8]
}

/// The separator occurs in `b` at byte offset `i`.
pub open spec fn separator_at(b: Seq<u8>, i: int) -> bool {
    &&& 0 <= i
    &&& i + 5 <= b.len()
    &&& b.subrange(i, i + 5) == separator_bytes()
}

/// `i` is the first offset at which the separator occurs in `b`.
pub open spec fn first_separator_at(b: Seq<u8>, i: int) -> bool {
    &&& separator_at(b, i)
    &&& forall|j: int| 0 <= j < i ==> !separator_at(b, j)
}

/// The two halves of an input file.
pub struct Split<'a> {
    /// The YAML frontmatter text (before the separator).
    pub frontmatter: &'a str,
    /// The data region (after the separator). Empty or whitespace for `file` inputs.
    pub data: &'a str,
}

/// Why an input file could not be split.
#[derive(Debug, Clone, Copy, PartialEq, Eq)]
pub enum SplitError {
    /// No line consisting of `---` follows the frontmatter.
    MissingSeparator,
}

proof fn lemma_boundary_after_ascii(x: Seq<u8>)
    requires
        valid_utf8(x),
        x.len() >= 1,
        x[0] < 0x80,
    ensures
        is_char_boundary(x, 1),
{
    reveal_with_fuel(is_char_boundary, 2);
}

/// Split an input file's contents on the first `\n---\n` separator.
pub fn split(contents: &str) -> (res: Result<Split<'_>, SplitError>)
    ensures
        res is Err <==> forall|i: int| !separator_at(contents.spec_bytes(), i),
        res matches Ok(sp) ==> exists|i: int|
            {
                &&& first_separator_at(contents.spec_bytes(), i)
                &&& sp.frontmatter.spec_bytes() == contents.spec_bytes().take(i)
                &&& sp.data.spec_bytes() == contents.spec_bytes().skip(i + 5)
            },
{
    let bytes = contents.as_bytes();
    let ghost b = contents.spec_bytes();
    let n = bytes.len();
    let mut i: usize = 0;
    while n >= 5 && i <= n - 5
        invariant
            bytes@ == b,
            b == contents.spec_bytes(),
            n == b.len(),
            forall|j: int| 0 <= j < i ==> !separator_at(b, j),
        decreases n - i,
    {
        if bytes[i] == 0x0A && bytes[i + 1] == 0x2D && bytes[i + 2] == 0x2D && bytes[i + 3] == 0x2D
            && bytes[i + 4] == 0x0A {
            assert(separator_at(b, i as int)) by {
                assert(b.subrange(i as int, i + 5) =~= separator_bytes());
            }
            proof {
                encode_utf8_valid_utf8(contents@);
                assert(b == encode_utf8(contents@));
                assert(valid_utf8(b));
                is_char_boundary_iff_not_is_continuation_byte(b, i as int);
                is_char_boundary_iff_not_is_continuation_byte(b, i + 4);
            }
            let (front, _) = contents.split_at(i);
            let (_, tail) = contents.split_at(i + 4);
            proof {
                let t = b.subrange(i + 4, b.len() as int);
                valid_utf8_split(b, i + 4);
                assert(tail.spec_bytes() == t);
                lemma_boundary_after_ascii(t);
            }
            let (_, data) = tail.split_at(1);
            proof {
                assert(front.spec_bytes() =~= b.take(i as int));
                assert(data.spec_bytes() =~= b.skip(i + 5));
                assert(first_separator_at(b, i as int));
            }
            return Ok(Split { frontmatter: front, data });
        }
        assert(!separator_at(b, i as int)) by {
            if separator_at(b, i as int) {
                assert(b.subrange(i as int, i + 5)[0] == b[i as int]);
                assert(b.subrange(i as int, i + 5)[1] == b[i + 1]);
                assert(b.subrange(i as int, i + 5)[2] == b[i + 2]);
                assert(b.subrange(i as int, i + 5)[3] == b[i + 3]);
                assert(b.subrange(i as int, i + 5)[4] == b[i + 4]);
            }
        }
        i = i + 1;
    }
    Err(SplitError::MissingSeparator)
}


/// `s` without its trailing newlines.
pub open spec fn trim_trailing_newlines(s: Seq<char>) -> Seq<char>
    decreases s.len(),
{
    if s.len() > 0 && s.last() == '\n' {
        trim_trailing_newlines(s.drop_last())
    } else {
        s
    }
}

/// The separator line, as characters.
pub open spec fn separator_chars() -> Seq<char> {
    seq!['\n', '-', '-', '-', '\n']
}

/// The text of an input file: the frontmatter document (without its trailing
/// newlines), the separator, and the data region.
pub fn input_file_text(frontmatter: &str, data: &str) -> (r: String)
    ensures
        r@ == trim_trailing_newlines(frontmatter@) + separator_chars() + data@,
{
    let mut out = chars_of(frontmatter);
    while out.len() > 0 && out[out.len() - 1] == '\n'
        invariant
            trim_trailing_newlines(out@) == trim_trailing_newlines(frontmatter@),
        decreases out.len(),
    {
        out.pop();
    }
    assert(trim_trailing_newlines(out@) == out@);
    out.push('\n');
    out.push('-');
    out.push('-');
    out.push('-');
    out.push('\n');
    let d = chars_of(data);
    let mut i: usize = 0;
    let ghost head = out@;
    assert(head =~= trim_trailing_newlines(frontmatter@) + separator_chars());
    while i < d.len()
        invariant
            i <= d@.len(),
            out@ == head + d@.take(i as int),
        decreases d.len() - i,
    {
        out.push(d[i]);
        assert(d@.take(i + 1) =~= d@.take(i as int).push(d@[i as int]));
        i = i + 1;
    }
    assert(d@.take(d@.len() as int) == d@);
    assert(d@ == data@);
    string_from_chars(out.as_slice())
}

/// UTF-8 encoding distributes over concatenation.
pub proof fn lemma_encode_concat(a: Seq<char>, b: Seq<char>)
    ensures
        encode_utf8(a + b) == encode_utf8(a) + encode_utf8(b),
    decreases a.len(),
{
    if a.len() > 0 {
        assert((a + b).drop_first() =~= a.drop_first() + b);
        lemma_encode_concat(a.drop_first(), b);
    } else {
        assert(a + b =~= b);
    }
}

/// Splitting the text of an input file gives back its frontmatter and data
/// region, provided the frontmatter neither holds a separator line nor ends
/// with `\n---` (which would run into the separator).
pub proof fn lemma_split_input_text(fm: Seq<char>, data: Seq<char>)
    requires
        forall|i: int| !separator_at(encode_utf8(fm), i),
        !(encode_utf8(fm).len() >= 4 && encode_utf8(fm).skip(encode_utf8(fm).len() - 4) == seq![
            0x0Au8,
            0x2Du8,
            0x2Du8,
            0x2Du8,
        ]),
    ensures
        ({
            let b = encode_utf8(fm + separator_chars() + data);
            let n = encode_utf8(fm).len() as int;
            &&& first_separator_at(b, n)
            &&& b.take(n) == encode_utf8(fm)
            &&& b.skip(n + 5) == encode_utf8(data)
        }),
{
    let f = encode_utf8(fm);
    let n = f.len() as int;
    lemma_encode_concat(fm + separator_chars(), data);
    lemma_encode_concat(fm, separator_chars());
    assert(encode_utf8(separator_chars()) =~= separator_bytes()) by {
        let sc = separator_chars();
        assert(vstd::utf8::is_ascii_chars(sc));
        vstd::utf8::is_ascii_chars_encode_utf8(sc);
        assert(sc[0] as u8 == 0x0Au8);
        assert(sc[1] as u8 == 0x2Du8);
    }
    let b = encode_utf8(fm + separator_chars() + data);
    assert(b == f + separator_bytes() + encode_utf8(data));
    assert(b.subrange(n, n + 5) =~= separator_bytes());
    assert(b.take(n) =~= f);
    assert(b.skip(n + 5) =~= encode_utf8(data));
    assert forall|j: int| 0 <= j < n implies !separator_at(b, j) by {
        if separator_at(b, j) {
            if j + 5 <= n {
                assert(f.subrange(j, j + 5) =~= b.subrange(j, j + 5));
                assert(separator_at(f, j));
            } else {
                let w = b.subrange(j, j + 5);
                assert(w[n - j] == b[n]);
                assert(b[n] == 0x0Au8);
                if j == n - 4 {
                    assert(f.skip(n - 4) =~= seq![b[j], b[j + 1], b[j + 2], b[j + 3]]);
                    assert(w[0] == b[j] && w[1] == b[j + 1] && w[2] == b[j + 2] && w[3] == b[j + 3]);
                }
            }
        }
    }
}

} // verus!
