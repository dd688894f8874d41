//! Turning an input's data region into raw bytes, according to its `format`,
//! and the inverse: the data region that stands for given bytes.

use vstd::prelude::*;
use vstd::string::StringSliceAdditionalSpecFns;
use vstd::utf8::{decode_utf8, encode_utf8, encode_utf8_decode_utf8, valid_utf8};
use crate::hex::{hex_decoded, hex_encode, hex_text, lemma_hex_round_trip, HexError};
use crate::metadata::{Format, Metadata};
use crate::paths::{
    components, extension_removed, join, parent, parts_of, path_parts, path_text, push_parts,
    render_path, without_extension, Component, PathPart,
};
use crate::text::{chars_of, is_white_space, is_whitespace, string_from_chars, utf8_str};

verus! {

/// `s` without its leading whitespace.
pub open spec fn trim_start(s: Seq<char>) -> Seq<char>
    decreases s.len(),
{
    if s.len() > 0 && is_white_space(s[0]) {
        trim_start(s.drop_first())
    } else {
        s
    }
}

/// `s` without its trailing whitespace.
pub open spec fn trim_end(s: Seq<char>) -> Seq<char>
    decreases s.len(),
{
    if s.len() > 0 && is_white_space(s.last()) {
        trim_end(s.drop_last())
    } else {
        s
    }
}

/// `s` without leading or trailing whitespace.
pub open spec fn trim_white_space(s: Seq<char>) -> Seq<char> {
    trim_end(trim_start(s))
}

/// Every character of `s` is whitespace.
pub open spec fn all_white_space(s: Seq<char>) -> bool {
    forall|i: int| 0 <= i < s.len() ==> is_white_space(#[trigger] s[i])
}

proof fn lemma_trim_start_skip(s: Seq<char>, a: int)
    requires
        0 <= a <= s.len(),
        forall|i: int| 0 <= i < a ==> is_white_space(#[trigger] s[i]),
    ensures
        trim_start(s) == trim_start(s.skip(a)),
    decreases a,
{
    if a > 0 {
        assert(s.drop_first().skip(a - 1) =~= s.skip(a));
        assert forall|i: int| 0 <= i < a - 1 implies is_white_space(#[trigger] s.drop_first()[i]) by {
            assert(s.drop_first()[i] == s[i + 1]);
        }
        lemma_trim_start_skip(s.drop_first(), a - 1);
    } else {
        assert(s.skip(0) == s);
    }
}

proof fn lemma_trim_end_take(s: Seq<char>, b: int)
    requires
        0 <= b <= s.len(),
        forall|i: int| b <= i < s.len() ==> is_white_space(#[trigger] s[i]),
    ensures
        trim_end(s) == trim_end(s.take(b)),
    decreases s.len() - b,
{
    if b < s.len() {
        assert(s.drop_last().take(b) =~= s.take(b));
        lemma_trim_end_take(s.drop_last(), b);
    } else {
        assert(s.take(b) == s);
    }
}

/// Trim leading and trailing whitespace: any character with the Unicode
/// `White_Space` property.
pub fn strip_whitespace(s: &str) -> (r: String)
    ensures
        r@ == trim_white_space(s@),
{
    let c = chars_of(s);
    let n = c.len();
    let mut a: usize = 0;
    while a < n && is_whitespace(c[a])
        invariant
            a <= n == c@.len(),
            forall|i: int| 0 <= i < a ==> is_white_space(#[trigger] c@[i]),
        decreases n - a,
    {
        a = a + 1;
    }
    proof {
        lemma_trim_start_skip(c@, a as int);
    }
    let ghost t = c@.skip(a as int);
    assert(trim_start(t) == t);
    let mut b: usize = n;
    while b > a && is_whitespace(c[b - 1])
        invariant
            a <= b <= n == c@.len(),
            forall|i: int| b <= i < n ==> is_white_space(#[trigger] c@[i]),
        decreases b,
    {
        b = b - 1;
    }
    let ghost kept = c@.subrange(a as int, b as int);
    proof {
        assert forall|i: int| b - a <= i < t.len() implies is_white_space(#[trigger] t[i]) by {
            assert(t[i] == c@[i + a]);
        }
        lemma_trim_end_take(t, b - a);
        assert(t.take(b - a) =~= kept);
        if b > a {
            assert(kept.last() == c@[b - 1]);
        }
    }
    let mut out: Vec<char> = Vec::new();
    let mut i = a;
    while i < b
        invariant
            a <= i <= b <= n == c@.len(),
            out@ == c@.subrange(a as int, i as int),
        decreases b - i,
    {
        out.push(c[i]);
        assert(c@.subrange(a as int, i + 1) =~= c@.subrange(a as int, i as int).push(c@[i as int]));
        i = i + 1;
    }
    string_from_chars(out.as_slice())
}

/// Whether the text is whitespace only (`str::trim` leaves nothing).
pub fn is_blank(s: &str) -> (b: bool)
    ensures
        b == all_white_space(s@),
{
    let c = chars_of(s);
    let mut i: usize = 0;
    while i < c.len()
        invariant
            i <= c@.len(),
            c@ == s@,
            forall|j: int| 0 <= j < i ==> is_white_space(#[trigger] c@[j]),
        decreases c.len() - i,
    {
        if !is_whitespace(c[i]) {
            return false;
        }
        i = i + 1;
    }
    true
}

/// What an input's data region decodes to.
#[derive(Debug)]
pub enum Decoded {
    /// The bytes themselves.
    Bytes(Vec<u8>),
    /// The bytes are the contents of the companion file at this path.
    Companion(String),
}

/// Why an input's data region could not be decoded.
#[derive(Debug, Clone, Copy, PartialEq, Eq)]
pub enum DecodeError {
    /// The `hex` data region is malformed.
    Hex(HexError),
    /// A `file` input has data after its frontmatter.
    InlineFileData,
}

/// Where the companion file of a `file` input lives: `file-source` relative
/// to the input file's directory when given, otherwise the input path without
/// its extension.
pub open spec fn companion_parts(file_source: Option<String>, input_path: Seq<char>) -> Seq<PathPart> {
    let p = path_parts(input_path);
    match file_source {
        Some(rel) => push_parts(parent_parts_or_dot(p), path_parts(rel@)),
        None => extension_removed(p),
    }
}

/// The directory of a path, or `.` when it has none.
pub open spec fn parent_parts_or_dot(p: Seq<PathPart>) -> Seq<PathPart> {
    match crate::paths::parent_parts(p) {
        Some(q) => q,
        None => seq![PathPart::Cur],
    }
}

/// What the data region `data` of an input with metadata `meta`, read from
/// `input_path`, decodes to.
pub open spec fn decoded_spec(
    format: Format,
    file_source: Option<String>,
    data: Seq<char>,
    input_path: Seq<char>,
) -> Result<DecodedValue, DecodeError> {
    match format {
        Format::Utf8 => Ok(DecodedValue::Bytes(encode_utf8(data))),
        Format::Utf8Strip => Ok(DecodedValue::Bytes(encode_utf8(trim_white_space(data)))),
        Format::Hex => match hex_decoded(data) {
            Ok(b) => Ok(DecodedValue::Bytes(b)),
            Err(e) => Err(DecodeError::Hex(e)),
        },
        Format::File => if all_white_space(data) {
            Ok(DecodedValue::Companion(path_text(companion_parts(file_source, input_path))))
        } else {
            Err(DecodeError::InlineFileData)
        },
    }
}

/// [`Decoded`] as a value.
pub enum DecodedValue {
    Bytes(Seq<u8>),
    Companion(Seq<char>),
}

/// [`Decoded`] as a value.
pub open spec fn decoded_view(d: Decoded) -> DecodedValue {
    match d {
        Decoded::Bytes(v) => DecodedValue::Bytes(v@),
        Decoded::Companion(p) => DecodedValue::Companion(p@),
    }
}

/// Decode the data region of an input file.
///
/// * `data` is the text after the `\n---\n` separator (empty or whitespace
///   for the `file` format).
/// * `input_path` is the path of the `.input` file, used to locate the
///   companion file of the `file` format.
pub fn decode(meta: &Metadata, data: &str, input_path: &str) -> (res: Result<Decoded, DecodeError>)
    ensures
        match (res, decoded_spec(meta.format, meta.file_source, data@, input_path@)) {
            (Ok(d), Ok(v)) => decoded_view(d) == v,
            (Err(e), Err(f)) => e == f,
            _ => false,
        },
{
    match meta.format {
        Format::Utf8 => Ok(Decoded::Bytes(vstd::slice::slice_to_vec(data.as_bytes()))),
        Format::Utf8Strip => {
            let stripped = strip_whitespace(data);
            Ok(Decoded::Bytes(vstd::slice::slice_to_vec(stripped.as_str().as_bytes())))
        },
        Format::Hex => match crate::hex::decode(data) {
            Ok(b) => Ok(Decoded::Bytes(b)),
            Err(e) => Err(DecodeError::Hex(e)),
        },
        Format::File => {
            if !is_blank(data) {
                return Err(DecodeError::InlineFileData);
            }
            let p = components(input_path);
            let source: Vec<Component> = match &meta.file_source {
                Some(rel) => {
                    let dir = match parent(&p) {
                        Some(d) => d,
                        None => {
                            let v = vec![Component::CurDir];
                            assert(parts_of(v@) =~= seq![PathPart::Cur]);
                            v
                        },
                    };
                    join(&dir, &components(rel.as_str()))
                },
                None => without_extension(&p),
            };
            Ok(Decoded::Companion(render_path(&source)))
        },
    }
}


/// The data region that stands for an input's bytes.
#[derive(Debug)]
pub enum EncodedData {
    /// The bytes as text, written after the separator.
    Text(String),
    /// The bytes live in a companion file at this path; the data region is empty.
    Companion(String),
}

/// Why bytes could not be written as a data region.
#[derive(Debug, Clone, Copy, PartialEq, Eq)]
pub enum EncodeError {
    /// A text format was asked to hold bytes that are not valid UTF-8.
    NotUtf8,
}

/// Where a re-emitted `file` input keeps its bytes: beside the input file,
/// under its name without the extension.
pub open spec fn emitted_companion(input_path: Seq<char>) -> Seq<char> {
    path_text(extension_removed(path_parts(input_path)))
}

/// Encode an input's bytes as the data region for its `format`. For `utf8`
/// and `utf8-strip` that is the text itself (a `utf8-strip` input already
/// holds stripped bytes), for `hex` space-separated hex digits, and for `file`
/// a companion file beside the input.
pub fn encode_data(format: Format, bytes: &[u8], input_path: &str) -> (res: Result<EncodedData, EncodeError>)
    ensures
        match format {
            Format::Utf8 | Format::Utf8Strip => match res {
                Ok(EncodedData::Text(t)) => valid_utf8(bytes@) && t@ == decode_utf8(bytes@),
                Err(e) => !valid_utf8(bytes@) && e == EncodeError::NotUtf8,
                _ => false,
            },
            Format::Hex => res matches Ok(EncodedData::Text(t)) && t@ == hex_text(bytes@),
            Format::File => res matches Ok(EncodedData::Companion(p)) && p@ == emitted_companion(input_path@),
        },
{
    match format {
        Format::Utf8 | Format::Utf8Strip => match utf8_str(bytes) {
            Some(t) => Ok(EncodedData::Text(t.to_owned())),
            None => Err(EncodeError::NotUtf8),
        },
        Format::Hex => Ok(EncodedData::Text(hex_encode(bytes))),
        Format::File => Ok(EncodedData::Companion(render_path(&without_extension(&components(input_path))))),
    }
}

/// Stripping whitespace twice strips nothing more.
pub proof fn lemma_strip_idempotent(s: Seq<char>)
    ensures
        trim_white_space(trim_white_space(s)) == trim_white_space(s),
        trim_white_space(s).len() > 0 ==> !is_white_space(trim_white_space(s)[0])
            && !is_white_space(trim_white_space(s).last()),
{
    lemma_trim_start_result(s);
    let t = trim_start(s);
    lemma_trim_end_result(t);
    let u = trim_end(t);
    if u.len() > 0 {
        assert(trim_start(u) == u);
    } else {
        assert(trim_start(u) == u);
    }
    lemma_trim_end_result(u);
}

proof fn lemma_trim_start_result(s: Seq<char>)
    ensures
        trim_start(s).len() > 0 ==> !is_white_space(trim_start(s)[0]),
    decreases s.len(),
{
    if s.len() > 0 && is_white_space(s[0]) {
        lemma_trim_start_result(s.drop_first());
    }
}

proof fn lemma_trim_end_result(s: Seq<char>)
    ensures
        trim_end(s).len() > 0 ==> !is_white_space(trim_end(s).last()),
        trim_end(s).len() > 0 ==> trim_end(s)[0] == s[0],
        trim_end(s).len() <= s.len(),
        trim_end(trim_end(s)) == trim_end(s),
    decreases s.len(),
{
    if s.len() > 0 && is_white_space(s.last()) {
        lemma_trim_end_result(s.drop_last());
    }
}

/// Re-emitting an input's bytes as its data region, and decoding that region
/// again, gives the same bytes: for the text formats when the bytes are
/// UTF-8 (and, for `utf8-strip`, already stripped), always for `hex`; a `file`
/// input is read back from the companion file it was written to.
pub proof fn lemma_data_round_trip(format: Format, bytes: Seq<u8>, input_path: Seq<char>)
    requires
        format == Format::Utf8 || format == Format::Utf8Strip ==> valid_utf8(bytes),
        format == Format::Utf8Strip ==> trim_white_space(decode_utf8(bytes)) == decode_utf8(bytes),
    ensures
        format != Format::File ==> decoded_spec(
            format,
            None,
            match format {
                Format::Hex => hex_text(bytes),
                _ => decode_utf8(bytes),
            },
            input_path,
        ) == Ok::<DecodedValue, DecodeError>(DecodedValue::Bytes(bytes)),
        format == Format::File ==> decoded_spec(format, None, seq![], input_path) == Ok::<
            DecodedValue,
            DecodeError,
        >(DecodedValue::Companion(emitted_companion(input_path))),
{
    if format == Format::Hex {
        lemma_hex_round_trip(bytes);
    } else if format != Format::File {
        vstd::utf8::decode_utf8_encode_utf8(bytes);
    }
}

} // verus!
