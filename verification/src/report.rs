//! Deriving the `unicode-meta` counts of UTF-8 text and explaining each
//! count, for checking the counts an input's frontmatter records.

use vstd::prelude::*;
use vstd::string::StringSliceAdditionalSpecFns;
use vstd::utf8::encode_utf8;
use crate::fmt::{decimal, digits, upper_hex, zero_padded};
use crate::metadata::{Metadata, UnicodeMeta};
use crate::text::{chars_of, str_eq, string_from_chars, utf8_error_message, utf8_str, utf8_error_of};
use crate::order::{lemma_lex_lt_asymmetric, lemma_lex_lt_irreflexive, lemma_lex_lt_total, str_lt, text_lt, lemma_encode_injective};
use crate::index::{arranged_by, is_arrangement_of, keeps_ties, lemma_text_le_transitive};
use vstd::utf8::{decode_utf8, valid_utf8};

verus! {

/// `items` joined with `sep` between them.
pub open spec fn join_texts(items: Seq<Seq<char>>, sep: Seq<char>) -> Seq<char>
    decreases items.len(),
{
    if items.len() == 0 {
        seq![]
    } else if items.len() == 1 {
        items[0]
    } else {
        join_texts(items.drop_last(), sep) + sep + items.last()
    }
}

proof fn lemma_views_push(v: Seq<String>, s: String)
    ensures
        v.push(s).map_values(|x: String| x@) == v.map_values(|x: String| x@).push(s@),
{
    assert(v.push(s).map_values(|x: String| x@) =~= v.map_values(|x: String| x@).push(s@));
}

/// Appends `t` to `out`.
fn append(out: &mut Vec<char>, t: &str)
    ensures
        final(out)@ == old(out)@ + t@,
{
    let c = chars_of(t);
    let ghost start = out@;
    let mut i: usize = 0;
    while i < c.len()
        invariant
            i <= c@.len(),
            out@ == start + c@.take(i as int),
        decreases c.len() - i,
    {
        out.push(c[i]);
        assert(c@.take(i + 1) =~= c@.take(i as int).push(c@[i as int]));
        i = i + 1;
    }
    assert(c@.take(c@.len() as int) == c@);
    assert(c@ == t@);
}

/// Join texts with a separator.
pub(crate) fn join(items: &Vec<String>, sep: &str) -> (r: String)
    ensures
        r@ == join_texts(items@.map_values(|s: String| s@), sep@),
{
    let ghost iv = items@.map_values(|s: String| s@);
    let mut out: Vec<char> = Vec::new();
    let mut i: usize = 0;
    while i < items.len()
        invariant
            i <= items@.len(),
            iv == items@.map_values(|s: String| s@),
            out@ == join_texts(iv.take(i as int), sep@),
        decreases items.len() - i,
    {
        assert(iv.take(i + 1).drop_last() =~= iv.take(i as int));
        assert(iv.take(i + 1).last() == items@[i as int]@);
        if i > 0 {
            append(&mut out, sep);
        } else {
            assert(iv.take(1) =~= seq![iv[0]]);
        }
        append(&mut out, items[i].as_str());
        i = i + 1;
    }
    assert(iv.take(items@.len() as int) == iv);
    string_from_chars(out.as_slice())
}

/// One byte as `0xNN`.
pub open spec fn byte_item(b: u8) -> Seq<char> {
    "0x"@ + zero_padded(digits(b as nat, 16), 2)
}

/// Bytes as a hex array, e.g. `[0xEF, 0xBF, 0xBF]`.
pub open spec fn byte_array_text(b: Seq<u8>) -> Seq<char> {
    "["@ + join_texts(b.map_values(|x: u8| byte_item(x)), ", "@) + "]"@
}

/// Render bytes as a hex array, e.g. `[0xEF, 0xBF, 0xBF]`.
pub fn byte_array(bytes: &[u8]) -> (s: String)
    ensures
        s@ == byte_array_text(bytes@),
{
    let mut items: Vec<String> = Vec::new();
    for i in 0..bytes.len()
        invariant
            items@.map_values(|s: String| s@) == bytes@.take(i as int).map_values(|x: u8| byte_item(x)),
    {
        let mut t: Vec<char> = Vec::new();
        append(&mut t, "0x");
        append(&mut t, upper_hex(bytes[i] as u64, 2).as_str());
        let item = string_from_chars(t.as_slice());
        assert(item@ =~= byte_item(bytes@[i as int]));
        let ghost prev = items@;
        items.push(item);
        proof {
            lemma_views_push(prev, item);
            assert(bytes@.take(i + 1).map_values(|x: u8| byte_item(x)) =~= bytes@.take(i as int).map_values(
                |x: u8| byte_item(x),
            ).push(byte_item(bytes@[i as int])));
        }
    }
    assert(bytes@.take(bytes@.len() as int) == bytes@);
    let body = join(&items, ", ");
    let mut out: Vec<char> = Vec::new();
    append(&mut out, "[");
    append(&mut out, body.as_str());
    append(&mut out, "]");
    string_from_chars(out.as_slice())
}

/// A code point as `U+XXXX` (at least four uppercase hex digits).
pub open spec fn code_point_name(c: char) -> Seq<char> {
    "U+"@ + zero_padded(digits(c as u32 as nat, 16), 4)
}

fn code_point_name_of(c: char) -> (s: String)
    ensures
        s@ == code_point_name(c),
{
    let mut t: Vec<char> = Vec::new();
    append(&mut t, "U+");
    append(&mut t, upper_hex(c as u32 as u64, 4).as_str());
    string_from_chars(t.as_slice())
}

/// One code point with its own UTF-8 encoding, e.g. `U+00E9 [0xC3, 0xA9]`.
pub open spec fn code_point_token_text(c: char) -> Seq<char> {
    code_point_name(c) + " "@ + byte_array_text(encode_utf8(seq![c]))
}

/// One code point as `U+XXXX [0xNN, ...]`, pairing its scalar value with its
/// UTF-8 encoding.
pub fn code_point_token(c: char) -> (s: String)
    ensures
        s@ == code_point_token_text(c),
{
    let one = string_from_chars(&[c]);
    let ghost cs = seq![c];
    assert(one@ =~= cs);
    let bytes = one.as_str().as_bytes();
    let mut t: Vec<char> = Vec::new();
    append(&mut t, code_point_name_of(c).as_str());
    append(&mut t, " ");
    append(&mut t, byte_array(bytes).as_str());
    string_from_chars(t.as_slice())
}

/// The code points of a text as tokens, in order, joined with `, `.
pub open spec fn code_point_list_text(text: Seq<char>) -> Seq<char> {
    join_texts(text.map_values(|c: char| code_point_token_text(c)), ", "@)
}

/// Render the text's code points as `U+XXXX [bytes]` tokens, in order.
pub fn code_point_list(text: &str) -> (s: String)
    ensures
        s@ == code_point_list_text(text@),
{
    let c = chars_of(text);
    let mut items: Vec<String> = Vec::new();
    for i in 0..c.len()
        invariant
            c@ == text@,
            items@.map_values(|s: String| s@) == c@.take(i as int).map_values(|x: char| code_point_token_text(x)),
    {
        let item = code_point_token(c[i]);
        let ghost prev = items@;
        items.push(item);
        proof {
            lemma_views_push(prev, item);
            assert(c@.take(i + 1).map_values(|x: char| code_point_token_text(x)) =~= c@.take(
                i as int,
            ).map_values(|x: char| code_point_token_text(x)).push(code_point_token_text(c@[i as int])));
        }
    }
    assert(c@.take(c@.len() as int) == c@);
    join(&items, ", ")
}

/// The grapheme clusters of `text` under UAX #29, extended (`true`) or legacy
/// (`false`) boundaries.
pub uninterp spec fn grapheme_clusters_of(text: Seq<char>, extended: bool) -> Seq<Seq<char>>;

/// The grapheme clusters of a text, in order, from
/// `UnicodeSegmentation::graphemes`; the contract names the segmentation.
#[verifier::external_body]
fn graphemes(text: &str, extended: bool) -> (r: Vec<String>)
    ensures
        r@.map_values(|s: String| s@) == grapheme_clusters_of(text@, extended),
{
    unicode_segmentation::UnicodeSegmentation::graphemes(text, extended).map(|g| g.to_string()).collect()
}

/// One cluster as its code points in brackets, e.g. `[U+0069 U+0307]`.
pub open spec fn cluster_text(g: Seq<char>) -> Seq<char> {
    "["@ + join_texts(g.map_values(|c: char| code_point_name(c)), " "@) + "]"@
}

/// A text's grapheme clusters, each in brackets, separated by spaces.
pub open spec fn cluster_list_text(text: Seq<char>, extended: bool) -> Seq<char> {
    join_texts(grapheme_clusters_of(text, extended).map_values(|g: Seq<char>| cluster_text(g)), " "@)
}

fn cluster_token(g: &str) -> (s: String)
    ensures
        s@ == cluster_text(g@),
{
    let c = chars_of(g);
    let mut names: Vec<String> = Vec::new();
    for i in 0..c.len()
        invariant
            c@ == g@,
            names@.map_values(|s: String| s@) == c@.take(i as int).map_values(|x: char| code_point_name(x)),
    {
        let item = code_point_name_of(c[i]);
        let ghost prev = names@;
        names.push(item);
        proof {
            lemma_views_push(prev, item);
            assert(c@.take(i + 1).map_values(|x: char| code_point_name(x)) =~= c@.take(i as int).map_values(
                |x: char| code_point_name(x),
            ).push(code_point_name(c@[i as int])));
        }
    }
    assert(c@.take(c@.len() as int) == c@);
    let body = join(&names, " ");
    let mut out: Vec<char> = Vec::new();
    append(&mut out, "[");
    append(&mut out, body.as_str());
    append(&mut out, "]");
    string_from_chars(out.as_slice())
}

/// Render the grapheme segmentation as bracketed clusters of `U+XXXX` code
/// points, so the cluster boundaries are explicit.
pub fn cluster_list(text: &str, extended: bool) -> (s: String)
    ensures
        s@ == cluster_list_text(text@, extended),
{
    let gs = graphemes(text, extended);
    let ghost gv = gs@.map_values(|s: String| s@);
    let mut items: Vec<String> = Vec::new();
    for i in 0..gs.len()
        invariant
            gv == gs@.map_values(|s: String| s@),
            items@.map_values(|s: String| s@) == gv.take(i as int).map_values(|g: Seq<char>| cluster_text(g)),
    {
        let item = cluster_token(gs[i].as_str());
        let ghost prev = items@;
        items.push(item);
        proof {
            lemma_views_push(prev, item);
            assert(gv[i as int] == gs@[i as int]@);
            assert(gv.take(i + 1).map_values(|g: Seq<char>| cluster_text(g)) =~= gv.take(i as int).map_values(
                |g: Seq<char>| cluster_text(g),
            ).push(cluster_text(gv[i as int])));
        }
    }
    assert(gv.take(gv.len() as int) == gv);
    join(&items, " ")
}


/// One field of `unicode-meta`: the value derived from the text, the value
/// the frontmatter records (`None` when the whole block is absent), and a
/// self-contained justification of the derived value.
#[derive(Debug)]
pub struct FieldCheck {
    /// The frontmatter key, e.g. `code-points`.
    pub name: &'static str,
    pub expected: u64,
    pub actual: Option<u64>,
    pub description: String,
}

impl FieldCheck {
    /// The recorded value is the derived one.
    pub fn matches(&self) -> (r: bool)
        ensures
            r == (self.actual == Some(self.expected)),
    {
        match self.actual {
            Some(a) => a == self.expected,
            None => false,
        }
    }
}

/// The justification of the code-unit count.
pub open spec fn code_units_text(text: Seq<char>) -> Seq<char> {
    "UTF-8 code units are bytes; the decoded data is "@ + digits(encode_utf8(text).len(), 10)
        + " byte(s): "@ + byte_array_text(encode_utf8(text)) + "."@
}

/// The justification of the code-point count.
pub open spec fn code_points_text(text: Seq<char>) -> Seq<char> {
    digits(text.len(), 10) + " Unicode code point(s): "@ + code_point_list_text(text) + "."@
}

/// The justification of the scalar-value count.
pub open spec fn scalar_values_text(text: Seq<char>) -> Seq<char> {
    "Well-formed UTF-8 encodes only scalar values (no surrogates), so scalar values equal code points: "@
        + digits(text.len(), 10) + ". Code points: "@ + code_point_list_text(text) + "."@
}

/// The justification of a grapheme-cluster count.
pub open spec fn clusters_text(text: Seq<char>, extended: bool) -> Seq<char> {
    digits(grapheme_clusters_of(text, extended).len(), 10) + (if extended {
        " extended grapheme cluster(s) (UAX #29 extended boundaries): "@
    } else {
        " legacy grapheme cluster(s) (UAX #29 legacy boundaries): "@
    }) + cluster_list_text(text, extended) + "."@
}

/// The frontmatter key of check `i`.
pub open spec fn field_name_of(i: int) -> Seq<char> {
    if i == 0 {
        "code-units"@
    } else if i == 1 {
        "code-points"@
    } else if i == 2 {
        "scalar-values"@
    } else if i == 3 {
        "legacy-grapheme-clusters"@
    } else {
        "extended-grapheme-clusters"@
    }
}

/// The value of check `i` derived from `text`.
pub open spec fn expected_of(i: int, text: Seq<char>) -> nat {
    if i == 0 {
        encode_utf8(text).len()
    } else if i == 1 || i == 2 {
        text.len()
    } else if i == 3 {
        grapheme_clusters_of(text, false).len()
    } else {
        grapheme_clusters_of(text, true).len()
    }
}

/// The value of check `i` that the frontmatter records.
pub open spec fn actual_of(i: int, meta: Metadata) -> Option<u64> {
    match meta.unicode_meta {
        None => None,
        Some(u) => Some(
            if i == 0 {
                u.code_units
            } else if i == 1 {
                u.code_points
            } else if i == 2 {
                u.scalar_values
            } else if i == 3 {
                u.legacy_grapheme_clusters
            } else {
                u.extended_grapheme_clusters
            },
        ),
    }
}

/// The justification of check `i`.
pub open spec fn description_of(i: int, text: Seq<char>) -> Seq<char> {
    if i == 0 {
        code_units_text(text)
    } else if i == 1 {
        code_points_text(text)
    } else if i == 2 {
        scalar_values_text(text)
    } else if i == 3 {
        clusters_text(text, false)
    } else {
        clusters_text(text, true)
    }
}

/// Check `i` of the five, for `text` against the frontmatter `meta`.
pub open spec fn check_spec(c: FieldCheck, i: int, text: Seq<char>, meta: Metadata) -> bool {
    &&& c.name@ == field_name_of(i)
    &&& c.expected == expected_of(i, text)
    &&& c.actual == actual_of(i, meta)
    &&& c.description@ == description_of(i, text)
}

fn text_of(parts: &Vec<char>) -> (s: String)
    ensures
        s@ == parts@,
{
    string_from_chars(parts.as_slice())
}

/// Build the five field checks for one UTF-8 input from its decoded text. A
/// `&str` holds only scalar values, so the scalar-value count is the
/// code-point count.
pub fn field_checks(text: &str, meta: &Metadata) -> (v: Vec<FieldCheck>)
    ensures
        v@.len() == 5,
        forall|i: int| 0 <= i < 5 ==> check_spec(#[trigger] v@[i], i, text@, *meta),
{
    let um = meta.unicode_meta;
    let text_bytes = text.as_bytes();
    let code_units = text_bytes.len() as u64;
    let code_points = chars_of(text).len() as u64;
    let scalar_values = code_points;
    let legacy = graphemes(text, false).len() as u64;
    let extended = graphemes(text, true).len() as u64;
    let points = code_point_list(text);

    let mut d: Vec<char> = Vec::new();
    append(&mut d, "UTF-8 code units are bytes; the decoded data is ");
    append(&mut d, decimal(code_units).as_str());
    append(&mut d, " byte(s): ");
    append(&mut d, byte_array(text_bytes).as_str());
    append(&mut d, ".");
    let units_desc = text_of(&d);
    assert(units_desc@ =~= code_units_text(text@));

    let mut d: Vec<char> = Vec::new();
    append(&mut d, decimal(code_points).as_str());
    append(&mut d, " Unicode code point(s): ");
    append(&mut d, points.as_str());
    append(&mut d, ".");
    let points_desc = text_of(&d);
    assert(points_desc@ =~= code_points_text(text@));

    let mut d: Vec<char> = Vec::new();
    append(
        &mut d,
        "Well-formed UTF-8 encodes only scalar values (no surrogates), so scalar values equal code points: ",
    );
    append(&mut d, decimal(scalar_values).as_str());
    append(&mut d, ". Code points: ");
    append(&mut d, points.as_str());
    append(&mut d, ".");
    let scalars_desc = text_of(&d);
    assert(scalars_desc@ =~= scalar_values_text(text@));

    let mut d: Vec<char> = Vec::new();
    append(&mut d, decimal(legacy).as_str());
    append(&mut d, " legacy grapheme cluster(s) (UAX #29 legacy boundaries): ");
    append(&mut d, cluster_list(text, false).as_str());
    append(&mut d, ".");
    let legacy_desc = text_of(&d);
    assert(legacy_desc@ =~= clusters_text(text@, false));

    let mut d: Vec<char> = Vec::new();
    append(&mut d, decimal(extended).as_str());
    append(&mut d, " extended grapheme cluster(s) (UAX #29 extended boundaries): ");
    append(&mut d, cluster_list(text, true).as_str());
    append(&mut d, ".");
    let extended_desc = text_of(&d);
    assert(extended_desc@ =~= clusters_text(text@, true));

    let v = vec![
        FieldCheck {
            name: "code-units",
            expected: code_units,
            actual: match um {
                Some(u) => Some(u.code_units),
                None => None,
            },
            description: units_desc,
        },
        FieldCheck {
            name: "code-points",
            expected: code_points,
            actual: match um {
                Some(u) => Some(u.code_points),
                None => None,
            },
            description: points_desc,
        },
        FieldCheck {
            name: "scalar-values",
            expected: scalar_values,
            actual: match um {
                Some(u) => Some(u.scalar_values),
                None => None,
            },
            description: scalars_desc,
        },
        FieldCheck {
            name: "legacy-grapheme-clusters",
            expected: legacy,
            actual: match um {
                Some(u) => Some(u.legacy_grapheme_clusters),
                None => None,
            },
            description: legacy_desc,
        },
        FieldCheck {
            name: "extended-grapheme-clusters",
            expected: extended,
            actual: match um {
                Some(u) => Some(u.extended_grapheme_clusters),
                None => None,
            },
            description: extended_desc,
        },
    ];
    proof {
        reveal_strlit("code-units");
        reveal_strlit("code-points");
        reveal_strlit("scalar-values");
        reveal_strlit("legacy-grapheme-clusters");
        reveal_strlit("extended-grapheme-clusters");
        assert(check_spec(v@[0], 0, text@, *meta));
        assert(check_spec(v@[1], 1, text@, *meta));
        assert(check_spec(v@[2], 2, text@, *meta));
        assert(check_spec(v@[3], 3, text@, *meta));
        assert(check_spec(v@[4], 4, text@, *meta));
    }
    v
}


/// The `decode-as` value whose `unicode-meta` can be derived.
pub const DECODE_AS_UTF8: &'static str = "utf8";

/// Shown for a value the frontmatter does not record.
pub const MISSING: &'static str = "<MISSING>";

/// A single field disagreement, carried to the end-of-run report.
#[derive(Debug)]
pub struct Mismatch {
    pub path: String,
    pub field: &'static str,
    pub expected: u64,
    /// The recorded value rendered (a number, or `<MISSING>`).
    pub actual: String,
    pub description: String,
}

/// A mismatch as values: path, field, expected, actual, description.
pub open spec fn mismatch_view(m: Mismatch) -> (Seq<char>, Seq<char>, nat, Seq<char>, Seq<char>) {
    (m.path@, m.field@, m.expected as nat, m.actual@, m.description@)
}

/// How a recorded value is shown.
pub open spec fn actual_text(a: Option<u64>) -> Seq<char> {
    match a {
        Some(v) => digits(v as nat, 10),
        None => MISSING@,
    }
}

/// The mismatches among the first `n` checks of `text` against `meta`.
pub open spec fn mismatches_upto(path: Seq<char>, text: Seq<char>, meta: Metadata, n: int) -> Seq<
    (Seq<char>, Seq<char>, nat, Seq<char>, Seq<char>),
>
    decreases n,
{
    if n <= 0 {
        seq![]
    } else {
        let before = mismatches_upto(path, text, meta, n - 1);
        let i = n - 1;
        if actual_of(i, meta) == Some(expected_of(i, text) as u64) && expected_of(i, text) <= u64::MAX {
            before
        } else {
            before.push(
                (
                    path,
                    field_name_of(i),
                    expected_of(i, text),
                    actual_text(actual_of(i, meta)),
                    description_of(i, text),
                ),
            )
        }
    }
}

/// The verdict on one input: whether every recorded count is right, and
/// each disagreement.
#[derive(Debug)]
pub struct InputReport {
    pub ok: bool,
    pub mismatches: Vec<Mismatch>,
}

/// The description given when `decode-as: utf8` bytes are not UTF-8.
pub open spec fn invalid_utf8_text(bytes: Seq<u8>) -> Seq<char> {
    "decode-as is utf8 but the decoded bytes are not valid UTF-8: "@ + utf8_error_of(bytes) + ". Bytes: "@
        + byte_array_text(bytes) + "."@
}

/// Check one input read from `path`: nothing for inputs not decoded as
/// `utf8`; a `decode-as` mismatch when the bytes are not UTF-8; otherwise
/// each of the five counts derived from the text against the recorded one.
pub fn check_input(path: &str, meta: &Metadata, bytes: &[u8]) -> (r: Option<InputReport>)
    ensures
        match meta.decode_as {
            Some(d) if d@ == DECODE_AS_UTF8@ => r matches Some(rep) && if valid_utf8(bytes@) {
                let text = decode_utf8(bytes@);
                &&& rep.ok == (mismatches_upto(path@, text, *meta, 5).len() == 0)
                &&& rep.mismatches@.map_values(|m: Mismatch| mismatch_view(m)) == mismatches_upto(
                    path@,
                    text,
                    *meta,
                    5,
                )
            } else {
                &&& !rep.ok
                &&& rep.mismatches@.map_values(|m: Mismatch| mismatch_view(m)) == seq![
                    (path@, "decode-as"@, 0nat, "(invalid)"@, invalid_utf8_text(bytes@)),
                ]
            },
            _ => r is None,
        },
{
    let is_utf8 = match &meta.decode_as {
        Some(d) => str_eq(d.as_str(), DECODE_AS_UTF8),
        None => false,
    };
    if !is_utf8 {
        return None;
    }
    match utf8_str(bytes) {
        None => {
            let mut d: Vec<char> = Vec::new();
            append(&mut d, "decode-as is utf8 but the decoded bytes are not valid UTF-8: ");
            append(&mut d, utf8_error_message(bytes).as_str());
            append(&mut d, ". Bytes: ");
            append(&mut d, byte_array(bytes).as_str());
            append(&mut d, ".");
            let description = text_of(&d);
            assert(description@ =~= invalid_utf8_text(bytes@));
            let m = Mismatch {
                path: path.to_owned(),
                field: "decode-as",
                expected: 0,
                actual: "(invalid)".to_owned(),
                description,
            };
            let v = vec![m];
            assert(v@.map_values(|m: Mismatch| mismatch_view(m)) =~= seq![mismatch_view(m)]);
            Some(InputReport { ok: false, mismatches: v })
        },
        Some(text) => {
            let checks = field_checks(text, meta);
            let mut ok = true;
            let mut mismatches: Vec<Mismatch> = Vec::new();
            let mut i: usize = 0;
            assert(mismatches@.map_values(|m: Mismatch| mismatch_view(m)) =~= mismatches_upto(
                path@,
                text@,
                *meta,
                0,
            ));
            while i < 5
                invariant
                    i <= 5,
                    checks@.len() == 5,
                    forall|j: int| 0 <= j < 5 ==> check_spec(#[trigger] checks@[j], j, text@, *meta),
                    mismatches@.map_values(|m: Mismatch| mismatch_view(m)) == mismatches_upto(
                        path@,
                        text@,
                        *meta,
                        i as int,
                    ),
                    ok == (mismatches_upto(path@, text@, *meta, i as int).len() == 0),
                decreases 5 - i,
            {
                let c = &checks[i];
                assert(check_spec(checks@[i as int], i as int, text@, *meta));
                if !c.matches() {
                    let actual = match c.actual {
                        Some(v) => decimal(v),
                        None => MISSING.to_owned(),
                    };
                    let m = Mismatch {
                        path: path.to_owned(),
                        field: c.name,
                        expected: c.expected,
                        actual,
                        description: c.description.clone(),
                    };
                    let ghost prev = mismatches@;
                    mismatches.push(m);
                    ok = false;
                    assert(mismatches@.map_values(|m: Mismatch| mismatch_view(m)) =~= prev.map_values(
                        |m: Mismatch| mismatch_view(m),
                    ).push(mismatch_view(m)));
                }
                i = i + 1;
            }
            Some(InputReport { ok, mismatches })
        },
    }
}

/// One mismatch as a report line.
pub open spec fn mismatch_line_text(m: (Seq<char>, Seq<char>, nat, Seq<char>, Seq<char>)) -> Seq<char> {
    m.0 + ": Mismatch: "@ + m.1 + " Expected: "@ + digits(m.2, 10) + " Actual: "@ + m.3 + ". "@ + m.4
}

/// One mismatch as a report line:
/// `{path}: Mismatch: {field} Expected: {expected} Actual: {actual}. {description}`.
pub fn mismatch_line(m: &Mismatch) -> (s: String)
    ensures
        s@ == mismatch_line_text(mismatch_view(*m)),
{
    let mut d: Vec<char> = Vec::new();
    append(&mut d, m.path.as_str());
    append(&mut d, ": Mismatch: ");
    append(&mut d, m.field);
    append(&mut d, " Expected: ");
    append(&mut d, decimal(m.expected).as_str());
    append(&mut d, " Actual: ");
    append(&mut d, m.actual.as_str());
    append(&mut d, ". ");
    append(&mut d, m.description.as_str());
    let s = text_of(&d);
    assert(s@ =~= mismatch_line_text(mismatch_view(*m)));
    s
}


/// `a` comes before `b`: by path, then by field.
pub open spec fn mismatch_lt(a: Mismatch, b: Mismatch) -> bool {
    text_lt(a.path@, b.path@) || (a.path@ == b.path@ && text_lt(a.field@, b.field@))
}

/// Two mismatches of the same path and field.
pub open spec fn same_place(a: Mismatch, b: Mismatch) -> bool {
    a.path@ == b.path@ && a.field@ == b.field@
}

/// Mismatches ordered by path, then by field.
pub open spec fn mismatches_sorted(s: Seq<Mismatch>) -> bool {
    forall|a: int, b: int| 0 <= a < b < s.len() ==> !mismatch_lt(s[b], s[a])
}

proof fn lemma_text_eq_of_le_both(x: Seq<char>, y: Seq<char>)
    requires
        !text_lt(x, y),
        !text_lt(y, x),
    ensures
        x == y,
{
    lemma_encode_injective(x, y);
    if encode_utf8(x) != encode_utf8(y) {
        lemma_lex_lt_total(encode_utf8(x), encode_utf8(y));
    }
}

proof fn lemma_mismatch_le_transitive(a: Mismatch, b: Mismatch, c: Mismatch)
    requires
        !mismatch_lt(b, a),
        !mismatch_lt(c, b),
    ensures
        !mismatch_lt(c, a),
{
    lemma_text_le_transitive(a.path@, b.path@, c.path@);
    if mismatch_lt(c, a) && c.path@ == a.path@ {
        lemma_text_eq_of_le_both(a.path@, b.path@);
        lemma_text_le_transitive(a.field@, b.field@, c.field@);
    }
}

proof fn lemma_mismatch_lt_asymmetric(a: Mismatch, b: Mismatch)
    ensures
        !(mismatch_lt(a, b) && mismatch_lt(b, a)),
{
    lemma_lex_lt_asymmetric(encode_utf8(a.path@), encode_utf8(b.path@));
    lemma_lex_lt_asymmetric(encode_utf8(a.field@), encode_utf8(b.field@));
    lemma_lex_lt_irreflexive(encode_utf8(a.path@));
}

fn mismatch_less(a: &Mismatch, b: &Mismatch) -> (r: bool)
    ensures
        r == mismatch_lt(*a, *b),
{
    if str_lt(a.path.as_str(), b.path.as_str()) {
        true
    } else {
        str_eq(a.path.as_str(), b.path.as_str()) && str_lt(a.field, b.field)
    }
}

/// Order mismatches by path, then by field, keeping ties in their order.
pub fn sort_mismatches(items: Vec<Mismatch>) -> (sorted: Vec<Mismatch>)
    ensures
        mismatches_sorted(sorted@),
        is_arrangement_of(sorted@, items@),
        exists|perm: Seq<int>|
            arranged_by(sorted@, items@, perm) && keeps_ties(
                sorted@,
                perm,
                |x: Mismatch, y: Mismatch| same_place(x, y),
            ),
{
    let ghost same = |x: Mismatch, y: Mismatch| same_place(x, y);
    let ghost orig = items@;
    let mut sorted: Vec<Mismatch> = Vec::new();
    let ghost mut perm: Seq<int> = seq![];
    for item in it: items
        invariant
            it.seq() == orig,
            sorted@.len() == it.index(),
            arranged_by(sorted@, orig.take(it.index()), perm),
            keeps_ties(sorted@, perm, same),
            same == (|x: Mismatch, y: Mismatch| same_place(x, y)),
            mismatches_sorted(sorted@),
    {
        let ghost i = it.index();
        assert(item == orig[i]);
        let mut p = sorted.len();
        while p > 0 && mismatch_less(&item, &sorted[p - 1])
            invariant
                p <= sorted@.len(),
                forall|b: int| p <= b < sorted@.len() ==> mismatch_lt(item, #[trigger] sorted@[b]),
            decreases p,
        {
            p = p - 1;
        }
        proof {
            assert forall|b: int| p <= b < sorted@.len() implies !mismatch_lt(#[trigger] sorted@[b], item) by {
                lemma_mismatch_lt_asymmetric(item, sorted@[b]);
            }
            assert forall|a: int| 0 <= a < p implies !mismatch_lt(item, #[trigger] sorted@[a]) by {
                if a < p - 1 {
                    lemma_mismatch_le_transitive(sorted@[a], sorted@[p - 1], item);
                }
            }
        }
        let ghost old_sorted = sorted@;
        let ghost old_perm = perm;
        sorted.insert(p, item);
        proof {
            perm = old_perm.insert(p as int, i);
            let t = orig.take(i + 1);
            assert forall|q: int| 0 <= q < sorted@.len() implies 0 <= #[trigger] perm[q] < t.len()
                && sorted@[q] == t[perm[q]] by {
                if q < p {
                    assert(perm[q] == old_perm[q]);
                } else if q > p {
                    assert(perm[q] == old_perm[q - 1]);
                }
            }
            assert forall|a: int, b: int| 0 <= a < b < sorted@.len() implies perm[a] != perm[b] by {
                if a < p && b < p {
                } else if a < p && b == p {
                    assert(old_perm[a] < i);
                } else if a < p {
                    assert(perm[b] == old_perm[b - 1]);
                } else if a == p {
                    assert(perm[b] == old_perm[b - 1]);
                    assert(old_perm[b - 1] < i);
                } else {
                    assert(perm[a] == old_perm[a - 1]);
                    assert(perm[b] == old_perm[b - 1]);
                }
            }
            assert(arranged_by(sorted@, t, perm));
            assert forall|a: int, b: int| 0 <= a < b < sorted@.len() && same(sorted@[a], sorted@[b]) implies #[trigger] perm[a]
                < #[trigger] perm[b] by {
                if a < p && b < p {
                    assert(sorted@[a] == old_sorted[a] && sorted@[b] == old_sorted[b]);
                    assert(old_perm[a] < old_perm[b]);
                } else if a < p && b == p {
                    assert(old_perm[a] < i);
                } else if a < p {
                    assert(sorted@[a] == old_sorted[a] && sorted@[b] == old_sorted[b - 1]);
                    assert(perm[b] == old_perm[b - 1]);
                    assert(old_perm[a] < old_perm[b - 1]);
                } else if a == p {
                    assert(sorted@[b] == old_sorted[b - 1]);
                    assert(mismatch_lt(item, old_sorted[b - 1]));
                    lemma_lex_lt_irreflexive(encode_utf8(item.path@));
                    lemma_lex_lt_irreflexive(encode_utf8(item.field@));
                } else {
                    assert(sorted@[a] == old_sorted[a - 1] && sorted@[b] == old_sorted[b - 1]);
                    assert(perm[a] == old_perm[a - 1]);
                    assert(perm[b] == old_perm[b - 1]);
                    assert(old_perm[a - 1] < old_perm[b - 1]);
                }
            }
            assert forall|a: int, b: int| 0 <= a < b < sorted@.len() implies !mismatch_lt(
                sorted@[b],
                sorted@[a],
            ) by {
                if b < p {
                    assert(sorted@[a] == old_sorted[a]);
                    assert(sorted@[b] == old_sorted[b]);
                } else if b == p {
                    assert(sorted@[a] == old_sorted[a]);
                } else if a < p {
                    assert(sorted@[a] == old_sorted[a]);
                    assert(sorted@[b] == old_sorted[b - 1]);
                } else if a == p {
                    assert(sorted@[b] == old_sorted[b - 1]);
                } else {
                    assert(sorted@[a] == old_sorted[a - 1]);
                    assert(sorted@[b] == old_sorted[b - 1]);
                }
            }
        }
    }
    assert(orig.take(orig.len() as int) == orig);
    assert(arranged_by(sorted@, items@, perm) && keeps_ties(sorted@, perm, same));
    sorted
}

/// Each field check derives the count its name promises: bytes of the UTF-8
/// encoding for `code-units`, characters for `code-points` and
/// `scalar-values`, and grapheme clusters under legacy or extended UAX #29
/// boundaries for the two cluster counts; the description opens with that
/// same count, before the segmentation it lists.
pub proof fn lemma_checks_count_what_they_name(c: FieldCheck, i: int, text: Seq<char>, meta: Metadata)
    requires
        0 <= i < 5,
        check_spec(c, i, text, meta),
    ensures
        c.name@ == "code-units"@ ==> c.expected == encode_utf8(text).len(),
        c.name@ == "code-points"@ ==> c.expected == text.len(),
        c.name@ == "scalar-values"@ ==> c.expected == text.len(),
        c.name@ == "legacy-grapheme-clusters"@ ==> c.expected == grapheme_clusters_of(text, false).len()
            && c.description@ == digits(grapheme_clusters_of(text, false).len(), 10)
            + " legacy grapheme cluster(s) (UAX #29 legacy boundaries): "@ + cluster_list_text(text, false)
            + "."@,
        c.name@ == "extended-grapheme-clusters"@ ==> c.expected == grapheme_clusters_of(text, true).len()
            && c.description@ == digits(grapheme_clusters_of(text, true).len(), 10)
            + " extended grapheme cluster(s) (UAX #29 extended boundaries): "@ + cluster_list_text(text, true)
            + "."@,
{
    reveal_strlit("code-units");
    reveal_strlit("code-points");
    reveal_strlit("scalar-values");
    reveal_strlit("legacy-grapheme-clusters");
    reveal_strlit("extended-grapheme-clusters");
    let n = c.name@;
    if i == 0 {
        assert(n =~= "code-units"@);
    } else if i == 1 {
        assert(n =~= "code-points"@);
    } else if i == 2 {
        assert(n =~= "scalar-values"@);
    } else if i == 3 {
        assert(n =~= "legacy-grapheme-clusters"@);
    } else {
        assert(n =~= "extended-grapheme-clusters"@);
    }
}

} // verus!
