//! The frontmatter metadata of an input file.
//!
//! Only `format` is given a meaningful type, because it is the one field the
//! compiler acts on to turn an input into bytes. Everything else (`decode-as`,
//! `mime-type`, `licence`, ...) rides along to downstream clients untouched.

use vstd::prelude::*;

verus! {

/// How the data portion of an input file is encoded.
#[derive(Debug, Clone, Copy, PartialEq, Eq, Structural)]
pub enum Format {
    Utf8,
    Utf8Strip,
    Hex,
    File,
}

/// How two paired inputs relate.
#[derive(Debug, Clone, Copy, PartialEq, Eq, Structural)]
pub enum PairHint {
    /// The two inputs look different but should compare equal.
    Equal,
    /// The two inputs look the same but should compare unequal.
    NotEqual,
    /// Together the two inputs form a tricky case.
    Tricky,
}

/// A link to another input that is meaningful to use alongside this one.
#[derive(Debug)]
pub struct Pair {
    /// Relative path, from the linking input file, to the other input.
    pub with: String,
    /// How the two inputs relate.
    pub hint: PairHint,
}

/// Counts of the Unicode segmentation units in decoded text.
#[derive(Debug, Clone, Copy, PartialEq, Eq, Structural)]
pub struct UnicodeMeta {
    pub code_units: u64,
    pub code_points: u64,
    pub scalar_values: u64,
    pub legacy_grapheme_clusters: u64,
    pub extended_grapheme_clusters: u64,
}

/// The parsed frontmatter of an input file.
#[derive(Debug)]
pub struct Metadata {
    pub name: String,
    pub description: String,
    pub tags: Vec<String>,
    pub format: Format,
    pub decode_as: Option<String>,
    pub mime_type: Option<String>,
    /// The type this input would decode as if it were valid; set on
    /// deliberately-invalid inputs, which are stored as `decode-as: bytes`.
    pub invalid_as: Option<String>,
    pub licence: Option<String>,
    /// Other inputs that pair meaningfully with this one.
    pub pair: Option<Vec<Pair>>,
    /// Unicode segmentation counts; required for Unicode `decode-as` values.
    pub unicode_meta: Option<UnicodeMeta>,
    /// Where `file`-format data lives, relative to the input file.
    pub file_source: Option<String>,
}

} // verus!
