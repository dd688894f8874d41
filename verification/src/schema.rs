//! Validation of input frontmatter against the frontmatter schema.
//!
//! The schema (`frontmatter-schema.yaml`) is the single source of truth for
//! the frontmatter rules: every input's frontmatter is checked for
//! conformance against it, and every violation is listed.

use vstd::prelude::*;
use crate::report::{join, join_texts};
use crate::text::concat;

verus! {

/// The frontmatter schema, as YAML: the fields an input's frontmatter may
/// hold and their types, the required ones, a `unicode-meta` block with all
/// five counts for every Unicode `decode-as` (`utf8`, `utf16`, `utf32`), and
/// `file-source` only for the `file` format.
pub const FRONTMATTER_SCHEMA: &'static str = "title: trickydata input frontmatter
type: object
required: [name, description, tags, format]
properties:
  name:
    type: string
    minLength: 1
  description:
    type: string
  tags:
    type: array
    items:
      type: string
  format:
    enum: [utf8, utf8-strip, hex, file]
  decode-as:
    type: string
  mime-type:
    type: string
  invalid-as:
    type: string
  licence:
    type: string
  pair:
    type: array
    items:
      type: object
      required: [with, hint]
      properties:
        with:
          type: string
        hint:
          enum: [equal, not-equal, tricky]
      additionalProperties: false
  unicode-meta:
    type: object
    required: [code-units, code-points, scalar-values, legacy-grapheme-clusters, extended-grapheme-clusters]
    properties:
      code-units:
        type: integer
        minimum: 0
      code-points:
        type: integer
        minimum: 0
      scalar-values:
        type: integer
        minimum: 0
      legacy-grapheme-clusters:
        type: integer
        minimum: 0
      extended-grapheme-clusters:
        type: integer
        minimum: 0
    additionalProperties: false
  file-source:
    type: string
allOf:
  - if:
      required: [decode-as]
      properties:
        decode-as:
          enum: [utf8, utf16, utf32]
    then:
      required: [unicode-meta]
  - if:
      required: [file-source]
    then:
      properties:
        format:
          const: file
";

/// Why a schema check could not be made.
#[derive(Debug)]
pub enum SchemaFailure {
    /// The schema text is not a YAML document; the parser's message.
    SchemaText(String),
    /// The schema document is not a usable JSON Schema; the compiler's message.
    SchemaCompile(String),
    /// The frontmatter text is not a YAML document; the parser's message.
    Document(String),
}

/// [`SchemaFailure`] as a value.
pub enum SchemaFailureView {
    SchemaText(Seq<char>),
    SchemaCompile(Seq<char>),
    Document(Seq<char>),
}

/// [`SchemaFailure`] as a value.
pub open spec fn failure_view(f: SchemaFailure) -> SchemaFailureView {
    match f {
        SchemaFailure::SchemaText(m) => SchemaFailureView::SchemaText(m@),
        SchemaFailure::SchemaCompile(m) => SchemaFailureView::SchemaCompile(m@),
        SchemaFailure::Document(m) => SchemaFailureView::Document(m@),
    }
}

/// What checking the YAML document `document` against the JSON Schema given
/// as YAML text `schema` finds: each violation's message and the location in
/// the document it concerns, in the order the validator reports them; or why
/// no check could be made.
pub uninterp spec fn schema_check_of(schema: Seq<char>, document: Seq<char>) -> Result<
    Seq<(Seq<char>, Seq<char>)>,
    SchemaFailureView,
>;

/// Check the YAML document `document` against the schema `schema` (YAML).
///
/// Parses both texts into JSON values with `serde_yml::from_str`, compiles the
/// schema with `jsonschema::validator_for`, and lists the errors of
/// `Validator::iter_errors`, each by its `Display` text and its
/// `instance_path`. The contract names the outcome; what the validator
/// reports is not stated beyond that it depends on the two texts alone.
#[verifier::external_body]
fn schema_check(schema: &str, document: &str) -> (r: Result<Vec<(String, String)>, SchemaFailure>)
    ensures
        match (r, schema_check_of(schema@, document@)) {
            (Ok(v), Ok(w)) => v@.map_values(|e: (String, String)| (e.0@, e.1@)) == w,
            (Err(f), Err(g)) => failure_view(f) == g,
            _ => false,
        },
{
    let schema: serde_json::Value = serde_yml::from_str(schema).map_err(|e| SchemaFailure::SchemaText(e.to_string()))?;
    let validator = jsonschema::validator_for(&schema).map_err(|e| SchemaFailure::SchemaCompile(e.to_string()))?;
    let doc: serde_json::Value = serde_yml::from_str(document).map_err(|e| SchemaFailure::Document(e.to_string()))?;
    Ok(validator.iter_errors(&doc).map(|e| (e.to_string(), e.instance_path().to_string())).collect())
}

/// Why frontmatter was not accepted.
#[derive(Debug)]
pub enum ValidationError {
    /// No check could be made.
    Unchecked(SchemaFailure),
    /// The frontmatter breaks the schema: the report listing every violation.
    Violations(String),
}

/// One violation as a report line: `  - {message} (at {location})`.
pub open spec fn violation_line(v: (Seq<char>, Seq<char>)) -> Seq<char> {
    "  - "@ + v.0 + " (at "@ + v.1 + ")"@
}

/// The report of a non-empty list of violations.
pub open spec fn violations_report(vs: Seq<(Seq<char>, Seq<char>)>) -> Seq<char> {
    "frontmatter does not satisfy the schema:\n"@ + join_texts(
        vs.map_values(|v: (Seq<char>, Seq<char>)| violation_line(v)),
        "\n"@,
    )
}

fn violation_text(message: &String, location: &String) -> (s: String)
    ensures
        s@ == violation_line((message@, location@)),
{
    let a = concat("  - ", message.as_str());
    let b = concat(a.as_str(), " (at ");
    let c = concat(b.as_str(), location.as_str());
    concat(c.as_str(), ")")
}

/// Validate the frontmatter text `frontmatter` against the schema text
/// `schema` (both YAML). It is accepted when the check finds no violation;
/// otherwise the error lists every violation, one per line, in the order
/// found.
pub fn validate(schema: &str, frontmatter: &str) -> (r: Result<(), ValidationError>)
    ensures
        match schema_check_of(schema@, frontmatter@) {
            Err(g) => r matches Err(ValidationError::Unchecked(f)) && failure_view(f) == g,
            Ok(vs) => if vs.len() == 0 {
                r is Ok
            } else {
                r matches Err(ValidationError::Violations(t)) && t@ == violations_report(vs)
            },
        },
{
    let found = match schema_check(schema, frontmatter) {
        Err(f) => return Err(ValidationError::Unchecked(f)),
        Ok(v) => v,
    };
    if found.len() == 0 {
        return Ok(());
    }
    let ghost fv = found@.map_values(|e: (String, String)| (e.0@, e.1@));
    let mut lines: Vec<String> = Vec::new();
    for i in 0..found.len()
        invariant
            fv == found@.map_values(|e: (String, String)| (e.0@, e.1@)),
            lines@.map_values(|s: String| s@) == fv.take(i as int).map_values(
                |v: (Seq<char>, Seq<char>)| violation_line(v),
            ),
    {
        let line = violation_text(&found[i].0, &found[i].1);
        let ghost prev = lines@;
        lines.push(line);
        assert(fv[i as int] == (found@[i as int].0@, found@[i as int].1@));
        assert(fv.take(i + 1) =~= fv.take(i as int).push(fv[i as int]));
        assert(lines@.map_values(|s: String| s@) =~= prev.map_values(|s: String| s@).push(line@));
        assert(fv.take(i + 1).map_values(|v: (Seq<char>, Seq<char>)| violation_line(v)) =~= fv.take(
            i as int,
        ).map_values(|v: (Seq<char>, Seq<char>)| violation_line(v)).push(violation_line(fv[i as int])));
    }
    assert(fv.take(fv.len() as int) =~= fv);
    let body = join(&lines, "\n");
    Err(ValidationError::Violations(concat("frontmatter does not satisfy the schema:\n", body.as_str())))
}

} // verus!
