//! Compiling one input file once it has been split: the schema check, the
//! typed metadata and the decoding of the data region, in that order.
use vstd::prelude::*;

use crate::format::{decode, decoded_spec, decoded_view, DecodeError, Decoded};
use crate::frontmatter::Split;
use crate::metadata::Metadata;
use crate::schema::{
    failure_view, schema_check_of, validate, violations_report, ValidationError, FRONTMATTER_SCHEMA,
};

verus! {

/// Why an input file could not be compiled, once split.
#[derive(Debug)]
pub enum CompileError {
    /// The frontmatter breaks the frontmatter schema, or could not be checked
    /// against it.
    Schema(ValidationError),
    /// The frontmatter's fields could not be read as metadata: the reader's
    /// message.
    Fields(String),
    /// The data region could not be decoded.
    Decode(DecodeError),
}

/// The frontmatter schema accepts the frontmatter text `frontmatter`.
pub open spec fn schema_accepts(frontmatter: Seq<char>) -> bool {
    schema_check_of(FRONTMATTER_SCHEMA@, frontmatter) matches Ok(vs) && vs.len() == 0
}

/// `e` is what checking `frontmatter` against the frontmatter schema reports
/// when it does not accept it.
pub open spec fn schema_rejection(e: ValidationError, frontmatter: Seq<char>) -> bool {
    match schema_check_of(FRONTMATTER_SCHEMA@, frontmatter) {
        Err(g) => e matches ValidationError::Unchecked(f) && failure_view(f) == g,
        Ok(vs) => e matches ValidationError::Violations(t) && t@ == violations_report(vs),
    }
}

/// Compile a split input file: check its frontmatter against the frontmatter
/// schema when `validate` is set, then take its metadata (`meta`, as read from
/// the frontmatter, or the reader's message where that failed), then decode
/// its data region. The first of these to fail gives the error.
///
/// On success the metadata comes back with what the data region decodes to:
/// the bytes, or the companion file holding them.
pub fn compile_parts(
    split: &Split,
    meta: Result<Metadata, String>,
    input_path: &str,
    validate_schema: bool,
) -> (r: Result<(Metadata, Decoded), CompileError>)
    ensures
        validate_schema && !schema_accepts(split.frontmatter@) ==> (r matches Err(CompileError::Schema(e))
            && schema_rejection(e, split.frontmatter@)),
        !validate_schema || schema_accepts(split.frontmatter@) ==> match meta {
            Err(m) => r matches Err(CompileError::Fields(m2)) && m2 == m,
            Ok(md) => match (r, decoded_spec(md.format, md.file_source, split.data@, input_path@)) {
                (Ok((m2, d)), Ok(v)) => m2 == md && decoded_view(d) == v,
                (Err(CompileError::Decode(e)), Err(f)) => e == f,
                _ => false,
            },
        },
{
    if validate_schema {
        if let Err(e) = validate(FRONTMATTER_SCHEMA, split.frontmatter) {
            return Err(CompileError::Schema(e));
        }
    }
    let md = match meta {
        Err(m) => return Err(CompileError::Fields(m)),
        Ok(md) => md,
    };
    match decode(&md, split.data, input_path) {
        Ok(d) => Ok((md, d)),
        Err(e) => Err(CompileError::Decode(e)),
    }
}

} // verus!
