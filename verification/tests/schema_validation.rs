use trickydata_compiler::schema::{validate, SchemaFailure, ValidationError, FRONTMATTER_SCHEMA};

const SCHEMA: &str = "type: object\nrequired: [name, format]\nproperties:\n  name: {type: string}\n  format: {enum: [utf8, hex]}\n";

#[test]
fn conforming_frontmatter_is_accepted() {
    assert!(validate(SCHEMA, "name: x\nformat: hex\n").is_ok());
}

#[test]
fn every_violation_is_listed() {
    match validate(SCHEMA, "format: binary\n") {
        Err(ValidationError::Violations(report)) => {
            let lines: Vec<&str> = report.lines().collect();
            assert_eq!(lines[0], "frontmatter does not satisfy the schema:");
            assert_eq!(lines.len(), 3);
            assert!(lines[1..].iter().all(|l| l.starts_with("  - ") && l.ends_with(")")));
            assert!(report.contains("\"name\" is a required property"));
            assert!(report.contains("(at /format)"));
        }
        other => panic!("expected violations, got {other:?}"),
    }
}

#[test]
fn unusable_schemas_and_documents_are_reported() {
    assert!(matches!(
        validate("type: [", "name: x"),
        Err(ValidationError::Unchecked(SchemaFailure::SchemaText(_)))
    ));
    assert!(matches!(
        validate("type: 5", "name: x"),
        Err(ValidationError::Unchecked(SchemaFailure::SchemaCompile(_)))
    ));
    assert!(matches!(
        validate(SCHEMA, "name: [x"),
        Err(ValidationError::Unchecked(SchemaFailure::Document(_)))
    ));
}

#[test]
fn accepts_a_well_formed_document() {
    let doc = "{\"name\": \"effective_power\", \"description\": \"why\", \"tags\": [\"utf8\"], \"format\": \"utf8\", \
               \"decode-as\": \"utf8\", \"unicode-meta\": {\"code-units\": 4, \"code-points\": 1, \"scalar-values\": 1, \
               \"legacy-grapheme-clusters\": 1, \"extended-grapheme-clusters\": 1}}";
    assert!(validate(FRONTMATTER_SCHEMA, doc).is_ok());
}

#[test]
fn rejects_unicode_decode_as_without_unicode_meta() {
    let doc = "{\"name\": \"missing_unicode_meta\", \"description\": \"why\", \"tags\": [\"utf8\"], \"format\": \"utf8\", \
               \"decode-as\": \"utf8\"}";
    assert!(validate(FRONTMATTER_SCHEMA, doc).is_err());
}

#[test]
fn non_unicode_decode_as_does_not_require_unicode_meta() {
    let doc = "{\"name\": \"raw_bytes\", \"description\": \"why\", \"tags\": [\"bytes\"], \"format\": \"hex\", \
               \"decode-as\": \"bytes\"}";
    assert!(validate(FRONTMATTER_SCHEMA, doc).is_ok());
}

#[test]
fn rejects_unicode_meta_missing_a_count() {
    let doc = "{\"name\": \"partial_unicode_meta\", \"description\": \"why\", \"tags\": [\"utf8\"], \"format\": \"utf8\", \
               \"decode-as\": \"utf8\", \"unicode-meta\": {\"code-units\": 4, \"code-points\": 1, \"scalar-values\": 1, \
               \"legacy-grapheme-clusters\": 1}}";
    assert!(validate(FRONTMATTER_SCHEMA, doc).is_err());
}

#[test]
fn rejects_missing_required_field() {
    let doc = "{\"name\": \"no_format\", \"description\": \"why\", \"tags\": [\"utf8\"], \"decode-as\": \"utf8\"}";
    assert!(validate(FRONTMATTER_SCHEMA, doc).is_err());
}

#[test]
fn rejects_file_source_without_file_format() {
    let doc = "{\"name\": \"stray_source\", \"description\": \"why\", \"tags\": [\"x\"], \"format\": \"utf8\", \
               \"decode-as\": \"utf8\", \"file-source\": \"blob.bin\"}";
    assert!(validate(FRONTMATTER_SCHEMA, doc).is_err());
}

#[test]
fn a_file_input_may_name_its_source() {
    let doc = "name: blob\ndescription: why\ntags: [x]\nformat: file\nfile-source: blob.bin\n";
    assert!(validate(FRONTMATTER_SCHEMA, doc).is_ok());
}
