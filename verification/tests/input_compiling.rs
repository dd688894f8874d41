use trickydata_compiler::compile::{compile_parts, CompileError};
use trickydata_compiler::format::{DecodeError, Decoded};
use trickydata_compiler::frontmatter::split;
use trickydata_compiler::hex::HexError;
use trickydata_compiler::metadata::{Format, Metadata};
use trickydata_compiler::schema::ValidationError;

fn meta(format: Format) -> Metadata {
    Metadata {
        name: "raw_bytes".to_string(),
        description: "why".to_string(),
        tags: vec!["bytes".to_string()],
        format,
        decode_as: Some("bytes".to_string()),
        mime_type: None,
        invalid_as: None,
        licence: None,
        pair: None,
        unicode_meta: None,
        file_source: None,
    }
}

const GOOD: &str = "name: raw_bytes\ndescription: why\ntags: [bytes]\nformat: hex\ndecode-as: bytes\n---\nde ad\n";
const BAD: &str = "name: raw_bytes\nformat: hex\n---\nzz\n";

#[test]
fn a_valid_input_compiles_to_its_metadata_and_bytes() {
    let sp = split(GOOD).unwrap();
    match compile_parts(&sp, Ok(meta(Format::Hex)), "inputs/raw.input", true) {
        Ok((m, Decoded::Bytes(b))) => {
            assert_eq!(m.name, "raw_bytes");
            assert_eq!(b, vec![0xde, 0xad]);
        }
        other => panic!("expected bytes, got {other:?}"),
    }
}

#[test]
fn schema_errors_come_first_when_validating() {
    let sp = split(BAD).unwrap();
    let r = compile_parts(&sp, Err("missing field `description`".to_string()), "inputs/raw.input", true);
    assert!(matches!(r, Err(CompileError::Schema(ValidationError::Violations(_)))));
}

#[test]
fn without_validation_field_errors_come_next() {
    let sp = split(BAD).unwrap();
    match compile_parts(&sp, Err("missing field `description`".to_string()), "inputs/raw.input", false) {
        Err(CompileError::Fields(m)) => assert_eq!(m, "missing field `description`"),
        other => panic!("expected a field error, got {other:?}"),
    }
}

#[test]
fn decode_errors_come_last() {
    let sp = split(BAD).unwrap();
    let r = compile_parts(&sp, Ok(meta(Format::Hex)), "inputs/raw.input", false);
    assert!(matches!(r, Err(CompileError::Decode(DecodeError::Hex(HexError::UnexpectedChar('z'))))));
}

#[test]
fn file_inputs_name_their_companion() {
    let sp = split("name: f\n---\n").unwrap();
    match compile_parts(&sp, Ok(meta(Format::File)), "inputs/dir/blob.bin.input", false) {
        Ok((_, Decoded::Companion(p))) => assert_eq!(p, "inputs/dir/blob.bin"),
        other => panic!("expected a companion, got {other:?}"),
    }
}
