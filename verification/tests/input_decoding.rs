use trickydata_compiler::format::{decode, encode_data, DecodeError, Decoded, EncodeError, EncodedData};
use trickydata_compiler::hex::HexError;
use trickydata_compiler::metadata::{Format, Metadata};

fn meta(format: Format, file_source: Option<&str>) -> Metadata {
    Metadata {
        name: "sample".to_string(),
        description: "why".to_string(),
        tags: vec!["t".to_string()],
        format,
        decode_as: Some("bytes".to_string()),
        mime_type: None,
        invalid_as: None,
        licence: None,
        pair: None,
        unicode_meta: None,
        file_source: file_source.map(|s| s.to_string()),
    }
}

fn bytes_of(d: Decoded) -> Vec<u8> {
    match d {
        Decoded::Bytes(b) => b,
        Decoded::Companion(p) => panic!("unexpected companion {p}"),
    }
}

fn companion_of(d: Decoded) -> String {
    match d {
        Decoded::Companion(p) => p,
        Decoded::Bytes(_) => panic!("unexpected bytes"),
    }
}

#[test]
fn utf8_data_is_taken_verbatim() {
    let d = decode(&meta(Format::Utf8, None), " caf\u{e9}\n", "inputs/a.input").unwrap();
    assert_eq!(bytes_of(d), " caf\u{e9}\n".as_bytes().to_vec());
}

#[test]
fn utf8_strip_data_loses_its_edges() {
    let d = decode(&meta(Format::Utf8Strip, None), "\u{2003} x y\n", "inputs/a.input").unwrap();
    assert_eq!(bytes_of(d), b"x y".to_vec());
}

#[test]
fn hex_data_is_parsed() {
    let d = decode(&meta(Format::Hex, None), "\"GIF\" 0a\n", "inputs/a.input").unwrap();
    assert_eq!(bytes_of(d), b"GIF\n".to_vec());
    assert_eq!(
        decode(&meta(Format::Hex, None), "0a0", "inputs/a.input").err(),
        Some(DecodeError::Hex(HexError::OddDigitCount))
    );
}

#[test]
fn file_data_lives_beside_the_input() {
    let d = decode(&meta(Format::File, None), " \n\t", "inputs/bin/blob.input").unwrap();
    assert_eq!(companion_of(d), "inputs/bin/blob");
    let d = decode(&meta(Format::File, Some("data.bin")), "", "inputs/bin/blob.input").unwrap();
    assert_eq!(companion_of(d), "inputs/bin/data.bin");
    let d = decode(&meta(Format::File, Some("../other/x")), "", "inputs/bin/blob.input").unwrap();
    assert_eq!(companion_of(d), "inputs/bin/../other/x");
}

#[test]
fn file_inputs_reject_inline_data() {
    assert_eq!(
        decode(&meta(Format::File, None), "oops", "inputs/blob.input").err(),
        Some(DecodeError::InlineFileData)
    );
}

#[test]
fn encoded_data_decodes_back() {
    let bytes = vec![0x00, 0xff, 0x10];
    match encode_data(Format::Hex, &bytes, "inputs/a.input").unwrap() {
        EncodedData::Text(t) => {
            assert_eq!(t, "00 ff 10\n");
            let d = decode(&meta(Format::Hex, None), &t, "inputs/a.input").unwrap();
            assert_eq!(bytes_of(d), bytes);
        }
        EncodedData::Companion(_) => panic!("hex is inline"),
    }
    match encode_data(Format::Utf8Strip, b"x y", "inputs/a.input").unwrap() {
        EncodedData::Text(t) => assert_eq!(t, "x y"),
        EncodedData::Companion(_) => panic!("utf8-strip is inline"),
    }
    match encode_data(Format::File, &bytes, "inputs/bin/blob.input").unwrap() {
        EncodedData::Companion(p) => assert_eq!(p, "inputs/bin/blob"),
        EncodedData::Text(_) => panic!("file keeps a companion"),
    }
    assert_eq!(encode_data(Format::Utf8, &[0xff], "inputs/a.input").err(), Some(EncodeError::NotUtf8));
}
