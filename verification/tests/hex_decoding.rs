use trickydata_compiler::hex::{decode, hex_encode, HexError};

#[test]
fn pairs_with_optional_whitespace() {
    assert_eq!(decode("00 11 22").unwrap(), vec![0x00, 0x11, 0x22]);
    assert_eq!(decode("001122").unwrap(), vec![0x00, 0x11, 0x22]);
    assert_eq!(decode("aA bB").unwrap(), vec![0xaa, 0xbb]);
}

#[test]
fn comments_are_ignored() {
    let bytes = decode("03 00 # width\n05 00 # height\n").unwrap();
    assert_eq!(bytes, vec![0x03, 0x00, 0x05, 0x00]);
}

#[test]
fn quoted_strings_emit_ascii_bytes() {
    let bytes = decode("\"GIF89a\" # magic\n03 00").unwrap();
    let mut expected = b"GIF89a".to_vec();
    expected.extend_from_slice(&[0x03, 0x00]);
    assert_eq!(bytes, expected);
}

#[test]
fn hex_digits_pair_across_whitespace_and_comments() {
    assert_eq!(decode("0a # x\n0b").unwrap(), vec![0x0a, 0x0b]);
}

#[test]
fn odd_digit_count_is_an_error() {
    assert!(decode("0a0").is_err());
}

#[test]
fn unterminated_quote_is_an_error() {
    assert!(decode("\"oops").is_err());
}

#[test]
fn each_error_is_reported() {
    assert_eq!(decode("0a0"), Err(HexError::OddDigitCount));
    assert_eq!(decode("\"oops"), Err(HexError::UnterminatedQuote));
    assert_eq!(decode("0\"a\""), Err(HexError::QuoteMidByte));
    assert_eq!(decode("\"caf\u{e9}\""), Err(HexError::NonAsciiInQuote('\u{e9}')));
    assert_eq!(decode("0g"), Err(HexError::UnexpectedChar('g')));
}

#[test]
fn unicode_whitespace_separates_digits() {
    assert_eq!(decode("0a\u{2003}0b\u{85}0c"), Ok(vec![0x0a, 0x0b, 0x0c]));
    assert_eq!(decode(""), Ok(vec![]));
    assert_eq!(decode("# only a comment"), Ok(vec![]));
}

#[test]
fn encoded_bytes_decode_back() {
    let bytes: Vec<u8> = (0u8..=255).collect();
    let text = hex_encode(&bytes);
    assert_eq!(decode(&text), Ok(bytes));
    assert_eq!(hex_encode(&[0x00, 0xab, 0x7f]), "00 ab 7f\n");
    assert_eq!(hex_encode(&[]), "\n");
}
