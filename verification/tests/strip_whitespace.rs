use trickydata_compiler::format::strip_whitespace;
use trickydata_compiler::text::is_whitespace;

#[test]
fn strips_leading_and_trailing_whitespace() {
    // Mix of ASCII spaces/newlines/tabs and U+2003 EM SPACE (all White_Space);
    // interior whitespace is preserved.
    assert_eq!(strip_whitespace("\u{2003}\n\t a\nb \t\u{2003}"), "a\nb");
}

#[test]
fn strips_newlines_and_tabs_at_the_edges() {
    // Newlines and tabs have White_Space=True, so they are stripped too.
    assert_eq!(strip_whitespace("\n\t a \t\n"), "a");
}

#[test]
fn preserves_non_whitespace_only_strings() {
    assert_eq!(strip_whitespace("abc"), "abc");
}

#[test]
fn whitespace_agrees_with_std_on_every_char() {
    for code in 0u32..=0x10FFFF {
        if let Some(c) = char::from_u32(code) {
            assert_eq!(is_whitespace(c), c.is_whitespace(), "U+{code:04X}");
        }
    }
}

#[test]
fn strip_matches_std_trim() {
    for s in ["", "   ", "\u{85}x\u{a0}", " a b ", "\u{3000}\u{2028}y\u{2029}", "\u{200b}z\u{200b}"] {
        assert_eq!(strip_whitespace(s), s.trim());
    }
}

#[test]
fn strip_is_idempotent_on_examples() {
    for s in ["\u{2003}\n\t a\nb \t\u{2003}", "  x  ", "\t"] {
        let once = strip_whitespace(s);
        assert_eq!(strip_whitespace(&once), once);
    }
}
