use trickydata_compiler::frontmatter::{input_file_text, split, SplitError};

#[test]
fn splits_on_first_separator() {
    let s = split("name: x\n---\nbody\n---\nmore").unwrap();
    assert_eq!(s.frontmatter, "name: x");
    assert_eq!(s.data, "body\n---\nmore");
}

#[test]
fn missing_separator_errors() {
    assert!(split("name: x\nno separator here").is_err());
}

#[test]
fn missing_separator_is_named() {
    assert_eq!(split("---\n").err(), Some(SplitError::MissingSeparator));
    assert_eq!(split("").err(), Some(SplitError::MissingSeparator));
}

#[test]
fn separator_may_open_the_file_after_an_empty_first_line() {
    let s = split("\n---\ndata").unwrap();
    assert_eq!(s.frontmatter, "");
    assert_eq!(s.data, "data");
}

#[test]
fn emitted_input_text_splits_back() {
    let text = input_file_text("name: x\ntags: [a]\n\n", "\u{2003}bytes\n---\nmore");
    assert_eq!(text, "name: x\ntags: [a]\n---\n\u{2003}bytes\n---\nmore");
    let s = split(&text).unwrap();
    assert_eq!(s.frontmatter, "name: x\ntags: [a]");
    assert_eq!(s.data, "\u{2003}bytes\n---\nmore");
}
