use trickydata_compiler::diff::{compare, entry_diffs, CorpusSide, EntryView};

fn entry(name: &str, fields: &[(&str, &str)], path: &str, bytes: &[u8]) -> EntryView {
    EntryView {
        name: name.to_string(),
        fields: fields.iter().map(|(k, v)| (k.to_string(), v.to_string())).collect(),
        path: path.to_string(),
        bytes: bytes.to_vec(),
    }
}

#[test]
fn equal_entries_have_no_differences() {
    let a = entry("x", &[("name", "\"x\""), ("tags", "[]")], "x.input", b"ab");
    let b = entry("x", &[("tags", "[]"), ("name", "\"x\"")], "x.input", b"ab");
    assert!(entry_diffs(&a, &b).is_empty());
}

#[test]
fn field_path_and_data_differences_are_listed() {
    let a = entry("x", &[("name", "\"x\""), ("licence", "\"MIT\"")], "a/x.input", b"ab");
    let b = entry("x", &[("name", "\"x\""), ("tags", "[\"t\"]")], "b/x.input", b"abc");
    assert_eq!(
        entry_diffs(&a, &b),
        vec![
            "licence \"MIT\" != (absent)".to_string(),
            "tags (absent) != [\"t\"]".to_string(),
            "path \"a/x.input\" != \"b/x.input\"".to_string(),
            "data differs (2 vs 3 bytes)".to_string(),
        ]
    );
}

#[test]
fn corpora_are_compared_by_name() {
    let left = CorpusSide {
        label: "left".to_string(),
        entries: vec![entry("b", &[], "b.input", b""), entry("a", &[], "a.input", b"1")],
    };
    let right = CorpusSide {
        label: "right".to_string(),
        entries: vec![entry("c", &[], "c.input", b""), entry("a", &[], "a.input", b"22")],
    };
    assert_eq!(
        compare(&left, &right),
        vec![
            "'a': data differs (1 vs 2 bytes)".to_string(),
            "'b' only in left".to_string(),
            "'c' only in right".to_string(),
        ]
    );
    assert!(compare(&left, &left).is_empty());
}
