use trickydata_compiler::metadata::{Format, Metadata, UnicodeMeta};
use trickydata_compiler::report::{
    byte_array, check_input, cluster_list, code_point_list, code_point_token, field_checks, mismatch_line,
    sort_mismatches, Mismatch,
};

fn meta(decode_as: &str, um: Option<UnicodeMeta>) -> Metadata {
    Metadata {
        name: "x".to_string(),
        description: "why".to_string(),
        tags: vec![],
        format: Format::Utf8,
        decode_as: Some(decode_as.to_string()),
        mime_type: None,
        invalid_as: None,
        licence: None,
        pair: None,
        unicode_meta: um,
        file_source: None,
    }
}

fn counts(u: u64, p: u64, s: u64, l: u64, e: u64) -> UnicodeMeta {
    UnicodeMeta {
        code_units: u,
        code_points: p,
        scalar_values: s,
        legacy_grapheme_clusters: l,
        extended_grapheme_clusters: e,
    }
}

#[test]
fn bytes_and_code_points_render_in_hex() {
    assert_eq!(byte_array(&[0xef, 0xbf, 0xbf]), "[0xEF, 0xBF, 0xBF]");
    assert_eq!(byte_array(&[]), "[]");
    assert_eq!(code_point_token('\u{e9}'), "U+00E9 [0xC3, 0xA9]");
    assert_eq!(code_point_token('\u{1F600}'), "U+1F600 [0xF0, 0x9F, 0x98, 0x80]");
    assert_eq!(code_point_list("a\u{301}"), "U+0061 [0x61], U+0301 [0xCC, 0x81]");
}

#[test]
fn clusters_follow_uax29() {
    assert_eq!(cluster_list("e\u{301}x", true), "[U+0065 U+0301] [U+0078]");
    // A spacing mark joins only an extended cluster.
    assert_eq!(cluster_list("\u{915}\u{93f}", true), "[U+0915 U+093F]");
    assert_eq!(cluster_list("\u{915}\u{93f}", false), "[U+0915] [U+093F]");
    assert_eq!(cluster_list("", true), "");
}

#[test]
fn field_checks_derive_each_count() {
    let checks = field_checks("e\u{301}", &meta("utf8", Some(counts(3, 2, 2, 1, 1))));
    let names: Vec<&str> = checks.iter().map(|c| c.name).collect();
    assert_eq!(
        names,
        vec!["code-units", "code-points", "scalar-values", "legacy-grapheme-clusters", "extended-grapheme-clusters"]
    );
    let expected: Vec<u64> = checks.iter().map(|c| c.expected).collect();
    assert_eq!(expected, vec![3, 2, 2, 1, 1]);
    assert!(checks.iter().all(|c| c.matches()));
    assert_eq!(
        checks[0].description,
        "UTF-8 code units are bytes; the decoded data is 3 byte(s): [0x65, 0xCC, 0x81]."
    );
    assert_eq!(checks[1].description, "2 Unicode code point(s): U+0065 [0x65], U+0301 [0xCC, 0x81].");
    assert_eq!(
        checks[4].description,
        "1 extended grapheme cluster(s) (UAX #29 extended boundaries): [U+0065 U+0301]."
    );
    let missing = field_checks("a", &meta("utf8", None));
    assert!(missing.iter().all(|c| c.actual.is_none() && !c.matches()));
}

#[test]
fn inputs_not_decoded_as_utf8_are_skipped() {
    assert!(check_input("p", &meta("bytes", None), b"\xff").is_none());
}

#[test]
fn invalid_utf8_is_a_decode_as_mismatch() {
    let rep = check_input("inputs/bad.input", &meta("utf8", None), &[0x61, 0xff]).unwrap();
    assert!(!rep.ok);
    assert_eq!(rep.mismatches.len(), 1);
    let m = &rep.mismatches[0];
    assert_eq!(m.field, "decode-as");
    assert_eq!(m.expected, 0);
    assert_eq!(m.actual, "(invalid)");
    assert_eq!(
        m.description,
        format!(
            "decode-as is utf8 but the decoded bytes are not valid UTF-8: {}. Bytes: [0x61, 0xFF].",
            std::str::from_utf8(&[0x61, 0xff]).unwrap_err()
        )
    );
}

#[test]
fn wrong_counts_are_reported_in_order() {
    let rep = check_input("inputs/a.input", &meta("utf8", Some(counts(1, 9, 1, 1, 1))), b"a").unwrap();
    assert!(!rep.ok);
    assert_eq!(rep.mismatches.len(), 1);
    assert_eq!(rep.mismatches[0].field, "code-points");
    assert_eq!(rep.mismatches[0].expected, 1);
    assert_eq!(rep.mismatches[0].actual, "9");
    let rep = check_input("inputs/a.input", &meta("utf8", None), b"a").unwrap();
    assert_eq!(rep.mismatches.len(), 5);
    assert!(rep.mismatches.iter().all(|m| m.actual == "<MISSING>"));
    let good = check_input("inputs/a.input", &meta("utf8", Some(counts(1, 1, 1, 1, 1))), b"a").unwrap();
    assert!(good.ok && good.mismatches.is_empty());
}

fn mismatch(path: &str, field: &'static str) -> Mismatch {
    Mismatch { path: path.to_string(), field, expected: 1, actual: "2".to_string(), description: "d".to_string() }
}

#[test]
fn mismatches_sort_by_path_then_field() {
    let sorted = sort_mismatches(vec![
        mismatch("b", "code-units"),
        mismatch("a", "scalar-values"),
        mismatch("a", "code-points"),
    ]);
    let keys: Vec<(String, &str)> = sorted.iter().map(|m| (m.path.clone(), m.field)).collect();
    assert_eq!(
        keys,
        vec![("a".to_string(), "code-points"), ("a".to_string(), "scalar-values"), ("b".to_string(), "code-units")]
    );
    assert_eq!(mismatch_line(&sorted[0]), "a: Mismatch: code-points Expected: 1 Actual: 2. d");
}
