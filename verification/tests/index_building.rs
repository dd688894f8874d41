use trickydata_compiler::corpus::entry_bytes;
use trickydata_compiler::index::{build, BuildError, CompiledInput};
use trickydata_compiler::metadata::{Format, Metadata, Pair, PairHint};

fn input(name: &str, pairs: Vec<(&str, PairHint)>, bytes: &[u8]) -> CompiledInput {
    let pair = if pairs.is_empty() {
        None
    } else {
        Some(pairs.into_iter().map(|(w, h)| Pair { with: w.to_string(), hint: h }).collect())
    };
    CompiledInput {
        metadata: Metadata {
            name: name.to_string(),
            description: "why".to_string(),
            tags: vec![],
            format: Format::Hex,
            decode_as: None,
            mime_type: None,
            invalid_as: None,
            licence: None,
            pair,
            unicode_meta: None,
            file_source: None,
        },
        bytes: bytes.to_vec(),
    }
}

fn pairs_of(p: &Option<Vec<Pair>>) -> Vec<(String, PairHint)> {
    match p {
        Some(v) => v.iter().map(|p| (p.with.clone(), p.hint)).collect(),
        None => vec![],
    }
}

#[test]
fn inputs_are_ordered_by_name_and_laid_out_in_the_blob() {
    let compiled = vec![
        ("inputs/z/beta.input".to_string(), input("beta", vec![], &[2, 3])),
        ("inputs/alpha.input".to_string(), input("alpha", vec![], &[1])),
    ];
    let built = build("inputs", "v1", compiled).unwrap();
    assert_eq!(built.index.version, "v1");
    assert!(built.index.bin.is_none());
    assert_eq!(built.blob, vec![1, 2, 3]);
    let e = &built.index.inputs;
    assert_eq!(e.len(), 2);
    assert_eq!(e[0].metadata.name, "alpha");
    assert_eq!(e[0].path, "alpha.input");
    assert_eq!((e[0].offset, e[0].length), (0, 1));
    assert_eq!(e[1].metadata.name, "beta");
    assert_eq!(e[1].path, "z/beta.input");
    assert_eq!((e[1].offset, e[1].length), (1, 2));
}

#[test]
fn paths_outside_the_inputs_root_are_kept_whole() {
    let compiled = vec![("elsewhere/a.input".to_string(), input("a", vec![], &[]))];
    let built = build("inputs", "dev", compiled).unwrap();
    assert_eq!(built.index.inputs[0].path, "elsewhere/a.input");
}

#[test]
fn duplicate_names_are_refused() {
    let compiled = vec![
        ("inputs/a.input".to_string(), input("same", vec![], &[])),
        ("inputs/b.input".to_string(), input("same", vec![], &[])),
        ("inputs/c.input".to_string(), input("other", vec![], &[])),
    ];
    match build("inputs", "dev", compiled) {
        Err(BuildError::DuplicateName(n)) => assert_eq!(n, "same"),
        other => panic!("expected a duplicate name, got {other:?}"),
    }
}

#[test]
fn pair_links_are_made_symmetric() {
    let compiled = vec![
        ("inputs/text/cafe-nfc.input".to_string(), input("cafe_nfc", vec![("../other/cafe-nfd.input", PairHint::Equal)], b"a")),
        ("inputs/other/cafe-nfd.input".to_string(), input("cafe_nfd", vec![], b"b")),
        ("inputs/text/plain.input".to_string(), input("plain", vec![("./cafe-nfc.input", PairHint::Tricky)], b"c")),
    ];
    let built = build("inputs", "dev", compiled).unwrap();
    let e = &built.index.inputs;
    assert_eq!(e[0].metadata.name, "cafe_nfc");
    assert_eq!(
        pairs_of(&e[0].metadata.pair),
        vec![
            ("../other/cafe-nfd.input".to_string(), PairHint::Equal),
            ("plain.input".to_string(), PairHint::Tricky),
        ]
    );
    assert_eq!(e[1].metadata.name, "cafe_nfd");
    assert_eq!(pairs_of(&e[1].metadata.pair), vec![("../text/cafe-nfc.input".to_string(), PairHint::Equal)]);
    assert_eq!(e[2].metadata.name, "plain");
    assert_eq!(pairs_of(&e[2].metadata.pair), vec![("cafe-nfc.input".to_string(), PairHint::Tricky)]);
}

#[test]
fn a_later_declaration_sets_the_hint_on_both_sides() {
    let compiled = vec![
        ("inputs/a.input".to_string(), input("a", vec![("b.input", PairHint::Tricky)], b"")),
        ("inputs/b.input".to_string(), input("b", vec![("a.input", PairHint::NotEqual)], b"")),
    ];
    let built = build("inputs", "dev", compiled).unwrap();
    let e = &built.index.inputs;
    assert_eq!(pairs_of(&e[0].metadata.pair), vec![("b.input".to_string(), PairHint::NotEqual)]);
    assert_eq!(pairs_of(&e[1].metadata.pair), vec![("a.input".to_string(), PairHint::NotEqual)]);
}

#[test]
fn unresolved_pair_links_are_refused() {
    let compiled = vec![("inputs/a.input".to_string(), input("a", vec![("missing.input", PairHint::Equal)], b""))];
    match build("inputs", "dev", compiled) {
        Err(BuildError::UnresolvedPair { name, path, with, resolved }) => {
            assert_eq!(name, "a");
            assert_eq!(path, "inputs/a.input");
            assert_eq!(with, "missing.input");
            assert_eq!(resolved, "inputs/missing.input");
        }
        other => panic!("expected an unresolved link, got {other:?}"),
    }
}

#[test]
fn self_pairs_are_refused() {
    let compiled = vec![("inputs/a.input".to_string(), input("a", vec![("./a.input", PairHint::Equal)], b""))];
    match build("inputs", "dev", compiled) {
        Err(BuildError::SelfPair { name, path }) => {
            assert_eq!(name, "a");
            assert_eq!(path, "inputs/a.input");
        }
        other => panic!("expected a self pair, got {other:?}"),
    }
}

#[test]
fn every_entry_reads_back_its_bytes() {
    let compiled = vec![
        ("inputs/c.input".to_string(), input("c", vec![], b"ccc")),
        ("inputs/a.input".to_string(), input("a", vec![], b"")),
        ("inputs/b.input".to_string(), input("b", vec![], b"bb")),
    ];
    let built = build("inputs", "dev", compiled).unwrap();
    let got: Vec<Option<Vec<u8>>> = (0..3).map(|k| entry_bytes(&built, k)).collect();
    assert_eq!(got, vec![Some(vec![]), Some(b"bb".to_vec()), Some(b"ccc".to_vec())]);
}
