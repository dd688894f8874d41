use trickydata_compiler::corpus::SourceCorpus;
use trickydata_compiler::index::{build, build_as_read, Built, CompiledInput};
use trickydata_compiler::metadata::{Format, Metadata, Pair, PairHint};

fn meta(name: &str, pairs: Vec<(&str, PairHint)>) -> Metadata {
    let pair = if pairs.is_empty() {
        None
    } else {
        Some(pairs.into_iter().map(|(w, h)| Pair { with: w.to_string(), hint: h }).collect())
    };
    Metadata {
        name: name.to_string(),
        description: format!("about {name}"),
        tags: vec!["t".to_string()],
        format: Format::Hex,
        decode_as: Some("bytes".to_string()),
        mime_type: None,
        invalid_as: None,
        licence: None,
        pair,
        unicode_meta: None,
        file_source: None,
    }
}

fn copy_meta(m: &Metadata) -> Metadata {
    Metadata {
        name: m.name.clone(),
        description: m.description.clone(),
        tags: m.tags.clone(),
        format: m.format,
        decode_as: m.decode_as.clone(),
        mime_type: m.mime_type.clone(),
        invalid_as: m.invalid_as.clone(),
        licence: m.licence.clone(),
        pair: m.pair.as_ref().map(|v| v.iter().map(|p| Pair { with: p.with.clone(), hint: p.hint }).collect()),
        unicode_meta: m.unicode_meta,
        file_source: m.file_source.clone(),
    }
}

fn pairs_of(m: &Metadata) -> Vec<(String, PairHint)> {
    match &m.pair {
        Some(v) => v.iter().map(|p| (p.with.clone(), p.hint)).collect(),
        None => vec![],
    }
}

/// The inputs that re-emitting `built` under `root` and reading it back gives.
fn reemit(built: &Built, root: &str) -> Vec<(String, CompiledInput)> {
    let tree = SourceCorpus::new(root);
    (0..built.index.inputs.len())
        .map(|k| {
            let (path, bytes) = tree.entry_file(built, k).unwrap();
            (path, CompiledInput { metadata: copy_meta(&built.index.inputs[k].metadata), bytes })
        })
        .collect()
}

fn sample() -> Vec<(String, CompiledInput)> {
    vec![
        (
            "inputs/text/cafe-nfc.input".to_string(),
            CompiledInput { metadata: meta("cafe_nfc", vec![("../other/cafe-nfd.input", PairHint::Equal)]), bytes: vec![1, 2] },
        ),
        ("inputs/other/cafe-nfd.input".to_string(), CompiledInput { metadata: meta("cafe_nfd", vec![]), bytes: vec![3] }),
        ("inputs/plain.input".to_string(), CompiledInput { metadata: meta("plain", vec![]), bytes: vec![] }),
    ]
}

#[test]
fn reemitted_source_tree_rebuilds_the_same_corpus() {
    let first = build("inputs", "v9", sample()).unwrap();
    let again = build("copy", "v9", reemit(&first, "copy")).unwrap();
    assert_eq!(again.index.version, first.index.version);
    assert_eq!(again.blob, first.blob);
    assert_eq!(again.index.inputs.len(), first.index.inputs.len());
    for (a, b) in again.index.inputs.iter().zip(first.index.inputs.iter()) {
        assert_eq!(a.metadata.name, b.metadata.name);
        assert_eq!(a.metadata.description, b.metadata.description);
        assert_eq!(a.metadata.tags, b.metadata.tags);
        assert_eq!(a.metadata.decode_as, b.metadata.decode_as);
        assert_eq!(pairs_of(&a.metadata), pairs_of(&b.metadata));
        assert_eq!(a.path, b.path);
        assert_eq!((a.offset, a.length), (b.offset, b.length));
    }
    let nfd = &again.index.inputs[0];
    assert_eq!(nfd.metadata.name, "cafe_nfc");
    assert_eq!(pairs_of(&nfd.metadata), vec![("../other/cafe-nfd.input".to_string(), PairHint::Equal)]);
    assert_eq!(pairs_of(&again.index.inputs[1].metadata), vec![("../text/cafe-nfc.input".to_string(), PairHint::Equal)]);
}

#[test]
fn reemitted_entries_sit_under_the_new_root() {
    let first = build("inputs", "v9", sample()).unwrap();
    let tree = SourceCorpus::new("copy");
    let (path, bytes) = tree.entry_file(&first, 0).unwrap();
    assert_eq!(path, "copy/text/cafe-nfc.input");
    assert_eq!(bytes, vec![1, 2]);
}

#[test]
fn paths_as_walked_are_kept_whole() {
    let built = build_as_read("dev", sample()).unwrap();
    let paths: Vec<&str> = built.index.inputs.iter().map(|e| e.path.as_str()).collect();
    assert_eq!(paths, vec!["inputs/text/cafe-nfc.input", "inputs/other/cafe-nfd.input", "inputs/plain.input"]);
    assert!(built.index.bin.is_none());
}
