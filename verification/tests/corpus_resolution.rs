use trickydata_compiler::corpus::{SourceCorpus, SourceWriteError};
use trickydata_compiler::index::{Built, Index, IndexEntry};
use trickydata_compiler::metadata::{Format as InputFormat, Metadata};
use trickydata_compiler::corpus::{
    corpus_from_file, corpus_to_load, format_from_path, jsonbin_prefix, resolve, AnyCorpus, Format,
    JsonBinCorpus, LoadError, Resolved,
};

fn paths(c: &AnyCorpus) -> Vec<String> {
    c.paths()
}

#[test]
fn resolve_picks_preferred_dir_and_missing() {
    let dir = "/tmp/td-corpus-resolve";
    let prefix = "/tmp/td-corpus-resolve/trickydata";

    // Nothing on disk for the prefix.
    assert!(matches!(resolve(prefix, None, false, false, &[false, false, false]), Resolved::NoMatch(_)));

    // A directory resolves to the source tree.
    match resolve(dir, None, false, true, &[false, false, false]) {
        Resolved::ExactMatch(c) => assert_eq!(c.format(), Format::Source),
        other => panic!("expected source ExactMatch, got {other:?}"),
    }

    // Two containers present -> the preferred existing one (zip over json-bin).
    match resolve(prefix, None, false, false, &[false, true, true]) {
        Resolved::StemMatch(v) => assert_eq!(v[0].format(), Format::Zip),
        other => panic!("expected StemMatch, got {other:?}"),
    }

    // `expected` filters to json-bin even though zip exists.
    match resolve(prefix, Some(Format::JsonBin), false, false, &[false, true, true]) {
        Resolved::StemMatch(v) => {
            assert_eq!(v.len(), 1);
            assert_eq!(v[0].format(), Format::JsonBin);
        }
        other => panic!("expected filtered StemMatch, got {other:?}"),
    }

    // An exact existing file infers its format.
    match resolve("/tmp/td-corpus-resolve/trickydata.zip", None, true, false, &[false, false, false]) {
        Resolved::ExactMatch(c) => assert_eq!(c.format(), Format::Zip),
        other => panic!("expected ExactMatch, got {other:?}"),
    }
}

#[test]
fn stem_matches_come_in_preference_order() {
    match resolve("out/trickydata", None, false, false, &[true, true, true]) {
        Resolved::StemMatch(v) => {
            let formats: Vec<Format> = v.iter().map(|c| c.format()).collect();
            assert_eq!(formats, vec![Format::Trickydata, Format::Zip, Format::JsonBin]);
            assert_eq!(paths(&v[0]), vec!["out/trickydata.trickydata".to_string()]);
            assert_eq!(
                paths(&v[2]),
                vec!["out/trickydata-index.json".to_string(), "out/trickydata.bin".to_string()]
            );
        }
        other => panic!("expected StemMatch, got {other:?}"),
    }
}

#[test]
fn missing_paths_carry_a_corpus_when_one_is_known() {
    match resolve("out/x.zip", None, false, false, &[false, false, false]) {
        Resolved::NoMatch(Some(c)) => assert_eq!(paths(&c), vec!["out/x.zip".to_string()]),
        other => panic!("expected a zip to write, got {other:?}"),
    }
    match resolve("out/x", Some(Format::Trickydata), false, false, &[false, false, false]) {
        Resolved::NoMatch(Some(c)) => assert_eq!(paths(&c), vec!["out/x.trickydata".to_string()]),
        other => panic!("expected a trickydata to write, got {other:?}"),
    }
    // A directory is not a source tree when another format is expected.
    assert!(matches!(
        resolve("out", Some(Format::Zip), false, true, &[false, false, false]),
        Resolved::NoMatch(Some(_))
    ));
    // An unknown existing file matches nothing.
    assert!(matches!(resolve("notes.txt", None, true, false, &[false, false, false]), Resolved::NoMatch(None)));
}

#[test]
fn formats_come_from_file_names() {
    assert_eq!(format_from_path("a/b.trickydata"), Some(Format::Trickydata));
    assert_eq!(format_from_path("a/b.zip"), Some(Format::Zip));
    assert_eq!(format_from_path("a/b-index.json"), Some(Format::JsonBin));
    assert_eq!(format_from_path("a/b.bin"), Some(Format::JsonBin));
    assert_eq!(format_from_path("a/b.json"), None);
    assert_eq!(format_from_path("a/.."), None);
    assert_eq!(jsonbin_prefix("a/b-index.json"), "a/b");
    assert_eq!(jsonbin_prefix("a/b.bin"), "a/b");
    assert_eq!(jsonbin_prefix("a/b"), "a/b");
    assert_eq!(
        paths(&corpus_from_file("a/b.bin", Format::JsonBin)),
        vec!["a/b-index.json".to_string(), "a/b.bin".to_string()]
    );
}

#[test]
fn corpora_bind_their_files() {
    assert_eq!(paths(&Format::Source.corpus_for("inputs")), vec!["inputs".to_string()]);
    assert_eq!(paths(&Format::Zip.corpus_for("p")), vec!["p.zip".to_string()]);
    let j = JsonBinCorpus { index: "d/p-index.json".to_string(), bin: "d/p.bin".to_string() };
    assert_eq!(j.bin_locator(), "p.bin");
}

#[test]
fn loading_needs_a_corpus() {
    assert!(matches!(corpus_to_load(Resolved::NoMatch(None)), Err(LoadError::NoCorpus)));
    match corpus_to_load(resolve("out/trickydata", None, false, false, &[false, true, true])) {
        Ok(c) => assert_eq!(c.format(), Format::Zip),
        Err(e) => panic!("expected the preferred container, got {e:?}"),
    }
}

#[test]
fn source_entries_are_rooted_and_sliced_from_the_blob() {
    let entry = |name: &str, path: &str, offset: usize, length: usize| IndexEntry {
        metadata: Metadata {
            name: name.to_string(),
            description: "why".to_string(),
            tags: vec![],
            format: InputFormat::Hex,
            decode_as: None,
            mime_type: None,
            invalid_as: None,
            licence: None,
            pair: None,
            unicode_meta: None,
            file_source: None,
        },
        path: path.to_string(),
        offset,
        length,
    };
    let built = Built {
        index: Index {
            version: "dev".to_string(),
            bin: None,
            inputs: vec![entry("a", "x/a.input", 1, 2), entry("b", "b.input", 2, 5)],
        },
        blob: vec![0, 1, 2, 3],
    };
    let src = SourceCorpus::new("out/tree");
    match src.entry_file(&built, 0) {
        Ok((path, bytes)) => {
            assert_eq!(path, "out/tree/x/a.input");
            assert_eq!(bytes, vec![1, 2]);
        }
        Err(e) => panic!("expected the entry's file, got {e:?}"),
    }
    match src.entry_file(&built, 1) {
        Err(SourceWriteError::OutOfBlobBounds(name)) => assert_eq!(name, "b"),
        other => panic!("expected out of bounds, got {other:?}"),
    }
}
