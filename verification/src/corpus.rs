//! Corpus formats: the interchangeable on-disk shapes of a compiled corpus,
//! the files each one reads and writes, and how a user-given path maps onto
//! one of them.
//!
//! - the `.input` source tree (a directory);
//! - a single `<prefix>.trickydata` file (preferred);
//! - a single `<prefix>.zip` holding the json-bin members;
//! - the `<prefix>-index.json` + `<prefix>.bin` pair.

use vstd::prelude::*;
use crate::paths::{components, file_name, file_name_of, path_parts};
use crate::text::{concat, ends_with, has_suffix, strip_suffix};
use crate::index::{blob_before, built_from, entry_matches, Built, CompiledInput, IndexEntry};
use crate::paths::{join, path_text, push_parts, render_path};

verus! {

/// Default filename stem the artifacts are written under.
pub const DEFAULT_PREFIX: &'static str = "trickydata";

/// Suffix appended to an artifact prefix to name the JSON index.
pub const INDEX_SUFFIX: &'static str = "-index.json";

/// Suffix appended to an artifact prefix to name the binary blob.
pub const BIN_SUFFIX: &'static str = ".bin";

/// Default name of the companion blob recorded in an index's `bin` field.
pub const BIN_NAME: &'static str = "trickydata.bin";

/// Suffix naming a single-file `.trickydata` artifact.
pub const TRICKYDATA_SUFFIX: &'static str = ".trickydata";

/// Suffix naming a single-file `.zip` artifact.
pub const ZIP_SUFFIX: &'static str = ".zip";

/// Version recorded when reading a source tree (which does not store one).
pub const SOURCE_VERSION: &'static str = "dev";

/// The corpus formats.
#[derive(Debug, Clone, Copy, PartialEq, Eq, Structural)]
pub enum Format {
    Source,
    Trickydata,
    Zip,
    JsonBin,
}

/// The distributable single-prefix container formats, in preference order.
pub open spec fn container_formats() -> Seq<Format> {
    seq![Format::Trickydata, Format::Zip, Format::JsonBin]
}

/// The `.input` source tree, rooted at a directory.
#[derive(Debug)]
pub struct SourceCorpus {
    pub root: String,
    pub version: String,
}

/// The pair of a pretty-printed JSON index and a raw binary blob.
#[derive(Debug)]
pub struct JsonBinCorpus {
    pub index: String,
    pub bin: String,
}

/// The single-file `.trickydata` format.
#[derive(Debug)]
pub struct TrickydataCorpus(pub String);

/// A single `.zip` holding the json-bin members.
#[derive(Debug)]
pub struct ZipCorpus(pub String);

/// A corpus in one of the formats, bound to its on-disk location.
#[derive(Debug)]
pub enum AnyCorpus {
    Source(SourceCorpus),
    Trickydata(TrickydataCorpus),
    Zip(ZipCorpus),
    JsonBin(JsonBinCorpus),
}

/// A corpus as a value: its format and the path texts it reads and writes
/// (for the source tree, its root and the version it records).
pub enum CorpusView {
    Source { root: Seq<char>, version: Seq<char> },
    Trickydata(Seq<char>),
    Zip(Seq<char>),
    JsonBin { index: Seq<char>, bin: Seq<char> },
}

impl View for AnyCorpus {
    type V = CorpusView;

    open spec fn view(&self) -> CorpusView {
        match self {
            AnyCorpus::Source(c) => CorpusView::Source { root: c.root@, version: c.version@ },
            AnyCorpus::Trickydata(c) => CorpusView::Trickydata(c.0@),
            AnyCorpus::Zip(c) => CorpusView::Zip(c.0@),
            AnyCorpus::JsonBin(c) => CorpusView::JsonBin { index: c.index@, bin: c.bin@ },
        }
    }
}

/// The format of a corpus value.
pub open spec fn view_format(c: CorpusView) -> Format {
    match c {
        CorpusView::Source { .. } => Format::Source,
        CorpusView::Trickydata(_) => Format::Trickydata,
        CorpusView::Zip(_) => Format::Zip,
        CorpusView::JsonBin { .. } => Format::JsonBin,
    }
}

/// The paths a corpus value reads and writes.
pub open spec fn view_paths(c: CorpusView) -> Seq<Seq<char>> {
    match c {
        CorpusView::Source { root, .. } => seq![root],
        CorpusView::Trickydata(p) => seq![p],
        CorpusView::Zip(p) => seq![p],
        CorpusView::JsonBin { index, bin } => seq![index, bin],
    }
}

/// The corpus of `format` at `location`: a stem for the containers (the
/// suffix is appended), the root directory for the source tree.
pub open spec fn corpus_for_spec(format: Format, location: Seq<char>) -> CorpusView {
    match format {
        Format::Source => CorpusView::Source { root: location, version: SOURCE_VERSION@ },
        Format::Trickydata => CorpusView::Trickydata(location + TRICKYDATA_SUFFIX@),
        Format::Zip => CorpusView::Zip(location + ZIP_SUFFIX@),
        Format::JsonBin => CorpusView::JsonBin {
            index: location + INDEX_SUFFIX@,
            bin: location + BIN_SUFFIX@,
        },
    }
}

impl SourceCorpus {
    /// A source corpus rooted at `root`, recording the default version on read.
    pub fn new(root: &str) -> (c: SourceCorpus)
        ensures
            c.root@ == root@,
            c.version@ == SOURCE_VERSION@,
    {
        SourceCorpus { root: root.to_owned(), version: SOURCE_VERSION.to_owned() }
    }
}

impl Format {
    /// Every format, source first.
    pub fn all() -> (v: Vec<Format>)
        ensures
            v@ == seq![Format::Source, Format::Trickydata, Format::Zip, Format::JsonBin],
    {
        let v = vec![Format::Source, Format::Trickydata, Format::Zip, Format::JsonBin];
        assert(v@ =~= seq![Format::Source, Format::Trickydata, Format::Zip, Format::JsonBin]);
        v
    }

    /// The distributable single-prefix container formats, in preference order.
    pub fn containers() -> (v: Vec<Format>)
        ensures
            v@ == container_formats(),
    {
        let v = vec![Format::Trickydata, Format::Zip, Format::JsonBin];
        assert(v@ =~= container_formats());
        v
    }

    /// This format's corpus bound to `location`: a stem for the container
    /// formats (`./trickydata` gives `./trickydata.trickydata`) or the root
    /// directory for the source tree.
    pub fn corpus_for(self, location: &str) -> (c: AnyCorpus)
        ensures
            c@ == corpus_for_spec(self, location@),
    {
        match self {
            Format::Source => AnyCorpus::Source(SourceCorpus::new(location)),
            Format::Trickydata => AnyCorpus::Trickydata(TrickydataCorpus(concat(location, TRICKYDATA_SUFFIX))),
            Format::Zip => AnyCorpus::Zip(ZipCorpus(concat(location, ZIP_SUFFIX))),
            Format::JsonBin => AnyCorpus::JsonBin(
                JsonBinCorpus {
                    index: concat(location, INDEX_SUFFIX),
                    bin: concat(location, BIN_SUFFIX),
                },
            ),
        }
    }
}

impl AnyCorpus {
    /// Which format this corpus reads and writes.
    pub fn format(&self) -> (f: Format)
        ensures
            f == view_format(self@),
    {
        match self {
            AnyCorpus::Source(_) => Format::Source,
            AnyCorpus::Trickydata(_) => Format::Trickydata,
            AnyCorpus::Zip(_) => Format::Zip,
            AnyCorpus::JsonBin(_) => Format::JsonBin,
        }
    }

    /// The path(s) this corpus reads and writes: a directory for the source tree.
    pub fn paths(&self) -> (v: Vec<String>)
        ensures
            v@.map_values(|s: String| s@) == view_paths(self@),
    {
        let v = match self {
            AnyCorpus::Source(c) => vec![c.root.clone()],
            AnyCorpus::Trickydata(c) => vec![c.0.clone()],
            AnyCorpus::Zip(c) => vec![c.0.clone()],
            AnyCorpus::JsonBin(c) => vec![c.index.clone(), c.bin.clone()],
        };
        assert(v@.map_values(|s: String| s@) =~= view_paths(self@));
        v
    }
}

/// The container format that a file name's suffix names.
pub open spec fn format_of_name(name: Seq<char>) -> Option<Format> {
    if has_suffix(name, TRICKYDATA_SUFFIX@) {
        Some(Format::Trickydata)
    } else if has_suffix(name, ZIP_SUFFIX@) {
        Some(Format::Zip)
    } else if has_suffix(name, INDEX_SUFFIX@) || has_suffix(name, BIN_SUFFIX@) {
        Some(Format::JsonBin)
    } else {
        None
    }
}

/// The container format of a concrete file path, by its file name's suffix.
pub open spec fn format_from_path_spec(path: Seq<char>) -> Option<Format> {
    match file_name_of(path_parts(path)) {
        Some(name) => format_of_name(name),
        None => None,
    }
}

/// Map a concrete file path to its container format by its suffix.
pub fn format_from_path(path: &str) -> (r: Option<Format>)
    ensures
        r == format_from_path_spec(path@),
{
    let name = match file_name(&components(path)) {
        Some(n) => n,
        None => return None,
    };
    let name = name.as_str();
    if ends_with(name, TRICKYDATA_SUFFIX) {
        Some(Format::Trickydata)
    } else if ends_with(name, ZIP_SUFFIX) {
        Some(Format::Zip)
    } else if ends_with(name, INDEX_SUFFIX) || ends_with(name, BIN_SUFFIX) {
        Some(Format::JsonBin)
    } else {
        None
    }
}

/// The artifact prefix of a json-bin member path: the path without its
/// member suffix.
pub open spec fn jsonbin_prefix_spec(path: Seq<char>) -> Seq<char> {
    if has_suffix(path, INDEX_SUFFIX@) {
        path.take(path.len() - INDEX_SUFFIX@.len())
    } else if has_suffix(path, BIN_SUFFIX@) {
        path.take(path.len() - BIN_SUFFIX@.len())
    } else {
        path
    }
}

/// Strip a json-bin member suffix to recover the artifact prefix.
pub fn jsonbin_prefix(path: &str) -> (r: String)
    ensures
        r@ == jsonbin_prefix_spec(path@),
{
    if let Some(stem) = strip_suffix(path, INDEX_SUFFIX) {
        return stem;
    }
    if let Some(stem) = strip_suffix(path, BIN_SUFFIX) {
        return stem;
    }
    path.to_owned()
}

/// The corpus bound to a concrete file `path` of a known `format`; for
/// json-bin the companion member is derived from the given member's stem.
pub open spec fn corpus_from_file_spec(path: Seq<char>, format: Format) -> CorpusView {
    match format {
        Format::JsonBin => corpus_for_spec(Format::JsonBin, jsonbin_prefix_spec(path)),
        Format::Source => CorpusView::Source { root: path, version: SOURCE_VERSION@ },
        Format::Trickydata => CorpusView::Trickydata(path),
        Format::Zip => CorpusView::Zip(path),
    }
}

/// Build a corpus bound to a concrete `path` for a known `format`.
pub fn corpus_from_file(path: &str, format: Format) -> (c: AnyCorpus)
    ensures
        c@ == corpus_from_file_spec(path@, format),
{
    match format {
        Format::Source => AnyCorpus::Source(SourceCorpus::new(path)),
        Format::Trickydata => AnyCorpus::Trickydata(TrickydataCorpus(path.to_owned())),
        Format::Zip => AnyCorpus::Zip(ZipCorpus(path.to_owned())),
        Format::JsonBin => Format::JsonBin.corpus_for(jsonbin_prefix(path).as_str()),
    }
}


/// Outcome of [`resolve`]: how a user-given path maps onto a corpus.
#[derive(Debug)]
pub enum Resolved {
    /// The path is an existing file or directory, in a single known format.
    ExactMatch(AnyCorpus),
    /// The path is a stem; one or more container formats exist, in preference order.
    StemMatch(Vec<AnyCorpus>),
    /// Nothing on disk; `Some` if a format could be derived from the path or
    /// the expected format.
    NoMatch(Option<AnyCorpus>),
}

/// [`Resolved`] as a value.
pub enum ResolvedView {
    ExactMatch(CorpusView),
    StemMatch(Seq<CorpusView>),
    NoMatch(Option<CorpusView>),
}

/// [`Resolved`] as a value.
pub open spec fn resolved_view(r: Resolved) -> ResolvedView {
    match r {
        Resolved::ExactMatch(c) => ResolvedView::ExactMatch(c@),
        Resolved::StemMatch(v) => ResolvedView::StemMatch(v@.map_values(|c: AnyCorpus| c@)),
        Resolved::NoMatch(o) => ResolvedView::NoMatch(
            match o {
                Some(c) => Some(c@),
                None => None,
            },
        ),
    }
}

/// `format` is allowed by `expected`.
pub open spec fn allowed(expected: Option<Format>, format: Format) -> bool {
    match expected {
        Some(e) => e == format,
        None => true,
    }
}

/// The container corpora for the stem `path` whose files all exist
/// (`present[i]` for the `i`th container format), in preference order.
pub open spec fn found_containers(path: Seq<char>, expected: Option<Format>, present: Seq<bool>) -> Seq<
    CorpusView,
>
    decreases present.len(),
{
    if present.len() == 0 {
        seq![]
    } else {
        let i = present.len() - 1;
        let before = found_containers(path, expected, present.drop_last());
        if i < 3 && allowed(expected, container_formats()[i]) && present[i] {
            before.push(corpus_for_spec(container_formats()[i], path))
        } else {
            before
        }
    }
}

/// How a user-given `path` maps onto a corpus, given what is on disk:
/// whether `path` is a file, whether it is a directory, and for each
/// container format in preference order whether all its files exist for the
/// stem `path`.
///
/// 1. An existing file is an exact match: its format is `expected`, or
///    inferred from its suffix (an unknown, unexpected file matches nothing).
/// 2. An existing directory is the source tree, also an exact match.
/// 3. Otherwise the containers present for the stem, in preference order.
/// 4. Otherwise no match, carrying a corpus derived from the path's suffix or
///    from `expected` when one is known.
///
/// `expected`, when set, restricts every step to that single format.
pub open spec fn resolve_spec(
    path: Seq<char>,
    expected: Option<Format>,
    is_file: bool,
    is_dir: bool,
    present: Seq<bool>,
) -> ResolvedView {
    if is_file {
        match (match expected {
            Some(e) => Some(e),
            None => format_from_path_spec(path),
        }) {
            Some(f) => ResolvedView::ExactMatch(corpus_from_file_spec(path, f)),
            None => ResolvedView::NoMatch(None),
        }
    } else if is_dir && allowed(expected, Format::Source) {
        ResolvedView::ExactMatch(corpus_for_spec(Format::Source, path))
    } else {
        let found = found_containers(path, expected, present);
        if found.len() > 0 {
            ResolvedView::StemMatch(found)
        } else {
            match format_from_path_spec(path) {
                Some(f) if allowed(expected, f) => ResolvedView::NoMatch(
                    Some(corpus_from_file_spec(path, f)),
                ),
                _ => match expected {
                    Some(f) => ResolvedView::NoMatch(Some(corpus_for_spec(f, path))),
                    None => ResolvedView::NoMatch(None),
                },
            }
        }
    }
}

/// Resolve a user-given `path` to a corpus (see [`resolve_spec`]), given
/// what is on disk.
pub fn resolve(path: &str, expected: Option<Format>, is_file: bool, is_dir: bool, present: &[bool]) -> (r:
    Resolved)
    requires
        present@.len() == 3,
    ensures
        resolved_view(r) == resolve_spec(path@, expected, is_file, is_dir, present@),
{
    if is_file {
        let f = match expected {
            Some(e) => Some(e),
            None => format_from_path(path),
        };
        return match f {
            Some(format) => Resolved::ExactMatch(corpus_from_file(path, format)),
            None => Resolved::NoMatch(None),
        };
    }
    let source_ok = match expected {
        Some(e) => e == Format::Source,
        None => true,
    };
    if is_dir && source_ok {
        return Resolved::ExactMatch(AnyCorpus::Source(SourceCorpus::new(path)));
    }
    let containers = Format::containers();
    let mut found: Vec<AnyCorpus> = Vec::new();
    let mut i: usize = 0;
    assert(present@.take(0) =~= Seq::<bool>::empty());
    while i < 3
        invariant
            i <= 3,
            present@.len() == 3,
            containers@ == container_formats(),
            found@.map_values(|c: AnyCorpus| c@) == found_containers(path@, expected, present@.take(i as int)),
        decreases 3 - i,
    {
        let f = containers[i];
        let ok = match expected {
            Some(e) => e == f,
            None => true,
        };
        assert(present@.take(i + 1).drop_last() == present@.take(i as int));
        if ok && present[i] {
            let c = f.corpus_for(path);
            let ghost prev = found@;
            found.push(c);
            assert(found@.map_values(|c: AnyCorpus| c@) =~= prev.map_values(|c: AnyCorpus| c@).push(c@));
        }
        i = i + 1;
    }
    assert(present@.take(3) == present@);
    if found.len() > 0 {
        return Resolved::StemMatch(found);
    }
    if let Some(format) = format_from_path(path) {
        let ok = match expected {
            Some(e) => e == format,
            None => true,
        };
        if ok {
            return Resolved::NoMatch(Some(corpus_from_file(path, format)));
        }
    }
    match expected {
        Some(format) => Resolved::NoMatch(Some(format.corpus_for(path))),
        None => Resolved::NoMatch(None),
    }
}

/// Why no corpus could be read from a path.
#[derive(Debug, Clone, Copy, PartialEq, Eq)]
pub enum LoadError {
    /// Neither a source directory nor a compiled artifact is there.
    NoCorpus,
}

/// The corpus to read for a resolved path: the exact match, or the preferred
/// one of several containers for a stem.
pub fn corpus_to_load(resolved: Resolved) -> (r: Result<AnyCorpus, LoadError>)
    ensures
        match (resolved_view(resolved), r) {
            (ResolvedView::ExactMatch(c), Ok(d)) => d@ == c,
            (ResolvedView::StemMatch(v), Ok(d)) => v.len() > 0 && d@ == v[0],
            (ResolvedView::StemMatch(v), Err(e)) => v.len() == 0 && e == LoadError::NoCorpus,
            (ResolvedView::NoMatch(_), Err(e)) => e == LoadError::NoCorpus,
            _ => false,
        },
{
    match resolved {
        Resolved::ExactMatch(c) => Ok(c),
        Resolved::StemMatch(mut v) => {
            if v.len() == 0 {
                return Err(LoadError::NoCorpus);
            }
            Ok(v.remove(0))
        },
        Resolved::NoMatch(_) => Err(LoadError::NoCorpus),
    }
}


proof fn lemma_found_containers_allowed(path: Seq<char>, expected: Option<Format>, present: Seq<bool>)
    ensures
        forall|i: int|
            0 <= i < found_containers(path, expected, present).len() ==> allowed(
                expected,
                view_format(#[trigger] found_containers(path, expected, present)[i]),
            ) && view_format(found_containers(path, expected, present)[i]) != Format::Source,
    decreases present.len(),
{
    if present.len() > 0 {
        lemma_found_containers_allowed(path, expected, present.drop_last());
    }
}

/// With an expected format, resolution only ever yields corpora of that
/// format: `expected` restricts every step.
pub proof fn lemma_resolve_respects_expected(
    path: Seq<char>,
    f: Format,
    is_file: bool,
    is_dir: bool,
    present: Seq<bool>,
)
    ensures
        match resolve_spec(path, Some(f), is_file, is_dir, present) {
            ResolvedView::ExactMatch(c) => view_format(c) == f,
            ResolvedView::StemMatch(v) => forall|i: int| 0 <= i < v.len() ==> view_format(#[trigger] v[i]) == f,
            ResolvedView::NoMatch(Some(c)) => view_format(c) == f,
            ResolvedView::NoMatch(None) => true,
        },
{
    lemma_found_containers_allowed(path, Some(f), present);
}

/// Without an existing file or directory at `path`, a stem match lists the
/// present containers in preference order, and is never empty.
pub proof fn lemma_stem_match_order(path: Seq<char>, expected: Option<Format>, present: Seq<bool>)
    requires
        present.len() == 3,
    ensures
        match resolve_spec(path, expected, false, false, present) {
            ResolvedView::StemMatch(v) => v.len() > 0 && v == found_containers(path, expected, present),
            _ => found_containers(path, expected, present).len() == 0,
        },
        found_containers(path, expected, present).len() > 0 <==> exists|i: int|
            0 <= i < 3 && present[i] && allowed(expected, #[trigger] container_formats()[i]),
{
    let p1 = present.take(1);
    let p2 = present.take(2);
    assert(present.drop_last() =~= p2);
    assert(p2.drop_last() =~= p1);
    assert(p1.drop_last() =~= Seq::<bool>::empty());
    assert(found_containers(path, expected, Seq::<bool>::empty()).len() == 0);
    assert(p1[0] == present[0]);
    assert(p2[0] == present[0] && p2[1] == present[1]);
    let c = container_formats();
    assert(found_containers(path, expected, p1).len() > 0 <==> (present[0] && allowed(expected, c[0])));
    assert(found_containers(path, expected, p2).len() > 0 <==> (found_containers(path, expected, p1).len()
        > 0 || (present[1] && allowed(expected, c[1]))));
    assert(found_containers(path, expected, present).len() > 0 <==> (found_containers(
        path,
        expected,
        p2,
    ).len() > 0 || (present[2] && allowed(expected, c[2]))));
    if exists|i: int| 0 <= i < 3 && present[i] && allowed(expected, #[trigger] container_formats()[i]) {
        let i = choose|i: int| 0 <= i < 3 && present[i] && allowed(expected, #[trigger] container_formats()[i]);
        assert(i == 0 || i == 1 || i == 2);
    }
}


/// The blob member name a json-bin index records: the file name of the blob
/// path, or the default name when it has none.
pub open spec fn bin_locator_spec(bin: Seq<char>) -> Seq<char> {
    match file_name_of(path_parts(bin)) {
        Some(name) => name,
        None => BIN_NAME@,
    }
}

impl JsonBinCorpus {
    /// The name of the blob beside the index, as its `bin` field records it.
    pub fn bin_locator(&self) -> (r: String)
        ensures
            r@ == bin_locator_spec(self.bin@),
    {
        match file_name(&components(self.bin.as_str())) {
            Some(name) => name,
            None => BIN_NAME.to_owned(),
        }
    }
}

/// The bytes of index entry `e` within `blob`, if they lie inside it.
pub open spec fn entry_bytes_spec(blob: Seq<u8>, e: IndexEntry) -> Option<Seq<u8>> {
    if e.offset + e.length <= blob.len() {
        Some(blob.subrange(e.offset as int, e.offset + e.length))
    } else {
        None
    }
}

proof fn lemma_blob_prefix(s: Seq<(String, CompiledInput)>, m: int, n: int)
    requires
        0 <= m <= n <= s.len(),
    ensures
        blob_before(s, m).len() <= blob_before(s, n).len(),
        blob_before(s, n).take(blob_before(s, m).len() as int) == blob_before(s, m),
    decreases n - m,
{
    if m < n {
        lemma_blob_prefix(s, m, n - 1);
        let a = blob_before(s, m);
        let b = blob_before(s, n - 1);
        assert(blob_before(s, n) == b + s[n - 1].1.bytes@);
        assert((b + s[n - 1].1.bytes@).take(a.len() as int) =~= b.take(a.len() as int));
    } else {
        assert(blob_before(s, n).take(blob_before(s, n).len() as int) =~= blob_before(s, n));
    }
}

/// Every entry of a corpus built from inputs lies inside the blob, and its
/// bytes there are its input's bytes.
pub proof fn lemma_entries_read_back(
    b: Built,
    s: Seq<(String, CompiledInput)>,
    inputs_dir: Option<Seq<char>>,
    version: Seq<char>,
    k: int,
)
    requires
        built_from(b, s, inputs_dir, version),
        0 <= k < s.len(),
    ensures
        entry_bytes_spec(b.blob@, b.index.inputs@[k]) == Some(s[k].1.bytes@),
{
    assert(entry_matches(b.index.inputs@[k], s, k, inputs_dir));
    lemma_blob_prefix(s, k + 1, s.len() as int);
    let before = blob_before(s, k);
    let upto = blob_before(s, k + 1);
    assert(upto == before + s[k].1.bytes@);
    let all = b.blob@;
    assert(all.take(upto.len() as int) == upto);
    let e = b.index.inputs@[k];
    assert(e.offset == before.len() && e.length == s[k].1.bytes@.len());
    assert(all.subrange(e.offset as int, e.offset + e.length) =~= upto.subrange(
        before.len() as int,
        upto.len() as int,
    ));
    assert(upto.subrange(before.len() as int, upto.len() as int) =~= s[k].1.bytes@);
}

/// The bytes of index entry `k` within the blob, if they lie inside it.
pub fn entry_bytes(built: &Built, k: usize) -> (r: Option<Vec<u8>>)
    requires
        k < built.index.inputs@.len(),
    ensures
        match (r, entry_bytes_spec(built.blob@, built.index.inputs@[k as int])) {
            (Some(v), Some(w)) => v@ == w,
            (None, None) => true,
            _ => false,
        },
{
    let e = &built.index.inputs[k];
    let offset = e.offset;
    let length = e.length;
    assert(offset == built.index.inputs@[k as int].offset);
    if offset > built.blob.len() || length > built.blob.len() - offset {
        return None;
    }
    let end = offset + length;
    let v = vstd::slice::slice_to_vec(vstd::slice::slice_subrange(built.blob.as_slice(), offset, end));
    Some(v)
}

/// Why a source tree could not be written.
#[derive(Debug)]
pub enum SourceWriteError {
    /// The entry's range lies outside the blob; the entry's name.
    OutOfBlobBounds(String),
}

impl SourceCorpus {
    /// Where index entry `k` is re-emitted (its root-relative path joined
    /// onto the root), and its bytes.
    pub fn entry_file(&self, built: &Built, k: usize) -> (r: Result<(String, Vec<u8>), SourceWriteError>)
        requires
            k < built.index.inputs@.len(),
        ensures
            match (r, entry_bytes_spec(built.blob@, built.index.inputs@[k as int])) {
                (Ok((p, v)), Some(w)) => v@ == w && p@ == path_text(
                    push_parts(path_parts(self.root@), path_parts(built.index.inputs@[k as int].path@)),
                ),
                (Err(SourceWriteError::OutOfBlobBounds(n)), None) => n@ == built.index.inputs@[k as int].metadata.name@,
                _ => false,
            },
    {
        let e = &built.index.inputs[k];
        match entry_bytes(built, k) {
            None => Err(SourceWriteError::OutOfBlobBounds(e.metadata.name.clone())),
            Some(bytes) => {
                let path = render_path(&join(&components(self.root.as_str()), &components(e.path.as_str())));
                Ok((path, bytes))
            },
        }
    }
}

/// The format an existing file at `path` is read as: `expected`, or else the
/// one its suffix names.
pub open spec fn existing_file_format(path: Seq<char>, expected: Option<Format>) -> Option<Format> {
    match expected {
        Some(e) => Some(e),
        None => format_from_path_spec(path),
    }
}

/// An existing file of a known format is read where it is: the exact match
/// is a corpus of that format whose paths include the given path itself. For
/// a single-file format (or a source root) that path is its only one; a
/// json-bin corpus pairs it with the sibling member of the same prefix.
///
/// Leaves out a json-bin file whose path does not end in a member suffix
/// (such as `a/x.bin/`): its prefix is then the whole path.
pub proof fn lemma_existing_file_binds_itself(
    path: Seq<char>,
    expected: Option<Format>,
    is_dir: bool,
    present: Seq<bool>,
)
    requires
        existing_file_format(path, expected) is Some,
        existing_file_format(path, expected) == Some(Format::JsonBin) ==> has_suffix(path, INDEX_SUFFIX@)
            || has_suffix(path, BIN_SUFFIX@),
    ensures
        match resolve_spec(path, expected, true, is_dir, present) {
            ResolvedView::ExactMatch(c) => {
                &&& Some(view_format(c)) == existing_file_format(path, expected)
                &&& view_paths(c).contains(path)
                &&& view_format(c) != Format::JsonBin ==> view_paths(c) == seq![path]
                &&& view_format(c) == Format::JsonBin ==> exists|p: Seq<char>|
                    view_paths(c) == seq![p + INDEX_SUFFIX@, p + BIN_SUFFIX@]
            },
            _ => false,
        },
{
    let f = existing_file_format(path, expected)->0;
    let r = resolve_spec(path, expected, true, is_dir, present);
    assert(r == ResolvedView::ExactMatch(corpus_from_file_spec(path, f)));
    let c = corpus_from_file_spec(path, f);
    if f == Format::JsonBin {
        let p = jsonbin_prefix_spec(path);
        assert(view_paths(c) == seq![p + INDEX_SUFFIX@, p + BIN_SUFFIX@]);
        if has_suffix(path, INDEX_SUFFIX@) {
            assert(p + INDEX_SUFFIX@ =~= path);
            assert(view_paths(c)[0] == path);
        } else {
            assert(p + BIN_SUFFIX@ =~= path);
            assert(view_paths(c)[1] == path);
        }
    } else {
        assert(view_paths(c)[0] == path);
    }
}

} // verus!
