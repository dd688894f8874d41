//! Re-emitting a corpus as a source tree and compiling that tree again gives
//! back the same corpus: the same entries, in the same order, with the same
//! metadata, root-relative paths, places in the blob and pair links, and the
//! same blob.

use vstd::prelude::*;
use crate::index::{
    blob_before, built_from, entry_matches, input_dir, link_decl, link_ok, link_target,
    links_after, links_of, links_ok_before, lookup_before, lookup_path, normalized_path, pair_view,
    pairs_of, strictly_sorted, Built, CompiledInput, IndexEntry,
};
use crate::corpus::entry_bytes_spec;
use crate::metadata::PairHint;
use crate::order::{lemma_lex_lt_asymmetric, lemma_lex_lt_irreflexive, text_lt};
use crate::pairing::{
    all_sorted, key_hint, lemma_dir_shape, lemma_key_hint_found, lemma_key_hint_insert,
    lemma_key_hint_listed, lemma_links_invariant, lemma_step_shape, links_state, paths_placed,
    rel_key, updated, LinkLists,
};
use crate::paths::{
    common_prefix_len, has_prefix, joined_text, normalized, parent_parts, path_parts, path_text, push_parts, relative_parts, PathPart,
};
use crate::relpath::{
    lemma_common_prefix_props, lemma_joined_text_reads_back, lemma_path_parts_shape, lemma_push_names,
    lemma_pushed_text_reads_back,
    plain_parts, rooted,
};
use vstd::utf8::encode_utf8;

verus! {

/// The components of `p` are those of `base`, then at least one name, and
/// names only.
pub open spec fn names_under(p: Seq<PathPart>, base: Seq<PathPart>) -> bool {
    &&& has_prefix(p, base)
    &&& p.len() > base.len()
    &&& forall|i: int| base.len() <= i < p.len() ==> #[trigger] p[i] is Normal
}

/// Every input lies under `dir`, named by names only: what a walk of the
/// directory `dir` gives.
pub open spec fn under_dir(s: Seq<(String, CompiledInput)>, dir: Seq<char>) -> bool {
    forall|k: int| 0 <= k < s.len() ==> names_under(#[trigger] path_parts(s[k].0@), path_parts(dir))
}

/// The names of input `k` below `dir`.
pub open spec fn names_below(s: Seq<(String, CompiledInput)>, dir: Seq<char>, k: int) -> Seq<PathPart> {
    path_parts(s[k].0@).skip(path_parts(dir).len() as int)
}

proof fn lemma_cpl_shift(x: Seq<PathPart>, a: Seq<PathPart>, c: Seq<PathPart>)
    ensures
        common_prefix_len(x + a, x + c) == x.len() + common_prefix_len(a, c),
    decreases x.len(),
{
    if x.len() == 0 {
        assert(x + a =~= a);
        assert(x + c =~= c);
    } else {
        assert((x + a)[0] == x[0]);
        assert((x + c)[0] == x[0]);
        assert((x + a).drop_first() =~= x.drop_first() + a);
        assert((x + c).drop_first() =~= x.drop_first() + c);
        lemma_cpl_shift(x.drop_first(), a, c);
    }
}

/// The relative path between two paths under a common prefix does not
/// depend on that prefix.
proof fn lemma_relative_shift(x: Seq<PathPart>, a: Seq<PathPart>, c: Seq<PathPart>)
    ensures
        relative_parts(x + a, x + c) == relative_parts(a, c),
{
    lemma_cpl_shift(x, a, c);
    lemma_common_prefix_props(a, c);
    let k = common_prefix_len(a, c) as int;
    assert((x + c).skip(x.len() + k) =~= c.skip(k));
}

/// Where an input under `dir` lies, in terms of its names below `dir`.
proof fn lemma_geometry(s: Seq<(String, CompiledInput)>, dir: Seq<char>, k: int)
    requires
        under_dir(s, dir),
        0 <= k < s.len(),
    ensures
        ({
            let b = path_parts(dir);
            let q = names_below(s, dir, k);
            &&& path_parts(s[k].0@) == b + q
            &&& q.len() > 0
            &&& forall|i: int| 0 <= i < q.len() ==> #[trigger] q[i] is Normal
            &&& plain_parts(q)
            &&& normalized_path(s, k) == normalized(b) + q
            &&& input_dir(s, k) == normalized(b) + q.drop_last()
        }),
{
    let b = path_parts(dir);
    let p = path_parts(s[k].0@);
    let q = names_below(s, dir, k);
    assert(names_under(p, b));
    assert(p =~= b + q);
    lemma_path_parts_shape(s[k].0@);
    assert forall|i: int| 0 <= i < q.len() implies #[trigger] q[i] is Normal by {
        assert(q[i] == p[b.len() + i]);
    }
    assert(plain_parts(q)) by {
        assert forall|i: int| 0 <= i < q.len() implies (#[trigger] q[i] == PathPart::Parent || (q[i] is Normal
            && crate::relpath::proper_name(q[i]->Normal_0))) by {
            assert(q[i] == p[b.len() + i]);
        }
    }
    lemma_push_names(b, q);
    assert(p.last() == q.last());
    assert(q[q.len() - 1] is Normal);
    assert(parent_parts(p) == Some(p.drop_last()));
    assert(p.drop_last() =~= b + q.drop_last());
    assert forall|i: int| 0 <= i < q.drop_last().len() implies #[trigger] q.drop_last()[i] is Normal by {
        assert(q.drop_last()[i] == q[i]);
    }
    lemma_push_names(b, q.drop_last());
}

/// The link between two inputs under `dir`, in terms of their names below
/// `dir`.
proof fn lemma_rel_key_names(s: Seq<(String, CompiledInput)>, dir: Seq<char>, a: int, y: int)
    requires
        under_dir(s, dir),
        0 <= a < s.len(),
        0 <= y < s.len(),
    ensures
        rel_key(s, a, y) == joined_text(
            relative_parts(names_below(s, dir, a).drop_last(), names_below(s, dir, y)),
        ),
{
    reveal(rel_key);
    lemma_geometry(s, dir, a);
    lemma_geometry(s, dir, y);
    let nb = normalized(path_parts(dir));
    lemma_relative_shift(nb, names_below(s, dir, a).drop_last(), names_below(s, dir, y));
}

/// `t` holds, entry by entry, the inputs that the source tree re-emitted
/// from `b` under `root` reads back as: each at the path of `root` joined
/// with the entry's root-relative path (where `SourceCorpus::entry_file`
/// puts it),
/// with the entry's metadata (`file-source` aside, which an index does not
/// keep) and with the entry's bytes from the blob.
pub open spec fn reemitted(t: Seq<(String, CompiledInput)>, b: Built, root: Seq<char>) -> bool {
    &&& t.len() == b.index.inputs@.len()
    &&& forall|k: int|
        0 <= k < t.len() ==> {
            let e = #[trigger] b.index.inputs@[k];
            let m = t[k].1.metadata;
            &&& t[k].0@ == path_text(push_parts(path_parts(root), path_parts(e.path@)))
            &&& m.name == e.metadata.name
            &&& m.description == e.metadata.description
            &&& m.tags == e.metadata.tags
            &&& m.format == e.metadata.format
            &&& m.decode_as == e.metadata.decode_as
            &&& m.mime_type == e.metadata.mime_type
            &&& m.invalid_as == e.metadata.invalid_as
            &&& m.licence == e.metadata.licence
            &&& m.pair == e.metadata.pair
            &&& m.unicode_meta == e.metadata.unicode_meta
            &&& entry_bytes_spec(b.blob@, e) == Some(t[k].1.bytes@)
        }
}

proof fn lemma_reemitted_paths(
    b: Built,
    s: Seq<(String, CompiledInput)>,
    dir: Seq<char>,
    version: Seq<char>,
    t: Seq<(String, CompiledInput)>,
    root: Seq<char>,
    k: int,
)
    requires
        built_from(b, s, Some(dir), version),
        under_dir(s, dir),
        reemitted(t, b, root),
        0 <= k < s.len(),
    ensures
        names_under(path_parts(t[k].0@), path_parts(root)),
        names_below(t, root, k) == names_below(s, dir, k),
        b.index.inputs@[k].path@ == joined_text(names_below(s, dir, k)),
{
    lemma_geometry(s, dir, k);
    assert(entry_matches(b.index.inputs@[k], s, k, Some(dir)));
    let e = b.index.inputs@[k];
    lemma_pushed_text_reads_back(root, e.path@);
    let bp = path_parts(dir);
    let q = names_below(s, dir, k);
    assert(has_prefix(path_parts(s[k].0@), bp));
    assert(e.path@ == joined_text(q));
    lemma_joined_text_reads_back(q);
    let r = path_parts(root);
    assert(q[0] is Normal);
    assert(push_parts(r, q) =~= r + q);
    let p = path_parts(t[k].0@);
    assert(p == r + q);
    assert(p.take(r.len() as int) =~= r);
    assert(p.skip(r.len() as int) =~= q);
    assert forall|i: int| r.len() <= i < p.len() implies #[trigger] p[i] is Normal by {
        assert(p[i] == q[i - r.len()]);
    }
}

/// The re-read inputs lie under `root` as the first ones lie under `dir`.
proof fn lemma_reemitted_under(
    b: Built,
    s: Seq<(String, CompiledInput)>,
    dir: Seq<char>,
    version: Seq<char>,
    t: Seq<(String, CompiledInput)>,
    root: Seq<char>,
)
    requires
        built_from(b, s, Some(dir), version),
        under_dir(s, dir),
        reemitted(t, b, root),
    ensures
        under_dir(t, root),
        t.len() == s.len(),
        forall|k: int| 0 <= k < s.len() ==> #[trigger] names_below(t, root, k) == names_below(s, dir, k),
        forall|a: int, y: int| 0 <= a < s.len() && 0 <= y < s.len() ==> #[trigger] rel_key(t, a, y) == rel_key(s, a, y),
{
    assert forall|k: int| 0 <= k < t.len() implies names_under(#[trigger] path_parts(t[k].0@), path_parts(root)) by {
        lemma_reemitted_paths(b, s, dir, version, t, root, k);
    }
    assert forall|k: int| 0 <= k < s.len() implies #[trigger] names_below(t, root, k) == names_below(s, dir, k) by {
        lemma_reemitted_paths(b, s, dir, version, t, root, k);
    }
    assert forall|a: int, y: int| 0 <= a < s.len() && 0 <= y < s.len() implies #[trigger] rel_key(t, a, y) == rel_key(s, a, y) by {
        lemma_rel_key_names(s, dir, a, y);
        lemma_rel_key_names(t, root, a, y);
        assert(names_below(t, root, a) == names_below(s, dir, a));
        assert(names_below(t, root, y) == names_below(s, dir, y));
    }
}

/// The re-read inputs are placed as a directory walk places them.
proof fn lemma_reemitted_placed(
    b: Built,
    s: Seq<(String, CompiledInput)>,
    dir: Seq<char>,
    version: Seq<char>,
    t: Seq<(String, CompiledInput)>,
    root: Seq<char>,
)
    requires
        built_from(b, s, Some(dir), version),
        under_dir(s, dir),
        paths_placed(s),
        reemitted(t, b, root),
    ensures
        paths_placed(t),
{
    lemma_reemitted_under(b, s, dir, version, t, root);
    let r = path_parts(root);
    assert forall|k: int| 0 <= k < t.len() implies {
        let p = #[trigger] path_parts(t[k].0@);
        p.len() > 0 && p.last() is Normal
    } by {
        lemma_geometry(t, root, k);
        let q = names_below(t, root, k);
        assert(path_parts(t[k].0@).last() == q.last());
        assert(q[q.len() - 1] is Normal);
    }
    assert forall|a: int, c: int| 0 <= a < t.len() && 0 <= c < t.len() implies rooted(
        path_parts(#[trigger] t[a].0@),
    ) == rooted(path_parts(#[trigger] t[c].0@)) by {
        lemma_geometry(t, root, a);
        lemma_geometry(t, root, c);
        let qa = names_below(t, root, a);
        let qc = names_below(t, root, c);
        if r.len() > 0 {
            assert((r + qa)[0] == r[0]);
            assert((r + qc)[0] == r[0]);
        } else {
            assert((r + qa)[0] == qa[0]);
            assert((r + qc)[0] == qc[0]);
        }
    }
    assert forall|a: int, c: int| 0 <= a < t.len() && 0 <= c < t.len() && a != c implies #[trigger] normalized_path(t, a)
        != #[trigger] normalized_path(t, c) by {
        lemma_geometry(t, root, a);
        lemma_geometry(t, root, c);
        lemma_geometry(s, dir, a);
        lemma_geometry(s, dir, c);
        assert(normalized_path(s, a) != normalized_path(s, c));
        if normalized_path(t, a) == normalized_path(t, c) {
            let nr = normalized(r);
            assert(names_below(t, root, a) =~= normalized_path(t, a).skip(nr.len() as int));
            assert(names_below(t, root, c) =~= normalized_path(t, c).skip(nr.len() as int));
        }
    }
}

/// Each list of `m` agrees with the list of `l` for the same input on every
/// key it holds.
pub open spec fn agrees_with(n: int, m: LinkLists, l: LinkLists) -> bool {
    forall|a: int, w: Seq<char>|
        0 <= a < n && #[trigger] key_hint(m(a), w) is Some ==> key_hint(l(a), w) == key_hint(m(a), w)
}

/// The lists of `m` hold the links of `l` for the inputs before `k`, and the
/// first `j` links of `l` for input `k`.
pub open spec fn holds_upto(n: int, m: LinkLists, l: LinkLists, k: int, j: int) -> bool {
    forall|a: int, i: int|
        0 <= a < n && 0 <= i < l(a).len() && (a < k || (a == k && i < j)) ==> key_hint(m(a), (#[trigger] l(a)[i]).0)
            == Some(l(a)[i].1)
}

proof fn lemma_fixed_step(
    n: int,
    before: LinkLists,
    after: LinkLists,
    l: LinkLists,
    k: int,
    y: int,
    fk: Seq<char>,
    rk: Seq<char>,
    h: PairHint,
    j: int,
)
    requires
        updated(n, before, after, k, y, fk, rk, h),
        all_sorted(n, l),
        0 < j <= l(k).len(),
        l(k)[j - 1] == (fk, h),
        key_hint(l(y), rk) == Some(h),
        agrees_with(n, before, l),
        holds_upto(n, before, l, k, j - 1),
    ensures
        agrees_with(n, after, l),
        holds_upto(n, after, l, k, j),
{
    assert(strictly_sorted(l(k)));
    lemma_key_hint_listed(l(k), j - 1);
    assert forall|a: int, w: Seq<char>| 0 <= a < n && #[trigger] key_hint(after(a), w) is Some implies key_hint(l(a), w)
        == key_hint(after(a), w) by {
        lemma_key_hint_insert(before(k), fk, h, w);
        lemma_key_hint_insert(before(y), rk, h, w);
        if a != k && a != y {
            assert(after(a) == before(a));
        }
    }
    assert forall|a: int, i: int|
        0 <= a < n && 0 <= i < l(a).len() && (a < k || (a == k && i < j)) implies key_hint(
        after(a),
        (#[trigger] l(a)[i]).0,
    ) == Some(l(a)[i].1) by {
        let w = l(a)[i].0;
        assert(strictly_sorted(l(a)));
        lemma_key_hint_listed(l(a), i);
        lemma_key_hint_insert(before(k), fk, h, w);
        lemma_key_hint_insert(before(y), rk, h, w);
        if a != k && a != y {
            assert(after(a) == before(a));
        }
        if !(a == k && i == j - 1) {
            assert(key_hint(before(a), w) == Some(l(a)[i].1));
        }
    }
}

/// The declared links of re-read input `k` are the links of entry `k`.
proof fn lemma_decls(
    b: Built,
    s: Seq<(String, CompiledInput)>,
    dir: Seq<char>,
    version: Seq<char>,
    t: Seq<(String, CompiledInput)>,
    root: Seq<char>,
    k: int,
)
    requires
        built_from(b, s, Some(dir), version),
        reemitted(t, b, root),
        0 <= k < s.len(),
    ensures
        pair_view(pairs_of(t[k].1.metadata)) == links_of(s, k),
{
    assert(entry_matches(b.index.inputs@[k], s, k, Some(dir)));
    let e = b.index.inputs@[k];
    assert(t[k].1.metadata.pair == e.metadata.pair);
    match e.metadata.pair {
        None => {
            assert(pair_view(pairs_of(t[k].1.metadata)) =~= links_of(s, k));
        },
        Some(v) => {},
    }
}

proof fn lemma_lookup_unique(s: Seq<(String, CompiledInput)>, i: int, upto: int)
    requires
        paths_placed(s),
        0 <= i < upto <= s.len(),
    ensures
        lookup_before(s, normalized_path(s, i), upto) == Some(i),
    decreases upto,
{
    if upto - 1 != i {
        assert(normalized_path(s, upto - 1) != normalized_path(s, i));
        lemma_lookup_unique(s, i, upto - 1);
    }
}

/// The facts the re-read inputs share with the first ones.
pub open spec fn round_trip_setup(
    b: Built,
    s: Seq<(String, CompiledInput)>,
    dir: Seq<char>,
    version: Seq<char>,
    t: Seq<(String, CompiledInput)>,
    root: Seq<char>,
) -> bool {
    &&& built_from(b, s, Some(dir), version)
    &&& links_ok_before(s, s.len() as int, 0)
    &&& paths_placed(s)
    &&& under_dir(s, dir)
    &&& reemitted(t, b, root)
}

/// Where link `j` of re-read input `k` leads: to the input its key names.
proof fn lemma_t_link(
    b: Built,
    s: Seq<(String, CompiledInput)>,
    dir: Seq<char>,
    version: Seq<char>,
    t: Seq<(String, CompiledInput)>,
    root: Seq<char>,
    k: int,
    j: int,
) -> (y: int)
    requires
        round_trip_setup(b, s, dir, version, t, root),
        0 <= k < s.len(),
        0 <= j < links_of(s, k).len(),
    ensures
        0 <= y < s.len(),
        y != k,
        (link_decl(t, k, j).with@, link_decl(t, k, j).hint) == links_of(s, k)[j],
        rel_key(t, k, y) == links_of(s, k)[j].0,
        lookup_path(t, link_target(t, k, j)) == Some(y),
{
    let n = s.len() as nat;
    lemma_links_invariant(s, n, 0);
    lemma_reemitted_under(b, s, dir, version, t, root);
    lemma_reemitted_placed(b, s, dir, version, t, root);
    lemma_decls(b, s, dir, version, t, root, k);
    let l = links_state(s, n, 0);
    assert(l(k) == links_of(s, k));
    assert(0 <= k < s.len() && 0 <= j < l(k).len());
    let y = choose|y: int| 0 <= y < s.len() && y != k && #[trigger] rel_key(s, k, y) == l(k)[j].0;
    assert(rel_key(t, k, y) == rel_key(s, k, y));
    let d = pairs_of(t[k].1.metadata);
    assert(pair_view(d)[j] == (d[j].with@, d[j].hint));
    lemma_dir_shape(t, k);
    lemma_dir_shape(t, y);
    assert(rooted(path_parts(t[k].0@)) == rooted(path_parts(t[y].0@)));
    reveal(rel_key);
    crate::relpath::lemma_relative_path_resolves(input_dir(t, k), normalized_path(t, y));
    assert(link_target(t, k, j) == normalized_path(t, y));
    lemma_lookup_unique(t, y, t.len() as int);
    y
}

/// The re-read inputs' links all lead to other inputs.
proof fn lemma_t_links_ok(
    b: Built,
    s: Seq<(String, CompiledInput)>,
    dir: Seq<char>,
    version: Seq<char>,
    t: Seq<(String, CompiledInput)>,
    root: Seq<char>,
)
    requires
        round_trip_setup(b, s, dir, version, t, root),
    ensures
        links_ok_before(t, t.len() as int, 0),
        paths_placed(t),
        forall|k: int| 0 <= k < t.len() ==> #[trigger] pairs_of(t[k].1.metadata).len() == links_of(s, k).len(),
{
    lemma_reemitted_placed(b, s, dir, version, t, root);
    assert forall|k: int| 0 <= k < t.len() implies #[trigger] pairs_of(t[k].1.metadata).len() == links_of(s, k).len() by {
        lemma_decls(b, s, dir, version, t, root, k);
    }
    assert forall|k2: int, j2: int|
        0 <= k2 < t.len() && 0 <= j2 < pairs_of(t[k2].1.metadata).len() && (k2 < t.len() || (k2 == t.len() && j2 < 0))
        implies link_ok(t, k2, j2) by {
        lemma_decls(b, s, dir, version, t, root, k2);
        let y = lemma_t_link(b, s, dir, version, t, root, k2, j2);
    }
}

proof fn lemma_fixed_fold(
    b: Built,
    s: Seq<(String, CompiledInput)>,
    dir: Seq<char>,
    version: Seq<char>,
    t: Seq<(String, CompiledInput)>,
    root: Seq<char>,
    k: nat,
    j: nat,
)
    requires
        round_trip_setup(b, s, dir, version, t, root),
        k <= s.len(),
        k < s.len() ==> j <= links_of(s, k as int).len(),
        k == s.len() ==> j == 0,
    ensures
        agrees_with(s.len() as int, links_state(t, k, j), links_state(s, s.len() as nat, 0)),
        holds_upto(s.len() as int, links_state(t, k, j), links_state(s, s.len() as nat, 0), k as int, j as int),
    decreases k, j,
{
    let n = s.len() as int;
    let l = links_state(s, s.len() as nat, 0);
    lemma_t_links_ok(b, s, dir, version, t, root);
    if j > 0 {
        let j0 = (j - 1) as nat;
        lemma_fixed_fold(b, s, dir, version, t, root, k, j0);
        let tgt = lemma_step_shape(t, k, j);
        let y = lemma_t_link(b, s, dir, version, t, root, k as int, j - 1);
        assert(tgt == y);
        let h = link_decl(t, k as int, j - 1).hint;
        let fk = rel_key(t, k as int, y);
        let rk = rel_key(t, y, k as int);
        lemma_links_invariant(s, s.len() as nat, 0);
        lemma_reemitted_under(b, s, dir, version, t, root);
        assert(l(k as int) == links_of(s, k as int));
        assert(l(y) == links_of(s, y));
        assert(rel_key(t, k as int, y) == rel_key(s, k as int, y));
        assert(rel_key(t, y, k as int) == rel_key(s, y, k as int));
        assert(key_hint(l(k as int), rel_key(s, k as int, y)) == key_hint(l(y), rel_key(s, y, k as int)));
        assert(strictly_sorted(l(k as int)));
        lemma_key_hint_listed(l(k as int), j - 1);
        lemma_fixed_step(n, links_state(t, k, j0), links_state(t, k, j), l, k as int, y, fk, rk, h, j as int);
    } else if k > 0 {
        let j1 = pairs_of(t[k - 1].1.metadata).len();
        lemma_fixed_fold(b, s, dir, version, t, root, (k - 1) as nat, j1);
        assert(links_state(t, k, 0) =~= links_state(t, (k - 1) as nat, j1)) by {
            assert forall|e: int| #[trigger] links_state(t, k, 0)(e) == links_state(t, (k - 1) as nat, j1)(e) by {
                assert(links_after(t, k, 0, e) == links_after(t, (k - 1) as nat, j1, e));
            }
        }
        assert(l(k - 1) == links_of(s, k - 1));
    } else {
        let m = links_state(t, 0, 0);
        assert forall|a: int| #[trigger] m(a) == Seq::<(Seq<char>, PairHint)>::empty() by {
            assert(links_after(t, 0, 0, a) =~= Seq::<(Seq<char>, PairHint)>::empty());
        }
    }
}

proof fn lemma_key_hint_later(l: Seq<(Seq<char>, PairHint)>, w: Seq<char>)
    requires
        strictly_sorted(l),
        key_hint(l, w) is Some,
        l.len() > 0,
        l[0].0 != w,
    ensures
        text_lt(l[0].0, w),
{
    lemma_key_hint_found(l, w);
    let i = choose|i: int| 0 <= i < l.len() && l[i] == (w, key_hint(l, w)->0);
    assert(i != 0);
    assert(text_lt(l[0].0, l[i].0));
}

/// Two link lists in increasing order of key that give every key the same
/// hint are the same list.
proof fn lemma_lists_equal(x: Seq<(Seq<char>, PairHint)>, y: Seq<(Seq<char>, PairHint)>)
    requires
        strictly_sorted(x),
        strictly_sorted(y),
        forall|w: Seq<char>| #[trigger] key_hint(x, w) == key_hint(y, w),
    ensures
        x == y,
    decreases x.len() + y.len(),
{
    if x.len() == 0 && y.len() == 0 {
        assert(x =~= y);
    } else if x.len() == 0 {
        assert(key_hint(y, y[0].0) is Some);
        assert(key_hint(x, y[0].0) is None);
    } else if y.len() == 0 {
        assert(key_hint(x, x[0].0) is Some);
        assert(key_hint(y, x[0].0) is None);
    } else {
        let a = x[0].0;
        let c = y[0].0;
        assert(key_hint(x, a) == Some(x[0].1));
        assert(key_hint(y, c) == Some(y[0].1));
        if a != c {
            assert(key_hint(y, a) is Some);
            assert(key_hint(x, c) is Some);
            lemma_key_hint_later(y, a);
            lemma_key_hint_later(x, c);
            lemma_lex_lt_asymmetric(encode_utf8(a), encode_utf8(c));
        }
        assert(x[0] == y[0]);
        let x1 = x.drop_first();
        let y1 = y.drop_first();
        assert(strictly_sorted(x1)) by {
            assert forall|i: int, j: int| 0 <= i < j < x1.len() implies text_lt(x1[i].0, x1[j].0) by {
                assert(x1[i] == x[i + 1] && x1[j] == x[j + 1]);
            }
        }
        assert(strictly_sorted(y1)) by {
            assert forall|i: int, j: int| 0 <= i < j < y1.len() implies text_lt(y1[i].0, y1[j].0) by {
                assert(y1[i] == y[i + 1] && y1[j] == y[j + 1]);
            }
        }
        assert forall|w: Seq<char>| #[trigger] key_hint(x1, w) == key_hint(y1, w) by {
            if w != a {
                assert(key_hint(x, w) == key_hint(x1, w));
                assert(key_hint(y, w) == key_hint(y1, w));
            } else {
                lemma_lex_lt_irreflexive(encode_utf8(a));
                if key_hint(x1, w) is Some {
                    lemma_key_hint_found(x1, w);
                    let i = choose|i: int| 0 <= i < x1.len() && x1[i] == (w, key_hint(x1, w)->0);
                    assert(text_lt(x[0].0, x[i + 1].0));
                }
                if key_hint(y1, w) is Some {
                    lemma_key_hint_found(y1, w);
                    let i = choose|i: int| 0 <= i < y1.len() && y1[i] == (w, key_hint(y1, w)->0);
                    assert(text_lt(y[0].0, y[i + 1].0));
                }
            }
        }
        lemma_lists_equal(x1, y1);
        assert(x =~= seq![x[0]] + x1);
        assert(y =~= seq![y[0]] + y1);
    }
}

proof fn lemma_blob_same(s: Seq<(String, CompiledInput)>, t: Seq<(String, CompiledInput)>, k: int)
    requires
        0 <= k <= s.len(),
        k <= t.len(),
        forall|i: int| 0 <= i < k ==> #[trigger] t[i].1.bytes@ == s[i].1.bytes@,
    ensures
        blob_before(t, k) == blob_before(s, k),
    decreases k,
{
    if k > 0 {
        lemma_blob_same(s, t, k - 1);
        assert(t[k - 1].1.bytes@ == s[k - 1].1.bytes@);
    }
}

/// Two index entries with the same content: the same metadata (its
/// `file-source` aside, which an index does not keep), the same pair links,
/// the same root-relative path and the same place in the blob.
pub open spec fn same_index_entry(e: IndexEntry, f: IndexEntry) -> bool {
    &&& e.metadata.name == f.metadata.name
    &&& e.metadata.description == f.metadata.description
    &&& e.metadata.tags == f.metadata.tags
    &&& e.metadata.format == f.metadata.format
    &&& e.metadata.decode_as == f.metadata.decode_as
    &&& e.metadata.mime_type == f.metadata.mime_type
    &&& e.metadata.invalid_as == f.metadata.invalid_as
    &&& e.metadata.licence == f.metadata.licence
    &&& e.metadata.unicode_meta == f.metadata.unicode_meta
    &&& match (e.metadata.pair, f.metadata.pair) {
        (None, None) => true,
        (Some(v), Some(w)) => pair_view(v@) == pair_view(w@),
        _ => false,
    }
    &&& e.path@ == f.path@
    &&& e.offset == f.offset
    &&& e.length == f.length
}

/// Two corpora with the same content: version, `bin` locator, entries in
/// order, and blob.
pub open spec fn same_corpus(x: Built, y: Built) -> bool {
    &&& x.index.version@ == y.index.version@
    &&& x.index.bin == y.index.bin
    &&& x.index.inputs@.len() == y.index.inputs@.len()
    &&& forall|k: int|
        0 <= k < x.index.inputs@.len() ==> same_index_entry(#[trigger] x.index.inputs@[k], y.index.inputs@[k])
    &&& x.blob@ == y.blob@
}

/// A corpus re-emitted as a source tree and compiled again is the same
/// corpus.
///
/// `b` is built from inputs `s` found under `dir` (as a directory walk finds
/// them: each under `dir`, by names only, at distinct paths, and every pair
/// link resolving). Writing `b` out as a source tree under `root` puts each
/// entry at `root` joined with its root-relative path, with its metadata
/// and its bytes; `t` is what reading that tree gives back, entry by entry
/// (the YAML and data-region round trips are stated apart). Then a corpus
/// `b2` built from `t` has the same version, entries (metadata, pair links,
/// paths, places in the blob) and blob as `b`: pair links that are already
/// symmetric come out of the build unchanged.
pub proof fn lemma_source_round_trip(
    b: Built,
    s: Seq<(String, CompiledInput)>,
    dir: Seq<char>,
    version: Seq<char>,
    t: Seq<(String, CompiledInput)>,
    root: Seq<char>,
    b2: Built,
)
    requires
        built_from(b, s, Some(dir), version),
        links_ok_before(s, s.len() as int, 0),
        paths_placed(s),
        under_dir(s, dir),
        reemitted(t, b, root),
        built_from(b2, t, Some(root), version),
    ensures
        same_corpus(b2, b),
{
    let n = s.len() as nat;
    assert(round_trip_setup(b, s, dir, version, t, root));
    lemma_t_links_ok(b, s, dir, version, t, root);
    lemma_fixed_fold(b, s, dir, version, t, root, n, 0);
    lemma_links_invariant(t, n, 0);
    lemma_links_invariant(s, n, 0);
    let m = links_state(t, n, 0);
    let l = links_state(s, n, 0);
    assert forall|k: int| 0 <= k < s.len() implies #[trigger] links_of(t, k) == links_of(s, k) by {
        assert(m(k) == links_of(t, k));
        assert(l(k) == links_of(s, k));
        assert(strictly_sorted(m(k)));
        assert(strictly_sorted(l(k)));
        assert forall|w: Seq<char>| #[trigger] key_hint(m(k), w) == key_hint(l(k), w) by {
            if key_hint(m(k), w) is None && key_hint(l(k), w) is Some {
                lemma_key_hint_found(l(k), w);
                let i = choose|i: int| 0 <= i < l(k).len() && #[trigger] l(k)[i] == (w, key_hint(l(k), w)->0);
                assert(key_hint(m(k), l(k)[i].0) == Some(l(k)[i].1));
            }
        }
        lemma_lists_equal(m(k), l(k));
    }
    assert forall|i: int| 0 <= i < s.len() implies #[trigger] t[i].1.bytes@ == s[i].1.bytes@ by {
        crate::corpus::lemma_entries_read_back(b, s, Some(dir), version, i);
    }
    lemma_blob_same(s, t, s.len() as int);
    lemma_reemitted_under(b, s, dir, version, t, root);
    assert forall|k: int| 0 <= k < b2.index.inputs@.len() implies same_index_entry(
        #[trigger] b2.index.inputs@[k],
        b.index.inputs@[k],
    ) by {
        assert(entry_matches(b2.index.inputs@[k], t, k, Some(root)));
        assert(entry_matches(b.index.inputs@[k], s, k, Some(dir)));
        lemma_reemitted_paths(b, s, dir, version, t, root, k);
        lemma_blob_same(s, t, k);
        lemma_geometry(t, root, k);
        assert(has_prefix(path_parts(t[k].0@), path_parts(root)));
        assert(links_of(t, k) == links_of(s, k));
    }
}

} // verus!
