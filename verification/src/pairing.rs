//! Pair links are symmetric in a built index: when an input lists a link to
//! another input, that input lists the link back, with the same hint.

use vstd::prelude::*;
use crate::index::{
    built_from, entry_matches, forward_key, input_dir, link_decl, link_ok, link_target,
    links_after, links_of, links_ok_before, lookup_before, lookup_path, normalized_path, or_empty,
    pair_view, pairs_of, reverse_key, sorted_insert, strictly_sorted, Built, CompiledInput,
};
use crate::metadata::PairHint;
use crate::order::{
    lemma_encode_injective, lemma_lex_lt_asymmetric, lemma_lex_lt_irreflexive, lemma_lex_lt_total,
    lemma_lex_lt_transitive, text_lt,
};
use crate::paths::{
    is_normal_form, joined_text, normalized, parent_parts, path_parts, push_parts, relative_parts,
    PathPart,
};
use crate::relpath::{
    lemma_normalized_shape, lemma_path_parts_shape, lemma_relative_path_resolves, proper_parts,
    root_first, rooted,
};
use vstd::utf8::encode_utf8;

verus! {

/// The hint of the first link with key `w`, if any.
pub open spec fn key_hint(l: Seq<(Seq<char>, PairHint)>, w: Seq<char>) -> Option<PairHint>
    decreases l.len(),
{
    if l.len() == 0 {
        None
    } else if l[0].0 == w {
        Some(l[0].1)
    } else {
        key_hint(l.drop_first(), w)
    }
}

/// Every input's path ends in a name, the paths are all rooted or all not,
/// and no two inputs have the same normalized path: what a walk of a
/// directory tree gives.
pub open spec fn paths_placed(s: Seq<(String, CompiledInput)>) -> bool {
    &&& forall|k: int|
        0 <= k < s.len() ==> {
            let p = #[trigger] path_parts(s[k].0@);
            p.len() > 0 && p.last() is Normal
        }
    &&& forall|a: int, b: int|
        0 <= a < s.len() && 0 <= b < s.len() ==> rooted(path_parts(#[trigger] s[a].0@)) == rooted(
            path_parts(#[trigger] s[b].0@),
        )
    &&& forall|a: int, b: int|
        0 <= a < s.len() && 0 <= b < s.len() && a != b ==> #[trigger] normalized_path(s, a)
            != #[trigger] normalized_path(s, b)
}

/// The link from input `a` to input `b`, as a path relative to `a`'s
/// directory.
#[verifier::opaque]
pub open spec fn rel_key(s: Seq<(String, CompiledInput)>, a: int, b: int) -> Seq<char> {
    joined_text(relative_parts(input_dir(s, a), normalized_path(s, b)))
}

pub(crate) proof fn lemma_key_hint_insert(l: Seq<(Seq<char>, PairHint)>, k: Seq<char>, h: PairHint, w: Seq<char>)
    ensures
        key_hint(sorted_insert(l, k, h), w) == (if w == k {
            Some(h)
        } else {
            key_hint(l, w)
        }),
    decreases l.len(),
{
    let r = sorted_insert(l, k, h);
    if l.len() == 0 {
        assert(r.drop_first() =~= Seq::<(Seq<char>, PairHint)>::empty());
    } else if l[0].0 == k {
        assert(r.drop_first() =~= l.drop_first());
    } else if text_lt(k, l[0].0) {
        assert(r.drop_first() =~= l);
    } else {
        assert(r.drop_first() =~= sorted_insert(l.drop_first(), k, h));
        lemma_key_hint_insert(l.drop_first(), k, h, w);
    }
}

proof fn lemma_sorted_insert_keys(l: Seq<(Seq<char>, PairHint)>, k: Seq<char>, h: PairHint)
    ensures
        forall|i: int|
            0 <= i < sorted_insert(l, k, h).len() ==> (#[trigger] sorted_insert(l, k, h)[i]).0 == k
                || exists|j: int| 0 <= j < l.len() && l[j].0 == sorted_insert(l, k, h)[i].0,
    decreases l.len(),
{
    let r = sorted_insert(l, k, h);
    if l.len() > 0 {
        if l[0].0 == k {
            assert forall|i: int| 0 <= i < r.len() implies (#[trigger] r[i]).0 == k || exists|j: int|
                0 <= j < l.len() && l[j].0 == r[i].0 by {
                if i > 0 {
                    assert(r[i] == l[i]);
                }
            }
        } else if text_lt(k, l[0].0) {
            assert forall|i: int| 0 <= i < r.len() implies (#[trigger] r[i]).0 == k || exists|j: int|
                0 <= j < l.len() && l[j].0 == r[i].0 by {
                if i > 0 {
                    assert(r[i] == l[i - 1]);
                }
            }
        } else {
            let l1 = l.drop_first();
            lemma_sorted_insert_keys(l1, k, h);
            let r1 = sorted_insert(l1, k, h);
            assert forall|i: int| 0 <= i < r.len() implies (#[trigger] r[i]).0 == k || exists|j: int|
                0 <= j < l.len() && l[j].0 == r[i].0 by {
                if i == 0 {
                    assert(l[0].0 == r[0].0);
                } else {
                    assert(r[i] == r1[i - 1]);
                    if r1[i - 1].0 != k {
                        let j = choose|j: int| 0 <= j < l1.len() && l1[j].0 == r1[i - 1].0;
                        assert(l[j + 1] == l1[j]);
                    }
                }
            }
        }
    }
}

proof fn lemma_sorted_insert_sorted(l: Seq<(Seq<char>, PairHint)>, k: Seq<char>, h: PairHint)
    requires
        strictly_sorted(l),
    ensures
        strictly_sorted(sorted_insert(l, k, h)),
    decreases l.len(),
{
    let r = sorted_insert(l, k, h);
    if l.len() > 0 {
        if l[0].0 == k {
            assert forall|a: int, b: int| 0 <= a < b < r.len() implies text_lt(r[a].0, r[b].0) by {
                assert(r[b] == l[b]);
                if a > 0 {
                    assert(r[a] == l[a]);
                }
            }
        } else if text_lt(k, l[0].0) {
            assert forall|a: int, b: int| 0 <= a < b < r.len() implies text_lt(r[a].0, r[b].0) by {
                assert(r[b] == l[b - 1]);
                if a > 0 {
                    assert(r[a] == l[a - 1]);
                } else if b > 1 {
                    assert(text_lt(l[0].0, l[b - 1].0));
                    lemma_lex_lt_transitive(encode_utf8(k), encode_utf8(l[0].0), encode_utf8(l[b - 1].0));
                }
            }
        } else {
            lemma_encode_injective(l[0].0, k);
            lemma_lex_lt_total(encode_utf8(l[0].0), encode_utf8(k));
            let l1 = l.drop_first();
            assert(strictly_sorted(l1)) by {
                assert forall|a: int, b: int| 0 <= a < b < l1.len() implies text_lt(l1[a].0, l1[b].0) by {
                    assert(l1[a] == l[a + 1]);
                    assert(l1[b] == l[b + 1]);
                }
            }
            lemma_sorted_insert_sorted(l1, k, h);
            lemma_sorted_insert_keys(l1, k, h);
            let r1 = sorted_insert(l1, k, h);
            assert forall|a: int, b: int| 0 <= a < b < r.len() implies text_lt(r[a].0, r[b].0) by {
                assert(r[b] == r1[b - 1]);
                if a > 0 {
                    assert(r[a] == r1[a - 1]);
                } else {
                    assert(r[0] == l[0]);
                    if r1[b - 1].0 != k {
                        let j = choose|j: int| 0 <= j < l1.len() && l1[j].0 == r1[b - 1].0;
                        assert(l[j + 1] == l1[j]);
                    }
                }
            }
        }
    }
}

pub(crate) proof fn lemma_key_hint_listed(l: Seq<(Seq<char>, PairHint)>, i: int)
    requires
        strictly_sorted(l),
        0 <= i < l.len(),
    ensures
        key_hint(l, l[i].0) == Some(l[i].1),
    decreases i,
{
    if i > 0 {
        assert(text_lt(l[0].0, l[i].0));
        lemma_lex_lt_irreflexive(encode_utf8(l[i].0));
        let l1 = l.drop_first();
        assert(strictly_sorted(l1)) by {
            assert forall|a: int, b: int| 0 <= a < b < l1.len() implies text_lt(l1[a].0, l1[b].0) by {
                assert(l1[a] == l[a + 1]);
                assert(l1[b] == l[b + 1]);
            }
        }
        lemma_key_hint_listed(l1, i - 1);
        assert(l1[i - 1] == l[i]);
    }
}

pub(crate) proof fn lemma_key_hint_found(l: Seq<(Seq<char>, PairHint)>, w: Seq<char>)
    requires
        key_hint(l, w) is Some,
    ensures
        exists|i: int| 0 <= i < l.len() && l[i] == (w, key_hint(l, w)->0),
    decreases l.len(),
{
    if l[0].0 == w {
        assert(l[0] == (w, key_hint(l, w)->0));
    } else {
        lemma_key_hint_found(l.drop_first(), w);
        let i = choose|i: int| 0 <= i < l.drop_first().len() && l.drop_first()[i] == (w, key_hint(l, w)->0);
        assert(l[i + 1] == l.drop_first()[i]);
    }
}

pub(crate) proof fn lemma_lookup_before(s: Seq<(String, CompiledInput)>, t: Seq<PathPart>, upto: int)
    requires
        upto <= s.len(),
        lookup_before(s, t, upto) is Some,
    ensures
        0 <= lookup_before(s, t, upto)->0 < upto,
        normalized_path(s, lookup_before(s, t, upto)->0) == t,
    decreases upto,
{
    if upto > 0 && normalized_path(s, upto - 1) != t {
        lemma_lookup_before(s, t, upto - 1);
    }
}

/// What the paths of placed inputs give: the directory of an input is the
/// parent of its normalized path, both are normalized, and all are rooted
/// alike.
pub(crate) proof fn lemma_dir_shape(s: Seq<(String, CompiledInput)>, a: int)
    requires
        paths_placed(s),
        0 <= a < s.len(),
    ensures
        or_empty(parent_parts(normalized_path(s, a))) == input_dir(s, a),
        is_normal_form(input_dir(s, a)),
        is_normal_form(normalized_path(s, a)),
        proper_parts(normalized_path(s, a)),
        rooted(input_dir(s, a)) == rooted(path_parts(s[a].0@)),
        rooted(normalized_path(s, a)) == rooted(path_parts(s[a].0@)),
{
    let p = path_parts(s[a].0@);
    lemma_path_parts_shape(s[a].0@);
    let q = p.drop_last();
    assert(p =~= q + seq![p.last()]);
    assert(root_first(q)) by {
        assert forall|i: int| 0 < i < q.len() implies #[trigger] q[i] != PathPart::Root by {
            assert(q[i] == p[i]);
        }
    }
    assert(proper_parts(q)) by {
        assert forall|i: int| 0 <= i < q.len() && #[trigger] q[i] is Normal implies crate::relpath::proper_name(q[i]->Normal_0) by {
            assert(q[i] == p[i]);
        }
    }
    lemma_normalized_shape(q);
    lemma_normalized_shape(p);
    assert(p.drop_last() == q);
    assert(normalized(p) =~= normalized(q) + seq![p.last()]);
    if q.len() > 0 {
        assert(q[0] == p[0]);
    }
}

proof fn lemma_keys_distinct(s: Seq<(String, CompiledInput)>, a: int, b: int, c: int)
    requires
        paths_placed(s),
        0 <= a < s.len(),
        0 <= b < s.len(),
        0 <= c < s.len(),
        b != c,
    ensures
        rel_key(s, a, b) != rel_key(s, a, c),
{
    reveal(rel_key);
    lemma_dir_shape(s, a);
    lemma_dir_shape(s, b);
    lemma_dir_shape(s, c);
    assert(rooted(path_parts(s[a].0@)) == rooted(path_parts(s[b].0@)));
    assert(rooted(path_parts(s[a].0@)) == rooted(path_parts(s[c].0@)));
    lemma_relative_path_resolves(input_dir(s, a), normalized_path(s, b));
    lemma_relative_path_resolves(input_dir(s, a), normalized_path(s, c));
    assert(normalized_path(s, b) != normalized_path(s, c));
}


/// A link list for each input.
pub type LinkLists = spec_fn(int) -> Seq<(Seq<char>, PairHint)>;

/// Every input's link list once the links of inputs `..k`, and the first `j`
/// links of input `k`, have taken effect.
pub open spec fn links_state(s: Seq<(String, CompiledInput)>, k: nat, j: nat) -> LinkLists {
    |e: int| links_after(s, k, j, e)
}

/// Every list is kept in increasing order of key.
pub open spec fn all_sorted(n: int, m: LinkLists) -> bool {
    forall|a: int| 0 <= a < n ==> strictly_sorted(#[trigger] m(a))
}

/// The link from `a` to `b` and the link from `b` back to `a` are both
/// absent, or both present with the same hint.
pub open spec fn all_symmetric(s: Seq<(String, CompiledInput)>, m: LinkLists) -> bool {
    forall|a: int, b: int|
        #![trigger rel_key(s, a, b)]
        0 <= a < s.len() && 0 <= b < s.len() && a != b ==> key_hint(m(a), rel_key(s, a, b)) == key_hint(
            m(b),
            rel_key(s, b, a),
        )
}

/// Every link an input lists leads to another input.
pub open spec fn all_keyed(s: Seq<(String, CompiledInput)>, m: LinkLists) -> bool {
    forall|a: int, i: int|
        0 <= a < s.len() && 0 <= i < m(a).len() ==> exists|b: int|
            0 <= b < s.len() && b != a && #[trigger] rel_key(s, a, b) == (#[trigger] m(a)[i]).0
}

/// `after` is `before` with the link between `kk` and `t` recorded on both.
pub open spec fn updated(
    n: int,
    before: LinkLists,
    after: LinkLists,
    kk: int,
    t: int,
    fk: Seq<char>,
    rk: Seq<char>,
    h: PairHint,
) -> bool {
    &&& 0 <= kk < n
    &&& 0 <= t < n
    &&& kk != t
    &&& after(kk) == sorted_insert(before(kk), fk, h)
    &&& after(t) == sorted_insert(before(t), rk, h)
    &&& forall|e: int| 0 <= e < n && e != kk && e != t ==> #[trigger] after(e) == before(e)
}

proof fn lemma_update_sorted(
    n: int,
    before: LinkLists,
    after: LinkLists,
    kk: int,
    t: int,
    fk: Seq<char>,
    rk: Seq<char>,
    h: PairHint,
)
    requires
        updated(n, before, after, kk, t, fk, rk, h),
        all_sorted(n, before),
    ensures
        all_sorted(n, after),
{
    assert forall|a: int| 0 <= a < n implies strictly_sorted(#[trigger] after(a)) by {
        if a == kk {
            lemma_sorted_insert_sorted(before(kk), fk, h);
        } else if a == t {
            lemma_sorted_insert_sorted(before(t), rk, h);
        } else {
            assert(strictly_sorted(before(a)));
        }
    }
}

proof fn lemma_update_symmetric(
    s: Seq<(String, CompiledInput)>,
    before: LinkLists,
    after: LinkLists,
    kk: int,
    t: int,
    h: PairHint,
)
    requires
        paths_placed(s),
        updated(s.len() as int, before, after, kk, t, rel_key(s, kk, t), rel_key(s, t, kk), h),
        all_symmetric(s, before),
    ensures
        all_symmetric(s, after),
{
    let n = s.len() as int;
    let fk = rel_key(s, kk, t);
    let rk = rel_key(s, t, kk);
    let pk = before(kk);
    let pt = before(t);
    assert forall|a: int, b: int|
        #![trigger rel_key(s, a, b)]
        0 <= a < n && 0 <= b < n && a != b implies key_hint(after(a), rel_key(s, a, b))
        == key_hint(after(b), rel_key(s, b, a)) by {
        assert(key_hint(before(a), rel_key(s, a, b)) == key_hint(before(b), rel_key(s, b, a)));
        lemma_key_hint_insert(pk, fk, h, rel_key(s, a, b));
        lemma_key_hint_insert(pk, fk, h, rel_key(s, b, a));
        lemma_key_hint_insert(pt, rk, h, rel_key(s, a, b));
        lemma_key_hint_insert(pt, rk, h, rel_key(s, b, a));
        if a == kk && b != t {
            lemma_keys_distinct(s, kk, b, t);
        }
        if b == kk && a != t {
            lemma_keys_distinct(s, kk, a, t);
        }
        if a == t && b != kk {
            lemma_keys_distinct(s, t, b, kk);
        }
        if b == t && a != kk {
            lemma_keys_distinct(s, t, a, kk);
        }
    }
}

proof fn lemma_update_keyed(
    s: Seq<(String, CompiledInput)>,
    before: LinkLists,
    after: LinkLists,
    kk: int,
    t: int,
    h: PairHint,
)
    requires
        updated(s.len() as int, before, after, kk, t, rel_key(s, kk, t), rel_key(s, t, kk), h),
        all_keyed(s, before),
    ensures
        all_keyed(s, after),
{
    let n = s.len() as int;
    let fk = rel_key(s, kk, t);
    let rk = rel_key(s, t, kk);
    let pk = before(kk);
    let pt = before(t);
    assert forall|a: int, i: int|
        0 <= a < n && 0 <= i < after(a).len() implies exists|b: int|
        0 <= b < n && b != a && #[trigger] rel_key(s, a, b) == (#[trigger] after(a)[i]).0 by {
        let l = after(a);
        if a == kk {
            lemma_sorted_insert_keys(pk, fk, h);
            if l[i].0 != fk {
                let j1 = choose|j1: int| 0 <= j1 < pk.len() && pk[j1].0 == l[i].0;
                assert(pk[j1] == before(a)[j1]);
            }
        } else if a == t {
            lemma_sorted_insert_keys(pt, rk, h);
            if l[i].0 != rk {
                let j1 = choose|j1: int| 0 <= j1 < pt.len() && pt[j1].0 == l[i].0;
                assert(pt[j1] == before(a)[j1]);
            }
        } else {
            assert(l[i] == before(a)[i]);
        }
    }
}

pub(crate) proof fn lemma_step_shape(s: Seq<(String, CompiledInput)>, k: nat, j: nat) -> (t: int)
    requires
        paths_placed(s),
        links_ok_before(s, s.len() as int, 0),
        k < s.len(),
        0 < j <= pairs_of(s[k as int].1.metadata).len(),
    ensures
        updated(
            s.len() as int,
            links_state(s, k, (j - 1) as nat),
            links_state(s, k, j),
            k as int,
            t,
            rel_key(s, k as int, t),
            rel_key(s, t, k as int),
            link_decl(s, k as int, j - 1).hint,
        ),
        lookup_path(s, link_target(s, k as int, j - 1)) == Some(t),
{
    reveal(rel_key);
    let n = s.len() as int;
    let kk = k as int;
    let jj = j - 1;
    assert(link_ok(s, kk, jj));
    let target = link_target(s, kk, jj);
    lemma_lookup_before(s, target, n);
    let t = lookup_path(s, target)->0;
    lemma_dir_shape(s, t);
    assert(forward_key(s, kk, jj) == rel_key(s, kk, t));
    assert(reverse_key(s, kk, jj) == rel_key(s, t, kk));
    let before = links_state(s, k, (j - 1) as nat);
    let after = links_state(s, k, j);
    assert(after(kk) == links_after(s, k, j, kk));
    assert(after(t) == links_after(s, k, j, t));
    assert forall|e: int| 0 <= e < n && e != kk && e != t implies #[trigger] after(e) == before(e) by {
        assert(after(e) == links_after(s, k, j, e));
        assert(before(e) == links_after(s, k, (j - 1) as nat, e));
    }
    t
}

pub(crate) proof fn lemma_links_invariant(s: Seq<(String, CompiledInput)>, k: nat, j: nat)
    requires
        paths_placed(s),
        links_ok_before(s, s.len() as int, 0),
        k <= s.len(),
        k < s.len() ==> j <= pairs_of(s[k as int].1.metadata).len(),
        k == s.len() ==> j == 0,
    ensures
        all_sorted(s.len() as int, links_state(s, k, j)),
        all_symmetric(s, links_state(s, k, j)),
        all_keyed(s, links_state(s, k, j)),
    decreases k, j,
{
    let n = s.len() as int;
    if j > 0 {
        let j0 = (j - 1) as nat;
        lemma_links_invariant(s, k, j0);
        let t = lemma_step_shape(s, k, j);
        let h = link_decl(s, k as int, j - 1).hint;
        lemma_update_sorted(n, links_state(s, k, j0), links_state(s, k, j), k as int, t, rel_key(s, k as int, t), rel_key(s, t, k as int), h);
        lemma_update_symmetric(s, links_state(s, k, j0), links_state(s, k, j), k as int, t, h);
        lemma_update_keyed(s, links_state(s, k, j0), links_state(s, k, j), k as int, t, h);
    } else if k > 0 {
        let j1 = pairs_of(s[k - 1].1.metadata).len();
        lemma_links_invariant(s, (k - 1) as nat, j1);
        assert(links_state(s, k, 0) =~= links_state(s, (k - 1) as nat, j1)) by {
            assert forall|e: int| #[trigger] links_state(s, k, 0)(e) == links_state(s, (k - 1) as nat, j1)(e) by {
                assert(links_after(s, k, 0, e) == links_after(s, (k - 1) as nat, j1, e));
            }
        }
    } else {
        let m = links_state(s, 0, 0);
        assert forall|a: int| #[trigger] m(a) == Seq::<(Seq<char>, PairHint)>::empty() by {
            assert(links_after(s, 0, 0, a) =~= Seq::<(Seq<char>, PairHint)>::empty());
        }
        assert(all_sorted(n, m));
        assert(all_symmetric(s, m));
        assert(all_keyed(s, m));
    }
}

/// Pair links in a built index are symmetric. Where an input's pair list
/// holds a link, the link leads to another input: written relative to the
/// listing input's directory, it resolves (joined onto that directory and
/// normalized) to the other input's path. That other input lists the link
/// back, written relative to its own directory, with the same hint.
///
/// This holds for inputs whose paths each end in a name, are all rooted or
/// all relative, and are distinct once normalized, as a directory walk gives
/// them.
pub proof fn lemma_pair_links_symmetric(
    b: Built,
    s: Seq<(String, CompiledInput)>,
    inputs_dir: Option<Seq<char>>,
    version: Seq<char>,
    x: int,
    i: int,
)
    requires
        built_from(b, s, inputs_dir, version),
        links_ok_before(s, s.len() as int, 0),
        paths_placed(s),
        0 <= x < s.len(),
        b.index.inputs@[x].metadata.pair is Some,
        0 <= i < b.index.inputs@[x].metadata.pair->0@.len(),
    ensures
        ({
            let p = b.index.inputs@[x].metadata.pair->0@[i];
            exists|y: int|
                {
                    &&& 0 <= y < s.len()
                    &&& y != x
                    &&& p.with@ == rel_key(s, x, y)
                    &&& normalized(push_parts(input_dir(s, x), path_parts(p.with@))) == normalized_path(s, y)
                    &&& b.index.inputs@[y].metadata.pair is Some
                    &&& exists|i2: int|
                        0 <= i2 < b.index.inputs@[y].metadata.pair->0@.len() && {
                            let q = #[trigger] b.index.inputs@[y].metadata.pair->0@[i2];
                            q.with@ == rel_key(s, y, x) && q.hint == p.hint
                        }
                }
        }),
{
    let n = s.len() as nat;
    lemma_links_invariant(s, n, 0);
    let m = links_state(s, n, 0);
    assert(m(x) == links_after(s, n, 0, x));
    assert(entry_matches(b.index.inputs@[x], s, x, inputs_dir));
    let v = b.index.inputs@[x].metadata.pair->0@;
    let lx = links_of(s, x);
    assert(pair_view(v) == lx);
    let p = v[i];
    assert(lx[i] == (p.with@, p.hint));
    assert(strictly_sorted(m(x)));
    lemma_key_hint_listed(lx, i);
    assert(0 <= x < s.len() && 0 <= i < m(x).len());
    assert(m(x)[i] == lx[i]);
    let y = choose|y: int| 0 <= y < s.len() && y != x && #[trigger] rel_key(s, x, y) == m(x)[i].0;
    assert(key_hint(m(x), rel_key(s, x, y)) == key_hint(m(y), rel_key(s, y, x)));
    assert(m(y) == links_after(s, n, 0, y));
    let ly = links_of(s, y);
    lemma_key_hint_found(ly, rel_key(s, y, x));
    let i2 = choose|i2: int| 0 <= i2 < ly.len() && ly[i2] == (rel_key(s, y, x), key_hint(ly, rel_key(s, y, x))->0);
    assert(entry_matches(b.index.inputs@[y], s, y, inputs_dir));
    let w = b.index.inputs@[y].metadata.pair->0@;
    assert(pair_view(w) == ly);
    assert(w[i2].with@ == ly[i2].0);
    lemma_dir_shape(s, x);
    lemma_dir_shape(s, y);
    assert(rooted(path_parts(s[x].0@)) == rooted(path_parts(s[y].0@)));
    lemma_relative_path_resolves(input_dir(s, x), normalized_path(s, y));
    reveal(rel_key);
}

} // verus!
