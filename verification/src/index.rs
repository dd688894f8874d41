//! Assembling compiled inputs into the corpus index document plus the binary
//! blob that its entries point into.

use vstd::prelude::*;
use vstd::utf8::encode_utf8;
use crate::metadata::{Metadata, Pair, PairHint};
use crate::paths::{
    components, has_prefix, strip_prefix, join, normalize, parent, parts_of, path_string, relative_path, render_path,
    Component, joined_text, normalized, parent_parts, path_parts, path_text, push_parts,
    relative_parts, PathPart,
};
use crate::order::{
    lemma_encode_injective, lemma_lex_lt_asymmetric, lemma_lex_lt_irreflexive,
    lemma_lex_lt_total, lemma_lex_lt_transitive, str_lt, text_lt,
};

verus! {

/// A fully-compiled input: its frontmatter metadata plus the decoded bytes.
pub struct CompiledInput {
    pub metadata: Metadata,
    pub bytes: Vec<u8>,
}

/// The name of an input found at a path.
pub open spec fn name_of(it: (String, CompiledInput)) -> Seq<char> {
    it.1.metadata.name@
}

/// Inputs in non-decreasing order of name.
pub open spec fn sorted_by_name(s: Seq<(String, CompiledInput)>) -> bool {
    forall|a: int, b: int| 0 <= a < b < s.len() ==> !text_lt(name_of(s[b]), name_of(s[a]))
}

/// `s` holds the items of `t`, rearranged by `perm` (`s[q]` is `t[perm[q]]`).
pub open spec fn arranged_by<T>(s: Seq<T>, t: Seq<T>, perm: Seq<int>) -> bool {
    &&& s.len() == t.len()
    &&& perm.len() == s.len()
    &&& forall|q: int| 0 <= q < s.len() ==> 0 <= #[trigger] perm[q] < t.len() && s[q] == t[perm[q]]
    &&& forall|a: int, b: int| 0 <= a < b < s.len() ==> perm[a] != perm[b]
}

/// Items of `s` that `same` relates keep the order they had in the sequence
/// that `perm` arranges.
pub open spec fn keeps_ties<T>(s: Seq<T>, perm: Seq<int>, same: spec_fn(T, T) -> bool) -> bool {
    forall|a: int, b: int| 0 <= a < b < s.len() && same(s[a], s[b]) ==> #[trigger] perm[a] < #[trigger] perm[b]
}

/// Two inputs of the same name.
pub open spec fn same_name(x: (String, CompiledInput), y: (String, CompiledInput)) -> bool {
    name_of(x) == name_of(y)
}

/// `s` holds the items of `t` in some order.
pub open spec fn is_arrangement_of<T>(s: Seq<T>, t: Seq<T>) -> bool {
    exists|perm: Seq<int>| arranged_by(s, t, perm)
}

/// Name order is a total preorder: if `a <= b` and `b <= c` then `a <= c`.
pub proof fn lemma_text_le_transitive(a: Seq<char>, b: Seq<char>, c: Seq<char>)
    requires
        !text_lt(b, a),
        !text_lt(c, b),
    ensures
        !text_lt(c, a),
{
    let ea = encode_utf8(a);
    let eb = encode_utf8(b);
    let ec = encode_utf8(c);
    if text_lt(c, a) && ea != eb && eb != ec {
        lemma_lex_lt_total(ea, eb);
        lemma_lex_lt_total(eb, ec);
        lemma_lex_lt_transitive(ea, eb, ec);
        lemma_lex_lt_asymmetric(ea, ec);
    }
}

/// Sort inputs by name, keeping inputs of equal name in their given order.
pub fn sort_by_name(items: Vec<(String, CompiledInput)>) -> (sorted: Vec<(String, CompiledInput)>)
    ensures
        sorted_by_name(sorted@),
        is_arrangement_of(sorted@, items@),
        exists|perm: Seq<int>|
            arranged_by(sorted@, items@, perm) && keeps_ties(
                sorted@,
                perm,
                |x: (String, CompiledInput), y: (String, CompiledInput)| same_name(x, y),
            ),
{
    let ghost same = |x: (String, CompiledInput), y: (String, CompiledInput)| same_name(x, y);
    let ghost orig = items@;
    let mut sorted: Vec<(String, CompiledInput)> = Vec::new();
    let ghost mut perm: Seq<int> = seq![];
    for item in it: items
        invariant
            it.seq() == orig,
            sorted@.len() == it.index(),
            arranged_by(sorted@, orig.take(it.index()), perm),
            keeps_ties(sorted@, perm, same),
            same == (|x: (String, CompiledInput), y: (String, CompiledInput)| same_name(x, y)),
            sorted_by_name(sorted@),
    {
        let ghost i = it.index();
        assert(item == orig[i]);
        let mut p = sorted.len();
        while p > 0 && str_lt(item.1.metadata.name.as_str(), sorted[p - 1].1.metadata.name.as_str())
            invariant
                p <= sorted@.len(),
                forall|b: int| p <= b < sorted@.len() ==> text_lt(name_of(item), #[trigger] name_of(sorted@[b])),
            decreases p,
        {
            p = p - 1;
        }
        proof {
            if p > 0 {
                assert(!text_lt(name_of(item), name_of(sorted@[p - 1])));
            }
            assert forall|b: int| p <= b < sorted@.len() implies !text_lt(
                #[trigger] name_of(sorted@[b]),
                name_of(item),
            ) by {
                lemma_lex_lt_asymmetric(
                    encode_utf8(name_of(item)),
                    encode_utf8(name_of(sorted@[b])),
                );
            }
            assert forall|a: int| 0 <= a < p implies !text_lt(
                name_of(item),
                #[trigger] name_of(sorted@[a]),
            ) by {
                if a < p - 1 {
                    lemma_text_le_transitive(
                        name_of(sorted@[a]),
                        name_of(sorted@[p - 1]),
                        name_of(item),
                    );
                }
            }
        }
        let ghost old_sorted = sorted@;
        let ghost old_perm = perm;
        sorted.insert(p, item);
        proof {
            perm = old_perm.insert(p as int, i);
            let t = orig.take(i + 1);
            assert forall|q: int| 0 <= q < sorted@.len() implies 0 <= #[trigger] perm[q] < t.len()
                && sorted@[q] == t[perm[q]] by {
                if q < p {
                    assert(perm[q] == old_perm[q]);
                } else if q > p {
                    assert(perm[q] == old_perm[q - 1]);
                }
            }
            assert forall|a: int, b: int| 0 <= a < b < sorted@.len() implies perm[a] != perm[b] by {
                if a < p && b < p {
                } else if a < p && b == p {
                    assert(old_perm[a] < i);
                } else if a < p {
                    assert(perm[b] == old_perm[b - 1]);
                } else if a == p {
                    assert(perm[b] == old_perm[b - 1]);
                    assert(old_perm[b - 1] < i);
                } else {
                    assert(perm[a] == old_perm[a - 1]);
                    assert(perm[b] == old_perm[b - 1]);
                }
            }
            assert(arranged_by(sorted@, t, perm));
            assert forall|a: int, b: int| 0 <= a < b < sorted@.len() && same(sorted@[a], sorted@[b]) implies #[trigger] perm[a]
                < #[trigger] perm[b] by {
                if a < p && b < p {
                    assert(sorted@[a] == old_sorted[a] && sorted@[b] == old_sorted[b]);
                    assert(old_perm[a] < old_perm[b]);
                } else if a < p && b == p {
                    assert(old_perm[a] < i);
                } else if a < p {
                    assert(sorted@[a] == old_sorted[a] && sorted@[b] == old_sorted[b - 1]);
                    assert(perm[b] == old_perm[b - 1]);
                    assert(old_perm[a] < old_perm[b - 1]);
                } else if a == p {
                    assert(sorted@[b] == old_sorted[b - 1]);
                    assert(text_lt(name_of(item), name_of(old_sorted[b - 1])));
                    lemma_lex_lt_irreflexive(encode_utf8(name_of(item)));
                } else {
                    assert(sorted@[a] == old_sorted[a - 1] && sorted@[b] == old_sorted[b - 1]);
                    assert(perm[a] == old_perm[a - 1]);
                    assert(perm[b] == old_perm[b - 1]);
                    assert(old_perm[a - 1] < old_perm[b - 1]);
                }
            }
            assert forall|a: int, b: int| 0 <= a < b < sorted@.len() implies !text_lt(
                name_of(sorted@[b]),
                name_of(sorted@[a]),
            ) by {
                if b < p {
                    assert(sorted@[a] == old_sorted[a]);
                    assert(sorted@[b] == old_sorted[b]);
                } else if b == p {
                    assert(sorted@[a] == old_sorted[a]);
                } else if a < p {
                    assert(sorted@[a] == old_sorted[a]);
                    assert(sorted@[b] == old_sorted[b - 1]);
                } else if a == p {
                    assert(sorted@[b] == old_sorted[b - 1]);
                } else {
                    assert(sorted@[a] == old_sorted[a - 1]);
                    assert(sorted@[b] == old_sorted[b - 1]);
                }
            }
        }
    }
    assert(orig.take(orig.len() as int) == orig);
    assert(arranged_by(sorted@, items@, perm) && keeps_ties(sorted@, perm, same));
    sorted
}


/// Two different inputs of `s` are named `n`.
pub open spec fn is_duplicated(s: Seq<(String, CompiledInput)>, n: Seq<char>) -> bool {
    exists|a: int, b: int| 0 <= a < b < s.len() && name_of(s[a]) == n && name_of(s[b]) == n
}

/// An arrangement reaches every position of what it rearranges.
proof fn lemma_arranged_onto<T>(s: Seq<T>, t: Seq<T>, perm: Seq<int>, j: int)
    requires
        arranged_by(s, t, perm),
        0 <= j < t.len(),
    ensures
        exists|q: int| 0 <= q < s.len() && perm[q] == j,
{
    broadcast use vstd::set::group_set_axioms;

    assert(perm.no_duplicates()) by {
        assert forall|a: int, b: int| 0 <= a < perm.len() && 0 <= b < perm.len() && a != b implies perm[a]
            != perm[b] by {
            if a < b {
            } else {
            }
        }
    }
    perm.unique_seq_to_set();
    vstd::set_lib::lemma_int_range(0, t.len() as int);
    let range = vstd::set_lib::set_int_range(0, t.len() as int);
    assert(perm.to_set().subset_of(range)) by {
        assert forall|x: int| perm.to_set().contains(x) implies range.contains(x) by {
            let q = choose|q: int| 0 <= q < perm.len() && perm[q] == x;
        }
    }
    vstd::seq_lib::seq_to_set_is_finite(perm);
    vstd::set_lib::lemma_subset_equality(perm.to_set(), range);
    assert(range.contains(j));
    assert(perm.to_set().contains(j));
}

/// Rearranging inputs neither creates nor removes duplicated names.
proof fn lemma_arranged_duplicates(
    s: Seq<(String, CompiledInput)>,
    t: Seq<(String, CompiledInput)>,
    perm: Seq<int>,
    n: Seq<char>,
)
    requires
        arranged_by(s, t, perm),
    ensures
        is_duplicated(s, n) == is_duplicated(t, n),
{
    if is_duplicated(s, n) {
        let (a, b) = choose|a: int, b: int|
            0 <= a < b < s.len() && name_of(s[a]) == n && name_of(s[b]) == n;
        if perm[a] < perm[b] {
            assert(name_of(t[perm[a]]) == n && name_of(t[perm[b]]) == n);
        } else {
            assert(name_of(t[perm[b]]) == n && name_of(t[perm[a]]) == n);
        }
    }
    if is_duplicated(t, n) {
        let (a, b) = choose|a: int, b: int|
            0 <= a < b < t.len() && name_of(t[a]) == n && name_of(t[b]) == n;
        lemma_arranged_onto(s, t, perm, a);
        lemma_arranged_onto(s, t, perm, b);
        let qa = choose|q: int| 0 <= q < s.len() && perm[q] == a;
        let qb = choose|q: int| 0 <= q < s.len() && perm[q] == b;
        if qa < qb {
            assert(name_of(s[qa]) == n && name_of(s[qb]) == n);
        } else {
            assert(name_of(s[qb]) == n && name_of(s[qa]) == n);
        }
    }
}

/// The first position of sorted inputs whose name already occurred.
fn first_duplicate(s: &Vec<(String, CompiledInput)>) -> (r: Option<usize>)
    requires
        sorted_by_name(s@),
    ensures
        match r {
            Some(k) => 0 < k < s@.len() && is_duplicated(s@, name_of(s@[k as int]))
                && forall|m: Seq<char>| is_duplicated(s@, m) ==> !text_lt(m, name_of(s@[k as int])),
            None => forall|m: Seq<char>| !is_duplicated(s@, m),
        },
{
    let mut k: usize = 1;
    while k < s.len()
        invariant
            1 <= k,
            sorted_by_name(s@),
            forall|a: int, b: int| 0 <= a < b < k && b < s@.len() ==> name_of(s@[a]) != name_of(s@[b]),
        decreases s.len() - k,
    {
        if s[k].1.metadata.name == s[k - 1].1.metadata.name {
            proof {
                let n = name_of(s@[k as int]);
                assert(name_of(s@[k - 1]) == n);
                assert forall|m: Seq<char>| is_duplicated(s@, m) implies !text_lt(m, n) by {
                    let (a, b) = choose|a: int, b: int|
                        0 <= a < b < s@.len() && name_of(s@[a]) == m && name_of(s@[b]) == m;
                    if b < k {
                    } else if b == k {
                        lemma_lex_lt_irreflexive(encode_utf8(n));
                    } else {
                        assert(!text_lt(name_of(s@[b]), name_of(s@[k as int])));
                    }
                }
            }
            return Some(k);
        }
        proof {
            assert forall|a: int, b: int| 0 <= a < b < k + 1 && b < s@.len() implies name_of(s@[a])
                != name_of(s@[b]) by {
                if b == k && a < k - 1 && name_of(s@[a]) == name_of(s@[b]) {
                    let n = name_of(s@[b]);
                    assert(!text_lt(name_of(s@[k - 1]), name_of(s@[a])));
                    assert(!text_lt(name_of(s@[k as int]), name_of(s@[k - 1])));
                    let e1 = encode_utf8(name_of(s@[k - 1]));
                    let e2 = encode_utf8(n);
                    lemma_encode_injective(name_of(s@[k - 1]), n);
                    lemma_lex_lt_total(e1, e2);
                }
            }
        }
        k = k + 1;
    }
    None
}


/// A pair-link list as values: each link's `with` text and hint.
pub open spec fn link_view(l: Seq<(String, PairHint)>) -> Seq<(Seq<char>, PairHint)> {
    l.map_values(|x: (String, PairHint)| (x.0@, x.1))
}

/// Inserting `(k, h)` into a list kept in increasing order of key, replacing
/// the hint of an existing equal key: a map from key to hint, iterated in key
/// order.
pub open spec fn sorted_insert(
    l: Seq<(Seq<char>, PairHint)>,
    k: Seq<char>,
    h: PairHint,
) -> Seq<(Seq<char>, PairHint)>
    decreases l.len(),
{
    if l.len() == 0 {
        seq![(k, h)]
    } else if l[0].0 == k {
        seq![(k, h)] + l.drop_first()
    } else if text_lt(k, l[0].0) {
        seq![(k, h)] + l
    } else {
        seq![l[0]] + sorted_insert(l.drop_first(), k, h)
    }
}

/// Keys strictly increasing.
pub open spec fn strictly_sorted(l: Seq<(Seq<char>, PairHint)>) -> bool {
    forall|a: int, b: int| 0 <= a < b < l.len() ==> text_lt(l[a].0, l[b].0)
}

proof fn lemma_sorted_insert_at(
    l: Seq<(Seq<char>, PairHint)>,
    k: Seq<char>,
    h: PairHint,
    p: int,
)
    requires
        0 <= p <= l.len(),
        forall|i: int| 0 <= i < p ==> text_lt(#[trigger] l[i].0, k),
        p < l.len() ==> !text_lt(l[p].0, k),
    ensures
        sorted_insert(l, k, h) == (if p < l.len() && l[p].0 == k {
            l.update(p, (k, h))
        } else {
            l.insert(p, (k, h))
        }),
    decreases p,
{
    if p == 0 {
        if l.len() > 0 && l[0].0 != k {
            lemma_encode_injective(l[0].0, k);
            lemma_lex_lt_total(encode_utf8(l[0].0), encode_utf8(k));
            assert(l.insert(0, (k, h)) =~= seq![(k, h)] + l);
        } else if l.len() > 0 {
            assert(l.update(0, (k, h)) =~= seq![(k, h)] + l.drop_first());
        } else {
            assert(l.insert(0, (k, h)) =~= seq![(k, h)]);
        }
    } else {
        assert(text_lt(l[0].0, k));
        lemma_lex_lt_irreflexive(encode_utf8(k));
        lemma_lex_lt_asymmetric(encode_utf8(l[0].0), encode_utf8(k));
        let r = l.drop_first();
        assert forall|i: int| 0 <= i < p - 1 implies text_lt(#[trigger] r[i].0, k) by {
            assert(r[i] == l[i + 1]);
        }
        lemma_sorted_insert_at(r, k, h, p - 1);
        if p < l.len() && l[p].0 == k {
            assert(l.update(p, (k, h)) =~= seq![l[0]] + r.update(p - 1, (k, h)));
        } else {
            assert(l.insert(p, (k, h)) =~= seq![l[0]] + r.insert(p - 1, (k, h)));
        }
    }
}

/// Add the link `(key, h)` to a link list kept in increasing order of key,
/// replacing the hint of an existing link with that key.
fn insert_link(l: &mut Vec<(String, PairHint)>, key: String, h: PairHint)
    ensures
        link_view(final(l)@) == sorted_insert(link_view(old(l)@), key@, h),
{
    let ghost lv = link_view(l@);
    let mut p: usize = 0;
    while p < l.len() && str_lt(l[p].0.as_str(), key.as_str())
        invariant
            p <= l@.len(),
            lv == link_view(l@),
            forall|i: int| 0 <= i < p ==> text_lt(#[trigger] lv[i].0, key@),
        decreases l.len() - p,
    {
        p = p + 1;
    }
    proof {
        lemma_sorted_insert_at(lv, key@, h, p as int);
    }
    let ghost k = key@;
    if p < l.len() && l[p].0 == key {
        l.set(p, (key, h));
        assert(link_view(l@) =~= lv.update(p as int, (k, h)));
    } else {
        l.insert(p, (key, h));
        assert(link_view(l@) =~= lv.insert(p as int, (k, h)));
    }
}


/// The pair links an input declares.
pub open spec fn pairs_of(m: Metadata) -> Seq<Pair> {
    match m.pair {
        Some(v) => v@,
        None => seq![],
    }
}

/// A path, or the empty path when there is none.
pub open spec fn or_empty(p: Option<Seq<PathPart>>) -> Seq<PathPart> {
    match p {
        Some(q) => q,
        None => seq![],
    }
}

/// The normalized path of input `k`.
pub open spec fn normalized_path(s: Seq<(String, CompiledInput)>, k: int) -> Seq<PathPart> {
    normalized(path_parts(s[k].0@))
}

/// The normalized directory of input `k`.
pub open spec fn input_dir(s: Seq<(String, CompiledInput)>, k: int) -> Seq<PathPart> {
    normalized(or_empty(parent_parts(path_parts(s[k].0@))))
}

/// The last input among `s[..upto]` whose normalized path is `t`.
pub open spec fn lookup_before(s: Seq<(String, CompiledInput)>, t: Seq<PathPart>, upto: int) -> Option<int>
    decreases upto,
{
    if upto <= 0 {
        None
    } else if normalized_path(s, upto - 1) == t {
        Some(upto - 1)
    } else {
        lookup_before(s, t, upto - 1)
    }
}

/// The input whose normalized path is `t` (the last one, if several are).
pub open spec fn lookup_path(s: Seq<(String, CompiledInput)>, t: Seq<PathPart>) -> Option<int> {
    lookup_before(s, t, s.len() as int)
}

/// The declared link `j` of input `k`.
pub open spec fn link_decl(s: Seq<(String, CompiledInput)>, k: int, j: int) -> Pair {
    pairs_of(s[k].1.metadata)[j]
}

/// Where link `j` of input `k` points: its `with` path joined onto the
/// input's directory, normalized.
pub open spec fn link_target(s: Seq<(String, CompiledInput)>, k: int, j: int) -> Seq<PathPart> {
    normalized(push_parts(input_dir(s, k), path_parts(link_decl(s, k, j).with@)))
}

/// Link `j` of input `k` points at another input.
pub open spec fn link_ok(s: Seq<(String, CompiledInput)>, k: int, j: int) -> bool {
    match lookup_path(s, link_target(s, k, j)) {
        Some(t) => t != k,
        None => false,
    }
}

/// The forward link, as a path relative to the declaring input's directory.
pub open spec fn forward_key(s: Seq<(String, CompiledInput)>, k: int, j: int) -> Seq<char> {
    joined_text(relative_parts(input_dir(s, k), link_target(s, k, j)))
}

/// The reverse link, as a path relative to the target input's directory.
pub open spec fn reverse_key(s: Seq<(String, CompiledInput)>, k: int, j: int) -> Seq<char> {
    joined_text(
        relative_parts(or_empty(parent_parts(link_target(s, k, j))), normalized_path(s, k)),
    )
}

/// Input `e`'s links after the effect of link `j` of input `k`: the forward
/// link is recorded on `k` and the reverse link on the target.
pub open spec fn apply_link(
    l: Seq<(Seq<char>, PairHint)>,
    s: Seq<(String, CompiledInput)>,
    k: int,
    j: int,
    e: int,
) -> Seq<(Seq<char>, PairHint)> {
    let h = link_decl(s, k, j).hint;
    let l1 = if e == k {
        sorted_insert(l, forward_key(s, k, j), h)
    } else {
        l
    };
    if lookup_path(s, link_target(s, k, j)) == Some(e) {
        sorted_insert(l1, reverse_key(s, k, j), h)
    } else {
        l1
    }
}

/// Input `e`'s links once the links of inputs `..k`, and the first `j` links
/// of input `k`, have taken effect.
pub open spec fn links_after(s: Seq<(String, CompiledInput)>, k: nat, j: nat, e: int) -> Seq<
    (Seq<char>, PairHint),
>
    decreases k, j,
{
    if j > 0 {
        apply_link(links_after(s, k, (j - 1) as nat, e), s, k as int, j - 1, e)
    } else if k > 0 {
        links_after(s, (k - 1) as nat, pairs_of(s[k - 1].1.metadata).len(), e)
    } else {
        seq![]
    }
}

/// Input `e`'s links, made symmetric, once every link has taken effect.
pub open spec fn links_of(s: Seq<(String, CompiledInput)>, e: int) -> Seq<(Seq<char>, PairHint)> {
    links_after(s, s.len(), 0, e)
}

/// The links of inputs `..k`, and the first `j` links of input `k`, all
/// point at another input.
pub open spec fn links_ok_before(s: Seq<(String, CompiledInput)>, k: int, j: int) -> bool {
    forall|k2: int, j2: int|
        0 <= k2 < s.len() && 0 <= j2 < pairs_of(s[k2].1.metadata).len() && (k2 < k || (k2 == k
            && j2 < j)) ==> link_ok(s, k2, j2)
}

/// Why the inputs could not be assembled into an index.
#[derive(Debug)]
pub enum BuildError {
    /// Two inputs share this name.
    DuplicateName(String),
    /// A pair link resolves to no input.
    UnresolvedPair { name: String, path: String, with: String, resolved: String },
    /// A pair link resolves to the input that declares it.
    SelfPair { name: String, path: String },
}

/// Whether two paths have the same components.
fn same_path(a: &Vec<crate::paths::Component>, b: &Vec<crate::paths::Component>) -> (r: bool)
    ensures
        r == (crate::paths::parts_of(a@) == crate::paths::parts_of(b@)),
{
    if a.len() != b.len() {
        return false;
    }
    let mut i: usize = 0;
    while i < a.len()
        invariant
            i <= a@.len() == b@.len(),
            forall|x: int| 0 <= x < i ==> a@[x]@ == b@[x]@,
        decreases a.len() - i,
    {
        if !crate::paths::same_component(&a[i], &b[i]) {
            assert(crate::paths::parts_of(a@)[i as int] != crate::paths::parts_of(b@)[i as int]);
            return false;
        }
        i = i + 1;
    }
    assert(crate::paths::parts_of(a@) =~= crate::paths::parts_of(b@));
    true
}


/// What the error for link `j` of input `k` reports.
pub open spec fn link_error_matches(
    s: Seq<(String, CompiledInput)>,
    k: int,
    j: int,
    err: BuildError,
) -> bool {
    match err {
        BuildError::UnresolvedPair { name, path, with, resolved } => {
            &&& lookup_path(s, link_target(s, k, j)) is None
            &&& name@ == name_of(s[k])
            &&& path@ == s[k].0@
            &&& with@ == link_decl(s, k, j).with@
            &&& resolved@ == path_text(link_target(s, k, j))
        },
        BuildError::SelfPair { name, path } => {
            &&& lookup_path(s, link_target(s, k, j)) == Some(k)
            &&& name@ == name_of(s[k])
            &&& path@ == s[k].0@
        },
        BuildError::DuplicateName(_) => false,
    }
}

/// The first link of the inputs, in order, that points at no other input.
pub open spec fn is_first_bad_link(s: Seq<(String, CompiledInput)>, k: int, j: int) -> bool {
    &&& 0 <= k < s.len()
    &&& 0 <= j < pairs_of(s[k].1.metadata).len()
    &&& links_ok_before(s, k, j)
    &&& !link_ok(s, k, j)
}

/// The last of `norms[..upto]` equal to `target`.
fn find_last(norms: &Vec<Vec<Component>>, target: &Vec<Component>, Ghost(s): Ghost<Seq<(String, CompiledInput)>>) -> (r: Option<usize>)
    requires
        norms@.len() == s.len(),
        forall|t: int| 0 <= t < s.len() ==> parts_of(#[trigger] norms@[t]@) == normalized_path(s, t),
    ensures
        match r {
            Some(t) => t < s.len() && lookup_path(s, parts_of(target@)) == Some(t as int),
            None => lookup_path(s, parts_of(target@)) is None,
        },
{
    let mut t = norms.len();
    while t > 0
        invariant
            t <= s.len(),
            norms@.len() == s.len(),
            forall|x: int| 0 <= x < s.len() ==> parts_of(#[trigger] norms@[x]@) == normalized_path(s, x),
            lookup_path(s, parts_of(target@)) == lookup_before(s, parts_of(target@), t as int),
        decreases t,
    {
        if same_path(&norms[t - 1], target) {
            return Some(t - 1);
        }
        t = t - 1;
    }
    None
}

/// Add `(key, h)` to the links of input `e`.
fn add_link(links: &mut Vec<Vec<(String, PairHint)>>, e: usize, key: String, h: PairHint)
    requires
        e < old(links)@.len(),
    ensures
        final(links)@.len() == old(links)@.len(),
        link_view(final(links)@[e as int]@) == sorted_insert(link_view(old(links)@[e as int]@), key@, h),
        forall|x: int| 0 <= x < old(links)@.len() && x != e ==> #[trigger] final(links)@[x] == old(links)@[x],
{
    let ghost before = links@;
    let mut l = links.remove(e);
    insert_link(&mut l, key, h);
    links.insert(e, l);
    assert forall|x: int| 0 <= x < before.len() && x != e implies #[trigger] links@[x] == before[x] by {
        if x < e {
        } else {
        }
    }
}

/// Resolve every pair link to the input it names and make the links
/// symmetric, giving each input its links in increasing order of `with`.
fn collect_links(s: &Vec<(String, CompiledInput)>) -> (res: Result<Vec<Vec<(String, PairHint)>>, BuildError>)
    ensures
        match res {
            Ok(links) => {
                &&& links_ok_before(s@, s@.len() as int, 0)
                &&& links@.len() == s@.len()
                &&& forall|e: int| 0 <= e < s@.len() ==> link_view(#[trigger] links@[e]@) == links_of(s@, e)
            },
            Err(err) => exists|k: int, j: int|
                is_first_bad_link(s@, k, j) && link_error_matches(s@, k, j, err),
        },
{
    let n = s.len();
    let mut norms: Vec<Vec<Component>> = Vec::new();
    let mut dirs: Vec<Vec<Component>> = Vec::new();
    let mut links: Vec<Vec<(String, PairHint)>> = Vec::new();
    for k in 0..n
        invariant
            n == s@.len(),
            norms@.len() == k,
            dirs@.len() == k,
            links@.len() == k,
            forall|t: int| 0 <= t < k ==> parts_of(#[trigger] norms@[t]@) == normalized_path(s@, t),
            forall|t: int| 0 <= t < k ==> parts_of(#[trigger] dirs@[t]@) == input_dir(s@, t),
            forall|e: int| 0 <= e < k ==> link_view(#[trigger] links@[e]@) == Seq::<(Seq<char>, PairHint)>::empty(),
    {
        let comps = components(s[k].0.as_str());
        norms.push(normalize(&comps));
        let par = match parent(&comps) {
            Some(p) => p,
            None => Vec::new(),
        };
        assert(parts_of(par@) == or_empty(parent_parts(path_parts(s@[k as int].0@)))) by {
            assert(parts_of(Seq::<Component>::empty()) =~= Seq::<PathPart>::empty());
        }
        dirs.push(normalize(&par));
        links.push(Vec::new());
        assert(link_view(links@[k as int]@) =~= Seq::<(Seq<char>, PairHint)>::empty());
    }
    for k in 0..n
        invariant
            n == s@.len(),
            norms@.len() == n,
            dirs@.len() == n,
            links@.len() == n,
            forall|t: int| 0 <= t < n ==> parts_of(#[trigger] norms@[t]@) == normalized_path(s@, t),
            forall|t: int| 0 <= t < n ==> parts_of(#[trigger] dirs@[t]@) == input_dir(s@, t),
            forall|e: int| 0 <= e < n ==> link_view(#[trigger] links@[e]@) == links_after(s@, k as nat, 0, e),
            links_ok_before(s@, k as int, 0),
    {
        match &s[k].1.metadata.pair {
            None => {
                assert(pairs_of(s@[k as int].1.metadata).len() == 0);
            },
            Some(pairs) => {
                assert(pairs@ == pairs_of(s@[k as int].1.metadata));
                for j in 0..pairs.len()
                    invariant
                        n == s@.len(),
                        k < n,
                        pairs@ == pairs_of(s@[k as int].1.metadata),
                        norms@.len() == n,
                        dirs@.len() == n,
                        links@.len() == n,
                        forall|t: int| 0 <= t < n ==> parts_of(#[trigger] norms@[t]@) == normalized_path(s@, t),
                        forall|t: int| 0 <= t < n ==> parts_of(#[trigger] dirs@[t]@) == input_dir(s@, t),
                        forall|e: int| 0 <= e < n ==> link_view(#[trigger] links@[e]@) == links_after(
                            s@,
                            k as nat,
                            j as nat,
                            e,
                        ),
                        links_ok_before(s@, k as int, j as int),
                {
                    let decl = &pairs[j];
                    assert(*decl == link_decl(s@, k as int, j as int));
                    let with_parts = components(decl.with.as_str());
                    let joined = join(&dirs[k], &with_parts);
                    let target = normalize(&joined);
                    assert(parts_of(target@) == link_target(s@, k as int, j as int));
                    let found = find_last(&norms, &target, Ghost(s@));
                    match found {
                        None => {
                            let err = BuildError::UnresolvedPair {
                                name: s[k].1.metadata.name.clone(),
                                path: s[k].0.clone(),
                                with: decl.with.clone(),
                                resolved: render_path(&target),
                            };
                            assert(is_first_bad_link(s@, k as int, j as int));
                            assert(link_error_matches(s@, k as int, j as int, err));
                            return Err(err);
                        },
                        Some(t) => {
                            if t == k {
                                let err = BuildError::SelfPair {
                                    name: s[k].1.metadata.name.clone(),
                                    path: s[k].0.clone(),
                                };
                                assert(is_first_bad_link(s@, k as int, j as int));
                                assert(link_error_matches(s@, k as int, j as int, err));
                                return Err(err);
                            }
                            let fwd = path_string(&relative_path(&dirs[k], &target));
                            let tdir = match parent(&target) {
                                Some(p) => p,
                                None => Vec::new(),
                            };
                            assert(parts_of(tdir@) == or_empty(parent_parts(parts_of(target@)))) by {
                                assert(parts_of(Seq::<Component>::empty()) =~= Seq::<PathPart>::empty());
                            }
                            let rev = path_string(&relative_path(&tdir, &norms[k]));
                            let ghost before = links@;
                            add_link(&mut links, k, fwd, decl.hint);
                            let ghost middle = links@;
                            add_link(&mut links, t, rev, decl.hint);
                            proof {
                                assert forall|e: int| 0 <= e < n implies link_view(#[trigger] links@[e]@)
                                    == links_after(s@, k as nat, (j + 1) as nat, e) by {
                                    assert(links_after(s@, k as nat, (j + 1) as nat, e) == apply_link(
                                        links_after(s@, k as nat, j as nat, e),
                                        s@,
                                        k as int,
                                        j as int,
                                        e,
                                    ));
                                    assert(link_view(before[e]@) == links_after(s@, k as nat, j as nat, e));
                                    if e == k {
                                        assert(links@[e] == middle[e]);
                                        assert(link_view(links@[e]@) == sorted_insert(
                                            link_view(before[e]@),
                                            forward_key(s@, k as int, j as int),
                                            decl.hint,
                                        ));
                                    } else if e == t {
                                        assert(middle[e] == before[e]);
                                        assert(link_view(links@[e]@) == sorted_insert(
                                            link_view(before[e]@),
                                            reverse_key(s@, k as int, j as int),
                                            decl.hint,
                                        ));
                                    } else {
                                        assert(middle[e] == before[e]);
                                        assert(links@[e] == middle[e]);
                                    }
                                }
                                assert forall|k2: int, j2: int|
                                    0 <= k2 < s@.len() && 0 <= j2 < pairs_of(s@[k2].1.metadata).len()
                                        && (k2 < k || (k2 == k && j2 < j + 1)) implies link_ok(s@, k2, j2) by {
                                    if k2 == k && j2 == j {
                                    } else {
                                        assert(links_ok_before(s@, k as int, j as int));
                                    }
                                }
                            }
                        },
                    }
                }
            },
        }
        proof {
            let len_k = pairs_of(s@[k as int].1.metadata).len();
            assert forall|e: int| 0 <= e < n implies link_view(#[trigger] links@[e]@) == links_after(
                s@,
                (k + 1) as nat,
                0,
                e,
            ) by {
                assert(links_after(s@, (k + 1) as nat, 0, e) == links_after(s@, k as nat, len_k, e));
            }
            assert forall|k2: int, j2: int|
                0 <= k2 < s@.len() && 0 <= j2 < pairs_of(s@[k2].1.metadata).len() && (k2 < k + 1 || (k2
                    == k + 1 && j2 < 0)) implies link_ok(s@, k2, j2) by {
                assert(links_ok_before(s@, k as int, len_k as int));
            }
        }
    }
    Ok(links)
}


/// One input's metadata plus its source path and location within the blob.
#[derive(Debug)]
pub struct IndexEntry {
    pub metadata: Metadata,
    /// Source `.input` file path, relative to the inputs root (forward slashes).
    pub path: String,
    pub offset: usize,
    pub length: usize,
}

/// The top-level index document.
#[derive(Debug)]
pub struct Index {
    /// Version of this compiled corpus.
    pub version: String,
    /// Name of the companion binary blob, recorded only where the blob is a
    /// separate file.
    pub bin: Option<String>,
    pub inputs: Vec<IndexEntry>,
}

/// A compiled corpus held in memory: the index document and the blob its
/// entries index into.
#[derive(Debug)]
pub struct Built {
    pub index: Index,
    pub blob: Vec<u8>,
}

/// The bytes of inputs `..k`, one after another.
pub open spec fn blob_before(s: Seq<(String, CompiledInput)>, k: int) -> Seq<u8>
    decreases k,
{
    if k <= 0 {
        seq![]
    } else {
        blob_before(s, k - 1) + s[k - 1].1.bytes@
    }
}

/// The path recorded for input `k`: relative to the inputs root when it lies
/// under it, with forward slashes; or, with no inputs root, the path as it
/// was read from.
pub open spec fn entry_path(s: Seq<(String, CompiledInput)>, k: int, inputs_dir: Option<Seq<char>>) -> Seq<char> {
    match inputs_dir {
        Some(dir) => {
            let p = path_parts(s[k].0@);
            let base = path_parts(dir);
            joined_text(if has_prefix(p, base) { p.skip(base.len() as int) } else { p })
        },
        None => s[k].0@,
    }
}

/// An optional text as a value.
pub open spec fn opt_text(o: Option<&str>) -> Option<Seq<char>> {
    match o {
        Some(t) => Some(t@),
        None => None,
    }
}

/// Pair links as values.
pub open spec fn pair_view(v: Seq<Pair>) -> Seq<(Seq<char>, PairHint)> {
    v.map_values(|p: Pair| (p.with@, p.hint))
}

/// Index entry `e` records input `k` of `s`.
pub open spec fn entry_matches(
    e: IndexEntry,
    s: Seq<(String, CompiledInput)>,
    k: int,
    inputs_dir: Option<Seq<char>>,
) -> bool {
    let m = s[k].1.metadata;
    &&& e.metadata.name == m.name
    &&& e.metadata.description == m.description
    &&& e.metadata.tags == m.tags
    &&& e.metadata.format == m.format
    &&& e.metadata.decode_as == m.decode_as
    &&& e.metadata.mime_type == m.mime_type
    &&& e.metadata.invalid_as == m.invalid_as
    &&& e.metadata.licence == m.licence
    &&& e.metadata.unicode_meta == m.unicode_meta
    &&& e.metadata.file_source == m.file_source
    &&& match e.metadata.pair {
        None => links_of(s, k).len() == 0,
        Some(v) => links_of(s, k).len() > 0 && pair_view(v@) == links_of(s, k),
    }
    &&& e.path@ == entry_path(s, k, inputs_dir)
    &&& e.offset == blob_before(s, k).len()
    &&& e.length == s[k].1.bytes@.len()
}

/// `b` is the corpus assembled from the inputs `s`, in that order.
pub open spec fn built_from(
    b: Built,
    s: Seq<(String, CompiledInput)>,
    inputs_dir: Option<Seq<char>>,
    version: Seq<char>,
) -> bool {
    &&& b.index.version@ == version
    &&& b.index.bin is None
    &&& b.index.inputs@.len() == s.len()
    &&& forall|k: int| 0 <= k < s.len() ==> entry_matches(#[trigger] b.index.inputs@[k], s, k, inputs_dir)
    &&& b.blob@ == blob_before(s, s.len() as int)
}

/// The links of one input as `Pair`s.
fn to_pairs(l: Vec<(String, PairHint)>) -> (v: Vec<Pair>)
    ensures
        pair_view(v@) == link_view(l@),
{
    let ghost lv = link_view(l@);
    let mut v: Vec<Pair> = Vec::new();
    for item in it: l
        invariant
            link_view(it.seq()) == lv,
            v@.len() == it.index(),
            pair_view(v@) == lv.take(it.index()),
    {
        let ghost i = it.index();
        let (with, hint) = item;
        v.push(Pair { with, hint });
        assert(pair_view(v@) =~= lv.take(i + 1));
    }
    assert(lv.take(lv.len() as int) == lv);
    v
}

/// Assemble the blob and the index from inputs in their final order, with
/// each input's symmetric links.
fn assemble(
    inputs_dir: Option<&str>,
    version: &str,
    sorted: Vec<(String, CompiledInput)>,
    links: Vec<Vec<(String, PairHint)>>,
) -> (b: Built)
    requires
        links@.len() == sorted@.len(),
        forall|e: int| 0 <= e < sorted@.len() ==> link_view(#[trigger] links@[e]@) == links_of(sorted@, e),
    ensures
        built_from(b, sorted@, opt_text(inputs_dir), version@),
{
    let ghost s = sorted@;
    let ghost all_links = links@;
    let base = match inputs_dir {
        Some(d) => components(d),
        None => Vec::new(),
    };
    let mut links = links;
    let mut blob: Vec<u8> = Vec::new();
    let mut inputs: Vec<IndexEntry> = Vec::new();
    for item in it: sorted
        invariant
            it.seq() == s,
            inputs@.len() == it.index(),
            links@ == all_links.skip(it.index()),
            all_links.len() == s.len(),
            forall|e: int| 0 <= e < s.len() ==> link_view(#[trigger] all_links[e]@) == links_of(s, e),
            inputs_dir matches Some(d) ==> parts_of(base@) == path_parts(d@),
            blob@ == blob_before(s, it.index()),
            forall|k: int| 0 <= k < it.index() ==> entry_matches(#[trigger] inputs@[k], s, k, opt_text(inputs_dir)),
    {
        let ghost k = it.index();
        assert(item == s[k]);
        let l = links.remove(0);
        assert(l == all_links[k]);
        assert(links@ =~= all_links.skip(k + 1));
        let (path, input) = item;
        let CompiledInput { metadata, bytes } = input;
        let Metadata {
            name,
            description,
            tags,
            format,
            decode_as,
            mime_type,
            invalid_as,
            licence,
            pair: _,
            unicode_meta,
            file_source,
        } = metadata;
        let pair = if l.len() == 0 {
            None
        } else {
            Some(to_pairs(l))
        };
        let offset = blob.len();
        let length = bytes.len();
        blob.extend_from_slice(bytes.as_slice());
        let entry_path_text = match inputs_dir {
            Some(_) => {
                let comps = components(path.as_str());
                let rel = match strip_prefix(&comps, &base) {
                    Some(r) => r,
                    None => comps,
                };
                path_string(&rel)
            },
            None => path,
        };
        let entry = IndexEntry {
            metadata: Metadata {
                name,
                description,
                tags,
                format,
                decode_as,
                mime_type,
                invalid_as,
                licence,
                pair,
                unicode_meta,
                file_source,
            },
            path: entry_path_text,
            offset,
            length,
        };
        inputs.push(entry);
        assert(blob@ =~= blob_before(s, k + 1));
        assert(entry_matches(inputs@[k], s, k, opt_text(inputs_dir)));
    }
    let index = Index { version: version.to_owned(), bin: None, inputs };
    Built { index, blob }
}


/// Assemble compiled inputs into the index and blob, recording entry paths
/// relative to `inputs_dir` when there is one, and as read otherwise.
fn build_with(inputs_dir: Option<&str>, version: &str, compiled: Vec<(String, CompiledInput)>) -> (res: Result<Built, BuildError>)
    ensures
        match res {
            Err(BuildError::DuplicateName(n)) => {
                &&& is_duplicated(compiled@, n@)
                &&& forall|m: Seq<char>| is_duplicated(compiled@, m) ==> !text_lt(m, n@)
            },
            _ => {
                &&& forall|m: Seq<char>| !is_duplicated(compiled@, m)
                &&& exists|srt: Seq<(String, CompiledInput)>|
                    {
                        &&& sorted_by_name(srt)
                        &&& is_arrangement_of(srt, compiled@)
                        &&& match res {
                            Ok(b) => links_ok_before(srt, srt.len() as int, 0) && built_from(
                                b,
                                srt,
                                opt_text(inputs_dir),
                                version@,
                            ),
                            Err(err) => exists|k: int, j: int|
                                is_first_bad_link(srt, k, j) && link_error_matches(srt, k, j, err),
                        }
                    }
            },
        },
{
    let ghost orig = compiled@;
    let sorted = sort_by_name(compiled);
    let ghost perm = choose|perm: Seq<int>| arranged_by(sorted@, orig, perm);
    if let Some(k) = first_duplicate(&sorted) {
        let err = BuildError::DuplicateName(sorted[k].1.metadata.name.clone());
        proof {
            let n = name_of(sorted@[k as int]);
            lemma_arranged_duplicates(sorted@, orig, perm, n);
            assert forall|m: Seq<char>| is_duplicated(orig, m) implies !text_lt(m, n) by {
                lemma_arranged_duplicates(sorted@, orig, perm, m);
            }
        }
        return Err(err);
    }
    proof {
        assert forall|m: Seq<char>| !is_duplicated(orig, m) by {
            lemma_arranged_duplicates(sorted@, orig, perm, m);
        }
    }
    let ghost srt = sorted@;
    match collect_links(&sorted) {
        Err(err) => {
            assert(sorted_by_name(srt) && is_arrangement_of(srt, orig));
            Err(err)
        },
        Ok(links) => {
            let b = assemble(inputs_dir, version, sorted, links);
            assert(sorted_by_name(srt) && is_arrangement_of(srt, orig));
            Ok(b)
        },
    }
}


/// Assemble compiled inputs (each with the path it was read from) into the
/// index document and the blob it points into.
///
/// Inputs are ordered by name, and two inputs may not share a name. Every
/// `pair` link must resolve (relative to its input's directory) to another
/// input; links are then made symmetric, each recorded as a path relative to
/// the listing input, in increasing order of that path. Entry paths are
/// recorded relative to `inputs_dir`.
pub fn build(inputs_dir: &str, version: &str, compiled: Vec<(String, CompiledInput)>) -> (res: Result<Built, BuildError>)
    ensures
        match res {
            Err(BuildError::DuplicateName(n)) => {
                &&& is_duplicated(compiled@, n@)
                &&& forall|m: Seq<char>| is_duplicated(compiled@, m) ==> !text_lt(m, n@)
            },
            _ => {
                &&& forall|m: Seq<char>| !is_duplicated(compiled@, m)
                &&& exists|srt: Seq<(String, CompiledInput)>|
                    {
                        &&& sorted_by_name(srt)
                        &&& is_arrangement_of(srt, compiled@)
                        &&& match res {
                            Ok(b) => links_ok_before(srt, srt.len() as int, 0) && built_from(
                                b,
                                srt,
                                Some(inputs_dir@),
                                version@,
                            ),
                            Err(err) => exists|k: int, j: int|
                                is_first_bad_link(srt, k, j) && link_error_matches(srt, k, j, err),
                        }
                    }
            },
        },
{
    build_with(Some(inputs_dir), version, compiled)
}

/// [`build`], recording each entry's path as it was walked (as the json-bin
/// index does), not relative to an inputs root.
pub fn build_as_read(version: &str, compiled: Vec<(String, CompiledInput)>) -> (res: Result<Built, BuildError>)
    ensures
        match res {
            Err(BuildError::DuplicateName(n)) => {
                &&& is_duplicated(compiled@, n@)
                &&& forall|m: Seq<char>| is_duplicated(compiled@, m) ==> !text_lt(m, n@)
            },
            _ => {
                &&& forall|m: Seq<char>| !is_duplicated(compiled@, m)
                &&& exists|srt: Seq<(String, CompiledInput)>|
                    {
                        &&& sorted_by_name(srt)
                        &&& is_arrangement_of(srt, compiled@)
                        &&& match res {
                            Ok(b) => links_ok_before(srt, srt.len() as int, 0) && built_from(
                                b,
                                srt,
                                None,
                                version@,
                            ),
                            Err(err) => exists|k: int, j: int|
                                is_first_bad_link(srt, k, j) && link_error_matches(srt, k, j, err),
                        }
                    }
            },
        },
{
    build_with(None, version, compiled)
}

} // verus!
