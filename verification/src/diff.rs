//! Comparing two compiled corpora entry by entry: each input is matched by
//! name, and its metadata fields, source path and decoded bytes compared.
//! The corpus version is not compared: it is a release stamp, not content.

use vstd::prelude::*;
use crate::fmt::{debug_text, debug_text_of, decimal, digits};
use crate::order::{
    lemma_encode_injective, lemma_lex_lt_asymmetric, lemma_lex_lt_irreflexive, lemma_lex_lt_total,
    lemma_lex_lt_transitive, str_lt, text_lt,
};
use crate::text::{str_eq, string_from_chars};
use crate::codec::bytes_eq;
use vstd::utf8::encode_utf8;

verus! {

/// One entry of a corpus as compared: its name, its metadata fields (each
/// key with its value rendered as compact JSON), its source path and its
/// decoded bytes.
#[derive(Debug)]
pub struct EntryView {
    pub name: String,
    pub fields: Vec<(String, String)>,
    pub path: String,
    pub bytes: Vec<u8>,
}

/// One side of a comparison: a label for messages and its entries.
#[derive(Debug)]
pub struct CorpusSide {
    pub label: String,
    pub entries: Vec<EntryView>,
}

/// Texts in strictly increasing order.
pub open spec fn strictly_increasing(s: Seq<Seq<char>>) -> bool {
    forall|a: int, b: int| 0 <= a < b < s.len() ==> text_lt(s[a], s[b])
}

/// `ks` lists, in increasing order and once each, the texts of `a` and `b`.
pub open spec fn is_sorted_union(ks: Seq<Seq<char>>, a: Seq<Seq<char>>, b: Seq<Seq<char>>) -> bool {
    &&& strictly_increasing(ks)
    &&& forall|k: Seq<char>| ks.contains(k) <==> (a.contains(k) || b.contains(k))
}

proof fn lemma_insert_sorted(s: Seq<Seq<char>>, k: Seq<char>, p: int)
    requires
        strictly_increasing(s),
        0 <= p <= s.len(),
        forall|i: int| 0 <= i < p ==> text_lt(#[trigger] s[i], k),
        p < s.len() ==> text_lt(k, s[p]),
    ensures
        strictly_increasing(s.insert(p, k)),
{
    let t = s.insert(p, k);
    assert forall|a: int, b: int| 0 <= a < b < t.len() implies text_lt(t[a], t[b]) by {
        if b < p {
        } else if b == p {
        } else if a < p {
            assert(t[b] == s[b - 1]);
            if b - 1 > p {
                assert(text_lt(s[p], s[b - 1]));
                lemma_lex_lt_transitive(encode_utf8(s[a]), encode_utf8(k), encode_utf8(s[p]));
                lemma_lex_lt_transitive(encode_utf8(s[a]), encode_utf8(s[p]), encode_utf8(s[b - 1]));
            } else {
                lemma_lex_lt_transitive(encode_utf8(s[a]), encode_utf8(k), encode_utf8(s[p]));
            }
        } else if a == p {
            if b - 1 > p {
                assert(text_lt(s[p], s[b - 1]));
                lemma_lex_lt_transitive(encode_utf8(k), encode_utf8(s[p]), encode_utf8(s[b - 1]));
            }
        } else {
            assert(t[a] == s[a - 1]);
            assert(t[b] == s[b - 1]);
        }
    }
}

/// The texts of a vector of strings.
pub open spec fn texts(v: Seq<String>) -> Seq<Seq<char>> {
    v.map_values(|s: String| s@)
}

/// Add `k` to a strictly increasing list of texts, unless already there.
fn insert_unique(v: &mut Vec<String>, k: &String)
    requires
        strictly_increasing(texts(old(v)@)),
    ensures
        strictly_increasing(texts(final(v)@)),
        forall|x: Seq<char>| texts(final(v)@).contains(x) <==> (texts(old(v)@).contains(x) || x == k@),
{
    let ghost s = texts(v@);
    let mut p: usize = 0;
    while p < v.len() && str_lt(v[p].as_str(), k.as_str())
        invariant
            p <= v@.len(),
            s == texts(v@),
            forall|i: int| 0 <= i < p ==> text_lt(#[trigger] s[i], k@),
        decreases v.len() - p,
    {
        p = p + 1;
    }
    if p < v.len() && str_eq(v[p].as_str(), k.as_str()) {
        assert(s[p as int] == k@);
        return;
    }
    proof {
        if p < s.len() {
            lemma_encode_injective(s[p as int], k@);
            lemma_lex_lt_total(encode_utf8(s[p as int]), encode_utf8(k@));
        }
        lemma_insert_sorted(s, k@, p as int);
    }
    let ghost prev = v@;
    assert(prev == old(v)@);
    v.insert(p, k.clone());
    assert(texts(v@) =~= s.insert(p as int, k@));
    assert(s == texts(old(v)@));
    assert forall|x: Seq<char>| #[trigger] texts(v@).contains(x) <==> (texts(old(v)@).contains(x) || x == k@) by {
        if texts(v@).contains(x) {
            let j = choose|j: int| 0 <= j < texts(v@).len() && #[trigger] texts(v@)[j] == x;
            if j < p {
                assert(s[j] == x);
            } else if j > p {
                assert(s[j - 1] == x);
            }
        }
        if s.contains(x) {
            let j = choose|j: int| 0 <= j < s.len() && #[trigger] s[j] == x;
            if j < p {
                assert(texts(v@)[j] == x);
            } else {
                assert(texts(v@)[j + 1] == x);
            }
        }
        if x == k@ {
            assert(texts(v@)[p as int] == x);
        }
    }
}

proof fn lemma_contains_push<A>(s: Seq<A>, y: A)
    ensures
        forall|x: A| #[trigger] s.push(y).contains(x) <==> (s.contains(x) || x == y),
{
    assert forall|x: A| #[trigger] s.push(y).contains(x) <==> (s.contains(x) || x == y) by {
        if s.push(y).contains(x) {
            let j = choose|j: int| 0 <= j < s.len() + 1 && #[trigger] s.push(y)[j] == x;
            if j < s.len() {
                assert(s[j] == x);
            }
        }
        if s.contains(x) {
            let j = choose|j: int| 0 <= j < s.len() && #[trigger] s[j] == x;
            assert(s.push(y)[j] == x);
        }
        if x == y {
            assert(s.push(y)[s.len() as int] == x);
        }
    }
}

/// The texts of `a` and `b`, in increasing order, once each.
fn sorted_union(a: &Vec<String>, b: &Vec<String>) -> (ks: Vec<String>)
    ensures
        is_sorted_union(texts(ks@), texts(a@), texts(b@)),
{
    let mut ks: Vec<String> = Vec::new();
    let mut i: usize = 0;
    assert(texts(ks@) =~= Seq::<Seq<char>>::empty());
    while i < a.len()
        invariant
            i <= a@.len(),
            strictly_increasing(texts(ks@)),
            forall|x: Seq<char>| texts(ks@).contains(x) <==> texts(a@).take(i as int).contains(x),
        decreases a.len() - i,
    {
        insert_unique(&mut ks, &a[i]);
        proof {
            assert(texts(a@).take(i + 1) =~= texts(a@).take(i as int).push(a@[i as int]@));
            lemma_contains_push(texts(a@).take(i as int), a@[i as int]@);
        }
        i = i + 1;
    }
    assert(texts(a@).take(a@.len() as int) == texts(a@));
    let mut j: usize = 0;
    while j < b.len()
        invariant
            j <= b@.len(),
            strictly_increasing(texts(ks@)),
            forall|x: Seq<char>| texts(ks@).contains(x) <==> (texts(a@).contains(x) || texts(b@).take(
                j as int,
            ).contains(x)),
        decreases b.len() - j,
    {
        insert_unique(&mut ks, &b[j]);
        proof {
            assert(texts(b@).take(j + 1) =~= texts(b@).take(j as int).push(b@[j as int]@));
            lemma_contains_push(texts(b@).take(j as int), b@[j as int]@);
        }
        j = j + 1;
    }
    assert(texts(b@).take(b@.len() as int) == texts(b@));
    ks
}


proof fn lemma_increasing_drop_last(s: Seq<Seq<char>>)
    requires
        strictly_increasing(s),
        s.len() > 0,
    ensures
        strictly_increasing(s.drop_last()),
        forall|x: Seq<char>| s.drop_last().contains(x) <==> (s.contains(x) && x != s.last()),
        forall|x: Seq<char>| s.contains(x) ==> x == s.last() || text_lt(x, s.last()),
{
    let d = s.drop_last();
    assert forall|x: Seq<char>| d.contains(x) <==> (s.contains(x) && x != s.last()) by {
        if d.contains(x) {
            let j = choose|j: int| 0 <= j < d.len() && #[trigger] d[j] == x;
            assert(s[j] == x);
            assert(text_lt(s[j], s[s.len() - 1]));
            lemma_lex_lt_irreflexive(encode_utf8(x));
        }
        if s.contains(x) && x != s.last() {
            let j = choose|j: int| 0 <= j < s.len() && #[trigger] s[j] == x;
            assert(d[j] == x);
        }
    }
    assert forall|x: Seq<char>| s.contains(x) implies x == s.last() || text_lt(x, s.last()) by {
        let j = choose|j: int| 0 <= j < s.len() && #[trigger] s[j] == x;
        if j < s.len() - 1 {
            assert(text_lt(s[j], s[s.len() - 1]));
        }
    }
}

/// Two strictly increasing lists of the same texts are the same list.
pub proof fn lemma_sorted_unique(s: Seq<Seq<char>>, t: Seq<Seq<char>>)
    requires
        strictly_increasing(s),
        strictly_increasing(t),
        forall|x: Seq<char>| s.contains(x) <==> t.contains(x),
    ensures
        s == t,
    decreases s.len() + t.len(),
{
    if s.len() == 0 && t.len() > 0 {
        assert(t.contains(t[0]));
    } else if t.len() == 0 && s.len() > 0 {
        assert(s.contains(s[0]));
    } else if s.len() > 0 {
        lemma_increasing_drop_last(s);
        lemma_increasing_drop_last(t);
        assert(s.contains(s.last()));
        assert(t.contains(t.last()));
        if s.last() != t.last() {
            lemma_lex_lt_asymmetric(encode_utf8(s.last()), encode_utf8(t.last()));
        }
        assert(s.last() == t.last());
        assert forall|x: Seq<char>| s.drop_last().contains(x) <==> t.drop_last().contains(x) by {
            assert(s.drop_last().contains(x) <==> (s.contains(x) && x != s.last()));
            assert(t.drop_last().contains(x) <==> (t.contains(x) && x != t.last()));
        }
        lemma_sorted_unique(s.drop_last(), t.drop_last());
        assert(s =~= s.drop_last().push(s.last()));
        assert(t =~= t.drop_last().push(t.last()));
    } else {
        assert(s =~= t);
    }
}

/// The texts of `a` and `b`, in increasing order, once each.
pub open spec fn sorted_union_of(a: Seq<Seq<char>>, b: Seq<Seq<char>>) -> Seq<Seq<char>> {
    choose|ks: Seq<Seq<char>>| is_sorted_union(ks, a, b)
}

proof fn lemma_sorted_union_of(ks: Seq<Seq<char>>, a: Seq<Seq<char>>, b: Seq<Seq<char>>)
    requires
        is_sorted_union(ks, a, b),
    ensures
        sorted_union_of(a, b) == ks,
{
    let c = sorted_union_of(a, b);
    assert(is_sorted_union(c, a, b));
    lemma_sorted_unique(c, ks);
}

/// The value of the last field named `k`, if any.
pub open spec fn field_value(fs: Seq<(String, String)>, k: Seq<char>) -> Option<Seq<char>>
    decreases fs.len(),
{
    if fs.len() == 0 {
        None
    } else if fs.last().0@ == k {
        Some(fs.last().1@)
    } else {
        field_value(fs.drop_last(), k)
    }
}

/// The keys of a field list.
pub open spec fn field_keys(fs: Seq<(String, String)>) -> Seq<Seq<char>> {
    fs.map_values(|f: (String, String)| f.0@)
}

/// A field value for a message, or `(absent)`.
pub open spec fn render_field(v: Option<Seq<char>>) -> Seq<char> {
    match v {
        Some(t) => t,
        None => "(absent)"@,
    }
}

/// One line for each key of `ks` whose value differs between the two field
/// lists: `{key} {left} != {right}`.
pub open spec fn field_lines(ks: Seq<Seq<char>>, lf: Seq<(String, String)>, rf: Seq<(String, String)>) -> Seq<
    Seq<char>,
>
    decreases ks.len(),
{
    if ks.len() == 0 {
        seq![]
    } else {
        let before = field_lines(ks.drop_last(), lf, rf);
        let k = ks.last();
        if field_value(lf, k) != field_value(rf, k) {
            before.push(k + " "@ + render_field(field_value(lf, k)) + " != "@ + render_field(field_value(rf, k)))
        } else {
            before
        }
    }
}

/// The differences between two entries of the same name: metadata fields in
/// key order, then the source path, then the decoded bytes.
pub open spec fn entry_diff_lines(l: EntryView, r: EntryView) -> Seq<Seq<char>> {
    field_lines(sorted_union_of(field_keys(l.fields@), field_keys(r.fields@)), l.fields@, r.fields@)
        + (if l.path@ != r.path@ {
        seq!["path "@ + debug_text_of(l.path@) + " != "@ + debug_text_of(r.path@)]
    } else {
        seq![]
    }) + (if l.bytes@ != r.bytes@ {
        seq![
            "data differs ("@ + digits(l.bytes@.len(), 10) + " vs "@ + digits(r.bytes@.len(), 10)
                + " bytes)"@,
        ]
    } else {
        seq![]
    })
}

fn append(out: &mut Vec<char>, t: &str)
    ensures
        final(out)@ == old(out)@ + t@,
{
    let c = crate::text::chars_of(t);
    let ghost start = out@;
    let mut i: usize = 0;
    while i < c.len()
        invariant
            i <= c@.len(),
            out@ == start + c@.take(i as int),
        decreases c.len() - i,
    {
        out.push(c[i]);
        assert(c@.take(i + 1) =~= c@.take(i as int).push(c@[i as int]));
        i = i + 1;
    }
    assert(c@.take(c@.len() as int) == c@);
    assert(c@ == t@);
}

fn find_field(fs: &Vec<(String, String)>, k: &String) -> (r: Option<String>)
    ensures
        match r {
            Some(v) => field_value(fs@, k@) == Some(v@),
            None => field_value(fs@, k@) is None,
        },
{
    let mut i = fs.len();
    assert(fs@.take(fs@.len() as int) =~= fs@);
    while i > 0
        invariant
            i <= fs@.len(),
            field_value(fs@, k@) == field_value(fs@.take(i as int), k@),
        decreases i,
    {
        assert(fs@.take(i as int).drop_last() =~= fs@.take(i - 1));
        assert(fs@.take(i as int).last() == fs@[i - 1]);
        if str_eq(fs[i - 1].0.as_str(), k.as_str()) {
            return Some(fs[i - 1].1.clone());
        }
        i = i - 1;
    }
    None
}

fn keys_of(fs: &Vec<(String, String)>) -> (ks: Vec<String>)
    ensures
        texts(ks@) == field_keys(fs@),
{
    let mut ks: Vec<String> = Vec::new();
    for i in 0..fs.len()
        invariant
            texts(ks@) == field_keys(fs@.take(i as int)),
    {
        let ghost prev = ks@;
        ks.push(fs[i].0.clone());
        assert(ks@ == prev.push(fs@[i as int].0));
        assert(fs@.take(i + 1) =~= fs@.take(i as int).push(fs@[i as int]));
        assert(texts(ks@) =~= texts(prev).push(fs@[i as int].0@));
        assert(texts(ks@) =~= field_keys(fs@.take(i + 1)));
    }
    assert(fs@.take(fs@.len() as int) == fs@);
    ks
}

/// Field-level differences between two entries of the same name: metadata
/// fields, source path and decoded bytes. An entry's position in the blob is
/// not compared: it is positional, not content.
pub fn entry_diffs(l: &EntryView, r: &EntryView) -> (v: Vec<String>)
    ensures
        texts(v@) == entry_diff_lines(*l, *r),
{
    let lk = keys_of(&l.fields);
    let rk = keys_of(&r.fields);
    let ks = sorted_union(&lk, &rk);
    proof {
        lemma_sorted_union_of(texts(ks@), field_keys(l.fields@), field_keys(r.fields@));
    }
    let ghost kv = texts(ks@);
    let mut diffs: Vec<String> = Vec::new();
    for i in 0..ks.len()
        invariant
            kv == texts(ks@),
            texts(diffs@) == field_lines(kv.take(i as int), l.fields@, r.fields@),
    {
        let key = &ks[i];
        assert(kv.take(i + 1).drop_last() =~= kv.take(i as int));
        assert(kv.take(i + 1).last() == key@);
        let lv = find_field(&l.fields, key);
        let rv = find_field(&r.fields, key);
        let same = match (&lv, &rv) {
            (Some(a), Some(b)) => str_eq(a.as_str(), b.as_str()),
            (None, None) => true,
            _ => false,
        };
        if !same {
            let mut d: Vec<char> = Vec::new();
            append(&mut d, key.as_str());
            append(&mut d, " ");
            match &lv {
                Some(a) => append(&mut d, a.as_str()),
                None => append(&mut d, "(absent)"),
            }
            append(&mut d, " != ");
            match &rv {
                Some(b) => append(&mut d, b.as_str()),
                None => append(&mut d, "(absent)"),
            }
            let line = string_from_chars(d.as_slice());
            let ghost prev = diffs@;
            diffs.push(line);
            assert(texts(diffs@) =~= texts(prev).push(line@));
        }
    }
    assert(kv.take(kv.len() as int) == kv);
    let ghost fl = texts(diffs@);
    if !str_eq(l.path.as_str(), r.path.as_str()) {
        let mut d: Vec<char> = Vec::new();
        append(&mut d, "path ");
        append(&mut d, debug_text(l.path.as_str()).as_str());
        append(&mut d, " != ");
        append(&mut d, debug_text(r.path.as_str()).as_str());
        let line = string_from_chars(d.as_slice());
        diffs.push(line);
    }
    let ghost pl = texts(diffs@);
    if !bytes_eq(l.bytes.as_slice(), r.bytes.as_slice()) {
        let mut d: Vec<char> = Vec::new();
        append(&mut d, "data differs (");
        append(&mut d, decimal(l.bytes.len() as u64).as_str());
        append(&mut d, " vs ");
        append(&mut d, decimal(r.bytes.len() as u64).as_str());
        append(&mut d, " bytes)");
        let line = string_from_chars(d.as_slice());
        diffs.push(line);
    }
    assert(texts(diffs@) =~= entry_diff_lines(*l, *r));
    diffs
}


/// The last entry named `n`: the one a lookup by name finds.
pub open spec fn last_named(es: Seq<EntryView>, n: Seq<char>) -> Option<EntryView>
    decreases es.len(),
{
    if es.len() == 0 {
        None
    } else if es.last().name@ == n {
        Some(es.last())
    } else {
        last_named(es.drop_last(), n)
    }
}

/// The names of a list of entries.
pub open spec fn entry_names(es: Seq<EntryView>) -> Seq<Seq<char>> {
    es.map_values(|e: EntryView| e.name@)
}

/// Prefix each line with the quoted entry name.
pub open spec fn named_lines(n: Seq<char>, ls: Seq<Seq<char>>) -> Seq<Seq<char>> {
    ls.map_values(|f: Seq<char>| "'"@ + n + "': "@ + f)
}

/// The differences reported for one name.
pub open spec fn name_lines(n: Seq<char>, l: CorpusSide, r: CorpusSide) -> Seq<Seq<char>> {
    match (last_named(l.entries@, n), last_named(r.entries@, n)) {
        (Some(_), None) => seq!["'"@ + n + "' only in "@ + l.label@],
        (None, Some(_)) => seq!["'"@ + n + "' only in "@ + r.label@],
        (Some(a), Some(b)) => named_lines(n, entry_diff_lines(a, b)),
        (None, None) => seq![],
    }
}

/// The differences for each name of `ns`, in that order.
pub open spec fn compare_lines(ns: Seq<Seq<char>>, l: CorpusSide, r: CorpusSide) -> Seq<Seq<char>>
    decreases ns.len(),
{
    if ns.len() == 0 {
        seq![]
    } else {
        compare_lines(ns.drop_last(), l, r) + name_lines(ns.last(), l, r)
    }
}

fn names_of(es: &Vec<EntryView>) -> (ns: Vec<String>)
    ensures
        texts(ns@) == entry_names(es@),
{
    let mut ns: Vec<String> = Vec::new();
    for i in 0..es.len()
        invariant
            texts(ns@) == entry_names(es@.take(i as int)),
    {
        let ghost prev = ns@;
        ns.push(es[i].name.clone());
        assert(ns@ == prev.push(es@[i as int].name));
        assert(es@.take(i + 1) =~= es@.take(i as int).push(es@[i as int]));
        assert(texts(ns@) =~= texts(prev).push(es@[i as int].name@));
        assert(texts(ns@) =~= entry_names(es@.take(i + 1)));
    }
    assert(es@.take(es@.len() as int) =~= es@);
    ns
}

fn find_entry(es: &Vec<EntryView>, n: &String) -> (r: Option<usize>)
    ensures
        match r {
            Some(i) => i < es@.len() && last_named(es@, n@) == Some(es@[i as int]),
            None => last_named(es@, n@) is None,
        },
{
    let mut i = es.len();
    assert(es@.take(es@.len() as int) =~= es@);
    while i > 0
        invariant
            i <= es@.len(),
            last_named(es@, n@) == last_named(es@.take(i as int), n@),
        decreases i,
    {
        assert(es@.take(i as int).drop_last() =~= es@.take(i - 1));
        assert(es@.take(i as int).last() == es@[i - 1]);
        if str_eq(es[i - 1].name.as_str(), n.as_str()) {
            return Some(i - 1);
        }
        i = i - 1;
    }
    None
}

fn only_in_line(n: &String, label: &String) -> (s: String)
    ensures
        s@ == "'"@ + n@ + "' only in "@ + label@,
{
    let mut d: Vec<char> = Vec::new();
    append(&mut d, "'");
    append(&mut d, n.as_str());
    append(&mut d, "' only in ");
    append(&mut d, label.as_str());
    string_from_chars(d.as_slice())
}

/// Compare two corpora entry by entry. Names are taken from both sides, in
/// increasing order, once each; an entry is found by name (the last of that
/// name). A name on one side only gives `'{name}' only in {label}`; a name on
/// both gives one `'{name}': {difference}` line for each difference of
/// `entry_diffs`. An empty result means the entries are equivalent.
pub fn compare(left: &CorpusSide, right: &CorpusSide) -> (v: Vec<String>)
    ensures
        texts(v@) == compare_lines(
            sorted_union_of(entry_names(left.entries@), entry_names(right.entries@)),
            *left,
            *right,
        ),
{
    let ln = names_of(&left.entries);
    let rn = names_of(&right.entries);
    let ns = sorted_union(&ln, &rn);
    proof {
        lemma_sorted_union_of(texts(ns@), entry_names(left.entries@), entry_names(right.entries@));
    }
    let ghost nv = texts(ns@);
    let mut diffs: Vec<String> = Vec::new();
    for i in 0..ns.len()
        invariant
            nv == texts(ns@),
            texts(diffs@) == compare_lines(nv.take(i as int), *left, *right),
    {
        let name = &ns[i];
        assert(nv.take(i + 1).drop_last() =~= nv.take(i as int));
        assert(nv.take(i + 1).last() == name@);
        let ghost before = texts(diffs@);
        let li = find_entry(&left.entries, name);
        let ri = find_entry(&right.entries, name);
        match (li, ri) {
            (Some(_), None) => {
                let line = only_in_line(name, &left.label);
                diffs.push(line);
                assert(texts(diffs@) =~= before + name_lines(name@, *left, *right));
            },
            (None, Some(_)) => {
                let line = only_in_line(name, &right.label);
                diffs.push(line);
                assert(texts(diffs@) =~= before + name_lines(name@, *left, *right));
            },
            (Some(a), Some(b)) => {
                let fields = entry_diffs(&left.entries[a], &right.entries[b]);
                let ghost fv = texts(fields@);
                for j in 0..fields.len()
                    invariant
                        fv == texts(fields@),
                        texts(diffs@) == before + named_lines(name@, fv.take(j as int)),
                {
                    let mut d: Vec<char> = Vec::new();
                    append(&mut d, "'");
                    append(&mut d, name.as_str());
                    append(&mut d, "': ");
                    append(&mut d, fields[j].as_str());
                    let line = string_from_chars(d.as_slice());
                    let ghost prev = diffs@;
                    diffs.push(line);
                    assert(fv.take(j + 1) =~= fv.take(j as int).push(fv[j as int]));
                    assert(named_lines(name@, fv.take(j + 1)) =~= named_lines(
                        name@,
                        fv.take(j as int),
                    ).push("'"@ + name@ + "': "@ + fv[j as int]));
                    assert(texts(diffs@) =~= texts(prev).push(line@));
                }
                assert(fv.take(fv.len() as int) =~= fv);
            },
            (None, None) => {
                assert(texts(diffs@) =~= before + name_lines(name@, *left, *right));
            },
        }
    }
    assert(nv.take(nv.len() as int) =~= nv);
    diffs
}


proof fn lemma_field_lines_same(ks: Seq<Seq<char>>, f: Seq<(String, String)>)
    ensures
        field_lines(ks, f, f) == Seq::<Seq<char>>::empty(),
    decreases ks.len(),
{
    if ks.len() > 0 {
        lemma_field_lines_same(ks.drop_last(), f);
    }
}

/// An entry compared with itself shows no difference.
pub proof fn lemma_entry_diff_self(e: EntryView)
    ensures
        entry_diff_lines(e, e) == Seq::<Seq<char>>::empty(),
{
    lemma_field_lines_same(sorted_union_of(field_keys(e.fields@), field_keys(e.fields@)), e.fields@);
    assert(entry_diff_lines(e, e) =~= Seq::<Seq<char>>::empty());
}

/// A corpus compared with itself shows no difference, whatever names are
/// looked at.
pub proof fn lemma_compare_self(side: CorpusSide, ns: Seq<Seq<char>>)
    ensures
        compare_lines(ns, side, side) == Seq::<Seq<char>>::empty(),
    decreases ns.len(),
{
    if ns.len() > 0 {
        lemma_compare_self(side, ns.drop_last());
        let n = ns.last();
        match last_named(side.entries@, n) {
            Some(a) => {
                lemma_entry_diff_self(a);
                assert(named_lines(n, entry_diff_lines(a, a)) =~= Seq::<Seq<char>>::empty());
            },
            None => {},
        }
        assert(compare_lines(ns, side, side) =~= Seq::<Seq<char>>::empty());
    }
}


/// `k` added to a strictly increasing list of texts, unless already there.
pub open spec fn insert_text(s: Seq<Seq<char>>, k: Seq<char>) -> Seq<Seq<char>>
    decreases s.len(),
{
    if s.len() == 0 {
        seq![k]
    } else if s[0] == k {
        s
    } else if text_lt(k, s[0]) {
        seq![k] + s
    } else {
        seq![s[0]] + insert_text(s.drop_first(), k)
    }
}

/// The texts of `c`, in increasing order, once each.
pub open spec fn sorted_texts(c: Seq<Seq<char>>) -> Seq<Seq<char>>
    decreases c.len(),
{
    if c.len() == 0 {
        seq![]
    } else {
        insert_text(sorted_texts(c.drop_last()), c.last())
    }
}

proof fn lemma_insert_text(s: Seq<Seq<char>>, k: Seq<char>)
    requires
        strictly_increasing(s),
    ensures
        strictly_increasing(insert_text(s, k)),
        forall|x: Seq<char>| #[trigger] insert_text(s, k).contains(x) <==> (s.contains(x) || x == k),
    decreases s.len(),
{
    let r = insert_text(s, k);
    if s.len() == 0 {
        assert forall|x: Seq<char>| r.contains(x) <==> (s.contains(x) || x == k) by {
            if r.contains(x) {
                assert(r[0] == x);
            }
            if x == k {
                assert(r[0] == x);
            }
        }
    } else if s[0] == k {
        assert forall|x: Seq<char>| r.contains(x) <==> (s.contains(x) || x == k) by {
            if x == k {
                assert(s[0] == x);
            }
        }
    } else if text_lt(k, s[0]) {
        assert forall|a: int, b: int| 0 <= a < b < r.len() implies text_lt(r[a], r[b]) by {
            assert(r[b] == s[b - 1]);
            if a > 0 {
                assert(r[a] == s[a - 1]);
            } else if b > 1 {
                assert(text_lt(s[0], s[b - 1]));
                lemma_lex_lt_transitive(encode_utf8(k), encode_utf8(s[0]), encode_utf8(s[b - 1]));
            }
        }
        assert forall|x: Seq<char>| r.contains(x) <==> (s.contains(x) || x == k) by {
            if r.contains(x) {
                let j = choose|j: int| 0 <= j < r.len() && r[j] == x;
                if j > 0 {
                    assert(s[j - 1] == x);
                }
            }
            if s.contains(x) {
                let j = choose|j: int| 0 <= j < s.len() && s[j] == x;
                assert(r[j + 1] == x);
            }
            if x == k {
                assert(r[0] == x);
            }
        }
    } else {
        lemma_encode_injective(s[0], k);
        lemma_lex_lt_total(encode_utf8(s[0]), encode_utf8(k));
        let s1 = s.drop_first();
        assert(strictly_increasing(s1)) by {
            assert forall|a: int, b: int| 0 <= a < b < s1.len() implies text_lt(s1[a], s1[b]) by {
                assert(s1[a] == s[a + 1]);
                assert(s1[b] == s[b + 1]);
            }
        }
        lemma_insert_text(s1, k);
        let r1 = insert_text(s1, k);
        assert forall|a: int, b: int| 0 <= a < b < r.len() implies text_lt(r[a], r[b]) by {
            assert(r[b] == r1[b - 1]);
            if a > 0 {
                assert(r[a] == r1[a - 1]);
            } else {
                assert(r1.contains(r1[b - 1]));
                if r1[b - 1] != k {
                    assert(s1.contains(r1[b - 1]));
                    let j = choose|j: int| 0 <= j < s1.len() && s1[j] == r1[b - 1];
                    assert(s[j + 1] == s1[j]);
                }
            }
        }
        assert forall|x: Seq<char>| r.contains(x) <==> (s.contains(x) || x == k) by {
            if r.contains(x) {
                let j = choose|j: int| 0 <= j < r.len() && r[j] == x;
                if j > 0 {
                    assert(r1[j - 1] == x);
                    assert(r1.contains(x));
                    if x != k {
                        assert(s1.contains(x));
                        let i = choose|i: int| 0 <= i < s1.len() && s1[i] == x;
                        assert(s[i + 1] == x);
                    }
                }
            }
            if s.contains(x) {
                let j = choose|j: int| 0 <= j < s.len() && s[j] == x;
                if j > 0 {
                    assert(s1[j - 1] == x);
                    assert(s1.contains(x));
                    assert(r1.contains(x));
                    let i = choose|i: int| 0 <= i < r1.len() && r1[i] == x;
                    assert(r[i + 1] == x);
                } else {
                    assert(r[0] == x);
                }
            }
            if x == k {
                assert(r1.contains(x));
                let i = choose|i: int| 0 <= i < r1.len() && r1[i] == x;
                assert(r[i + 1] == x);
            }
        }
    }
}

proof fn lemma_sorted_texts(c: Seq<Seq<char>>)
    ensures
        strictly_increasing(sorted_texts(c)),
        forall|x: Seq<char>| #[trigger] sorted_texts(c).contains(x) <==> c.contains(x),
    decreases c.len(),
{
    if c.len() > 0 {
        lemma_sorted_texts(c.drop_last());
        lemma_insert_text(sorted_texts(c.drop_last()), c.last());
        assert(c == c.drop_last().push(c.last()));
        lemma_contains_push(c.drop_last(), c.last());
    }
}

/// There is a sorted union of any two lists of texts.
proof fn lemma_sorted_union_exists(a: Seq<Seq<char>>, b: Seq<Seq<char>>)
    ensures
        is_sorted_union(sorted_union_of(a, b), a, b),
{
    lemma_sorted_texts(a + b);
    let u = sorted_texts(a + b);
    assert forall|k: Seq<char>| u.contains(k) <==> (a.contains(k) || b.contains(k)) by {
        if (a + b).contains(k) {
            let j = choose|j: int| 0 <= j < (a + b).len() && (a + b)[j] == k;
            if j < a.len() {
                assert(a[j] == k);
            } else {
                assert(b[j - a.len()] == k);
            }
        }
        if a.contains(k) {
            let j = choose|j: int| 0 <= j < a.len() && a[j] == k;
            assert((a + b)[j] == k);
        }
        if b.contains(k) {
            let j = choose|j: int| 0 <= j < b.len() && b[j] == k;
            assert((a + b)[a.len() + j] == k);
        }
    }
    assert(is_sorted_union(u, a, b));
}


/// Two entries with the same field values, source path and bytes.
pub open spec fn same_entry(a: EntryView, b: EntryView) -> bool {
    &&& forall|k: Seq<char>| #[trigger] field_value(a.fields@, k) == field_value(b.fields@, k)
    &&& a.path@ == b.path@
    &&& a.bytes@ == b.bytes@
}

/// Both sides have entries of the same names, and the entries of each name
/// are the same.
pub open spec fn equivalent(l: CorpusSide, r: CorpusSide) -> bool {
    forall|n: Seq<char>|
        match (#[trigger] last_named(l.entries@, n), last_named(r.entries@, n)) {
            (None, None) => true,
            (Some(a), Some(b)) => same_entry(a, b),
            _ => false,
        }
}

proof fn lemma_field_value_key(fs: Seq<(String, String)>, k: Seq<char>)
    ensures
        field_value(fs, k) is Some <==> field_keys(fs).contains(k),
    decreases fs.len(),
{
    if fs.len() > 0 {
        let f1 = fs.drop_last();
        lemma_field_value_key(f1, k);
        assert(field_keys(fs) =~= field_keys(f1).push(fs.last().0@));
        lemma_contains_push(field_keys(f1), fs.last().0@);
    } else {
        assert(field_keys(fs).len() == 0);
    }
}

proof fn lemma_field_lines_empty(ks: Seq<Seq<char>>, lf: Seq<(String, String)>, rf: Seq<(String, String)>)
    ensures
        field_lines(ks, lf, rf).len() == 0 <==> forall|i: int|
            0 <= i < ks.len() ==> field_value(lf, #[trigger] ks[i]) == field_value(rf, ks[i]),
    decreases ks.len(),
{
    if ks.len() > 0 {
        let k1 = ks.drop_last();
        lemma_field_lines_empty(k1, lf, rf);
        assert forall|i: int| 0 <= i < k1.len() implies k1[i] == ks[i] by {}
        if field_lines(ks, lf, rf).len() == 0 {
            assert forall|i: int| 0 <= i < ks.len() implies field_value(lf, #[trigger] ks[i]) == field_value(rf, ks[i]) by {
                if i < ks.len() - 1 {
                    assert(k1[i] == ks[i]);
                }
            }
        }
        if forall|i: int| 0 <= i < ks.len() ==> field_value(lf, #[trigger] ks[i]) == field_value(rf, ks[i]) {
            assert(ks[ks.len() - 1] == ks.last());
            assert forall|i: int| 0 <= i < k1.len() implies field_value(lf, #[trigger] k1[i]) == field_value(rf, k1[i]) by {
                assert(k1[i] == ks[i]);
            }
        }
    }
}

/// An entry shows no difference from another exactly when the two are the
/// same entry.
pub proof fn lemma_entry_diff_empty(a: EntryView, b: EntryView)
    ensures
        entry_diff_lines(a, b).len() == 0 <==> same_entry(a, b),
{
    let ka = field_keys(a.fields@);
    let kb = field_keys(b.fields@);
    let ks = sorted_union_of(ka, kb);
    lemma_sorted_union_exists(ka, kb);
    lemma_field_lines_empty(ks, a.fields@, b.fields@);
    let fl = field_lines(ks, a.fields@, b.fields@);
    if entry_diff_lines(a, b).len() == 0 {
        assert(fl.len() == 0);
        assert forall|k: Seq<char>| #[trigger] field_value(a.fields@, k) == field_value(b.fields@, k) by {
            lemma_field_value_key(a.fields@, k);
            lemma_field_value_key(b.fields@, k);
            if ks.contains(k) {
                let i = choose|i: int| 0 <= i < ks.len() && ks[i] == k;
                assert(field_value(a.fields@, ks[i]) == field_value(b.fields@, ks[i]));
            }
        }
        if a.path@ != b.path@ {
            assert(entry_diff_lines(a, b).len() >= 1);
        }
        if a.bytes@ != b.bytes@ {
            assert(entry_diff_lines(a, b).len() >= 1);
        }
    }
    if same_entry(a, b) {
        assert forall|i: int| 0 <= i < ks.len() implies field_value(a.fields@, #[trigger] ks[i]) == field_value(b.fields@, ks[i]) by {
            assert(field_value(a.fields@, ks[i]) == field_value(b.fields@, ks[i]));
        }
        assert(fl.len() == 0);
    }
}

proof fn lemma_last_named_found(es: Seq<EntryView>, n: Seq<char>)
    ensures
        last_named(es, n) is Some <==> entry_names(es).contains(n),
    decreases es.len(),
{
    if es.len() > 0 {
        let e1 = es.drop_last();
        lemma_last_named_found(e1, n);
        assert(entry_names(es) =~= entry_names(e1).push(es.last().name@));
        lemma_contains_push(entry_names(e1), es.last().name@);
    } else {
        assert(entry_names(es).len() == 0);
    }
}

/// Whether the differences reported for one name are none.
pub open spec fn name_agrees(n: Seq<char>, l: CorpusSide, r: CorpusSide) -> bool {
    match (last_named(l.entries@, n), last_named(r.entries@, n)) {
        (None, None) => true,
        (Some(a), Some(b)) => same_entry(a, b),
        _ => false,
    }
}

proof fn lemma_name_lines_empty(n: Seq<char>, l: CorpusSide, r: CorpusSide)
    ensures
        name_lines(n, l, r).len() == 0 <==> name_agrees(n, l, r),
{
    match (last_named(l.entries@, n), last_named(r.entries@, n)) {
        (Some(a), Some(b)) => {
            lemma_entry_diff_empty(a, b);
        },
        _ => {},
    }
}

proof fn lemma_compare_lines_empty(ns: Seq<Seq<char>>, l: CorpusSide, r: CorpusSide)
    ensures
        compare_lines(ns, l, r).len() == 0 <==> forall|i: int|
            0 <= i < ns.len() ==> name_agrees(#[trigger] ns[i], l, r),
    decreases ns.len(),
{
    if ns.len() > 0 {
        let n1 = ns.drop_last();
        lemma_compare_lines_empty(n1, l, r);
        lemma_name_lines_empty(ns.last(), l, r);
        assert(ns[ns.len() - 1] == ns.last());
        if compare_lines(ns, l, r).len() == 0 {
            assert forall|i: int| 0 <= i < ns.len() implies name_agrees(#[trigger] ns[i], l, r) by {
                if i < ns.len() - 1 {
                    assert(n1[i] == ns[i]);
                }
            }
        }
        if forall|i: int| 0 <= i < ns.len() ==> name_agrees(#[trigger] ns[i], l, r) {
            assert forall|i: int| 0 <= i < n1.len() implies name_agrees(#[trigger] n1[i], l, r) by {
                assert(n1[i] == ns[i]);
            }
        }
    }
}

/// Comparing two corpora reports nothing exactly when they are equivalent:
/// the same names on both sides, and entries of the same name with the same
/// metadata fields, source path and bytes.
pub proof fn lemma_compare_empty_iff_equivalent(l: CorpusSide, r: CorpusSide)
    ensures
        compare_lines(sorted_union_of(entry_names(l.entries@), entry_names(r.entries@)), l, r).len() == 0
            <==> equivalent(l, r),
{
    let ln = entry_names(l.entries@);
    let rn = entry_names(r.entries@);
    let ns = sorted_union_of(ln, rn);
    lemma_sorted_union_exists(ln, rn);
    lemma_compare_lines_empty(ns, l, r);
    if compare_lines(ns, l, r).len() == 0 {
        assert forall|n: Seq<char>| #[trigger] name_agrees(n, l, r) by {
            lemma_last_named_found(l.entries@, n);
            lemma_last_named_found(r.entries@, n);
            if ns.contains(n) {
                let i = choose|i: int| 0 <= i < ns.len() && ns[i] == n;
                assert(name_agrees(ns[i], l, r));
            }
        }
        assert forall|n: Seq<char>|
            match (#[trigger] last_named(l.entries@, n), last_named(r.entries@, n)) {
                (None, None) => true,
                (Some(a), Some(b)) => same_entry(a, b),
                _ => false,
            } by {
            assert(name_agrees(n, l, r));
        }
    }
    if equivalent(l, r) {
        assert forall|i: int| 0 <= i < ns.len() implies name_agrees(#[trigger] ns[i], l, r) by {
            let n = ns[i];
            assert(match (last_named(l.entries@, n), last_named(r.entries@, n)) {
                (None, None) => true,
                (Some(a), Some(b)) => same_entry(a, b),
                _ => false,
            });
        }
    }
}

} // verus!
