//! What lexical normalization and relative paths promise: a normalized path
//! has no `.` or `..` left, normalizing it again changes nothing, a path
//! written out with `/` reads back as the same components, and a relative
//! path from a directory to a file, written out and read back, leads from
//! that directory to that file again.

use vstd::prelude::*;
use crate::paths::{
    common_prefix_len, joined_text, keep_segments, normalized, parent_parts, part_text, parents, path_text,
    path_parts, pop_parts, lemma_segments_nonempty, push_each, push_parts, relative_parts, segments, is_normal_form, PathPart,
};

verus! {

/// A name that reads back as itself: not empty, no `/`, and neither `.` nor
/// `..`.
pub open spec fn proper_name(n: Seq<char>) -> bool {
    &&& n.len() > 0
    &&& !n.contains('/')
    &&& n != seq!['.']
    &&& n != seq!['.', '.']
}

/// Every name among the components is proper.
pub open spec fn proper_parts(p: Seq<PathPart>) -> bool {
    forall|i: int| 0 <= i < p.len() ==> (#[trigger] p[i] is Normal ==> proper_name(p[i]->Normal_0))
}

/// The path starts at the root.
pub open spec fn rooted(p: Seq<PathPart>) -> bool {
    p.len() > 0 && p[0] == PathPart::Root
}

/// The root, if any, comes first.
pub open spec fn root_first(p: Seq<PathPart>) -> bool {
    forall|i: int| 0 < i < p.len() ==> #[trigger] p[i] != PathPart::Root
}

/// Only `..` components and proper names.
pub open spec fn plain_parts(r: Seq<PathPart>) -> bool {
    forall|i: int|
        0 <= i < r.len() ==> (#[trigger] r[i] == PathPart::Parent || (r[i] is Normal && proper_name(
            r[i]->Normal_0,
        )))
}

/// Some `..` components, then proper names.
pub open spec fn upward_then_down(r: Seq<PathPart>) -> bool {
    &&& plain_parts(r)
    &&& forall|i: int, j: int|
        #![trigger r[i], r[j]]
        0 <= i < j < r.len() && r[j] == PathPart::Parent ==> r[i] == PathPart::Parent
}

proof fn lemma_segments_concat(x: Seq<char>, y: Seq<char>)
    ensures
        segments(x + seq!['/'] + y) == segments(x) + segments(y),
    decreases y.len(),
{
    let xs = x + seq!['/'];
    if y.len() == 0 {
        assert(xs + y =~= xs);
        assert(xs.drop_last() =~= x);
        assert(segments(y) =~= seq![seq![]]);
        assert(segments(x).push(seq![]) =~= segments(x) + segments(y));
    } else {
        let y1 = y.drop_last();
        let c = y.last();
        assert((xs + y).drop_last() =~= xs + y1);
        assert((xs + y).last() == c);
        lemma_segments_concat(x, y1);
        lemma_segments_nonempty(y1);
        let r = segments(x) + segments(y1);
        if c == '/' {
            assert(segments(y) == segments(y1).push(seq![]));
            assert(r.push(seq![]) =~= segments(x) + segments(y1).push(seq![]));
        } else {
            let sy = segments(y1);
            assert(segments(y) == sy.update(sy.len() - 1, sy.last().push(c)));
            assert(r.last() == sy.last());
            assert(r.update(r.len() - 1, r.last().push(c)) =~= segments(x) + sy.update(
                sy.len() - 1,
                sy.last().push(c),
            ));
        }
    }
}

proof fn lemma_segments_single(n: Seq<char>)
    requires
        !n.contains('/'),
    ensures
        segments(n) == seq![n],
    decreases n.len(),
{
    if n.len() > 0 {
        let m = n.drop_last();
        assert(!m.contains('/')) by {
            if m.contains('/') {
                let i = choose|i: int| 0 <= i < m.len() && m[i] == '/';
                assert(n[i] == '/');
            }
        }
        lemma_segments_single(m);
        assert(n.last() != '/') by {
            assert(n[n.len() - 1] == n.last());
        }
        assert(m.push(n.last()) =~= n);
        assert(seq![m].update(0, m.push(n.last())) =~= seq![n]);
    } else {
        assert(n =~= seq![]);
    }
}

proof fn lemma_keep_concat(a: Seq<Seq<char>>, b: Seq<Seq<char>>)
    ensures
        keep_segments(a + b) == keep_segments(a) + keep_segments(b),
    decreases b.len(),
{
    if b.len() == 0 {
        assert(a + b =~= a);
        assert(keep_segments(a) + keep_segments(b) =~= keep_segments(a));
    } else {
        assert((a + b).drop_last() =~= a + b.drop_last());
        assert((a + b).last() == b.last());
        lemma_keep_concat(a, b.drop_last());
        let s = b.last();
        if s.len() == 0 || s == seq!['.'] {
        } else if s == seq!['.', '.'] {
            assert((keep_segments(a) + keep_segments(b.drop_last())).push(PathPart::Parent)
                =~= keep_segments(a) + keep_segments(b.drop_last()).push(PathPart::Parent));
        } else {
            assert((keep_segments(a) + keep_segments(b.drop_last())).push(PathPart::Normal(s))
                =~= keep_segments(a) + keep_segments(b.drop_last()).push(PathPart::Normal(s)));
        }
    }
}

/// The component texts of `r`.
pub open spec fn part_texts(r: Seq<PathPart>) -> Seq<Seq<char>> {
    r.map_values(|c: PathPart| part_text(c))
}

proof fn lemma_joined_segments(r: Seq<PathPart>)
    requires
        r.len() > 0,
        plain_parts(r),
    ensures
        segments(joined_text(r)) == part_texts(r),
        joined_text(r).len() > 0,
        joined_text(r)[0] == part_text(r[0])[0],
    decreases r.len(),
{
    let c = r.last();
    assert(r[r.len() - 1] == c);
    assert(!part_text(c).contains('/')) by {
        if c == PathPart::Parent {
            if part_text(c).contains('/') {
                let i = choose|i: int| 0 <= i < 2 && part_text(c)[i] == '/';
            }
        }
    }
    lemma_segments_single(part_text(c));
    if r.len() == 1 {
        assert(part_texts(r) =~= seq![part_text(r[0])]);
    } else {
        let r1 = r.drop_last();
        assert(plain_parts(r1)) by {
            assert forall|i: int| 0 <= i < r1.len() implies (#[trigger] r1[i] == PathPart::Parent || (
            r1[i] is Normal && proper_name(r1[i]->Normal_0))) by {
                assert(r[i] == r1[i]);
            }
        }
        lemma_joined_segments(r1);
        lemma_segments_concat(joined_text(r1), part_text(c));
        assert(part_texts(r) =~= part_texts(r1) + seq![part_text(c)]);
        assert(r1[0] == r[0]);
    }
}

proof fn lemma_keep_part_texts(r: Seq<PathPart>)
    requires
        plain_parts(r),
    ensures
        keep_segments(part_texts(r)) == r,
    decreases r.len(),
{
    if r.len() > 0 {
        let r1 = r.drop_last();
        assert(plain_parts(r1)) by {
            assert forall|i: int| 0 <= i < r1.len() implies (#[trigger] r1[i] == PathPart::Parent || (
            r1[i] is Normal && proper_name(r1[i]->Normal_0))) by {
                assert(r[i] == r1[i]);
            }
        }
        lemma_keep_part_texts(r1);
        assert(part_texts(r).drop_last() =~= part_texts(r1));
        assert(part_texts(r).last() == part_text(r.last()));
        assert(r[r.len() - 1] == r.last());
        assert(r =~= r1.push(r.last()));
    } else {
        assert(part_texts(r) =~= seq![]);
    }
}

/// A path of `..` components and proper names, written out with `/`, reads
/// back as the same components.
pub proof fn lemma_joined_text_reads_back(r: Seq<PathPart>)
    requires
        plain_parts(r),
    ensures
        path_parts(joined_text(r)) == r,
{
    if r.len() > 0 {
        lemma_joined_segments(r);
        lemma_keep_part_texts(r);
        let t = joined_text(r);
        assert(r[0] == PathPart::Parent || (r[0] is Normal && proper_name(r[0]->Normal_0)));
        if r[0] is Normal {
            let n = r[0]->Normal_0;
            assert(n[0] != '/') by {
                assert(!n.contains('/'));
                if n[0] == '/' {
                    assert(n.contains(n[0]));
                }
            }
        }
        assert(t[0] != '/');
        let segs = segments(t);
        assert(segs[0] == part_text(r[0]));
        assert(segs[0] != seq!['.']) by {
            if r[0] == PathPart::Parent {
                assert(part_text(r[0]).len() == 2);
            }
        }
    }
}


proof fn lemma_segments_no_slash(q: Seq<char>)
    ensures
        forall|i: int| 0 <= i < segments(q).len() ==> !(#[trigger] segments(q)[i]).contains('/'),
    decreases q.len(),
{
    if q.len() > 0 {
        let r = segments(q.drop_last());
        lemma_segments_no_slash(q.drop_last());
        lemma_segments_nonempty(q.drop_last());
        if q.last() != '/' {
            let w = r.last().push(q.last());
            assert(!w.contains('/')) by {
                if w.contains('/') {
                    let i = choose|i: int| 0 <= i < w.len() && w[i] == '/';
                    if i < w.len() - 1 {
                        assert(r[r.len() - 1][i] == '/');
                        assert(r[r.len() - 1].contains('/'));
                    }
                }
            }
            assert forall|i: int| 0 <= i < segments(q).len() implies !(#[trigger] segments(q)[i]).contains('/') by {
                if i < r.len() - 1 {
                    assert(segments(q)[i] == r[i]);
                }
            }
        } else {
            assert forall|i: int| 0 <= i < segments(q).len() implies !(#[trigger] segments(q)[i]).contains('/') by {
                if i < r.len() {
                    assert(segments(q)[i] == r[i]);
                } else {
                    assert(segments(q)[i] =~= seq![]);
                }
            }
        }
    }
}

proof fn lemma_keep_shape(segs: Seq<Seq<char>>)
    requires
        forall|i: int| 0 <= i < segs.len() ==> !(#[trigger] segs[i]).contains('/'),
    ensures
        proper_parts(keep_segments(segs)),
        forall|i: int| 0 <= i < keep_segments(segs).len() ==> (#[trigger] keep_segments(segs)[i] is Normal
            || keep_segments(segs)[i] == PathPart::Parent),
    decreases segs.len(),
{
    if segs.len() > 0 {
        let r = keep_segments(segs.drop_last());
        assert forall|i: int| 0 <= i < segs.drop_last().len() implies !(#[trigger] segs.drop_last()[i]).contains('/') by {
            assert(segs.drop_last()[i] == segs[i]);
        }
        lemma_keep_shape(segs.drop_last());
        assert(!segs[segs.len() - 1].contains('/'));
        let k = keep_segments(segs);
        assert forall|i: int| 0 <= i < k.len() implies (#[trigger] k[i] is Normal ==> proper_name(k[i]->Normal_0)) && (k[i] is Normal || k[i] == PathPart::Parent) by {
            if i < r.len() {
                assert(k[i] == r[i]);
            }
        }
    }
}

/// The components read from a path's text: a root only first, and every name
/// proper.
pub proof fn lemma_path_parts_shape(t: Seq<char>)
    ensures
        root_first(path_parts(t)),
        proper_parts(path_parts(t)),
{
    let p = path_parts(t);
    if t.len() > 0 {
        if t[0] == '/' {
            let q = t.drop_first();
            lemma_segments_no_slash(q);
            lemma_keep_shape(segments(q));
            let k = keep_segments(segments(q));
            assert forall|i: int| 0 <= i < p.len() implies (#[trigger] p[i] is Normal ==> proper_name(p[i]->Normal_0)) && (i > 0 ==> p[i] != PathPart::Root) by {
                if i > 0 {
                    assert(p[i] == k[i - 1]);
                }
            }
        } else {
            let segs = segments(t);
            lemma_segments_no_slash(t);
            lemma_segments_nonempty(t);
            if segs[0] == seq!['.'] {
                let d = segs.drop_first();
                assert forall|i: int| 0 <= i < d.len() implies !(#[trigger] d[i]).contains('/') by {
                    assert(d[i] == segs[i + 1]);
                }
                lemma_keep_shape(d);
                let k = keep_segments(d);
                assert forall|i: int| 0 <= i < p.len() implies (#[trigger] p[i] is Normal ==> proper_name(p[i]->Normal_0)) && (i > 0 ==> p[i] != PathPart::Root) by {
                    if i > 0 {
                        assert(p[i] == k[i - 1]);
                    }
                }
            } else {
                lemma_keep_shape(segs);
            }
        }
    }
}

/// Normalizing a path whose root, if any, comes first and whose names are
/// proper leaves no `.` or `..`, keeps the names proper, and keeps the path
/// rooted exactly when it was.
pub proof fn lemma_normalized_shape(p: Seq<PathPart>)
    requires
        root_first(p),
        proper_parts(p),
    ensures
        is_normal_form(normalized(p)),
        proper_parts(normalized(p)),
        rooted(normalized(p)) == rooted(p),
    decreases p.len(),
{
    if p.len() > 0 {
        let p1 = p.drop_last();
        assert(root_first(p1)) by {
            assert forall|i: int| 0 < i < p1.len() implies #[trigger] p1[i] != PathPart::Root by {
                assert(p[i] == p1[i]);
            }
        }
        assert(proper_parts(p1)) by {
            assert forall|i: int| 0 <= i < p1.len() && #[trigger] p1[i] is Normal implies proper_name(p1[i]->Normal_0) by {
                assert(p[i] == p1[i]);
            }
        }
        lemma_normalized_shape(p1);
        let out = normalized(p1);
        let c = p.last();
        assert(p[p.len() - 1] == c);
        if p1.len() > 0 {
            assert(p1[0] == p[0]);
        }
        let n = normalized(p);
        match c {
            PathPart::Cur => {
                if p1.len() == 0 {
                    assert(p[0] == PathPart::Cur);
                }
            },
            PathPart::Parent => {
                if p1.len() == 0 {
                    assert(p[0] == PathPart::Parent);
                }
                if out.len() > 0 && out.last() != PathPart::Root {
                    assert(n == out.drop_last());
                    assert forall|i: int| 0 <= i < n.len() implies match #[trigger] n[i] {
                        PathPart::Root => i == 0,
                        PathPart::Normal(_) => true,
                        _ => false,
                    } && (n[i] is Normal ==> proper_name(n[i]->Normal_0)) by {
                        assert(n[i] == out[i]);
                    }
                    if out.len() == 1 {
                        assert(out[0] != PathPart::Root);
                    } else {
                        assert(n[0] == out[0]);
                    }
                }
            },
            PathPart::Root => {
                assert(p.len() - 1 == 0);
                assert(n =~= seq![PathPart::Root]);
            },
            PathPart::Normal(x) => {
                assert(proper_name(x));
                assert(n =~= out + seq![c]);
                assert forall|i: int| 0 <= i < n.len() implies match #[trigger] n[i] {
                    PathPart::Root => i == 0,
                    PathPart::Normal(_) => true,
                    _ => false,
                } && (n[i] is Normal ==> proper_name(n[i]->Normal_0)) by {
                    if i < out.len() {
                        assert(n[i] == out[i]);
                    }
                }
                if out.len() == 0 {
                    if p1.len() > 0 {
                        assert(!rooted(p1));
                    }
                } else {
                    assert(n[0] == out[0]);
                }
            },
        }
    }
}

/// Normalizing a path with no `.` or `..` left changes nothing.
pub proof fn lemma_normalized_fixed(p: Seq<PathPart>)
    requires
        is_normal_form(p),
    ensures
        normalized(p) == p,
    decreases p.len(),
{
    if p.len() > 0 {
        let p1 = p.drop_last();
        assert(is_normal_form(p1)) by {
            assert forall|i: int| 0 <= i < p1.len() implies match #[trigger] p1[i] {
                PathPart::Root => i == 0,
                PathPart::Normal(_) => true,
                _ => false,
            } by {
                assert(p[i] == p1[i]);
            }
        }
        lemma_normalized_fixed(p1);
        let c = p.last();
        assert(p[p.len() - 1] == c);
        match c {
            PathPart::Root => {
                assert(p =~= seq![PathPart::Root]);
            },
            _ => {
                assert(p =~= p1 + seq![c]);
            },
        }
    }
}

/// Normalizing twice is normalizing once.
pub proof fn lemma_normalize_idempotent(p: Seq<PathPart>)
    requires
        root_first(p),
        proper_parts(p),
    ensures
        normalized(normalized(p)) == normalized(p),
{
    lemma_normalized_shape(p);
    lemma_normalized_fixed(normalized(p));
}


pub(crate) proof fn lemma_common_prefix_props(a: Seq<PathPart>, b: Seq<PathPart>)
    ensures
        common_prefix_len(a, b) <= a.len(),
        common_prefix_len(a, b) <= b.len(),
        a.take(common_prefix_len(a, b) as int) == b.take(common_prefix_len(a, b) as int),
    decreases a.len(),
{
    if !(a.len() == 0 || b.len() == 0 || a[0] != b[0]) {
        lemma_common_prefix_props(a.drop_first(), b.drop_first());
        let c = common_prefix_len(a, b) as int;
        assert(a.take(c) =~= seq![a[0]] + a.drop_first().take(c - 1));
        assert(b.take(c) =~= seq![b[0]] + b.drop_first().take(c - 1));
    } else {
        assert(a.take(0) =~= b.take(0));
    }
}

proof fn lemma_pops(d: Seq<PathPart>, m: nat)
    requires
        is_normal_form(d),
        m + (if rooted(d) { 1int } else { 0int }) <= d.len(),
    ensures
        normalized(d + parents(m)) == d.take(d.len() - m),
    decreases m,
{
    if m == 0 {
        assert(d + parents(0) =~= d);
        assert(d.take(d.len() as int) =~= d);
        lemma_normalized_fixed(d);
    } else {
        let x = d + parents(m);
        assert(x.drop_last() =~= d + parents((m - 1) as nat));
        assert(x.last() == PathPart::Parent);
        lemma_pops(d, (m - 1) as nat);
        let out = d.take(d.len() - m + 1);
        let i = d.len() - m;
        assert(out.last() == d[i]);
        assert(d[i] != PathPart::Root) by {
            if d[i] == PathPart::Root {
                assert(i == 0);
            }
        }
        assert(out.drop_last() =~= d.take(d.len() - m));
    }
}

pub(crate) proof fn lemma_push_names(y: Seq<PathPart>, t: Seq<PathPart>)
    requires
        forall|i: int| 0 <= i < t.len() ==> #[trigger] t[i] is Normal,
    ensures
        normalized(y + t) == normalized(y) + t,
    decreases t.len(),
{
    if t.len() == 0 {
        assert(y + t =~= y);
        assert(normalized(y) + t =~= normalized(y));
    } else {
        let t1 = t.drop_last();
        assert forall|i: int| 0 <= i < t1.len() implies #[trigger] t1[i] is Normal by {
            assert(t1[i] == t[i]);
        }
        lemma_push_names(y, t1);
        assert((y + t).drop_last() =~= y + t1);
        assert((y + t).last() == t[t.len() - 1]);
        assert(t[t.len() - 1] is Normal);
        assert(normalized(y) + t =~= (normalized(y) + t1) + seq![t.last()]);
    }
}

proof fn lemma_push_each_names(p: Seq<PathPart>, cs: Seq<PathPart>)
    requires
        forall|i: int| 0 <= i < cs.len() ==> #[trigger] cs[i] is Normal,
    ensures
        push_each(p, cs) == p + cs,
    decreases cs.len(),
{
    if cs.len() == 0 {
        assert(p + cs =~= p);
    } else {
        let c1 = cs.drop_last();
        assert forall|i: int| 0 <= i < c1.len() implies #[trigger] c1[i] is Normal by {
            assert(c1[i] == cs[i]);
        }
        lemma_push_each_names(p, c1);
        assert(cs[cs.len() - 1] is Normal);
        assert(p + cs =~= (p + c1) + seq![cs.last()]);
    }
}

/// The relative path from directory `d` to `b` (both normalized, both rooted
/// or both not) is some `..` components followed by proper names, and pushing
/// it onto `d` and normalizing leads back to `b`.
pub proof fn lemma_relative_round_trip(d: Seq<PathPart>, b: Seq<PathPart>)
    requires
        is_normal_form(d),
        is_normal_form(b),
        proper_parts(b),
        rooted(d) == rooted(b),
    ensures
        upward_then_down(relative_parts(d, b)),
        normalized(push_parts(d, relative_parts(d, b))) == b,
{
    let c = common_prefix_len(d, b) as int;
    lemma_common_prefix_props(d, b);
    if rooted(d) {
        assert(d.take(1)[0] == d[0]);
        assert(b.take(1)[0] == b[0]);
        assert(c >= 1);
    }
    let m = (d.len() - c) as nat;
    let t = b.skip(c);
    assert forall|i: int| 0 <= i < t.len() implies #[trigger] t[i] is Normal && proper_name(t[i]->Normal_0) by {
        assert(t[i] == b[c + i]);
        if b[c + i] == PathPart::Root {
            assert(c + i == 0);
        }
    }
    lemma_push_each_names(parents(m), t);
    let r = relative_parts(d, b);
    assert(r == parents(m) + t);
    assert forall|i: int| 0 <= i < r.len() implies (#[trigger] r[i] == PathPart::Parent || (r[i] is Normal
        && proper_name(r[i]->Normal_0))) by {
        if i >= m {
            assert(r[i] == t[i - m]);
        }
    }
    assert forall|i: int, j: int|
        #![trigger r[i], r[j]]
        0 <= i < j < r.len() && r[j] == PathPart::Parent implies r[i] == PathPart::Parent by {
        if j >= m {
            assert(r[j] == t[j - m]);
        }
    }
    assert(push_parts(d, r) == d + r) by {
        if r.len() > 0 {
            if m > 0 {
                assert(r[0] == PathPart::Parent);
            } else {
                assert(r[0] == t[0]);
            }
        }
        if d.len() == 0 {
            assert(d + r =~= r);
        }
    }
    assert(d + r =~= (d + parents(m)) + t);
    lemma_push_names(d + parents(m), t);
    lemma_pops(d, m);
    assert(d.take(c) + t =~= b);
}

/// A link written as the relative path from directory `d` to `b` (as
/// `path_string(relative_path(..))` writes it) and resolved again from `d`
/// (joined onto `d`, then normalized) is `b` again.
pub proof fn lemma_relative_path_resolves(d: Seq<PathPart>, b: Seq<PathPart>)
    requires
        is_normal_form(d),
        is_normal_form(b),
        proper_parts(b),
        rooted(d) == rooted(b),
    ensures
        normalized(push_parts(d, path_parts(joined_text(relative_parts(d, b))))) == b,
{
    lemma_relative_round_trip(d, b);
    lemma_joined_text_reads_back(relative_parts(d, b));
}


proof fn lemma_joined_concat(x: Seq<PathPart>, y: Seq<PathPart>)
    requires
        x.len() > 0,
        y.len() > 0,
    ensures
        joined_text(x + y) == joined_text(x) + seq!['/'] + joined_text(y),
    decreases y.len(),
{
    assert((x + y).drop_last() =~= x + y.drop_last());
    assert((x + y).last() == y.last());
    if y.len() == 1 {
        assert(x + y.drop_last() =~= x);
        assert(y[0] == y.last());
    } else {
        lemma_joined_concat(x, y.drop_last());
    }
}

proof fn lemma_keep_plain(segs: Seq<Seq<char>>)
    requires
        forall|i: int| 0 <= i < segs.len() ==> !(#[trigger] segs[i]).contains('/'),
    ensures
        plain_parts(keep_segments(segs)),
{
    lemma_keep_shape(segs);
    let k = keep_segments(segs);
    assert forall|i: int| 0 <= i < k.len() implies (#[trigger] k[i] == PathPart::Parent || (k[i] is Normal
        && proper_name(k[i]->Normal_0))) by {
        assert(k[i] is Normal || k[i] == PathPart::Parent);
    }
}

proof fn lemma_dot_segments()
    ensures
        segments(seq!['.']) == seq![seq!['.']],
{
    let dot: Seq<char> = seq!['.'];
    assert(!dot.contains('/')) by {
        if dot.contains('/') {
            let i = choose|i: int| 0 <= i < dot.len() && dot[i] == '/';
            assert(dot[0] == '.');
        }
    }
    lemma_segments_single(dot);
}

proof fn lemma_keep_empty_segment()
    ensures
        keep_segments(seq![Seq::<char>::empty()]) == Seq::<PathPart>::empty(),
{
    let segs = seq![Seq::<char>::empty()];
    assert(segs.drop_last() =~= Seq::<Seq<char>>::empty());
    assert(segs.last() == Seq::<char>::empty());
    assert(keep_segments(segs.drop_last()) =~= Seq::<PathPart>::empty());
}

/// Components as a path text gives them: at most one leading root or `.`,
/// then `..` and proper names only.
pub open spec fn led_plain(p: Seq<PathPart>) -> bool {
    if p.len() > 0 && (p[0] == PathPart::Root || p[0] == PathPart::Cur) {
        plain_parts(p.drop_first())
    } else {
        plain_parts(p)
    }
}

/// The components of any path text are led by at most a root or `.`, then
/// plain.
proof fn lemma_parts_led_plain(t: Seq<char>)
    ensures
        led_plain(path_parts(t)),
{
    if t.len() == 0 {
        return;
    }
    let segs0 = segments(t);
    lemma_segments_nonempty(t);
    if t[0] == '/' {
        let q = t.drop_first();
        lemma_segments_no_slash(q);
        lemma_keep_plain(segments(q));
        assert(path_parts(t).drop_first() =~= keep_segments(segments(q)));
    } else if segs0[0] == seq!['.'] {
        let d = segs0.drop_first();
        lemma_segments_no_slash(t);
        assert forall|i: int| 0 <= i < d.len() implies !(#[trigger] d[i]).contains('/') by {
            assert(d[i] == segs0[i + 1]);
        }
        lemma_keep_plain(d);
        assert(path_parts(t).drop_first() =~= keep_segments(d));
    } else {
        lemma_segments_no_slash(t);
        lemma_keep_plain(segs0);
        let k = keep_segments(segs0);
        assert(k.len() > 0 ==> k[0] == PathPart::Parent || k[0] is Normal);
    }
}

/// A root or `.` followed by plain components, written out with `/` between
/// all of them, reads back as the same components.
proof fn lemma_joined_headed(h: PathPart, k: Seq<PathPart>)
    requires
        h == PathPart::Root || h == PathPart::Cur,
        plain_parts(k),
    ensures
        path_parts(joined_text(seq![h] + k)) == seq![h] + k,
{
    let p = seq![h] + k;
    let e: Seq<char> = seq![];
    if k.len() == 0 {
        assert(p =~= seq![h]);
        assert(joined_text(p) == part_text(h));
        if h == PathPart::Root {
            let u = joined_text(p);
            assert(u.drop_first() =~= e);
            assert(segments(e) =~= seq![e]);
            lemma_keep_empty_segment();
            assert(seq![e] == seq![Seq::<char>::empty()]);
            assert(path_parts(u) =~= seq![PathPart::Root]);
        } else {
            let u = joined_text(p);
            assert(u =~= seq!['.']);
            lemma_dot_segments();
            assert(segments(u).drop_first() =~= Seq::<Seq<char>>::empty());
            assert(path_parts(u) =~= seq![PathPart::Cur]);
        }
    } else {
        lemma_joined_concat(seq![h], k);
        lemma_joined_segments(k);
        lemma_keep_part_texts(k);
        let j = joined_text(k);
        let u = joined_text(p);
        assert(joined_text(seq![h]) == part_text(h));
        assert(u == part_text(h) + seq!['/'] + j);
        if h == PathPart::Root {
            assert(u.drop_first() =~= e + seq!['/'] + j);
            lemma_segments_concat(e, j);
            assert(segments(e) =~= seq![e]);
            lemma_keep_concat(seq![e], part_texts(k));
            lemma_keep_empty_segment();
            assert(seq![e] == seq![Seq::<char>::empty()]);
            assert(keep_segments(segments(u.drop_first())) =~= k);
        } else {
            let dot: Seq<char> = seq!['.'];
            assert(u == dot + seq!['/'] + j);
            lemma_segments_concat(dot, j);
            lemma_dot_segments();
            assert(segments(u) =~= seq![dot] + part_texts(k));
            assert(segments(u).drop_first() =~= part_texts(k));
        }
    }
}

/// Components led by at most a root or `.`, then plain, written out with
/// `/` between them, read back as the same components.
proof fn lemma_joined_led_reads_back(p: Seq<PathPart>)
    requires
        led_plain(p),
    ensures
        path_parts(joined_text(p)) == p,
{
    if p.len() > 0 && (p[0] == PathPart::Root || p[0] == PathPart::Cur) {
        assert(p =~= seq![p[0]] + p.drop_first());
        lemma_joined_headed(p[0], p.drop_first());
    } else {
        lemma_joined_text_reads_back(p);
    }
}

/// The components read from any path text, written out again with `/` (as
/// `path_string` writes them), read back as the same components.
pub proof fn lemma_path_string_reads_back(t: Seq<char>)
    ensures
        path_parts(joined_text(path_parts(t))) == path_parts(t),
{
    lemma_parts_led_plain(t);
    lemma_joined_led_reads_back(path_parts(t));
}

/// Each component's text is non-empty, has no `/`, and is not the root.
pub open spec fn texts_unslashed(p: Seq<PathPart>) -> bool {
    forall|i: int|
        0 <= i < p.len() ==> #[trigger] p[i] != PathPart::Root && part_text(p[i]).len() > 0 && !part_text(
            p[i],
        ).contains('/')
}

/// Joined text of unslashed components ends in the last one's text.
proof fn lemma_joined_last(p: Seq<PathPart>)
    requires
        p.len() > 0,
        texts_unslashed(p),
    ensures
        joined_text(p).len() > 0,
        joined_text(p).last() != '/',
{
    let c = part_text(p.last());
    assert(p.last() == p[p.len() - 1]);
    assert(c.len() > 0);
    assert(c.last() != '/') by {
        if c.last() == '/' {
            assert(c.contains('/')) by {
                assert(c[c.len() - 1] == '/');
            }
        }
    }
    if p.len() > 1 {
        let j = joined_text(p);
        assert(j == joined_text(p.drop_last()) + seq!['/'] + c);
        assert(j.last() == c.last());
    }
}

/// Unslashed components pushed one by one give the same text as joined with
/// `/`.
proof fn lemma_path_text_joined(p: Seq<PathPart>)
    requires
        texts_unslashed(p),
    ensures
        path_text(p) == joined_text(p),
    decreases p.len(),
{
    if p.len() > 0 {
        let q = p.drop_last();
        assert(texts_unslashed(q)) by {
            assert forall|i: int| 0 <= i < q.len() implies #[trigger] q[i] != PathPart::Root && part_text(
                q[i],
            ).len() > 0 && !part_text(q[i]).contains('/') by {
                assert(q[i] == p[i]);
            }
        }
        lemma_path_text_joined(q);
        assert(p.last() == p[p.len() - 1]);
        if p.len() == 1 {
            assert(path_text(q) =~= Seq::<char>::empty());
            assert(path_text(p) =~= part_text(p[0]));
        } else {
            lemma_joined_last(q);
        }
    }
}

/// The root followed by unslashed components, pushed one by one, is `/` and
/// the components joined with `/`.
proof fn lemma_path_text_rooted(k: Seq<PathPart>)
    requires
        k.len() > 0,
        texts_unslashed(k),
    ensures
        path_text(seq![PathPart::Root] + k) == seq!['/'] + joined_text(k),
    decreases k.len(),
{
    let p = seq![PathPart::Root] + k;
    assert(p.drop_last() =~= seq![PathPart::Root] + k.drop_last());
    assert(p.last() == k.last());
    assert(k.last() == k[k.len() - 1]);
    if k.len() == 1 {
        assert(p.drop_last() =~= seq![PathPart::Root]);
        assert(seq![PathPart::Root].drop_last() =~= Seq::<PathPart>::empty());
        assert(path_text(seq![PathPart::Root]) =~= seq!['/']);
        assert(joined_text(k) == part_text(k[0]));
    } else {
        let q = k.drop_last();
        assert(texts_unslashed(q)) by {
            assert forall|i: int| 0 <= i < q.len() implies #[trigger] q[i] != PathPart::Root && part_text(
                q[i],
            ).len() > 0 && !part_text(q[i]).contains('/') by {
                assert(q[i] == k[i]);
            }
        }
        lemma_path_text_rooted(q);
        lemma_joined_last(q);
        let t = path_text(p.drop_last());
        assert(t == seq!['/'] + joined_text(q));
        assert(t.last() == joined_text(q).last());
        assert(path_text(p) == t + seq!['/'] + part_text(k.last()));
        assert(joined_text(k) == joined_text(q) + seq!['/'] + part_text(k.last()));
        assert(path_text(p) =~= seq!['/'] + joined_text(k));
    }
}

/// Plain components are unslashed.
proof fn lemma_plain_unslashed(k: Seq<PathPart>)
    requires
        plain_parts(k),
    ensures
        texts_unslashed(k),
{
    assert forall|i: int| 0 <= i < k.len() implies #[trigger] k[i] != PathPart::Root && part_text(k[i]).len()
        > 0 && !part_text(k[i]).contains('/') by {
        if k[i] == PathPart::Parent {
            let d: Seq<char> = seq!['.', '.'];
            assert(part_text(k[i]) == d);
            if d.contains('/') {
                let j = choose|j: int| 0 <= j < d.len() && d[j] == '/';
                assert(d[0] == '.' && d[1] == '.');
            }
        }
    }
}

/// Components led by at most a root or `.`, then plain, pushed one by one
/// onto an empty path, read back as the same components.
proof fn lemma_path_text_reads_back(p: Seq<PathPart>)
    requires
        led_plain(p),
    ensures
        path_parts(path_text(p)) == p,
{
    if p.len() == 0 {
        return;
    }
    if p[0] == PathPart::Root {
        let k = p.drop_first();
        assert(p =~= seq![PathPart::Root] + k);
        if k.len() == 0 {
            assert(p.drop_last() =~= Seq::<PathPart>::empty());
            assert(path_text(p) =~= seq!['/']);
            lemma_joined_headed(PathPart::Root, k);
            assert(joined_text(p) =~= seq!['/']);
        } else {
            lemma_plain_unslashed(k);
            lemma_path_text_rooted(k);
            lemma_joined_segments(k);
            lemma_keep_part_texts(k);
            let u = path_text(p);
            assert(u.drop_first() =~= joined_text(k));
            assert(path_parts(u) =~= seq![PathPart::Root] + k);
        }
    } else {
        lemma_plain_unslashed(if p[0] == PathPart::Cur { p.drop_first() } else { p });
        assert(texts_unslashed(p)) by {
            assert forall|i: int| 0 <= i < p.len() implies #[trigger] p[i] != PathPart::Root && part_text(
                p[i],
            ).len() > 0 && !part_text(p[i]).contains('/') by {
                if p[0] == PathPart::Cur {
                    if i == 0 {
                        let d: Seq<char> = seq!['.'];
                        assert(part_text(p[0]) == d);
                        if d.contains('/') {
                            let j = choose|j: int| 0 <= j < d.len() && d[j] == '/';
                            assert(d[0] == '.');
                        }
                    } else {
                        assert(p[i] == p.drop_first()[i - 1]);
                    }
                }
            }
        }
        lemma_path_text_joined(p);
        lemma_joined_led_reads_back(p);
    }
}

/// Joining a path onto another keeps the shape that path texts give.
proof fn lemma_push_led_plain(a: Seq<PathPart>, b: Seq<PathPart>)
    requires
        led_plain(a),
        led_plain(b),
    ensures
        led_plain(push_parts(a, b)),
{
    let r = push_parts(a, b);
    if b.len() > 0 && b[0] == PathPart::Root {
    } else if a.len() == 0 {
    } else {
        let bt = if b.len() > 0 && b[0] == PathPart::Cur { b.drop_first() } else { b };
        assert(plain_parts(bt));
        assert(r =~= a + bt);
        if a[0] == PathPart::Root || a[0] == PathPart::Cur {
            let at = a.drop_first();
            assert(r.drop_first() =~= at + bt);
            assert forall|i: int| 0 <= i < (at + bt).len() implies (#[trigger] (at + bt)[i] == PathPart::Parent
                || ((at + bt)[i] is Normal && proper_name((at + bt)[i]->Normal_0))) by {
                if i < at.len() {
                    assert((at + bt)[i] == at[i]);
                } else {
                    assert((at + bt)[i] == bt[i - at.len()]);
                }
            }
        } else {
            assert forall|i: int| 0 <= i < r.len() implies (#[trigger] r[i] == PathPart::Parent || (r[i] is Normal
                && proper_name(r[i]->Normal_0))) by {
                if i < a.len() {
                    assert(r[i] == a[i]);
                } else {
                    assert(r[i] == bt[i - a.len()]);
                }
            }
        }
    }
}

/// A path text's components, joined onto another's and pushed one by one,
/// read back as the same components.
pub(crate) proof fn lemma_pushed_text_reads_back(a: Seq<char>, b: Seq<char>)
    ensures
        path_parts(path_text(push_parts(path_parts(a), path_parts(b)))) == push_parts(path_parts(a), path_parts(b)),
{
    lemma_parts_led_plain(a);
    lemma_parts_led_plain(b);
    lemma_push_led_plain(path_parts(a), path_parts(b));
    lemma_path_text_reads_back(push_parts(path_parts(a), path_parts(b)));
}

} // verus!
