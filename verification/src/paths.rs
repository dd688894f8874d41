//! Lexical path handling, on the component model of `std::path` for Unix
//! paths: a path is a sequence of components (a leading root `/`, a leading
//! `.`, `..`, and plain names), read from its text as `Path::components`
//! documents it: repeated separators and a trailing separator are ignored, and
//! `.` is dropped everywhere but at the start of a relative path.

use vstd::prelude::*;
use crate::text::{chars_of, string_from_chars};

verus! {

/// One component of a path, as a value.
pub enum PathPart {
    Root,
    Cur,
    Parent,
    Normal(Seq<char>),
}

/// One component of a path.
#[derive(Debug)]
pub enum Component {
    /// The leading `/` of an absolute path.
    RootDir,
    /// A leading `.`.
    CurDir,
    /// `..`.
    ParentDir,
    /// Any other name.
    Normal(String),
}

impl View for Component {
    type V = PathPart;

    open spec fn view(&self) -> PathPart {
        match self {
            Component::RootDir => PathPart::Root,
            Component::CurDir => PathPart::Cur,
            Component::ParentDir => PathPart::Parent,
            Component::Normal(s) => PathPart::Normal(s@),
        }
    }
}

/// The components of a vector, as values.
pub open spec fn parts_of(v: Seq<Component>) -> Seq<PathPart> {
    v.map_values(|c: Component| c@)
}

/// The texts between the `/` separators of `q` (empty ones included).
pub open spec fn segments(q: Seq<char>) -> Seq<Seq<char>>
    decreases q.len(),
{
    if q.len() == 0 {
        seq![seq![]]
    } else {
        let r = segments(q.drop_last());
        if q.last() == '/' {
            r.push(seq![])
        } else {
            r.update(r.len() - 1, r.last().push(q.last()))
        }
    }
}

/// Segments as components: empty and `.` segments are dropped, `..` is the
/// parent directory, and anything else a name.
pub open spec fn keep_segments(segs: Seq<Seq<char>>) -> Seq<PathPart>
    decreases segs.len(),
{
    if segs.len() == 0 {
        seq![]
    } else {
        let r = keep_segments(segs.drop_last());
        let s = segs.last();
        if s.len() == 0 || s == seq!['.'] {
            r
        } else if s == seq!['.', '.'] {
            r.push(PathPart::Parent)
        } else {
            r.push(PathPart::Normal(s))
        }
    }
}

/// The components of the path text `p`.
pub open spec fn path_parts(p: Seq<char>) -> Seq<PathPart> {
    if p.len() == 0 {
        seq![]
    } else if p[0] == '/' {
        seq![PathPart::Root] + keep_segments(segments(p.drop_first()))
    } else {
        let segs = segments(p);
        if segs[0] == seq!['.'] {
            seq![PathPart::Cur] + keep_segments(segs.drop_first())
        } else {
            keep_segments(segs)
        }
    }
}

pub proof fn lemma_segments_nonempty(q: Seq<char>)
    ensures
        segments(q).len() >= 1,
    decreases q.len(),
{
    if q.len() > 0 {
        lemma_segments_nonempty(q.drop_last());
    }
}

/// The `/`-separated segments of `q[start..]`.
fn split_segments(q: &Vec<char>, start: usize) -> (segs: Vec<Vec<char>>)
    requires
        start <= q@.len(),
    ensures
        segs@.map_values(|v: Vec<char>| v@) == segments(q@.skip(start as int)),
{
    let ghost t = q@.skip(start as int);
    let mut segs: Vec<Vec<char>> = Vec::new();
    let mut cur: Vec<char> = Vec::new();
    let mut i = start;
    assert(t.take(0) =~= Seq::<char>::empty());
    while i < q.len()
        invariant
            start <= i <= q@.len(),
            t == q@.skip(start as int),
            segs@.map_values(|v: Vec<char>| v@).push(cur@) == segments(t.take(i - start)),
        decreases q.len() - i,
    {
        let c = q[i];
        let ghost before = t.take(i - start);
        assert(t.take(i + 1 - start).drop_last() == before);
        assert(t.take(i + 1 - start).last() == c);
        proof {
            lemma_segments_nonempty(before);
        }
        if c == '/' {
            let done = cur;
            segs.push(done);
            cur = Vec::new();
            assert(segs@.map_values(|v: Vec<char>| v@) =~= segments(before));
        } else {
            cur.push(c);
            assert(segs@.map_values(|v: Vec<char>| v@).push(cur@) =~= segments(before).update(
                segments(before).len() - 1,
                segments(before).last().push(c),
            ));
        }
        i = i + 1;
    }
    assert(t.take(q.len() - start) == t);
    segs.push(cur);
    segs
}


proof fn lemma_parts_of_push(v: Seq<Component>, c: Component)
    ensures
        parts_of(v.push(c)) == parts_of(v).push(c@),
{
    assert(parts_of(v.push(c)) =~= parts_of(v).push(c@));
}

fn is_dot(v: &Vec<char>) -> (b: bool)
    ensures
        b == (v@ == seq!['.']),
{
    if v.len() == 1 && v[0] == '.' {
        assert(v@ =~= seq!['.']);
        true
    } else {
        false
    }
}

fn is_dot_dot(v: &Vec<char>) -> (b: bool)
    ensures
        b == (v@ == seq!['.', '.']),
{
    if v.len() == 2 && v[0] == '.' && v[1] == '.' {
        assert(v@ =~= seq!['.', '.']);
        true
    } else {
        false
    }
}

/// Append the components that `segs[from..]` stand for to `out`.
fn push_kept_segments(segs: &Vec<Vec<char>>, from: usize, out: &mut Vec<Component>)
    requires
        from <= segs@.len(),
    ensures
        parts_of(final(out)@) == parts_of(old(out)@) + keep_segments(
            segs@.map_values(|v: Vec<char>| v@).skip(from as int),
        ),
{
    let ghost sv = segs@.map_values(|v: Vec<char>| v@).skip(from as int);
    let ghost start = parts_of(out@);
    let mut j = from;
    assert(sv.take(0) =~= Seq::<Seq<char>>::empty());
    assert(parts_of(out@) =~= start + keep_segments(sv.take(0)));
    while j < segs.len()
        invariant
            from <= j <= segs@.len(),
            sv == segs@.map_values(|v: Vec<char>| v@).skip(from as int),
            parts_of(out@) == start + keep_segments(sv.take(j - from)),
        decreases segs.len() - j,
    {
        let seg = &segs[j];
        assert(sv.take(j + 1 - from).drop_last() == sv.take(j - from));
        assert(sv.take(j + 1 - from).last() == seg@);
        if seg.len() == 0 || is_dot(seg) {
        } else if is_dot_dot(seg) {
            let ghost prev = out@;
            out.push(Component::ParentDir);
            proof {
                lemma_parts_of_push(prev, Component::ParentDir);
            }
        } else {
            let name = string_from_chars(seg.as_slice());
            let ghost prev = out@;
            let ghost c = Component::Normal(name);
            out.push(Component::Normal(name));
            proof {
                lemma_parts_of_push(prev, c);
            }
        }
        j = j + 1;
    }
    assert(sv.take(segs.len() - from) == sv);
}

/// The components of the path `p` (`Path::components` for Unix paths).
pub fn components(p: &str) -> (out: Vec<Component>)
    ensures
        parts_of(out@) == path_parts(p@),
{
    let q = chars_of(p);
    let mut out: Vec<Component> = Vec::new();
    if q.len() == 0 {
        assert(parts_of(out@) =~= Seq::<PathPart>::empty());
        return out;
    }
    if q[0] == '/' {
        out.push(Component::RootDir);
        let segs = split_segments(&q, 1);
        assert(q@.skip(1) == q@.drop_first());
        push_kept_segments(&segs, 0, &mut out);
        assert(segs@.map_values(|v: Vec<char>| v@).skip(0) == segs@.map_values(|v: Vec<char>| v@));
        assert(parts_of(seq![Component::RootDir]) =~= seq![PathPart::Root]);
    } else {
        let segs = split_segments(&q, 0);
        assert(q@.skip(0) == q@);
        proof {
            lemma_segments_nonempty(q@);
        }
        assert(segs@.map_values(|v: Vec<char>| v@)[0] == segs@[0]@);
        if is_dot(&segs[0]) {
            out.push(Component::CurDir);
            push_kept_segments(&segs, 1, &mut out);
            assert(segs@.map_values(|v: Vec<char>| v@).skip(1) == segments(q@).drop_first());
            assert(parts_of(seq![Component::CurDir]) =~= seq![PathPart::Cur]);
        } else {
            push_kept_segments(&segs, 0, &mut out);
            assert(segs@.map_values(|v: Vec<char>| v@).skip(0) == segs@.map_values(|v: Vec<char>| v@));
            assert(parts_of(Seq::<Component>::empty()) =~= Seq::<PathPart>::empty());
        }
    }
    out
}


/// The text of one component, as `Component::as_os_str` gives it.
pub open spec fn part_text(c: PathPart) -> Seq<char> {
    match c {
        PathPart::Root => seq!['/'],
        PathPart::Cur => seq!['.'],
        PathPart::Parent => seq!['.', '.'],
        PathPart::Normal(x) => x,
    }
}

/// `Path::parent`: the path without its final component, unless it ends in
/// the root or is empty.
pub open spec fn parent_parts(p: Seq<PathPart>) -> Option<Seq<PathPart>> {
    if p.len() == 0 || p.last() == PathPart::Root {
        None
    } else {
        Some(p.drop_last())
    }
}

/// `PathBuf::push` (and `Path::join`): an absolute `q` replaces `p`; otherwise
/// `q` is appended, and its leading `.` (if any) disappears unless `p` is empty.
pub open spec fn push_parts(p: Seq<PathPart>, q: Seq<PathPart>) -> Seq<PathPart> {
    if q.len() > 0 && q[0] == PathPart::Root {
        q
    } else if p.len() == 0 {
        q
    } else if q.len() > 0 && q[0] == PathPart::Cur {
        p + q.drop_first()
    } else {
        p + q
    }
}

/// `PathBuf::pop`: truncate to the parent, if there is one.
pub open spec fn pop_parts(p: Seq<PathPart>) -> Seq<PathPart> {
    match parent_parts(p) {
        Some(q) => q,
        None => p,
    }
}

/// Lexical normalization: `.` is dropped and `..` removes the component
/// before it, without looking at the filesystem.
pub open spec fn normalized(p: Seq<PathPart>) -> Seq<PathPart>
    decreases p.len(),
{
    if p.len() == 0 {
        seq![]
    } else {
        let out = normalized(p.drop_last());
        match p.last() {
            PathPart::Cur => out,
            PathPart::Parent => pop_parts(out),
            c => push_parts(out, seq![c]),
        }
    }
}

/// A path that normalization leaves as it is: no `.` and no `..`, and a root
/// only at the start.
pub open spec fn is_normal_form(p: Seq<PathPart>) -> bool {
    forall|i: int|
        0 <= i < p.len() ==> match #[trigger] p[i] {
            PathPart::Root => i == 0,
            PathPart::Normal(_) => true,
            _ => false,
        }
}

/// The length of the longest common prefix of `a` and `b`.
pub open spec fn common_prefix_len(a: Seq<PathPart>, b: Seq<PathPart>) -> nat
    decreases a.len(),
{
    if a.len() == 0 || b.len() == 0 || a[0] != b[0] {
        0
    } else {
        1 + common_prefix_len(a.drop_first(), b.drop_first())
    }
}

/// `n` parent-directory components.
pub open spec fn parents(n: nat) -> Seq<PathPart> {
    Seq::new(n, |i: int| PathPart::Parent)
}

/// Pushing each of `cs` in turn, one component at a time.
pub open spec fn push_each(p: Seq<PathPart>, cs: Seq<PathPart>) -> Seq<PathPart>
    decreases cs.len(),
{
    if cs.len() == 0 {
        p
    } else {
        push_parts(push_each(p, cs.drop_last()), seq![cs.last()])
    }
}

/// The path from directory `from` to `to`: one `..` for each component of
/// `from` past their common prefix, then the rest of `to`.
pub open spec fn relative_parts(from: Seq<PathPart>, to: Seq<PathPart>) -> Seq<PathPart> {
    let common = common_prefix_len(from, to);
    push_each(parents((from.len() - common) as nat), to.skip(common as int))
}

/// The components' texts joined with `/`.
pub open spec fn joined_text(p: Seq<PathPart>) -> Seq<char>
    decreases p.len(),
{
    if p.len() == 0 {
        seq![]
    } else if p.len() == 1 {
        part_text(p[0])
    } else {
        joined_text(p.drop_last()) + seq!['/'] + part_text(p.last())
    }
}

/// The text of a path built by pushing its components one by one.
pub open spec fn path_text(p: Seq<PathPart>) -> Seq<char>
    decreases p.len(),
{
    if p.len() == 0 {
        seq![]
    } else {
        let t = path_text(p.drop_last());
        if p.last() == PathPart::Root {
            seq!['/']
        } else if t.len() == 0 || t.last() == '/' {
            t + part_text(p.last())
        } else {
            t + seq!['/'] + part_text(p.last())
        }
    }
}

/// `base` is a prefix of `p`, component by component.
pub open spec fn has_prefix(p: Seq<PathPart>, base: Seq<PathPart>) -> bool {
    base.len() <= p.len() && p.take(base.len() as int) == base
}

/// The part of a file name before its extension (`Path::file_stem`): up to
/// the last `.`, unless that `.` is the first character.
pub open spec fn stem_len(name: Seq<char>) -> int
    decreases name.len(),
{
    if name.len() <= 1 {
        name.len() as int
    } else if name.last() == '.' {
        name.len() - 1
    } else {
        let k = stem_len(name.drop_last());
        if k < name.len() - 1 {
            k
        } else {
            name.len() as int
        }
    }
}

/// `Path::with_extension("")`: the final name loses its extension.
pub open spec fn extension_removed(p: Seq<PathPart>) -> Seq<PathPart> {
    if p.len() > 0 && p.last() is Normal {
        let name = p.last()->Normal_0;
        p.drop_last() + keep_segments(seq![name.take(stem_len(name))])
    } else {
        p
    }
}

/// `Path::file_name`: the final component, when it is a name.
pub open spec fn file_name_of(p: Seq<PathPart>) -> Option<Seq<char>> {
    if p.len() > 0 && p.last() is Normal {
        Some(p.last()->Normal_0)
    } else {
        None
    }
}


/// A copy of a component.
pub fn copy_component(c: &Component) -> (r: Component)
    ensures
        r@ == c@,
{
    match c {
        Component::RootDir => Component::RootDir,
        Component::CurDir => Component::CurDir,
        Component::ParentDir => Component::ParentDir,
        Component::Normal(s) => Component::Normal(s.clone()),
    }
}

/// Whether two components are the same.
pub fn same_component(a: &Component, b: &Component) -> (r: bool)
    ensures
        r == (a@ == b@),
{
    match (a, b) {
        (Component::RootDir, Component::RootDir) => true,
        (Component::CurDir, Component::CurDir) => true,
        (Component::ParentDir, Component::ParentDir) => true,
        (Component::Normal(x), Component::Normal(y)) => x.eq(y),
        _ => false,
    }
}

/// Append copies of `q[from..]` to `out`.
fn extend_parts(out: &mut Vec<Component>, q: &[Component], from: usize)
    requires
        from <= q@.len(),
    ensures
        parts_of(final(out)@) == parts_of(old(out)@) + parts_of(q@).skip(from as int),
{
    let ghost start = parts_of(out@);
    let mut j = from;
    while j < q.len()
        invariant
            from <= j <= q@.len(),
            parts_of(out@) == start + parts_of(q@).subrange(from as int, j as int),
        decreases q.len() - j,
    {
        let c = copy_component(&q[j]);
        let ghost prev = out@;
        out.push(c);
        proof {
            lemma_parts_of_push(prev, c);
            assert(parts_of(q@).subrange(from as int, j + 1) =~= parts_of(q@).subrange(
                from as int,
                j as int,
            ).push(c@));
        }
        j = j + 1;
    }
    assert(parts_of(q@).subrange(from as int, q@.len() as int) =~= parts_of(q@).skip(from as int));
}

/// A copy of a path.
pub fn copy_parts(p: &[Component]) -> (r: Vec<Component>)
    ensures
        parts_of(r@) == parts_of(p@),
{
    let mut out: Vec<Component> = Vec::new();
    extend_parts(&mut out, p, 0);
    assert(parts_of(Seq::<Component>::empty()) =~= Seq::<PathPart>::empty());
    assert(parts_of(p@).skip(0) == parts_of(p@));
    out
}

/// `Path::parent`.
pub fn parent(p: &[Component]) -> (r: Option<Vec<Component>>)
    ensures
        match r {
            Some(v) => parent_parts(parts_of(p@)) == Some(parts_of(v@)),
            None => parent_parts(parts_of(p@)) is None,
        },
{
    let n = p.len();
    if n == 0 {
        return None;
    }
    match &p[n - 1] {
        Component::RootDir => None,
        _ => {
            let mut out: Vec<Component> = Vec::new();
            let mut j: usize = 0;
            while j < n - 1
                invariant
                    n == p@.len(),
                    j <= n - 1,
                    parts_of(out@) == parts_of(p@).take(j as int),
                decreases n - 1 - j,
            {
                let c = copy_component(&p[j]);
                let ghost prev = out@;
                out.push(c);
                proof {
                    lemma_parts_of_push(prev, c);
                    assert(parts_of(p@).take(j + 1) =~= parts_of(p@).take(j as int).push(c@));
                }
                j = j + 1;
            }
            assert(parts_of(p@).take(n - 1) =~= parts_of(p@).drop_last());
            Some(out)
        },
    }
}

/// `Path::join`: `q` pushed onto `p` (see [`push_parts`]).
pub fn join(p: &[Component], q: &[Component]) -> (r: Vec<Component>)
    ensures
        parts_of(r@) == push_parts(parts_of(p@), parts_of(q@)),
{
    if q.len() > 0 {
        if let Component::RootDir = &q[0] {
            return copy_parts(q);
        }
    }
    if p.len() == 0 {
        return copy_parts(q);
    }
    let mut out = copy_parts(p);
    if q.len() > 0 {
        if let Component::CurDir = &q[0] {
            extend_parts(&mut out, q, 1);
            assert(parts_of(q@).skip(1) == parts_of(q@).drop_first());
            return out;
        }
    }
    extend_parts(&mut out, q, 0);
    assert(parts_of(q@).skip(0) == parts_of(q@));
    out
}

/// Push one component onto `out` in place (see [`push_parts`]).
fn push_one(out: &mut Vec<Component>, c: Component)
    ensures
        parts_of(final(out)@) == push_parts(parts_of(old(out)@), seq![c@]),
{
    let ghost prev = out@;
    match c {
        Component::RootDir => {
            out.clear();
            out.push(Component::RootDir);
            assert(parts_of(out@) =~= seq![PathPart::Root]);
        },
        Component::CurDir => {
            if out.len() == 0 {
                out.push(Component::CurDir);
                assert(parts_of(out@) =~= seq![PathPart::Cur]);
            } else {
                assert(seq![PathPart::Cur].drop_first() =~= Seq::<PathPart>::empty());
                assert(parts_of(prev) + Seq::<PathPart>::empty() =~= parts_of(prev));
            }
        },
        _ => {
            let ghost cc = c;
            out.push(c);
            proof {
                lemma_parts_of_push(prev, cc);
                assert(parts_of(prev).push(cc@) =~= parts_of(prev) + seq![cc@]);
            }
        },
    }
}

/// Lexically normalize a path, resolving `.` and `..` without touching the
/// filesystem.
pub fn normalize(path: &[Component]) -> (out: Vec<Component>)
    ensures
        parts_of(out@) == normalized(parts_of(path@)),
{
    let mut out: Vec<Component> = Vec::new();
    let mut j: usize = 0;
    assert(parts_of(path@).take(0) =~= Seq::<PathPart>::empty());
    assert(parts_of(out@) =~= Seq::<PathPart>::empty());
    while j < path.len()
        invariant
            j <= path@.len(),
            parts_of(out@) == normalized(parts_of(path@).take(j as int)),
        decreases path.len() - j,
    {
        let ghost pre = parts_of(path@).take(j as int);
        assert(parts_of(path@).take(j + 1).drop_last() == pre);
        assert(parts_of(path@).take(j + 1).last() == path@[j as int]@);
        match &path[j] {
            Component::CurDir => {},
            Component::ParentDir => {
                let n = out.len();
                if n > 0 {
                    match &out[n - 1] {
                        Component::RootDir => {},
                        _ => {
                            let ghost prev = out@;
                            out.pop();
                            assert(parts_of(out@) =~= parts_of(prev).drop_last());
                        },
                    }
                }
            },
            other => {
                let c = copy_component(other);
                push_one(&mut out, c);
            },
        }
        j = j + 1;
    }
    assert(parts_of(path@).take(path@.len() as int) == parts_of(path@));
    out
}


proof fn lemma_common_prefix_len(a: Seq<PathPart>, b: Seq<PathPart>, k: int)
    requires
        0 <= k <= a.len(),
        k <= b.len(),
        a.take(k) == b.take(k),
        k == a.len() || k == b.len() || a[k] != b[k],
    ensures
        common_prefix_len(a, b) == k,
    decreases k,
{
    if k > 0 {
        assert(a[0] == a.take(k)[0]);
        assert(b[0] == b.take(k)[0]);
        assert(a.drop_first().take(k - 1) =~= a.take(k).drop_first());
        assert(b.drop_first().take(k - 1) =~= b.take(k).drop_first());
        if k < a.len() && k < b.len() {
            assert(a.drop_first()[k - 1] == a[k]);
            assert(b.drop_first()[k - 1] == b[k]);
        }
        lemma_common_prefix_len(a.drop_first(), b.drop_first(), k - 1);
    }
}

/// A relative path from directory `from_dir` to `to`: a `..` for each
/// component of `from_dir` past their common prefix, then the rest of `to`.
pub fn relative_path(from_dir: &[Component], to: &[Component]) -> (r: Vec<Component>)
    ensures
        parts_of(r@) == relative_parts(parts_of(from_dir@), parts_of(to@)),
{
    let ghost a = parts_of(from_dir@);
    let ghost b = parts_of(to@);
    let mut common: usize = 0;
    while common < from_dir.len() && common < to.len() && same_component(
        &from_dir[common],
        &to[common],
    )
        invariant
            common <= a.len(),
            common <= b.len(),
            a == parts_of(from_dir@),
            b == parts_of(to@),
            a.take(common as int) == b.take(common as int),
        decreases from_dir.len() - common,
    {
        assert(a.take(common + 1) =~= a.take(common as int).push(a[common as int]));
        assert(b.take(common + 1) =~= b.take(common as int).push(b[common as int]));
        common = common + 1;
    }
    proof {
        lemma_common_prefix_len(a, b, common as int);
    }
    let mut rel: Vec<Component> = Vec::new();
    let mut i = common;
    assert(parts_of(rel@) =~= parents(0));
    while i < from_dir.len()
        invariant
            common <= i <= from_dir@.len(),
            parts_of(rel@) == parents((i - common) as nat),
        decreases from_dir.len() - i,
    {
        push_one(&mut rel, Component::ParentDir);
        assert(parts_of(rel@) =~= parents((i + 1 - common) as nat));
        i = i + 1;
    }
    let ghost ups = parts_of(rel@);
    let ghost rest = b.skip(common as int);
    let mut k = common;
    assert(rest.take(0) =~= Seq::<PathPart>::empty());
    while k < to.len()
        invariant
            common <= k <= to@.len(),
            b == parts_of(to@),
            rest == b.skip(common as int),
            parts_of(rel@) == push_each(ups, rest.take(k - common)),
        decreases to.len() - k,
    {
        let c = copy_component(&to[k]);
        assert(rest.take(k + 1 - common).drop_last() == rest.take(k - common));
        assert(rest.take(k + 1 - common).last() == c@);
        push_one(&mut rel, c);
        k = k + 1;
    }
    assert(rest.take(to.len() - common) == rest);
    rel
}

/// The characters of one component's text.
fn component_chars(c: &Component) -> (v: Vec<char>)
    ensures
        v@ == part_text(c@),
{
    match c {
        Component::RootDir => {
            let v = vec!['/'];
            assert(v@ =~= seq!['/']);
            v
        },
        Component::CurDir => {
            let v = vec!['.'];
            assert(v@ =~= seq!['.']);
            v
        },
        Component::ParentDir => {
            let v = vec!['.', '.'];
            assert(v@ =~= seq!['.', '.']);
            v
        },
        Component::Normal(s) => chars_of(s.as_str()),
    }
}

fn append_chars(out: &mut Vec<char>, v: &Vec<char>)
    ensures
        final(out)@ == old(out)@ + v@,
{
    let ghost start = out@;
    let mut j: usize = 0;
    while j < v.len()
        invariant
            j <= v@.len(),
            out@ == start + v@.take(j as int),
        decreases v.len() - j,
    {
        out.push(v[j]);
        assert(v@.take(j + 1) =~= v@.take(j as int).push(v@[j as int]));
        j = j + 1;
    }
    assert(v@.take(v@.len() as int) == v@);
}

/// Render a path with forward slashes between its components' texts.
pub fn path_string(path: &[Component]) -> (s: String)
    ensures
        s@ == joined_text(parts_of(path@)),
{
    let ghost p = parts_of(path@);
    let mut out: Vec<char> = Vec::new();
    let mut j: usize = 0;
    while j < path.len()
        invariant
            j <= path@.len(),
            p == parts_of(path@),
            out@ == joined_text(p.take(j as int)),
        decreases path.len() - j,
    {
        assert(p.take(j + 1).drop_last() =~= p.take(j as int));
        assert(p.take(j + 1).last() == p[j as int]);
        let t = component_chars(&path[j]);
        if j > 0 {
            out.push('/');
        } else {
            assert(p.take(1) =~= seq![p[0]]);
        }
        append_chars(&mut out, &t);
        j = j + 1;
    }
    assert(p.take(path.len() as int) == p);
    string_from_chars(out.as_slice())
}

/// The text of the path built by pushing the components one by one.
pub fn render_path(path: &[Component]) -> (s: String)
    ensures
        s@ == path_text(parts_of(path@)),
{
    let ghost p = parts_of(path@);
    let mut out: Vec<char> = Vec::new();
    let mut j: usize = 0;
    while j < path.len()
        invariant
            j <= path@.len(),
            p == parts_of(path@),
            out@ == path_text(p.take(j as int)),
        decreases path.len() - j,
    {
        assert(p.take(j + 1).drop_last() =~= p.take(j as int));
        assert(p.take(j + 1).last() == p[j as int]);
        match &path[j] {
            Component::RootDir => {
                out = vec!['/'];
                assert(out@ =~= seq!['/']);
            },
            other => {
                let t = component_chars(other);
                let n = out.len();
                if n > 0 && out[n - 1] != '/' {
                    out.push('/');
                }
                append_chars(&mut out, &t);
            },
        }
        j = j + 1;
    }
    assert(p.take(path.len() as int) == p);
    string_from_chars(out.as_slice())
}

/// `Path::strip_prefix`: what follows `base` in `path`, if `base` is a
/// prefix of it component by component.
pub fn strip_prefix(path: &[Component], base: &[Component]) -> (r: Option<Vec<Component>>)
    ensures
        match r {
            Some(v) => has_prefix(parts_of(path@), parts_of(base@)) && parts_of(v@) == parts_of(
                path@,
            ).skip(base@.len() as int),
            None => !has_prefix(parts_of(path@), parts_of(base@)),
        },
{
    let ghost p = parts_of(path@);
    let ghost q = parts_of(base@);
    if base.len() > path.len() {
        return None;
    }
    let mut j: usize = 0;
    while j < base.len()
        invariant
            j <= base@.len() <= path@.len(),
            p == parts_of(path@),
            q == parts_of(base@),
            p.take(j as int) == q.take(j as int),
        decreases base.len() - j,
    {
        if !same_component(&path[j], &base[j]) {
            assert(p.take(q.len() as int)[j as int] == p[j as int]);
            return None;
        }
        assert(p.take(j + 1) =~= p.take(j as int).push(p[j as int]));
        assert(q.take(j + 1) =~= q.take(j as int).push(q[j as int]));
        j = j + 1;
    }
    assert(q.take(q.len() as int) == q);
    let mut out: Vec<Component> = Vec::new();
    extend_parts(&mut out, path, base.len());
    assert(parts_of(Seq::<Component>::empty()) =~= Seq::<PathPart>::empty());
    assert(Seq::<PathPart>::empty() + p.skip(q.len() as int) =~= p.skip(q.len() as int));
    Some(out)
}

/// `Path::file_name`: the final component, when it is a name.
pub fn file_name(path: &[Component]) -> (r: Option<String>)
    ensures
        match r {
            Some(s) => file_name_of(parts_of(path@)) == Some(s@),
            None => file_name_of(parts_of(path@)) is None,
        },
{
    let n = path.len();
    if n == 0 {
        return None;
    }
    match &path[n - 1] {
        Component::Normal(s) => Some(s.clone()),
        _ => None,
    }
}

/// The length of the stem of a file name (see [`stem_len`]).
fn stem_length(name: &Vec<char>) -> (k: usize)
    ensures
        k == stem_len(name@),
{
    let mut k: usize = 0;
    let mut i: usize = 0;
    assert(name@.take(0).len() == 0);
    while i < name.len()
        invariant
            i <= name@.len(),
            k == stem_len(name@.take(i as int)),
            k <= i,
        decreases name.len() - i,
    {
        let ghost pre = name@.take(i as int);
        let ghost post = name@.take(i + 1);
        assert(post.drop_last() == pre);
        assert(post.last() == name@[i as int]);
        if i + 1 <= 1 {
            k = i + 1;
        } else if name[i] == '.' {
            k = i;
        } else if k < i {
        } else {
            k = i + 1;
        }
        i = i + 1;
    }
    assert(name@.take(name@.len() as int) == name@);
    k
}

/// `Path::with_extension("")`: the final name loses its extension.
pub fn without_extension(path: &[Component]) -> (r: Vec<Component>)
    ensures
        parts_of(r@) == extension_removed(parts_of(path@)),
{
    let n = path.len();
    if n == 0 {
        return copy_parts(path);
    }
    match &path[n - 1] {
        Component::Normal(s) => {
            let name = chars_of(s.as_str());
            let k = stem_length(&name);
            let mut stem: Vec<char> = Vec::new();
            let mut j: usize = 0;
            while j < k
                invariant
                    j <= k <= name@.len(),
                    stem@ == name@.take(j as int),
                decreases k - j,
            {
                stem.push(name[j]);
                assert(name@.take(j + 1) =~= name@.take(j as int).push(name@[j as int]));
                j = j + 1;
            }
            let mut out = match parent(path) {
                Some(v) => v,
                None => Vec::new(),
            };
            let segs = vec![stem];
            assert(segs@.map_values(|v: Vec<char>| v@) =~= seq![name@.take(k as int)]);
            push_kept_segments(&segs, 0, &mut out);
            assert(segs@.map_values(|v: Vec<char>| v@).skip(0) == segs@.map_values(|v: Vec<char>| v@));
            out
        },
        _ => copy_parts(path),
    }
}

} // verus!
