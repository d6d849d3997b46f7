//! Paths as byte strings, split into components the way Unix paths are.

use vstd::prelude::*;

use crate::bytestr::eq_bytes;

pub mod laws;

verus! {

pub const SLASH: u8 = 47;

pub const DOT: u8 = 46;

/// The component `.`.
pub open spec fn cur_dir() -> Seq<u8> {
    seq![DOT]
}

/// The component `..`.
pub open spec fn parent_dir() -> Seq<u8> {
    seq![DOT, DOT]
}

/// What a segment between two slashes contributes: nothing when it is empty, and
/// nothing when it is `.` unless it leads a relative path.
pub open spec fn segment(s: Seq<u8>, leading: bool) -> Seq<Seq<u8>> {
    if s.len() == 0 || (s == cur_dir() && !leading) {
        Seq::empty()
    } else {
        seq![s]
    }
}

/// The components of the rest of a path, of which `cur` is the part of the
/// current segment that was already read.
pub open spec fn components_after(rest: Seq<u8>, cur: Seq<u8>, leading: bool) -> Seq<Seq<u8>>
    decreases rest.len(),
{
    if rest.len() == 0 {
        segment(cur, leading)
    } else if rest[0] == SLASH {
        segment(cur, leading) + components_after(rest.skip(1), Seq::empty(), false)
    } else {
        components_after(rest.skip(1), cur.push(rest[0]), leading)
    }
}

/// The components of a path; the root directory is the empty component.
pub open spec fn components(path: Seq<u8>) -> Seq<Seq<u8>> {
    if path.len() == 0 {
        Seq::empty()
    } else if path[0] == SLASH {
        seq![Seq::<u8>::empty()] + components_after(path.skip(1), Seq::empty(), false)
    } else {
        components_after(path, Seq::empty(), true)
    }
}

/// Whether a component names a directory entry or the root, rather than `.` or
/// `..`.
pub open spec fn is_named(c: Seq<u8>) -> bool {
    c != cur_dir() && c != parent_dir()
}

/// The components that name a directory entry or the root.
pub open spec fn named_components(path: Seq<u8>) -> Seq<Seq<u8>> {
    components(path).filter(|c: Seq<u8>| is_named(c))
}

/// The byte strings that a vector of vectors holds.
pub open spec fn views(v: Seq<Vec<u8>>) -> Seq<Seq<u8>> {
    Seq::new(v.len(), |i: int| v[i]@)
}

/// `prefix` is a prefix of `path`, component by component.
pub open spec fn path_starts_with(path: Seq<u8>, prefix: Seq<u8>) -> bool {
    let (a, b) = (components(path), components(prefix));
    b.len() <= a.len() && a.subrange(0, b.len() as int) == b
}

/// The same path, component by component.
pub open spec fn same_path(a: Seq<u8>, b: Seq<u8>) -> bool {
    components(a) == components(b)
}

/// The last component, where it names a directory entry.
pub open spec fn file_name_of(path: Seq<u8>) -> Option<Seq<u8>> {
    let c = components(path);
    if c.len() > 0 && c.last().len() > 0 && is_named(c.last()) {
        Some(c.last())
    } else {
        None
    }
}

fn is_dot(s: &[u8]) -> (r: bool)
    ensures
        r == (s@ == cur_dir()),
{
    if s.len() == 1 && s[0] == DOT {
        assert(s@ =~= cur_dir());
        true
    } else {
        false
    }
}

fn is_dot_dot(s: &[u8]) -> (r: bool)
    ensures
        r == (s@ == parent_dir()),
{
    if s.len() == 2 && s[0] == DOT && s[1] == DOT {
        assert(s@ =~= parent_dir());
        true
    } else {
        assert(s@ == parent_dir() ==> s@[0] == DOT && s@[1] == DOT);
        false
    }
}

/// The components of a path; the root directory is the empty component.
pub fn path_components(path: &[u8]) -> (r: Vec<Vec<u8>>)
    ensures
        views(r@) == components(path@),
{
    let n: usize = path.len();
    let mut out: Vec<Vec<u8>> = Vec::new();
    let mut cur: Vec<u8> = Vec::new();
    let mut i: usize = 0;
    let mut leading: bool = true;
    if n == 0 {
        assert(views(out@) =~= Seq::empty());
        return out;
    }
    if path[0] == SLASH {
        out.push(Vec::new());
        i = 1;
        leading = false;
        assert(views(out@) =~= seq![Seq::<u8>::empty()]);
        assert(cur@ =~= Seq::empty());
    } else {
        assert(path@.skip(0) =~= path@);
        assert(views(out@) =~= Seq::empty());
        assert(cur@ =~= Seq::empty());
        assert(Seq::<Seq<u8>>::empty() + components(path@) =~= components(path@));
    }
    while i < n
        invariant
            n == path@.len(),
            i <= n,
            views(out@) + components_after(path@.skip(i as int), cur@, leading) == components(path@),
        decreases n - i,
    {
        let b: u8 = path[i];
        let ghost rest = path@.skip(i as int);
        let ghost before = views(out@);
        let ghost seg = segment(cur@, leading);
        assert(rest.skip(1) =~= path@.skip(i + 1));
        if b == SLASH {
            let keep: bool = !(cur.is_empty() || (!leading && is_dot(cur.as_slice())));
            let mut done: Vec<u8> = Vec::new();
            std::mem::swap(&mut done, &mut cur);
            if keep {
                out.push(done);
                assert(views(out@) =~= before + seg);
            } else {
                assert(before + seg =~= before);
            }
            leading = false;
            assert((before + seg) + components_after(rest.skip(1), Seq::empty(), false) =~= before + (seg
                + components_after(rest.skip(1), Seq::empty(), false)));
            assert(cur@ =~= Seq::empty());
        } else {
            cur.push(b);
        }
        i += 1;
    }
    let ghost before = views(out@);
    assert(path@.skip(n as int).len() == 0);
    if !(cur.is_empty() || (!leading && is_dot(cur.as_slice()))) {
        out.push(cur);
        assert(views(out@) =~= before + segment(cur@, leading));
    } else {
        assert(before + segment(cur@, leading) =~= before);
    }
    out
}

/// The components that name a directory entry or the root.
pub fn named_path_components(path: &[u8]) -> (r: Vec<Vec<u8>>)
    ensures
        views(r@) == named_components(path@),
{
    let all: Vec<Vec<u8>> = path_components(path);
    keep_named(&all)
}

/// The components that name a directory entry or the root.
fn keep_named(all: &Vec<Vec<u8>>) -> (out: Vec<Vec<u8>>)
    ensures
        views(out@) == views(all@).filter(|c: Seq<u8>| is_named(c)),
{
    let n: usize = all.len();
    let mut out: Vec<Vec<u8>> = Vec::new();
    let mut i: usize = 0;
    let ghost pick = |c: Seq<u8>| is_named(c);
    assert(views(out@) =~= views(all@).subrange(0, 0).filter(pick)) by {
        reveal(Seq::filter);
    }
    while i < n
        invariant
            n == all@.len(),
            i <= n,
            pick == (|c: Seq<u8>| is_named(c)),
            views(out@) == views(all@).subrange(0, i as int).filter(pick),
        decreases n - i,
    {
        let ghost before = views(out@);
        let ghost next = views(all@).subrange(0, i + 1);
        assert(next.drop_last() =~= views(all@).subrange(0, i as int));
        assert(next.last() == all@[i as int]@);
        proof {
            reveal(Seq::filter);
        }
        if !is_dot(all[i].as_slice()) && !is_dot_dot(all[i].as_slice()) {
            out.push(vstd::slice::slice_to_vec(all[i].as_slice()));
            assert(views(out@) =~= before.push(all@[i as int]@));
        }
        i += 1;
    }
    assert(views(all@).subrange(0, n as int) =~= views(all@));
    out
}

/// Whether two lists of components are equal from their start up to `n`.
fn same_up_to(a: &Vec<Vec<u8>>, b: &Vec<Vec<u8>>, n: usize) -> (r: bool)
    requires
        n <= a@.len(),
        n <= b@.len(),
    ensures
        r == (views(a@).subrange(0, n as int) == views(b@).subrange(0, n as int)),
{
    let mut i: usize = 0;
    while i < n
        invariant
            n <= a@.len(),
            n <= b@.len(),
            i <= n,
            forall|j: int| 0 <= j < i ==> a@[j]@ == b@[j]@,
        decreases n - i,
    {
        if !eq_bytes(a[i].as_slice(), b[i].as_slice()) {
            assert(views(a@).subrange(0, n as int)[i as int] != views(b@).subrange(0, n as int)[i as int]);
            return false;
        }
        i += 1;
    }
    assert(views(a@).subrange(0, n as int) =~= views(b@).subrange(0, n as int));
    true
}

/// Whether `prefix` is a prefix of `path`, component by component.
pub fn starts_with_path(path: &[u8], prefix: &[u8]) -> (r: bool)
    ensures
        r == path_starts_with(path@, prefix@),
{
    let a: Vec<Vec<u8>> = path_components(path);
    let b: Vec<Vec<u8>> = path_components(prefix);
    assert(components(prefix@).subrange(0, b@.len() as int) =~= components(prefix@));
    b.len() <= a.len() && same_up_to(&a, &b, b.len())
}

/// Whether two paths are the same, component by component.
pub fn eq_path(a: &[u8], b: &[u8]) -> (r: bool)
    ensures
        r == same_path(a@, b@),
{
    let x: Vec<Vec<u8>> = path_components(a);
    let y: Vec<Vec<u8>> = path_components(b);
    assert(components(a@).subrange(0, x@.len() as int) =~= components(a@));
    assert(components(b@).subrange(0, y@.len() as int) =~= components(b@));
    x.len() == y.len() && same_up_to(&x, &y, x.len())
}

/// The last component of a path, where it names a directory entry.
pub fn file_name(path: &[u8]) -> (r: Option<Vec<u8>>)
    ensures
        match r {
            Some(name) => file_name_of(path@) == Some(name@),
            None => file_name_of(path@) is None,
        },
{
    let mut all: Vec<Vec<u8>> = path_components(path);
    let ghost whole = all@;
    match all.pop() {
        None => None,
        Some(last) => {
            assert(components(path@).last() == views(whole).last());
            if last.is_empty() || is_dot(last.as_slice()) || is_dot_dot(last.as_slice()) {
                None
            } else {
                Some(last)
            }
        },
    }
}

/// A path with another put behind it; an absolute one takes its place.
pub open spec fn joined_path(a: Seq<u8>, b: Seq<u8>) -> Seq<u8> {
    if b.len() > 0 && b[0] == SLASH {
        b
    } else if a.len() == 0 || a.last() == SLASH {
        a + b
    } else {
        a.push(SLASH) + b
    }
}

/// Puts a path behind another; an absolute one takes its place.
pub fn join(a: &[u8], b: &[u8]) -> (r: Vec<u8>)
    ensures
        r@ == joined_path(a@, b@),
{
    if b.len() > 0 && b[0] == SLASH {
        return vstd::slice::slice_to_vec(b);
    }
    let mut out: Vec<u8> = vstd::slice::slice_to_vec(a);
    let n: usize = out.len();
    if n > 0 && out[n - 1] != SLASH {
        out.push(SLASH);
    }
    let ghost before = out@;
    out.extend_from_slice(b);
    assert(out@ =~= before + b@);
    out
}

/// The components of what a path lies in, as far as they name a directory entry
/// or the root.
pub open spec fn parent_names(path: Seq<u8>) -> Seq<Seq<u8>> {
    components(path).drop_last().filter(|c: Seq<u8>| is_named(c))
}

/// The components of what a path lies in, as far as they name a directory entry
/// or the root, and its last component, where that names a directory entry.
pub fn split_path(path: &[u8]) -> (r: Option<(Vec<Vec<u8>>, Vec<u8>)>)
    ensures
        match r {
            Some((names, name)) => file_name_of(path@) == Some(name@) && views(names@) == parent_names(path@),
            None => file_name_of(path@) is None,
        },
{
    let mut all: Vec<Vec<u8>> = path_components(path);
    let ghost whole = all@;
    match all.pop() {
        None => None,
        Some(last) => {
            assert(components(path@).last() == views(whole).last());
            assert(views(all@) =~= components(path@).drop_last());
            if last.is_empty() || is_dot(last.as_slice()) || is_dot_dot(last.as_slice()) {
                None
            } else {
                Some((keep_named(&all), last))
            }
        },
    }
}

/// A bound on what components hold: the bytes of each, and one more for each.
pub open spec fn weight(cs: Seq<Seq<u8>>) -> nat
    decreases cs.len(),
{
    if cs.len() == 0 {
        0
    } else {
        weight(cs.drop_last()) + cs.last().len() + 1
    }
}

pub(crate) proof fn lemma_weight_concat(a: Seq<Seq<u8>>, b: Seq<Seq<u8>>)
    ensures
        weight(a + b) == weight(a) + weight(b),
    decreases b.len(),
{
    if b.len() == 0 {
        assert(a + b =~= a);
    } else {
        assert((a + b).drop_last() =~= a + b.drop_last());
        lemma_weight_concat(a, b.drop_last());
    }
}

pub(crate) proof fn lemma_weight_filter(cs: Seq<Seq<u8>>, pick: spec_fn(Seq<u8>) -> bool)
    ensures
        weight(cs.filter(pick)) <= weight(cs),
    decreases cs.len(),
{
    reveal(Seq::filter);
    if cs.len() > 0 {
        lemma_weight_filter(cs.drop_last(), pick);
        let kept = cs.drop_last().filter(pick);
        assert(kept.push(cs.last()).drop_last() =~= kept);
    }
}

proof fn lemma_weight_segment(s: Seq<u8>, leading: bool)
    ensures
        weight(segment(s, leading)) <= s.len() + 1,
{
    if segment(s, leading).len() > 0 {
        assert(segment(s, leading).drop_last().len() == 0);
        assert(weight(segment(s, leading).drop_last()) == 0);
    }
}

proof fn lemma_weight_after(rest: Seq<u8>, cur: Seq<u8>, leading: bool)
    ensures
        weight(components_after(rest, cur, leading)) <= rest.len() + cur.len() + 1,
    decreases rest.len(),
{
    lemma_weight_segment(cur, leading);
    if rest.len() > 0 {
        if rest[0] == SLASH {
            lemma_weight_after(rest.skip(1), Seq::empty(), false);
            lemma_weight_concat(segment(cur, leading), components_after(rest.skip(1), Seq::empty(), false));
        } else {
            lemma_weight_after(rest.skip(1), cur.push(rest[0]), leading);
        }
    }
}

/// The components of a path weigh no more than the path and one more.
pub(crate) proof fn lemma_weight_of_path(path: Seq<u8>)
    ensures
        weight(components(path)) <= path.len() + 1,
{
    if path.len() > 0 {
        if path[0] == SLASH {
            lemma_weight_after(path.skip(1), Seq::empty(), false);
            let root = seq![Seq::<u8>::empty()];
            lemma_weight_concat(root, components_after(path.skip(1), Seq::empty(), false));
            assert(root.drop_last().len() == 0);
            assert(weight(root.drop_last()) == 0);
        } else {
            lemma_weight_after(path, Seq::empty(), true);
        }
    }
}

/// The components of a parent and the last component weigh no more than the path
/// and one more.
pub(crate) proof fn lemma_weight_of_split(path: Seq<u8>)
    requires
        components(path).len() > 0,
    ensures
        weight(parent_names(path)) + components(path).last().len() + 1 <= path.len() + 1,
{
    lemma_weight_of_path(path);
    lemma_weight_filter(components(path).drop_last(), |c: Seq<u8>| is_named(c));
}

// ---- joining --------------------------------------------------------------------

/// A name that stands for itself in a path.
pub open spec fn is_plain_name(name: Seq<u8>) -> bool {
    name.len() > 0 && !name.contains(SLASH) && is_named(name)
}

pub(crate) proof fn lemma_after_slash(a: Seq<u8>, b: Seq<u8>, cur: Seq<u8>, leading: bool)
    ensures
        components_after(a + seq![SLASH] + b, cur, leading) == components_after(a, cur, leading) + components_after(
            b,
            Seq::empty(),
            false,
        ),
    decreases a.len(),
{
    let all = a + seq![SLASH] + b;
    if a.len() == 0 {
        assert(all.skip(1) =~= b);
    } else {
        assert(all.skip(1) =~= a.skip(1) + seq![SLASH] + b);
        if a[0] == SLASH {
            lemma_after_slash(a.skip(1), b, Seq::empty(), false);
            assert(components_after(all, cur, leading) =~= components_after(a, cur, leading) + components_after(
                b,
                Seq::empty(),
                false,
            ));
        } else {
            lemma_after_slash(a.skip(1), b, cur.push(a[0]), leading);
        }
    }
}

pub(crate) proof fn lemma_after_name(b: Seq<u8>, cur: Seq<u8>, leading: bool)
    requires
        !b.contains(SLASH),
    ensures
        components_after(b, cur, leading) == segment(cur + b, leading),
    decreases b.len(),
{
    if b.len() == 0 {
        assert(cur + b =~= cur);
    } else {
        assert(b.contains(b[0]));
        assert forall|i: int| 0 <= i < b.skip(1).len() implies b.skip(1)[i] != SLASH by {
            assert(b.contains(b[i + 1]));
        }
        lemma_after_name(b.skip(1), cur.push(b[0]), leading);
        assert(cur.push(b[0]) + b.skip(1) =~= cur + b);
    }
}

/// A plain name behind a slash is one more component.
pub(crate) proof fn lemma_one_more_component(p: Seq<u8>, name: Seq<u8>)
    requires
        p.len() > 0,
        p[0] == SLASH,
        is_plain_name(name),
    ensures
        components(if p.last() == SLASH {
            p
        } else {
            p.push(SLASH)
        } + name) == components(p).push(name),
{
    let front = if p.last() == SLASH {
        p
    } else {
        p.push(SLASH)
    };
    let all = front + name;
    let root = seq![Seq::<u8>::empty()];
    lemma_after_name(name, Seq::empty(), false);
    assert(Seq::<u8>::empty() + name =~= name);
    assert(components_after(name, Seq::empty(), false) == seq![name]);
    if p.len() == 1 {
        assert(all.skip(1) =~= name);
        assert(p.skip(1).len() == 0);
        assert(components(p) =~= root);
        assert(components(all) =~= root + seq![name]);
    } else if p.last() == SLASH {
        let body = p.subrange(1, p.len() - 1);
        assert(all.skip(1) =~= body + seq![SLASH] + name);
        assert(p.skip(1) =~= body + seq![SLASH] + Seq::<u8>::empty());
        lemma_after_slash(body, name, Seq::empty(), false);
        lemma_after_slash(body, Seq::empty(), Seq::empty(), false);
        assert(components(all) =~= components(p).push(name));
    } else {
        assert(all.skip(1) =~= p.skip(1) + seq![SLASH] + name);
        lemma_after_slash(p.skip(1), name, Seq::empty(), false);
        assert(components(all) =~= components(p).push(name));
    }
}

/// Where every component is named, none is left out.
pub(crate) proof fn lemma_all_named(names: Seq<Seq<u8>>)
    requires
        forall|i: int| 0 <= i < names.len() ==> is_named(#[trigger] names[i]),
    ensures
        names.filter(|c: Seq<u8>| is_named(c)) == names,
    decreases names.len(),
{
    reveal(Seq::filter);
    if names.len() > 0 {
        let rest = names.drop_last();
        assert forall|i: int| 0 <= i < rest.len() implies is_named(#[trigger] rest[i]) by {
            assert(rest[i] == names[i]);
        }
        lemma_all_named(rest);
        assert(is_named(names[names.len() - 1]));
        assert(names =~= rest.push(names.last()));
    } else {
        assert(names.filter(|c: Seq<u8>| is_named(c)) =~= names);
    }
}

} // verus!
