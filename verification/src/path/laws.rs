//! What holds of paths, told over their bytes.

use vstd::prelude::*;

use crate::path;

verus! {

/// A name between two slashes that is kept: not empty, without a slash, and not a dot.
pub open spec fn is_kept(name: Seq<u8>) -> bool {
    &&& name.len() > 0
    &&& forall|i: int| 0 <= i < name.len() ==> #[trigger] name[i] as char != '/'
    &&& !(name.len() == 1 && name[0] as char == '.')
}

pub open spec fn are_kept(names: Seq<Seq<u8>>) -> bool {
    forall|k: int| 0 <= k < names.len() ==> is_kept(#[trigger] names[k])
}

/// The names, each behind a slash.
pub open spec fn behind_slashes(names: Seq<Seq<u8>>) -> Seq<u8>
    decreases names.len(),
{
    if names.len() == 0 {
        Seq::empty()
    } else {
        behind_slashes(names.drop_last()) + seq![path::SLASH] + names.last()
    }
}

/// The absolute path through some names.
pub open spec fn spelled(names: Seq<Seq<u8>>) -> Seq<u8> {
    if names.len() == 0 {
        seq![path::SLASH]
    } else {
        behind_slashes(names)
    }
}

pub(crate) proof fn lemma_kept(name: Seq<u8>)
    requires
        is_kept(name),
    ensures
        path::components_after(name, Seq::empty(), false) == seq![name],
        !name.contains(path::SLASH),
{
    assert(!name.contains(path::SLASH)) by {
        if name.contains(path::SLASH) {
            let i = choose|i: int| 0 <= i < name.len() && name[i] == path::SLASH;
            assert(name[i] as char != '/');
        }
    }
    path::lemma_after_name(name, Seq::empty(), false);
    assert(Seq::<u8>::empty() + name =~= name);
    assert(name != path::cur_dir()) by {
        assert(path::cur_dir()[0] == 46);
    }
}

/// The components of an absolute path are the root and the names between its slashes,
/// in order.
pub proof fn law_components_of_absolute_paths(names: Seq<Seq<u8>>)
    requires
        are_kept(names),
    ensures
        path::components(spelled(names)) == seq![Seq::<u8>::empty()] + names,
        names.len() > 0 ==> behind_slashes(names).len() > 0 && behind_slashes(names)[0] == path::SLASH,
    decreases names.len(),
{
    let root = seq![Seq::<u8>::empty()];
    if names.len() == 0 {
        let p = seq![path::SLASH];
        assert(p.skip(1).len() == 0);
        assert(path::components(p) =~= root + names);
    } else {
        let front = names.drop_last();
        let last = names.last();
        assert(is_kept(names[names.len() - 1]));
        assert forall|k: int| 0 <= k < front.len() implies is_kept(#[trigger] front[k]) by {
            assert(is_kept(names[k]));
        }
        law_components_of_absolute_paths(front);
        lemma_kept(last);
        let p = behind_slashes(names);
        let before = behind_slashes(front);
        if front.len() == 0 {
            assert(before.len() == 0);
            assert(p =~= seq![path::SLASH] + last);
            assert(p.skip(1) =~= last);
            assert(names =~= seq![last]);
            assert(path::components(p) =~= root + names);
        } else {
            assert(p.skip(1) =~= before.skip(1) + seq![path::SLASH] + last);
            path::lemma_after_slash(before.skip(1), last, Seq::empty(), false);
            assert(path::components(p) =~= path::components(before) + seq![last]);
            assert(root + names =~= (root + front) + seq![last]);
        }
    }
}

/// What stands behind a slash follows what stands before it, for every path.
pub proof fn law_components_around_a_slash(a: Seq<u8>, b: Seq<u8>)
    requires
        a.len() > 0,
    ensures
        path::components(a + seq![path::SLASH] + b) == path::components(a) + path::components_after(
            b,
            Seq::empty(),
            false,
        ),
{
    let all = a + seq![path::SLASH] + b;
    if a[0] == path::SLASH {
        assert(all.skip(1) =~= a.skip(1) + seq![path::SLASH] + b);
        path::lemma_after_slash(a.skip(1), b, Seq::empty(), false);
        assert(path::components(all) =~= path::components(a) + path::components_after(b, Seq::empty(), false));
    } else {
        path::lemma_after_slash(a, b, Seq::empty(), true);
    }
}

/// Slashes at the end, double slashes and dots between slashes make no difference.
pub proof fn law_idle_parts(a: Seq<u8>, b: Seq<u8>)
    requires
        a.len() > 0,
    ensures
        path::same_path(a + seq![path::SLASH], a),
        path::same_path(a + seq![path::SLASH] + (seq![path::SLASH] + b), a + seq![path::SLASH] + b),
        path::same_path(a + seq![path::SLASH] + (seq![path::DOT, path::SLASH] + b), a + seq![path::SLASH] + b),
        path::same_path(a + seq![path::SLASH] + seq![path::DOT], a),
{
    let none = Seq::<u8>::empty();
    law_components_around_a_slash(a, none);
    assert(a + seq![path::SLASH] + none =~= a + seq![path::SLASH]);
    assert(path::components_after(none, none, false).len() == 0);
    assert(path::components(a) + path::components_after(none, none, false) =~= path::components(a));
    law_components_around_a_slash(a, b);
    let slash = seq![path::SLASH] + b;
    law_components_around_a_slash(a, slash);
    assert(slash.skip(1) =~= b);
    assert(path::components_after(slash, none, false) =~= path::components_after(b, none, false));
    let dot = seq![path::DOT, path::SLASH] + b;
    law_components_around_a_slash(a, dot);
    assert(dot =~= seq![path::DOT] + seq![path::SLASH] + b);
    path::lemma_after_slash(seq![path::DOT], b, none, false);
    lemma_dot();
    assert(path::components_after(dot, none, false) =~= path::components_after(b, none, false));
    law_components_around_a_slash(a, seq![path::DOT]);
    assert(path::components(a) + path::components_after(seq![path::DOT], none, false) =~= path::components(a));
}

proof fn lemma_dot()
    ensures
        path::components_after(seq![path::DOT], Seq::empty(), false).len() == 0,
{
    let dot = seq![path::DOT];
    assert(!dot.contains(path::SLASH)) by {
        assert(dot[0] == path::DOT);
    }
    path::lemma_after_name(dot, Seq::empty(), false);
    assert(Seq::<u8>::empty() + dot =~= dot);
    assert(dot =~= path::cur_dir());
}

/// A path lies in every path of which it goes on behind a slash.
pub proof fn law_longer_path_lies_in_it(p: Seq<u8>, rest: Seq<u8>)
    requires
        p.len() > 0,
    ensures
        path::path_starts_with(p, p),
        path::path_starts_with(p + seq![path::SLASH] + rest, p),
{
    law_components_around_a_slash(p, rest);
    let (a, b) = (path::components(p + seq![path::SLASH] + rest), path::components(p));
    assert(a.subrange(0, b.len() as int) =~= b);
    assert(b.subrange(0, b.len() as int) =~= b);
}

/// One absolute path lies in another exactly where it is the same, or goes on behind it
/// with a slash; names that only begin alike do not count.
pub proof fn law_lying_in(names: Seq<Seq<u8>>, above: Seq<Seq<u8>>)
    requires
        are_kept(names),
        are_kept(above),
        above.len() > 0,
    ensures
        path::path_starts_with(spelled(names), spelled(above)) <==> {
            ||| spelled(names) == spelled(above)
            ||| spelled(names).len() > spelled(above).len() && spelled(names).subrange(0, spelled(above).len() as int)
                == spelled(above) && spelled(names)[spelled(above).len() as int] as char == '/'
        },
        path::path_starts_with(spelled(names), spelled(above)) <==> above.len() <= names.len() && forall|k: int|
            0 <= k < above.len() ==> names[k] == #[trigger] above[k],
{
    law_components_of_absolute_paths(names);
    law_components_of_absolute_paths(above);
    let (p, q) = (spelled(names), spelled(above));
    let root = seq![Seq::<u8>::empty()];
    let (a, b) = (path::components(p), path::components(q));
    if path::path_starts_with(p, q) {
        assert forall|k: int| 0 <= k < above.len() implies names[k] == #[trigger] above[k] by {
            assert(a.subrange(0, b.len() as int)[k + 1] == b[k + 1]);
        }
        assert(names.take(above.len() as int) =~= above);
        if names.len() == above.len() {
            assert(names =~= above);
        } else {
            lemma_goes_on(names, above.len() as int);
        }
    }
    if above.len() <= names.len() && forall|k: int| 0 <= k < above.len() ==> names[k] == #[trigger] above[k] {
        assert forall|k: int| 0 <= k < b.len() implies a[k] == b[k] by {
            if k > 0 {
                assert(names[k - 1] == above[k - 1]);
            }
        }
        assert(a.subrange(0, b.len() as int) =~= b);
    }
    if p.len() > q.len() && p.subrange(0, q.len() as int) == q && p[q.len() as int] == path::SLASH {
        let rest = p.skip(q.len() as int + 1);
        assert(p =~= q + seq![path::SLASH] + rest);
        law_longer_path_lies_in_it(q, rest);
    }
    if p == q {
        assert(a.subrange(0, b.len() as int) =~= b);
    }
}

proof fn lemma_goes_on(names: Seq<Seq<u8>>, k: int)
    requires
        0 < k < names.len(),
    ensures
        ({
            let (p, q) = (behind_slashes(names), behind_slashes(names.take(k)));
            p.len() > q.len() && p.subrange(0, q.len() as int) == q && p[q.len() as int] == path::SLASH
        }),
    decreases names.len(),
{
    let (p, q) = (behind_slashes(names), behind_slashes(names.take(k)));
    let front = names.drop_last();
    let before = behind_slashes(front);
    if front.len() == k {
        assert(front =~= names.take(k));
        assert(p.subrange(0, q.len() as int) =~= q);
    } else {
        assert(front.take(k) =~= names.take(k));
        lemma_goes_on(front, k);
        assert(p.subrange(0, q.len() as int) =~= before.subrange(0, q.len() as int));
        assert(p[q.len() as int] == before[q.len() as int]);
    }
}

/// The name of a path is what stands behind its last slash, unless that is `..`; nothing
/// that stands behind no name makes a difference.
pub proof fn law_file_name(p: Seq<u8>, name: Seq<u8>)
    requires
        p.len() > 0,
        is_kept(name),
    ensures
        !(name.len() == 2 && name[0] as char == '.' && name[1] as char == '.') ==> path::file_name_of(
            p + seq![path::SLASH] + name,
        ) == Some(name) && path::file_name_of(p + seq![path::SLASH] + name + seq![path::SLASH]) == Some(name),
        name.len() == 2 && name[0] as char == '.' && name[1] as char == '.' ==> path::file_name_of(
            p + seq![path::SLASH] + name,
        ) is None,
        path::file_name_of(seq![path::SLASH]) is None,
        path::components(p + seq![path::SLASH] + name).drop_last() == path::components(p),
{
    law_components_around_a_slash(p, name);
    lemma_kept(name);
    let q = p + seq![path::SLASH] + name;
    law_idle_parts(q, Seq::empty());
    let all = path::components(q);
    assert(all.last() == name);
    assert(all.drop_last() =~= path::components(p));
    assert(path::parent_dir()[0] == 46 && path::parent_dir()[1] == 46 && path::parent_dir().len() == 2);
    assert(path::cur_dir()[0] == 46 && path::cur_dir().len() == 1);
    if name.len() == 2 && name[0] == 46 && name[1] == 46 {
        assert(name =~= path::parent_dir());
    }
    let none: Seq<Seq<u8>> = Seq::empty();
    law_components_of_absolute_paths(none);
}

/// Joining puts one slash between two paths; an absolute path stands for itself.
pub proof fn law_joining(a: Seq<u8>, b: Seq<u8>)
    ensures
        b.len() > 0 && b[0] as char == '/' ==> path::joined_path(a, b) == b,
        !(b.len() > 0 && b[0] as char == '/') && a.len() > 0 && a.last() as char != '/' ==> path::joined_path(a, b) == a
            + seq![path::SLASH] + b,
        !(b.len() > 0 && b[0] as char == '/') && a.len() > 0 ==> path::components(path::joined_path(a, b))
            == path::components(a) + path::components_after(b, Seq::empty(), false),
        a.len() == 0 ==> path::joined_path(a, b) == b,
        !(b.len() > 0 && b[0] as char == '/') && a.len() > 0 ==> path::path_starts_with(path::joined_path(a, b), a),
{
    if !(b.len() > 0 && b[0] == path::SLASH) && a.len() > 0 {
        let j = path::joined_path(a, b);
        if a.last() != path::SLASH {
            assert(j =~= a + seq![path::SLASH] + b);
            law_components_around_a_slash(a, b);
        } else if a.len() == 1 {
            assert(j.skip(1) =~= b);
            assert(a.skip(1).len() == 0);
            assert(path::components(a) =~= seq![Seq::<u8>::empty()]);
        } else {
            let front = a.drop_last();
            assert(j =~= front + seq![path::SLASH] + b);
            assert(a =~= front + seq![path::SLASH]);
            law_components_around_a_slash(front, b);
            law_idle_parts(front, b);
        }
        let (x, y) = (path::components(j), path::components(a));
        assert(x.subrange(0, y.len() as int) =~= y);
    }
    if a.len() == 0 {
        assert(a + b =~= b);
    }
}

/// A name that leads up.
pub open spec fn leads_up(name: Seq<u8>) -> bool {
    name.len() == 2 && name[0] as char == '.' && name[1] as char == '.'
}

proof fn lemma_named(name: Seq<u8>)
    requires
        is_kept(name),
    ensures
        path::is_named(name) <==> !leads_up(name),
        path::is_named(Seq::<u8>::empty()),
{
    assert(path::parent_dir()[0] == 46 && path::parent_dir()[1] == 46 && path::parent_dir().len() == 2);
    assert(path::cur_dir()[0] == 46 && path::cur_dir().len() == 1);
    if leads_up(name) {
        assert(name =~= path::parent_dir());
    }
}

proof fn lemma_filter_step(cs: Seq<Seq<u8>>, c: Seq<u8>)
    ensures
        cs.push(c).filter(|x: Seq<u8>| path::is_named(x)) == (if path::is_named(c) {
            cs.filter(|x: Seq<u8>| path::is_named(x)).push(c)
        } else {
            cs.filter(|x: Seq<u8>| path::is_named(x))
        }),
{
    reveal(Seq::filter);
    assert(cs.push(c).drop_last() =~= cs);
}

/// The names that a path is looked up by are the root and those between its slashes; one
/// that leads up is passed over, not followed. Its parent is looked up by all but the
/// last.
pub proof fn law_looked_up_names(names: Seq<Seq<u8>>, n: int)
    requires
        are_kept(names),
        0 <= n <= names.len(),
    ensures
        ({
            let picked = (seq![Seq::<u8>::empty()] + names.take(n)).filter(|c: Seq<u8>| path::is_named(c));
            &&& (forall|k: int| 0 <= k < n ==> !leads_up(#[trigger] names[k])) ==> picked == seq![Seq::<u8>::empty()]
                + names.take(n)
            &&& n > 0 && leads_up(names[n - 1]) ==> picked == (seq![Seq::<u8>::empty()] + names.take(n - 1)).filter(
                |c: Seq<u8>| path::is_named(c),
            )
            &&& n == names.len() ==> path::named_components(spelled(names)) == picked
            &&& n == names.len() - 1 ==> path::parent_names(spelled(names)) == picked
        }),
    decreases n,
{
    let root = seq![Seq::<u8>::empty()];
    law_components_of_absolute_paths(names);
    if n > 0 {
        law_looked_up_names(names, n - 1);
        let before = root + names.take(n - 1);
        assert(root + names.take(n) =~= before.push(names[n - 1]));
        lemma_filter_step(before, names[n - 1]);
        assert(is_kept(names[n - 1]));
        lemma_named(names[n - 1]);
        assert(before.push(names[n - 1]) =~= root + names.take(n));
    } else {
        let none = Seq::<Seq<u8>>::empty();
        reveal(Seq::filter);
        assert(root + names.take(0) =~= none.push(Seq::<u8>::empty()));
        lemma_filter_step(none, Seq::<u8>::empty());
        assert(path::is_named(Seq::<u8>::empty())) by {
            assert(path::parent_dir().len() == 2 && path::cur_dir().len() == 1);
        }
        assert(none.filter(|x: Seq<u8>| path::is_named(x)) =~= none);
    }
    if n == names.len() {
        assert(names.take(n) =~= names);
    }
    if n == names.len() - 1 {
        assert((root + names).drop_last() =~= root + names.take(n));
    }
}

} // verus!
