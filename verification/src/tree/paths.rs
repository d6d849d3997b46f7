//! Names, chains of names and the paths that directories have.

use vstd::prelude::*;

use crate::arena;
use crate::tree::keeps;
use crate::tree::{IndexView, NO_DIR};

verus! {

/// `NO_DIR` or a directory.
pub open spec fn is_place(v: IndexView, d: u32) -> bool {
    d == NO_DIR || v.is_dir(d)
}

/// The bytes that a chain of names adds to the arena at most.
pub open spec fn chain_bytes(names: Seq<Seq<u8>>) -> nat
    decreases names.len(),
{
    if names.len() == 0 {
        0
    } else {
        arena::kept_name(names[0]).len() + chain_bytes(names.skip(1))
    }
}

/// A path with a chain of names appended.
pub open spec fn join_all(out: Seq<u8>, names: Seq<Seq<u8>>) -> Seq<u8>
    decreases names.len(),
{
    if names.len() == 0 {
        out
    } else {
        join_all(crate::tree::push_component(out, names[0]), names.skip(1))
    }
}

/// Every name is short enough to be kept whole.
pub open spec fn all_kept(names: Seq<Seq<u8>>) -> bool {
    forall|i: int| 0 <= i < names.len() ==> (#[trigger] names[i]).len() <= arena::MAX_NAME_LEN
}

/// The lists of siblings of `w` begin as those of `v` do, and the directories of
/// `v` kept their names and parents.
pub open spec fn extends(v: IndexView, w: IndexView) -> bool {
    &&& v.dirs.len() <= w.dirs.len()
    &&& forall|d: int|
        0 <= d < v.dirs.len() ==> (#[trigger] w.dirs[d]).name == v.dirs[d].name && w.dirs[d].parent
            == v.dirs[d].parent
    &&& forall|p: u32, name: Seq<u8>|
        is_place(v, p) && v.child_dir(p, name) is Some ==> #[trigger] w.child_dir(p, name) == v.child_dir(
            p,
            name,
        )
}

proof fn lemma_first_named_same(v: IndexView, w: IndexView, list: Seq<u32>, name: Seq<u8>)
    requires
        forall|i: int|
            0 <= i < list.len() ==> w.dirs[(#[trigger] list[i]) as int].name == v.dirs[list[i] as int].name,
    ensures
        w.first_named(list, name) == v.first_named(list, name),
    decreases list.len(),
{
    if list.len() > 0 {
        assert(w.dirs[list[0] as int].name == v.dirs[list[0] as int].name);
        let rest = list.skip(1);
        assert forall|i: int| 0 <= i < rest.len() implies w.dirs[(#[trigger] rest[i]) as int].name
            == v.dirs[rest[i] as int].name by {
            assert(rest[i] == list[i + 1]);
        }
        lemma_first_named_same(v, w, rest, name);
    }
}

proof fn lemma_first_named_push(v: IndexView, list: Seq<u32>, x: u32, name: Seq<u8>)
    ensures
        v.first_named(list.push(x), name) == (match v.first_named(list, name) {
            Some(c) => Some(c),
            None => if v.dirs[x as int].name == name {
                Some(x)
            } else {
                None
            },
        }),
    decreases list.len(),
{
    if list.len() == 0 {
        assert(list.push(x).skip(1).len() == 0);
        assert(v.first_named(list.push(x).skip(1), name) is None);
    } else {
        assert(list.push(x).skip(1) =~= list.skip(1).push(x));
        lemma_first_named_push(v, list.skip(1), x, name);
    }
}

/// The first directory of that name is in the list and has the name; without
/// one, none in the list has it.
pub(crate) proof fn lemma_first_named(v: IndexView, list: Seq<u32>, name: Seq<u8>)
    ensures
        match v.first_named(list, name) {
            Some(c) => list.contains(c) && v.dirs[c as int].name == name,
            None => forall|i: int| 0 <= i < list.len() ==> v.dirs[(#[trigger] list[i]) as int].name != name,
        },
    decreases list.len(),
{
    if list.len() > 0 {
        let rest = list.skip(1);
        lemma_first_named(v, rest, name);
        match v.first_named(rest, name) {
            Some(c) => {
                let k = choose|k: int| 0 <= k < rest.len() && rest[k] == c;
                assert(list[k + 1] == c);
                assert(list.contains(list[0]));
            },
            None => {
                assert forall|i: int| 1 <= i < list.len() implies v.dirs[(#[trigger] list[i]) as int].name != name by {
                    assert(rest[i - 1] == list[i]);
                }
                assert(list.contains(list[0]));
            },
        }
    }
}

/// A child that was found is a directory with that parent and name.
pub(crate) proof fn lemma_child_dir(v: IndexView, parent: u32, name: Seq<u8>)
    requires
        v.dirs_wf(),
        is_place(v, parent),
    ensures
        v.child_dir(parent, name) matches Some(c) ==> v.is_dir(c) && v.dirs[c as int].parent == parent
            && v.dirs[c as int].name == name && v.children(parent).contains(c),
{
    lemma_first_named(v, v.children(parent), name);
    if parent != NO_DIR {
        assert(v.dir_wf(parent as int));
    }
    assert(v.siblings(v.children(parent), parent));
}

/// Adding a directory under a name that its parent lacks makes it the child of
/// that name, and leaves every other child what it was.
pub proof fn law_add_dir_is_found(v: IndexView, parent: u32, name: Seq<u8>)
    requires
        v.dirs_wf(),
        v.dirs.len() < u32::MAX,
        is_place(v, parent),
    ensures
        extends(v, v.add_dir(parent, name)),
        v.child_dir(parent, arena::kept_name(name)) is None ==> v.add_dir(parent, name).child_dir(
            parent,
            arena::kept_name(name),
        ) == Some(v.dirs.len() as u32),
{
    let w = v.add_dir(parent, name);
    let id = v.dirs.len() as u32;
    assert forall|p: u32, n: Seq<u8>| is_place(v, p) implies (v.child_dir(p, n) is Some ==> #[trigger] w.child_dir(
        p,
        n,
    ) == v.child_dir(p, n)) && (p == parent && v.child_dir(p, n) is None && n == arena::kept_name(name)
        ==> w.child_dir(p, n) == Some(id)) by {
        let list = v.children(p);
        if p != NO_DIR {
            assert(v.dir_wf(p as int));
        }
        assert(v.siblings(list, p));
        lemma_first_named_same(v, w, list, n);
        if p == parent {
            assert(w.children(p) == list.push(id));
            lemma_first_named_push(w, list, id, n);
        } else {
            assert(w.children(p) == list);
        }
    }
}

pub(crate) proof fn lemma_extends_trans(a: IndexView, b: IndexView, c: IndexView)
    requires
        extends(a, b),
        extends(b, c),
    ensures
        extends(a, c),
{
    assert forall|d: int| 0 <= d < a.dirs.len() implies (#[trigger] c.dirs[d]).name == a.dirs[d].name
        && c.dirs[d].parent == a.dirs[d].parent by {
        assert(b.dirs[d].name == a.dirs[d].name);
    }
    assert forall|p: u32, name: Seq<u8>| is_place(a, p) && a.child_dir(p, name) is Some implies #[trigger] c.child_dir(
        p,
        name,
    ) == a.child_dir(p, name) by {
        assert(b.child_dir(p, name) == a.child_dir(p, name));
    }
}

/// The names of a chain that lead to no directory yet.
pub open spec fn missing(v: IndexView, cur: u32, names: Seq<Seq<u8>>) -> Seq<Seq<u8>>
    decreases names.len(),
{
    if names.len() == 0 {
        names
    } else {
        match v.child_dir(cur, names[0]) {
            Some(c) => missing(v, c, names.skip(1)),
            None => names,
        }
    }
}

/// There are ids for the directories of a chain that do not exist yet.
pub open spec fn can_ensure(v: IndexView, cur: u32, names: Seq<Seq<u8>>) -> bool {
    v.dirs.len() + missing(v, cur, names).len() <= u32::MAX
}

/// There is room for the directories of a chain that do not exist yet: for their ids
/// and for their names.
pub open spec fn fits_chain(v: IndexView, cur: u32, names: Seq<Seq<u8>>) -> bool {
    &&& can_ensure(v, cur, names)
    &&& v.dir_name_bytes + chain_bytes(missing(v, cur, names)) <= u32::MAX
}

/// What is missing of a chain is no more than the chain.
pub(crate) proof fn lemma_missing_is_less(v: IndexView, cur: u32, names: Seq<Seq<u8>>)
    ensures
        missing(v, cur, names).len() <= names.len(),
        chain_bytes(missing(v, cur, names)) <= chain_bytes(names),
    decreases names.len(),
{
    if names.len() > 0 {
        match v.child_dir(cur, names[0]) {
            Some(c) => lemma_missing_is_less(v, c, names.skip(1)),
            None => {},
        }
    }
}

/// Below a new directory everything is missing.
pub(crate) proof fn lemma_missing_below_new(v: IndexView, parent: u32, name: Seq<u8>, rest: Seq<Seq<u8>>)
    requires
        is_place(v, parent),
        v.dirs.len() < u32::MAX,
    ensures
        missing(v.add_dir(parent, name), v.dirs.len() as u32, rest) == rest,
{
    let u = v.add_dir(parent, name);
    assert(u.children(v.dirs.len() as u32).len() == 0);
}

/// Making a chain of names exist keeps the index well formed, leaves the entries
/// alone and adds one directory for each name that is missing.
pub proof fn law_ensure_keeps(v: IndexView, cur: u32, names: Seq<Seq<u8>>)
    requires
        v.wf(),
        is_place(v, cur),
        can_ensure(v, cur, names),
    ensures
        ({
            let (w, id) = v.ensure(cur, names);
            &&& w.wf()
            &&& extends(v, w)
            &&& is_place(w, id)
            &&& id == NO_DIR <==> names.len() == 0 && cur == NO_DIR
            &&& w.slots == v.slots
            &&& w.free == v.free
            &&& w.name_bytes == v.name_bytes
            &&& w.dirs.len() == v.dirs.len() + missing(v, cur, names).len()
            &&& w.dir_name_bytes == v.dir_name_bytes + chain_bytes(missing(v, cur, names))
            &&& w.dirs.len() <= v.dirs.len() + names.len()
            &&& w.dir_name_bytes <= v.dir_name_bytes + chain_bytes(names)
        }),
    decreases names.len(),
{
    lemma_missing_is_less(v, cur, names);
    if names.len() > 0 {
        match v.child_dir(cur, names[0]) {
            Some(c) => {
                lemma_child_dir(v, cur, names[0]);
                law_ensure_keeps(v, c, names.skip(1));
            },
            None => {
                let u = v.add_dir(cur, names[0]);
                lemma_missing_below_new(v, cur, names[0], names.skip(1));
                keeps::law_add_dir_keeps_wf(v, cur, names[0]);
                law_add_dir_is_found(v, cur, names[0]);
                law_ensure_keeps(u, v.dirs.len() as u32, names.skip(1));
                lemma_extends_trans(v, u, u.ensure(v.dirs.len() as u32, names.skip(1)).0);
            },
        }
    }
}

/// A chain of names that was made to exist is found again: the lookup leads to
/// the same directory, and making it exist once more changes nothing.
pub proof fn law_ensure_then_lookup(v: IndexView, cur: u32, names: Seq<Seq<u8>>)
    requires
        v.wf(),
        is_place(v, cur),
        can_ensure(v, cur, names),
        all_kept(names),
        cur != NO_DIR || names.len() > 0,
    ensures
        ({
            let (w, id) = v.ensure(cur, names);
            &&& w.lookup(cur, names) == Some(id)
            &&& w.ensure(cur, names) == (w, id)
        }),
    decreases names.len(),
{
    if names.len() > 0 {
        let rest = names.skip(1);
        assert(names[0].len() <= arena::MAX_NAME_LEN);
        assert(all_kept(rest)) by {
            assert forall|i: int| 0 <= i < rest.len() implies (#[trigger] rest[i]).len() <= arena::MAX_NAME_LEN by {
                assert(rest[i] == names[i + 1]);
            }
        }
        let (w, id) = v.ensure(cur, names);
        match v.child_dir(cur, names[0]) {
            Some(c) => {
                lemma_child_dir(v, cur, names[0]);
                law_ensure_keeps(v, c, rest);
                law_ensure_then_lookup(v, c, rest);
                assert(w.child_dir(cur, names[0]) == Some(c));
            },
            None => {
                let u = v.add_dir(cur, names[0]);
                let n = v.dirs.len() as u32;
                lemma_missing_below_new(v, cur, names[0], rest);
                keeps::law_add_dir_keeps_wf(v, cur, names[0]);
                law_add_dir_is_found(v, cur, names[0]);
                law_ensure_keeps(u, n, rest);
                law_ensure_then_lookup(u, n, rest);
                assert(u.child_dir(cur, names[0]) == Some(n));
                assert(w.child_dir(cur, names[0]) == Some(n));
            },
        }
    }
}

/// A chain of names that is found leads to a directory.
pub(crate) proof fn lemma_lookup(v: IndexView, cur: u32, names: Seq<Seq<u8>>)
    requires
        v.dirs_wf(),
        is_place(v, cur),
    ensures
        v.lookup(cur, names) matches Some(d) ==> v.is_dir(d),
    decreases names.len(),
{
    if names.len() > 0 {
        lemma_child_dir(v, cur, names[0]);
        match v.child_dir(cur, names[0]) {
            Some(c) => lemma_lookup(v, c, names.skip(1)),
            None => {},
        }
    }
}

/// Directories that kept their names and parents kept their paths.
pub proof fn law_extends_keeps_paths(v: IndexView, w: IndexView, d: u32, out: Seq<u8>)
    requires
        v.dirs_wf(),
        v.is_dir(d),
        extends(v, w),
    ensures
        w.append_dir_path(d, out) == v.append_dir_path(d, out),
        w.dir_prefix(d) == v.dir_prefix(d),
    decreases d,
{
    assert(v.dir_wf(d as int));
    assert(w.dirs[d as int].name == v.dirs[d as int].name);
    let p = v.dirs[d as int].parent;
    if p < d {
        law_extends_keeps_paths(v, w, p, out);
    }
}

/// The path of the directory that a chain of names leads to is the path that the
/// chain started from, with the names appended.
pub proof fn law_ensured_path(v: IndexView, cur: u32, names: Seq<Seq<u8>>, out: Seq<u8>)
    requires
        v.wf(),
        is_place(v, cur),
        can_ensure(v, cur, names),
        all_kept(names),
    ensures
        ({
            let (w, id) = v.ensure(cur, names);
            w.append_dir_path(id, out) == join_all(v.append_dir_path(cur, out), names)
        }),
    decreases names.len(),
{
    if names.len() > 0 {
        let rest = names.skip(1);
        assert(names[0].len() <= arena::MAX_NAME_LEN);
        assert(all_kept(rest)) by {
            assert forall|i: int| 0 <= i < rest.len() implies (#[trigger] rest[i]).len() <= arena::MAX_NAME_LEN by {
                assert(rest[i] == names[i + 1]);
            }
        }
        match v.child_dir(cur, names[0]) {
            Some(c) => {
                lemma_child_dir(v, cur, names[0]);
                assert(v.dir_wf(c as int));
                law_ensured_path(v, c, rest, out);
            },
            None => {
                let u = v.add_dir(cur, names[0]);
                let n = v.dirs.len() as u32;
                lemma_missing_below_new(v, cur, names[0], rest);
                keeps::law_add_dir_keeps_wf(v, cur, names[0]);
                law_add_dir_is_found(v, cur, names[0]);
                if cur != NO_DIR {
                    law_extends_keeps_paths(v, u, cur, out);
                }
                assert(u.dirs[n as int].parent == cur);
                law_ensured_path(u, n, rest, out);
            },
        }
    }
}

/// Every directory from the root down to `d` has a plain name: the root's is
/// empty, the others' are not and hold no slash.
pub open spec fn plain_names(v: IndexView, d: u32) -> bool
    decreases d,
{
    d < v.dirs.len() && {
        let node = v.dirs[d as int];
        if node.parent == NO_DIR {
            node.name.len() == 0
        } else {
            &&& node.name.len() > 0
            &&& !node.name.contains(47)
            &&& node.parent < d && plain_names(v, node.parent)
        }
    }
}

/// A directory's path, as path terms see it, is its path with a slash behind.
pub proof fn law_dir_prefix_is_path(v: IndexView, d: u32)
    requires
        v.dirs_wf(),
        plain_names(v, d),
    ensures
        v.dir_prefix(d) == crate::tree::with_slash(v.dir_path(d)),
        v.dir_path(d).len() > 0,
    decreases d,
{
    let node = v.dirs[d as int];
    assert(v.dir_wf(d as int));
    if node.parent == NO_DIR {
        assert(v.dir_path(d) =~= seq![47u8]);
    } else {
        law_dir_prefix_is_path(v, node.parent);
        let path = v.dir_path(d);
        let above = crate::tree::with_slash(v.dir_path(node.parent));
        assert(path == above + node.name);
        assert(path.last() == node.name.last());
        assert(node.name.contains(node.name.last()));
    }
}

/// An entry's path is its directory's prefix followed by its name.
pub proof fn law_entry_path_is_prefix_and_name(v: IndexView, i: int)
    requires
        v.dirs_wf(),
        0 <= i < v.slots.len(),
        plain_names(v, v.slots[i].dir),
    ensures
        v.entry_path(i) == v.dir_prefix(v.slots[i].dir) + v.slots[i].name,
{
    law_dir_prefix_is_path(v, v.slots[i].dir);
}

} // verus!
