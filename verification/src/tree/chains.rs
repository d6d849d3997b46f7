//! Directories as the chains of names that lead to them.

use vstd::prelude::*;

use crate::arena;
use crate::path;
use crate::tree::keeps;
use crate::tree::paths;
use crate::tree::{IndexView, NO_DIR};

verus! {

/// The names that lead from a root down to a directory.
pub open spec fn chain(v: IndexView, d: u32) -> Seq<Seq<u8>>
    decreases d,
{
    if d >= v.dirs.len() {
        Seq::empty()
    } else {
        let p = v.dirs[d as int].parent;
        (if p < d {
            chain(v, p)
        } else {
            Seq::empty()
        }).push(v.dirs[d as int].name)
    }
}

/// The names that lead to the entry in a slot.
pub open spec fn place_of(v: IndexView, i: int) -> Seq<Seq<u8>> {
    chain(v, v.slots[i].dir).push(v.slots[i].name)
}

/// The root, and below it plain names.
pub open spec fn is_plain_chain(names: Seq<Seq<u8>>) -> bool {
    &&& names.len() > 0
    &&& names[0].len() == 0
    &&& forall|i: int| 1 <= i < names.len() ==> path::is_plain_name(#[trigger] names[i])
}

/// Directories keep their names and parents.
pub open spec fn keeps_names(v: IndexView, w: IndexView) -> bool {
    &&& v.dirs.len() <= w.dirs.len()
    &&& forall|d: int|
        0 <= d < v.dirs.len() ==> (#[trigger] w.dirs[d]).name == v.dirs[d].name && w.dirs[d].parent
            == v.dirs[d].parent
}

/// Siblings have different names.
pub open spec fn no_twin_dirs(v: IndexView) -> bool {
    forall|a: int, b: int|
        #![trigger v.dirs[a], v.dirs[b]]
        0 <= a < v.dirs.len() && 0 <= b < v.dirs.len() && v.dirs[a].parent == v.dirs[b].parent && v.dirs[a].name
            == v.dirs[b].name ==> a == b
}

pub(crate) proof fn lemma_chain_kept(v: IndexView, w: IndexView, d: u32)
    requires
        keeps_names(v, w),
        v.is_dir(d),
    ensures
        chain(w, d) == chain(v, d),
    decreases d,
{
    assert(w.dirs[d as int].name == v.dirs[d as int].name);
    if v.dirs[d as int].parent < d {
        lemma_chain_kept(v, w, v.dirs[d as int].parent);
    }
}

/// The path of a directory with a plain chain has the names of the chain.
pub(crate) proof fn lemma_dir_path_of_chain(v: IndexView, d: u32)
    requires
        v.dirs_wf(),
        v.is_dir(d),
        is_plain_chain(chain(v, d)),
    ensures
        path::components(v.dir_path(d)) == chain(v, d),
        v.dir_path(d).len() > 0,
        v.dir_path(d)[0] == 47,
    decreases d,
{
    assert(v.dir_wf(d as int));
    let c = chain(v, d);
    let node = v.dirs[d as int];
    if node.parent == NO_DIR {
        assert(c =~= seq![node.name]);
        assert(c[0] == node.name);
        assert(v.dir_path(d) =~= seq![47u8]);
        assert(seq![47u8].skip(1).len() == 0);
        assert(path::components(seq![47u8]) =~= seq![Seq::<u8>::empty()]);
        assert(node.name =~= Seq::<u8>::empty());
    } else {
        let above = chain(v, node.parent);
        assert(c == above.push(node.name));
        assert(above.len() > 0) by {
            assert(v.is_dir(node.parent));
        }
        assert(is_plain_chain(above)) by {
            assert(above[0] == c[0]);
            assert forall|i: int| 1 <= i < above.len() implies path::is_plain_name(#[trigger] above[i]) by {
                assert(above[i] == c[i]);
            }
        }
        assert(path::is_plain_name(c[above.len() as int]));
        lemma_dir_path_of_chain(v, node.parent);
        path::lemma_one_more_component(v.dir_path(node.parent), node.name);
    }
}

/// The path of an entry has the names that lead to it.
pub(crate) proof fn lemma_entry_path_of_chain(v: IndexView, i: int)
    requires
        v.dirs_wf(),
        0 <= i < v.slots.len(),
        v.is_dir(v.slots[i].dir),
        is_plain_chain(place_of(v, i)),
    ensures
        path::components(v.entry_path(i)) == place_of(v, i),
{
    let c = place_of(v, i);
    let above = chain(v, v.slots[i].dir);
    assert(above.len() > 0);
    assert(is_plain_chain(above)) by {
        assert(above[0] == c[0]);
        assert forall|k: int| 1 <= k < above.len() implies path::is_plain_name(#[trigger] above[k]) by {
            assert(above[k] == c[k]);
        }
    }
    assert(path::is_plain_name(c[above.len() as int]));
    lemma_dir_path_of_chain(v, v.slots[i].dir);
    path::lemma_one_more_component(v.dir_path(v.slots[i].dir), v.slots[i].name);
}

/// The directory that a chain of names leads to has that chain.
pub(crate) proof fn lemma_lookup_gives_chain(v: IndexView, cur: u32, names: Seq<Seq<u8>>)
    requires
        v.dirs_wf(),
        paths::is_place(v, cur),
    ensures
        v.lookup(cur, names) matches Some(d) ==> v.is_dir(d) && chain(v, d) == (if cur == NO_DIR {
            Seq::empty()
        } else {
            chain(v, cur)
        }) + names,
    decreases names.len(),
{
    let base = if cur == NO_DIR {
        Seq::empty()
    } else {
        chain(v, cur)
    };
    if names.len() == 0 {
        assert(base + names =~= base);
    } else {
        paths::lemma_child_dir(v, cur, names[0]);
        match v.child_dir(cur, names[0]) {
            Some(c) => {
                assert(v.dir_wf(c as int));
                lemma_lookup_gives_chain(v, c, names.skip(1));
                assert(chain(v, c) =~= base.push(names[0]));
                assert(base.push(names[0]) + names.skip(1) =~= base + names);
            },
            None => {},
        }
    }
}

/// One more name leads to the child of that name.
proof fn lemma_lookup_push(v: IndexView, cur: u32, names: Seq<Seq<u8>>, name: Seq<u8>)
    requires
        v.dirs_wf(),
        paths::is_place(v, cur),
        v.lookup(cur, names) is Some || (names.len() == 0 && cur == NO_DIR),
    ensures
        v.lookup(cur, names.push(name)) == v.child_dir(
            if names.len() == 0 {
                cur
            } else {
                v.lookup(cur, names)->0
            },
            name,
        ),
    decreases names.len(),
{
    let all = names.push(name);
    if names.len() == 0 {
        paths::lemma_child_dir(v, cur, name);
        assert(all[0] == name);
        assert(all.skip(1).len() == 0);
        match v.child_dir(cur, name) {
            Some(c) => {
                assert(v.lookup(c, all.skip(1)) == Some(c));
            },
            None => {},
        }
    } else {
        paths::lemma_child_dir(v, cur, names[0]);
        let c = v.child_dir(cur, names[0])->0;
        assert(all.skip(1) =~= names.skip(1).push(name));
        lemma_lookup_push(v, c, names.skip(1), name);
        if names.len() == 1 {
            assert(names.skip(1).len() == 0);
        }
    }
}

/// Where no siblings have the same name, the chain of a directory that is reached
/// from one that a lookup finds leads to it.
pub(crate) proof fn lemma_chain_leads_to(v: IndexView, names: Seq<Seq<u8>>, top: u32, x: u32)
    requires
        v.dirs_wf(),
        no_twin_dirs(v),
        v.lookup(NO_DIR, names) == Some(top),
        v.in_subtree(x, top),
    ensures
        v.is_dir(x),
        v.lookup(NO_DIR, chain(v, x)) == Some(x),
    decreases x,
{
    lemma_lookup_gives_chain(v, NO_DIR, names);
    if x == top {
        assert(Seq::<Seq<u8>>::empty() + names =~= names);
    } else {
        let p = v.dirs[x as int].parent;
        lemma_chain_leads_to(v, names, top, p);
        assert(v.dir_wf(x as int) && v.dir_wf(p as int));
        let name = v.dirs[x as int].name;
        lemma_lookup_push(v, NO_DIR, chain(v, p), name);
        paths::lemma_first_named(v, v.children(p), name);
        match v.child_dir(p, name) {
            Some(c) => {
                paths::lemma_child_dir(v, p, name);
                assert(v.dirs[c as int].parent == v.dirs[x as int].parent);
            },
            None => {
                let k = choose|k: int| 0 <= k < v.children(p).len() && v.children(p)[k] == x;
                assert(v.dirs[v.children(p)[k] as int].name == name);
            },
        }
    }
}

/// The chain of a directory begins with the chain of every directory above it.
pub(crate) proof fn lemma_subtree_chain(v: IndexView, x: u32, top: u32)
    requires
        v.is_dir(x),
        v.in_subtree(x, top),
    ensures
        chain(v, top).len() <= chain(v, x).len(),
        chain(v, x).subrange(0, chain(v, top).len() as int) == chain(v, top),
    decreases x,
{
    let c = chain(v, x);
    if x == top {
        assert(c.subrange(0, c.len() as int) =~= c);
    } else {
        let p = v.dirs[x as int].parent;
        lemma_subtree_chain(v, p, top);
        let a = chain(v, top);
        assert(c.subrange(0, a.len() as int) =~= chain(v, p).subrange(0, a.len() as int));
    }
}

/// The names that lead to a place.
pub open spec fn chain_to(v: IndexView, place: u32) -> Seq<Seq<u8>> {
    if place == NO_DIR {
        Seq::empty()
    } else {
        chain(v, place)
    }
}

/// A directory that was made to exist stands on the way, and did not exist before.
proof fn lemma_made_dir(v: IndexView, cur: u32, names: Seq<Seq<u8>>, d: u32) -> (k: int)
    requires
        v.wf(),
        paths::is_place(v, cur),
        paths::can_ensure(v, cur, names),
        paths::all_kept(names),
        v.dirs.len() <= d < v.ensure(cur, names).0.dirs.len(),
    ensures
        1 <= k <= names.len(),
        chain(v.ensure(cur, names).0, d) == chain_to(v, cur) + names.take(k),
        v.lookup(cur, names.take(k)) is None,
    decreases names.len(),
{
    let w = v.ensure(cur, names).0;
    if names.len() == 0 {
        0
    } else {
        let rest = names.skip(1);
        assert(names[0].len() <= arena::MAX_NAME_LEN);
        assert(paths::all_kept(rest)) by {
            assert forall|i: int| 0 <= i < rest.len() implies (#[trigger] rest[i]).len() <= arena::MAX_NAME_LEN by {
                assert(rest[i] == names[i + 1]);
            }
        }
        match v.child_dir(cur, names[0]) {
            Some(c) => {
                paths::lemma_child_dir(v, cur, names[0]);
                assert(v.dir_wf(c as int));
                let k = lemma_made_dir(v, c, rest, d);
                assert(chain(v, c) =~= chain_to(v, cur).push(names[0]));
                assert(chain_to(v, c) + rest.take(k) =~= chain_to(v, cur) + names.take(k + 1));
                assert(names.take(k + 1).skip(1) =~= rest.take(k));
                assert(names.take(k + 1)[0] == names[0]);
                k + 1
            },
            None => {
                let u = v.add_dir(cur, names[0]);
                let n = v.dirs.len() as u32;
                paths::lemma_missing_below_new(v, cur, names[0], rest);
                keeps::law_add_dir_keeps_wf(v, cur, names[0]);
                paths::law_ensure_keeps(u, n, rest);
                assert(keeps_names(v, u));
                if cur != NO_DIR {
                    lemma_chain_kept(v, u, cur);
                }
                assert(chain(u, n) =~= chain_to(v, cur).push(names[0]));
                let k = if d == n {
                    lemma_chain_kept(u, w, n);
                    assert(names.take(1) =~= seq![names[0]]);
                    assert(chain_to(v, cur).push(names[0]) =~= chain_to(v, cur) + names.take(1));
                    1int
                } else {
                    let k = lemma_made_dir(u, n, rest, d);
                    assert(chain_to(u, n) + rest.take(k) =~= chain_to(v, cur) + names.take(k + 1));
                    k + 1
                };
                assert(names.take(k)[0] == names[0]);
                k
            },
        }
    }
}

pub(crate) proof fn lemma_plain_chain_is_named(p: Seq<u8>)
    requires
        is_plain_chain(path::components(p)),
    ensures
        path::named_components(p) == path::components(p),
{
    let names = path::components(p);
    assert forall|i: int| 0 <= i < names.len() implies path::is_named(#[trigger] names[i]) by {
        if i == 0 {
            assert(path::cur_dir().len() == 1 && path::parent_dir().len() == 2);
        } else {
            assert(path::is_plain_name(names[i]));
        }
    }
    path::lemma_all_named(names);
}

/// A directory that a path was resolved to is found under the path and has it; every
/// directory keeps its id, name and parent; only those on the way that did not exist
/// are added; and resolving the path once more changes nothing.
pub proof fn law_resolved_path(v: IndexView, p: Seq<u8>)
    requires
        v.wf(),
        is_plain_chain(path::components(p)),
        paths::all_kept(path::components(p)),
        paths::can_ensure(v, NO_DIR, path::components(p)),
    ensures
        ({
            let names = path::named_components(p);
            let (w, id) = v.ensure(NO_DIR, names);
            &&& w.lookup(NO_DIR, names) == Some(id)
            &&& path::same_path(w.dir_path(id), p)
            &&& w.dir_path(id) == paths::join_all(Seq::empty(), names)
            &&& keeps_names(v, w)
            &&& forall|d: u32|
                v.dirs.len() <= d < w.dirs.len() ==> exists|k: int|
                    1 <= k <= names.len() && #[trigger] chain(w, d) == #[trigger] names.take(k) && v.lookup(
                        NO_DIR,
                        names.take(k),
                    ) is None
            &&& v.lookup(NO_DIR, names) is Some ==> w == v
            &&& w.ensure(NO_DIR, names) == (w, id)
        }),
{
    let names = path::components(p);
    lemma_plain_chain_is_named(p);
    let (w, id) = v.ensure(NO_DIR, names);
    paths::law_ensure_keeps(v, NO_DIR, names);
    paths::law_ensure_then_lookup(v, NO_DIR, names);
    paths::law_ensured_path(v, NO_DIR, names, Seq::empty());
    lemma_lookup_gives_chain(w, NO_DIR, names);
    assert(Seq::<Seq<u8>>::empty() + names =~= names);
    lemma_dir_path_of_chain(w, id);
    assert forall|d: u32| v.dirs.len() <= d < w.dirs.len() implies exists|k: int|
        1 <= k <= names.len() && #[trigger] chain(w, d) == #[trigger] names.take(k) && v.lookup(
            NO_DIR,
            names.take(k),
        ) is None by {
        let k = lemma_made_dir(v, NO_DIR, names, d);
        assert(Seq::<Seq<u8>>::empty() + names.take(k) =~= names.take(k));
        assert(chain(w, d) == names.take(k));
    }
    if v.lookup(NO_DIR, names) is Some {
        lemma_found_adds_nothing(v, NO_DIR, names);
    }
}

proof fn lemma_found_adds_nothing(v: IndexView, cur: u32, names: Seq<Seq<u8>>)
    requires
        v.lookup(cur, names) is Some,
    ensures
        v.ensure(cur, names).0 == v,
    decreases names.len(),
{
    if names.len() > 0 {
        match v.child_dir(cur, names[0]) {
            Some(c) => {
                lemma_found_adds_nothing(v, c, names.skip(1));
            },
            None => {},
        }
    }
}

} // verus!
