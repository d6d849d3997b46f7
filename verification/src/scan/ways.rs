//! Where a walk puts what it finds: below its root, under the names of the
//! directories that lead to it.

use vstd::prelude::*;

use crate::arena;
use crate::index::NO_DIR;
use crate::path;
use crate::scan;
use crate::scan::{WalkItem, WalkState};
use crate::tree;
use crate::tree::chains;
use crate::tree::keeps;
use crate::tree::paths;
use crate::tree::IndexView;

verus! {

/// The names of the directories below the root that are open after the first `k`
/// results of a walk.
pub open spec fn way(items: Seq<WalkItem>, k: nat) -> Seq<Seq<u8>>
    decreases k,
{
    if k == 0 {
        Seq::empty()
    } else {
        let before = way(items, (k - 1) as nat);
        match items[k - 1] {
            WalkItem::Found { depth, name, is_dir, .. } => if is_dir && 0 < depth <= before.len() + 1 {
                before.take(depth - 1).push(arena::kept_name(name@))
            } else {
                before
            },
            WalkItem::Failed => before,
        }
    }
}

/// The walk starts at one directory of the index, and there is room for its first
/// `n` results.
pub open spec fn can_walk(s: WalkState, root: u32, items: Seq<WalkItem>, n: nat) -> bool {
    &&& s.index.wf()
    &&& s.open == seq![root]
    &&& root < s.index.dirs.len()
    &&& n <= items.len()
    &&& forall|i: int| 0 <= i < n ==> scan::is_plain(#[trigger] items[i])
    &&& s.index.dirs.len() + n < u32::MAX
    &&& s.index.slots.len() + n < u32::MAX
}

proof fn lemma_join_push(out: Seq<u8>, names: Seq<Seq<u8>>, name: Seq<u8>)
    ensures
        paths::join_all(out, names.push(name)) == tree::push_component(paths::join_all(out, names), name),
    decreases names.len(),
{
    let all = names.push(name);
    if names.len() == 0 {
        assert(all.skip(1) =~= Seq::<Seq<u8>>::empty());
        assert(paths::join_all(tree::push_component(out, name), all.skip(1)) == tree::push_component(out, name));
    } else {
        assert(all.skip(1) =~= names.skip(1).push(name));
        lemma_join_push(tree::push_component(out, names[0]), names.skip(1), name);
    }
}

proof fn lemma_join_concat(out: Seq<u8>, a: Seq<Seq<u8>>, b: Seq<Seq<u8>>)
    ensures
        paths::join_all(paths::join_all(out, a), b) == paths::join_all(out, a + b),
    decreases a.len(),
{
    let all = a + b;
    if a.len() == 0 {
        assert(all =~= b);
    } else {
        assert(all.skip(1) =~= a.skip(1) + b);
        assert(all[0] == a[0]);
        lemma_join_concat(tree::push_component(out, a[0]), a.skip(1), b);
    }
}

/// The open directories are those on the way, each with its path below the root.
spec fn is_on_way(s: WalkState, root: u32, names: Seq<Seq<u8>>, w: WalkState) -> bool {
    &&& w.index.wf()
    &&& w.open.len() == names.len() + 1
    &&& forall|j: int|
        0 <= j < w.open.len() ==> (#[trigger] w.open[j]) < w.index.dirs.len() && w.index.dir_path(w.open[j])
            == paths::join_all(s.index.dir_path(root), names.take(j))
}

proof fn lemma_dir_path_kept(v: IndexView, w: IndexView, d: u32)
    requires
        v.dirs_wf(),
        v.is_dir(d),
        chains::keeps_names(v, w),
    ensures
        w.dir_path(d) == v.dir_path(d),
    decreases d,
{
    assert(w.dirs[d as int].name == v.dirs[d as int].name);
    assert(v.dir_wf(d as int));
    if v.dirs[d as int].parent < d {
        lemma_dir_path_kept(v, w, v.dirs[d as int].parent);
    }
}

proof fn lemma_step(s: WalkState, root: u32, names: Seq<Seq<u8>>, b: WalkState, item: WalkItem)
    requires
        is_on_way(s, root, names, b),
        scan::is_plain(item),
        b.index.dirs.len() < u32::MAX,
        b.index.slots.len() < u32::MAX,
    ensures
        ({
            let w = b.with_item(item);
            let next = match item {
                WalkItem::Found { depth, name, is_dir, .. } => if is_dir && 0 < depth <= names.len() + 1 {
                    names.take(depth - 1).push(arena::kept_name(name@))
                } else {
                    names
                },
                WalkItem::Failed => names,
            };
            &&& is_on_way(s, root, next, w)
            &&& chains::keeps_names(b.index, w.index)
            &&& w.index.dirs.len() <= b.index.dirs.len() + 1
            &&& b.index.slots.len() <= w.index.slots.len() <= b.index.slots.len() + 1
            &&& forall|i: int| #[trigger] b.index.is_live(i) ==> w.index.slots[i] == b.index.slots[i]
        }),
{
    let w = b.with_item(item);
    match item {
        WalkItem::Failed => {},
        WalkItem::Found { depth, name, is_dir, flags, size, mtime } => {
            if 0 < depth <= b.open.len() {
                let parent = b.open[depth - 1];
                let u = b.index.push_entry(parent, name@, flags, size, mtime);
                keeps::law_push_entry_keeps_wf(b.index, parent, name@, flags, size, mtime);
                keeps::law_add_dir_keeps_wf(u, parent, name@);
                assert(chains::keeps_names(b.index, w.index));
                assert forall|j: int| 0 <= j < b.open.len() implies w.index.dir_path(#[trigger] b.open[j])
                    == paths::join_all(s.index.dir_path(root), names.take(j)) by {
                    lemma_dir_path_kept(b.index, w.index, b.open[j]);
                }
                if b.index.free.len() > 0 {
                    let at = b.index.free.last();
                    assert(b.index.free[b.index.free.len() - 1] == at);
                    assert(b.index.is_dead(at as int));
                }
                if is_dir {
                    let kept = arena::kept_name(name@);
                    let above = names.take(depth - 1);
                    let next = above.push(kept);
                    let n = u.dirs.len() as u32;
                    assert(w.open == b.open.subrange(0, depth as int).push(n));
                    assert(w.index.dirs[n as int].parent == parent && w.index.dirs[n as int].name == kept);
                    assert(w.index.dir_path(n) == tree::push_component(w.index.dir_path(parent), kept));
                    lemma_join_push(s.index.dir_path(root), above, kept);
                    assert forall|j: int| 0 <= j < w.open.len() implies (#[trigger] w.open[j]) < w.index.dirs.len()
                        && w.index.dir_path(w.open[j]) == paths::join_all(s.index.dir_path(root), next.take(j)) by {
                        if j < depth {
                            assert(w.open[j] == b.open[j]);
                            assert(next.take(j) =~= names.take(j));
                        } else {
                            assert(w.open[j] == n);
                            assert(next.take(j) =~= next);
                            assert(b.open[depth - 1] == parent);
                        }
                    }
                }
            }
        },
    }
}

proof fn lemma_way(s: WalkState, root: u32, items: Seq<WalkItem>, k: nat)
    requires
        can_walk(s, root, items, k),
    ensures
        ({
            let w = s.with_items(items, k);
            &&& is_on_way(s, root, way(items, k), w)
            &&& w.index.dirs.len() <= s.index.dirs.len() + k
            &&& w.index.slots.len() <= s.index.slots.len() + k
        }),
    decreases k,
{
    if k == 0 {
        assert(way(items, 0).take(0) =~= Seq::<Seq<u8>>::empty());
        assert(paths::join_all(s.index.dir_path(root), way(items, 0).take(0)) == s.index.dir_path(root));
    } else {
        lemma_way(s, root, items, (k - 1) as nat);
        assert(scan::is_plain(items[k - 1]));
        lemma_step(
            s,
            root,
            way(items, (k - 1) as nat),
            s.with_items(items, (k - 1) as nat),
            items[k - 1],
        );
    }
}

/// Directories keep their names and parents, whatever else is found.
proof fn lemma_dirs_stay(s: WalkState, root: u32, items: Seq<WalkItem>, k: nat, n: nat)
    requires
        can_walk(s, root, items, n),
        k <= n,
    ensures
        chains::keeps_names(s.with_items(items, k).index, s.with_items(items, n).index),
    decreases n,
{
    if k < n {
        let m = (n - 1) as nat;
        lemma_dirs_stay(s, root, items, k, m);
        lemma_way(s, root, items, m);
        assert(scan::is_plain(items[n - 1]));
        lemma_step(s, root, way(items, m), s.with_items(items, m), items[n - 1]);
    }
}

/// What was recorded stays, whatever else is found.
proof fn lemma_recorded_stays(s: WalkState, root: u32, items: Seq<WalkItem>, k: nat, n: nat, id: int)
    requires
        can_walk(s, root, items, n),
        k <= n,
        s.with_items(items, k).index.is_live(id),
    ensures
        s.with_items(items, n).index.is_live(id),
        s.with_items(items, n).index.slots[id] == s.with_items(items, k).index.slots[id],
    decreases n,
{
    if k < n {
        let m = (n - 1) as nat;
        lemma_recorded_stays(s, root, items, k, m, id);
        lemma_way(s, root, items, m);
        assert(scan::is_plain(items[n - 1]));
        lemma_step(s, root, way(items, m), s.with_items(items, m), items[n - 1]);
    }
}

/// An entry that a walk has found stays in the index to the end of the walk, and
/// its path is the path of the root, the names of the directories on the way to
/// it, and its own name.
pub proof fn law_walked_entry_has_its_path(s: WalkState, root: u32, items: Seq<WalkItem>, k: nat, n: nat)
    requires
        k < n,
        can_walk(s, root, items, n),
        items[k as int] matches WalkItem::Found { depth, .. } && 0 < depth <= way(items, k).len() + 1,
    ensures
        ({
            let v = s.with_items(items, k).index;
            let w = s.with_items(items, n).index;
            let id = v.next_slot() as int;
            let slot = w.slots[id];
            &&& w.is_live(id)
            &&& items[k as int] matches WalkItem::Found { depth, name, is_dir, flags, size, mtime } && {
                let above = paths::join_all(s.index.dir_path(root), way(items, k).take(depth - 1));
                &&& slot.name == arena::kept_name(name@)
                &&& slot.flags == flags
                &&& slot.size == size
                &&& slot.mtime == mtime
                &&& w.dir_path(slot.dir) == above
                &&& w.entry_path(id) == tree::with_slash(above) + arena::kept_name(name@)
            }
        }),
{
    let b = s.with_items(items, k);
    let w = s.with_items(items, n).index;
    lemma_way(s, root, items, k);
    assert(scan::is_plain(items[k as int]));
    if let WalkItem::Found { depth, name, is_dir, flags, size, mtime } = items[k as int] {
        let id = b.index.next_slot() as int;
        if b.index.free.len() > 0 {
            assert(b.index.free[b.index.free.len() - 1] == id);
            assert(b.index.is_dead(id));
        }
        let parent = b.open[depth - 1];
        lemma_step(s, root, way(items, k), b, items[k as int]);
        let c = b.with_item(items[k as int]);
        assert(c == s.with_items(items, k + 1));
        assert(c.index.slots[id].dir == parent);
        assert(c.index.is_live(id));
        lemma_recorded_stays(s, root, items, k + 1, n, id);
        lemma_dirs_stay(s, root, items, k, n);
        lemma_dir_path_kept(b.index, w, parent);
    }
}

/// The same, of a walk that begins at a path: what it finds has that path, the names
/// of the directories on the way, and its own name.
pub proof fn law_scanned_entry_is_below_its_root(v: IndexView, p: Seq<u8>, items: Seq<WalkItem>, k: nat, n: nat)
    requires
        v.wf(),
        chains::is_plain_chain(path::components(p)),
        paths::all_kept(path::components(p)),
        k < n <= items.len(),
        forall|i: int| 0 <= i < n ==> scan::is_plain(#[trigger] items[i]),
        v.dirs.len() + path::components(p).len() + n < u32::MAX,
        v.slots.len() + n < u32::MAX,
        items[k as int] matches WalkItem::Found { depth, .. } && 0 < depth <= way(items, k).len() + 1,
    ensures
        ({
            let names = path::named_components(p);
            let (u, root) = v.ensure(NO_DIR, names);
            let s = WalkState { index: u, open: seq![root], dirs: 0, files: 0, errors: 0 };
            let w = s.with_items(items, n).index;
            let id = s.with_items(items, k).index.next_slot() as int;
            &&& path::same_path(w.dir_path(root), p)
            &&& w.is_live(id)
            &&& items[k as int] matches WalkItem::Found { depth, name, .. } && w.entry_path(id) == tree::with_slash(
                paths::join_all(Seq::empty(), names + way(items, k).take(depth - 1)),
            ) + arena::kept_name(name@)
        }),
{
    let names = path::named_components(p);
    let (u, root) = v.ensure(NO_DIR, names);
    let s = WalkState { index: u, open: seq![root], dirs: 0, files: 0, errors: 0 };
    let id = s.with_items(items, k).index.next_slot() as int;
    chains::lemma_plain_chain_is_named(p);
    paths::lemma_missing_is_less(v, NO_DIR, names);
    chains::law_resolved_path(v, p);
    paths::law_ensure_keeps(v, NO_DIR, names);
    law_walked_entry_has_its_path(s, root, items, k, n);
    if let WalkItem::Found { depth, .. } = items[k as int] {
        lemma_join_concat(Seq::empty(), names, way(items, k).take(depth - 1));
    }
    lemma_dirs_stay(s, root, items, 0, n);
    lemma_dir_path_kept(u, s.with_items(items, n).index, root);
}

} // verus!
