//! What removing entries and subtrees takes away, and what it leaves.

use vstd::prelude::*;

use crate::tree::keeps;
use crate::tree::{IndexView, NO_DIR};

verus! {

proof fn lemma_removed_are_dead(v: IndexView, ids: Seq<u32>, i: int)
    requires
        0 <= i < v.slots.len(),
        exists|k: int| 0 <= k < ids.len() && #[trigger] ids[k] == i,
        forall|k: int| 0 <= k < ids.len() ==> (#[trigger] ids[k]) < v.slots.len(),
    ensures
        v.remove_all(ids).slots.len() == v.slots.len(),
        v.remove_all(ids).is_dead(i),
    decreases ids.len(),
{
    let before = v.remove_all(ids.drop_last());
    let k = choose|k: int| 0 <= k < ids.len() && #[trigger] ids[k] == i;
    assert forall|m: int| 0 <= m < ids.drop_last().len() implies (#[trigger] ids.drop_last()[m]) < v.slots.len() by {
        assert(ids[m] == ids.drop_last()[m]);
    }
    assert(ids[ids.len() - 1] < v.slots.len());
    lemma_remove_all_len(v, ids.drop_last());
    keeps::lemma_set_dead(before.slots[ids.last() as int].flags);
    if k < ids.len() - 1 {
        assert(ids.drop_last()[k] == i);
        lemma_removed_are_dead(v, ids.drop_last(), i);
    }
}

proof fn lemma_remove_all_len(v: IndexView, ids: Seq<u32>)
    requires
        forall|k: int| 0 <= k < ids.len() ==> (#[trigger] ids[k]) < v.slots.len(),
    ensures
        v.remove_all(ids).slots.len() == v.slots.len(),
        v.remove_all(ids).dirs == v.dirs,
        v.remove_all(ids).roots == v.roots,
    decreases ids.len(),
{
    if ids.len() > 0 {
        assert forall|m: int| 0 <= m < ids.drop_last().len() implies (#[trigger] ids.drop_last()[m])
            < v.slots.len() by {
            assert(ids[m] == ids.drop_last()[m]);
        }
        assert(ids[ids.len() - 1] < v.slots.len());
        lemma_remove_all_len(v, ids.drop_last());
    }
}

proof fn lemma_live_in_complete(v: IndexView, set: Set<u32>, n: int, i: int)
    requires
        0 <= i < n <= v.slots.len() <= u32::MAX,
        v.is_live(i),
        set.contains(v.slots[i].dir),
    ensures
        exists|k: int| 0 <= k < v.live_in(set, n).len() && #[trigger] v.live_in(set, n)[k] == i,
    decreases n,
{
    let ids = v.live_in(set, n);
    if i == n - 1 {
        assert(ids[ids.len() - 1] == i);
    } else {
        lemma_live_in_complete(v, set, n - 1, i);
        let before = v.live_in(set, n - 1);
        let k = choose|k: int| 0 <= k < before.len() && #[trigger] before[k] == i;
        assert(ids[k] == i);
    }
}

/// Removing a subtree leaves a live entry alive if and only if its directory lies
/// outside the subtree, and leaves such an entry's slot as it was.
pub proof fn law_remove_subtree_removes_exactly(v: IndexView, top: u32, i: int)
    requires
        v.wf(),
        v.is_dir(top),
        0 <= i < v.slots.len(),
    ensures
        v.remove_subtree(top).is_live(i) <==> v.is_live(i) && !v.in_subtree(v.slots[i].dir, top),
        !(v.is_live(i) && v.in_subtree(v.slots[i].dir, top)) ==> v.remove_subtree(top).slots[i] == v.slots[i],
{
    let base = v.detach(top);
    let ids = v.subtree_entries(top);
    keeps::lemma_live_in(v, v.subtree(top), v.slots.len() as int);
    if v.is_live(i) && v.in_subtree(v.slots[i].dir, top) {
        assert(v.subtree(top).contains(v.slots[i].dir));
        lemma_live_in_complete(v, v.subtree(top), v.slots.len() as int, i);
        lemma_removed_are_dead(base, ids, i);
    } else {
        assert forall|k: int| 0 <= k < ids.len() implies #[trigger] ids[k] != i && ids[k] < v.slots.len() by {
            assert(v.is_live(ids[k] as int) && v.subtree(top).contains(v.slots[ids[k] as int].dir));
        }
        keeps::lemma_remove_all_others(base, ids, i);
    }
}

/// A removed subtree is out of the tree: nothing in it is attached any more.
pub proof fn law_remove_subtree_detaches(v: IndexView, top: u32, x: u32)
    requires
        v.wf(),
        v.is_dir(top),
        v.in_subtree(x, top),
    ensures
        !v.remove_subtree(top).attached(x),
    decreases x,
{
    let w = v.remove_subtree(top);
    let base = v.detach(top);
    keeps::lemma_live_in(v, v.subtree(top), v.slots.len() as int);
    lemma_remove_all_len(base, v.subtree_entries(top));
    assert(v.dir_wf(top as int));
    let p = v.dirs[top as int].parent;
    if p == NO_DIR {
        keeps::lemma_filter_list(v.roots, top);
    } else {
        assert(v.dir_wf(p as int));
        keeps::lemma_filter_list(v.dirs[p as int].children, top);
    }
    if x != top {
        law_remove_subtree_detaches(v, top, v.dirs[x as int].parent);
        assert(w.dirs[x as int].parent == v.dirs[x as int].parent);
    } else {
        assert(w.dirs[top as int].parent == p);
        if w.attached(top) {
            if p == NO_DIR {
                let k = choose|k: int| 0 <= k < w.roots.len() && w.roots[k] == top;
                assert(w.roots[k] == top);
            } else {
                let list = w.dirs[p as int].children;
                let k = choose|k: int| 0 <= k < list.len() && list[k] == top;
                assert(list[k] == top);
            }
        }
    }
}

/// An entry is found under the directory and name that it was inserted with,
/// unless an earlier slot already holds a live entry of that directory and name.
pub proof fn law_inserted_entry_is_found(
    v: IndexView,
    dir: u32,
    name: Seq<u8>,
    flags: u8,
    size: u64,
    mtime: i64,
)
    requires
        v.wf(),
        v.is_dir(dir),
        !crate::model::has_dead_bit(flags),
        v.free.len() > 0 || v.slots.len() < u32::MAX,
        v.find(dir, crate::arena::kept_name(name)) is None,
    ensures
        v.push_entry(dir, name, flags, size, mtime).find(dir, crate::arena::kept_name(name)) == Some(
            v.next_slot(),
        ),
{
    let w = v.push_entry(dir, name, flags, size, mtime);
    let kept = crate::arena::kept_name(name);
    let at = v.next_slot() as int;
    if v.free.len() > 0 {
        assert(v.free[v.free.len() - 1] < v.slots.len());
    }
    lemma_none_before(v, 0, dir, kept);
    assert forall|i: int| 0 <= i < at implies !(w.is_live(i) && w.slots[i].dir == dir && w.slots[i].name
        == kept) by {
        assert(w.slots[i] == v.slots[i]);
    }
    lemma_find_at(w, 0, at, dir, kept);
}

proof fn lemma_none_before(v: IndexView, from: int, dir: u32, name: Seq<u8>)
    requires
        0 <= from,
        v.find_from(from, dir, name) is None,
    ensures
        forall|i: int|
            from <= i < v.slots.len() ==> !(v.is_live(i) && (#[trigger] v.slots[i]).dir == dir && v.slots[i].name
                == name),
    decreases v.slots.len() - from,
{
    if from < v.slots.len() {
        lemma_none_before(v, from + 1, dir, name);
    }
}

proof fn lemma_find_at(v: IndexView, from: int, at: int, dir: u32, name: Seq<u8>)
    requires
        0 <= from <= at < v.slots.len() <= u32::MAX,
        v.is_live(at),
        v.slots[at].dir == dir,
        v.slots[at].name == name,
        forall|i: int|
            from <= i < at ==> !(v.is_live(i) && (#[trigger] v.slots[i]).dir == dir && v.slots[i].name == name),
    ensures
        v.find_from(from, dir, name) == Some(at as u32),
    decreases at - from,
{
    if from < at {
        lemma_find_at(v, from + 1, at, dir, name);
    }
}

/// What a lookup finds is live, has that directory and name, and no earlier slot
/// does; without a find, no live entry does.
pub proof fn law_find_is_exact(v: IndexView, from: int, dir: u32, name: Seq<u8>)
    requires
        0 <= from,
        v.slots.len() <= u32::MAX,
    ensures
        match v.find_from(from, dir, name) {
            Some(id) => {
                &&& from <= id < v.slots.len()
                &&& v.is_live(id as int)
                &&& v.slots[id as int].dir == dir
                &&& v.slots[id as int].name == name
                &&& forall|i: int|
                    from <= i < id ==> !(v.is_live(i) && (#[trigger] v.slots[i]).dir == dir && v.slots[i].name
                        == name)
            },
            None => forall|i: int|
                from <= i < v.slots.len() ==> !(v.is_live(i) && (#[trigger] v.slots[i]).dir == dir
                    && v.slots[i].name == name),
        },
    decreases v.slots.len() - from,
{
    if from < v.slots.len() {
        law_find_is_exact(v, from + 1, dir, name);
    }
}

/// An entry is found under the directory and name that it was inserted with until it
/// is removed, where no other live entry has them.
pub proof fn law_entry_is_found_until_removed(
    v: IndexView,
    dir: u32,
    name: Seq<u8>,
    flags: u8,
    size: u64,
    mtime: i64,
)
    requires
        v.wf(),
        v.is_dir(dir),
        !crate::model::has_dead_bit(flags),
        v.free.len() > 0 || v.slots.len() < u32::MAX,
        v.find(dir, crate::arena::kept_name(name)) is None,
    ensures
        ({
            let w = v.push_entry(dir, name, flags, size, mtime);
            let kept = crate::arena::kept_name(name);
            &&& w.find(dir, kept) == Some(v.next_slot())
            &&& w.remove_entry(v.next_slot()).find(dir, kept) is None
        }),
{
    let w = v.push_entry(dir, name, flags, size, mtime);
    let kept = crate::arena::kept_name(name);
    let id = v.next_slot();
    law_inserted_entry_is_found(v, dir, name, flags, size, mtime);
    if v.free.len() > 0 {
        assert(v.free[v.free.len() - 1] < v.slots.len());
    }
    let x = w.remove_entry(id);
    keeps::lemma_set_dead(w.slots[id as int].flags);
    law_find_is_exact(v, 0, dir, kept);
    law_find_is_exact(x, 0, dir, kept);
    match x.find(dir, kept) {
        Some(i) => {
            assert(i != id);
            assert(x.slots[i as int] == v.slots[i as int]);
            assert(v.is_live(i as int) && v.slots[i as int].dir == dir);
        },
        None => {},
    }
}

} // verus!
