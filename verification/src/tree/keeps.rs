//! Every operation on the index keeps it well formed.

use vstd::prelude::*;

use crate::arena;
use crate::model;
use crate::tree::{DirView, IndexView, SlotView, NO_DIR};

verus! {

pub(crate) proof fn lemma_dead_count_update(slots: Seq<SlotView>, i: int, s: SlotView)
    requires
        0 <= i < slots.len(),
    ensures
        crate::tree::dead_count(slots.update(i, s)) + (if model::has_dead_bit(slots[i].flags) {
            1nat
        } else {
            0nat
        }) == crate::tree::dead_count(slots) + (if model::has_dead_bit(s.flags) {
            1nat
        } else {
            0nat
        }),
    decreases slots.len(),
{
    let u = slots.update(i, s);
    if i == slots.len() - 1 {
        assert(u.drop_last() =~= slots.drop_last());
    } else {
        assert(u.drop_last() =~= slots.drop_last().update(i, s));
        lemma_dead_count_update(slots.drop_last(), i, s);
    }
}

pub(crate) proof fn lemma_dead_count_push(slots: Seq<SlotView>, s: SlotView)
    ensures
        crate::tree::dead_count(slots.push(s)) == crate::tree::dead_count(slots) + (
        if model::has_dead_bit(s.flags) {
            1nat
        } else {
            0nat
        }),
{
    assert(slots.push(s).drop_last() =~= slots);
}

pub(crate) proof fn lemma_dead_count_bounds(slots: Seq<SlotView>)
    ensures
        crate::tree::dead_count(slots) <= slots.len(),
        forall|i: int|
            0 <= i < slots.len() && model::has_dead_bit(#[trigger] slots[i].flags)
                ==> crate::tree::dead_count(slots) > 0,
    decreases slots.len(),
{
    if slots.len() > 0 {
        lemma_dead_count_bounds(slots.drop_last());
        assert forall|i: int| 0 <= i < slots.len() && model::has_dead_bit(#[trigger] slots[i].flags) implies
            crate::tree::dead_count(slots) > 0 by {
            if i < slots.len() - 1 {
                assert(slots.drop_last()[i] == slots[i]);
                assert(model::has_dead_bit(slots.drop_last()[i].flags));
            }
        }
    }
}

pub(crate) proof fn lemma_slot_bytes_update(slots: Seq<SlotView>, i: int, s: SlotView)
    requires
        0 <= i < slots.len(),
    ensures
        crate::tree::slot_bytes(slots.update(i, s)) + slots[i].name.len() == crate::tree::slot_bytes(slots)
            + s.name.len(),
    decreases slots.len(),
{
    let u = slots.update(i, s);
    if i == slots.len() - 1 {
        assert(u.drop_last() =~= slots.drop_last());
    } else {
        assert(u.drop_last() =~= slots.drop_last().update(i, s));
        lemma_slot_bytes_update(slots.drop_last(), i, s);
    }
}

proof fn lemma_dir_bytes_same(a: Seq<DirView>, b: Seq<DirView>)
    requires
        a.len() == b.len(),
        forall|i: int| 0 <= i < a.len() ==> (#[trigger] a[i]).name == b[i].name,
    ensures
        crate::tree::dir_bytes(a) == crate::tree::dir_bytes(b),
    decreases a.len(),
{
    if a.len() > 0 {
        assert forall|i: int| 0 <= i < a.len() - 1 implies (#[trigger] a.drop_last()[i]).name
            == b.drop_last()[i].name by {
            assert(a[i].name == b[i].name);
        }
        lemma_dir_bytes_same(a.drop_last(), b.drop_last());
        assert(a[a.len() - 1].name == b[b.len() - 1].name);
    }
}

/// Adding a directory keeps the index well formed.
pub proof fn law_add_dir_keeps_wf(v: IndexView, parent: u32, name: Seq<u8>)
    requires
        v.wf(),
        v.dirs.len() < u32::MAX,
        parent == NO_DIR || parent < v.dirs.len(),
    ensures
        v.add_dir(parent, name).wf(),
{
    let w = v.add_dir(parent, name);
    let n = v.dirs.len() as int;
    assert(w.dirs.drop_last().len() == n);
    assert forall|i: int| 0 <= i < n implies (#[trigger] w.dirs.drop_last()[i]).name == v.dirs[i].name by {}
    lemma_dir_bytes_same(w.dirs.drop_last(), v.dirs);
    assert forall|d: int| 0 <= d < w.dirs.len() implies #[trigger] w.dir_wf(d) by {
        if d < n {
            assert(v.dir_wf(d));
            let list = w.dirs[d].children;
            let old_list = v.dirs[d].children;
            assert forall|i: int| 0 <= i < list.len() implies (#[trigger] list[i]) < w.dirs.len()
                && w.dirs[list[i] as int].parent == d as u32 by {
                if i < old_list.len() {
                    assert(list[i] == old_list[i]);
                }
            }
        }
    }
    assert(w.siblings(w.roots, NO_DIR)) by {
        assert forall|i: int| 0 <= i < w.roots.len() implies (#[trigger] w.roots[i]) < w.dirs.len()
            && w.dirs[w.roots[i] as int].parent == NO_DIR by {
            if i < v.roots.len() {
                assert(w.roots[i] == v.roots[i]);
            }
        }
    }
    assert forall|i: int| 0 <= i < w.slots.len() implies #[trigger] w.slot_wf(i) by {
        assert(v.slot_wf(i));
    }
    assert forall|k: int| 0 <= k < w.free.len() implies (#[trigger] w.free[k]) < w.slots.len() && w.is_dead(
        w.free[k] as int,
    ) by {
        assert(v.is_dead(v.free[k] as int));
    }
}

/// Inserting an entry keeps the index well formed.
pub proof fn law_push_entry_keeps_wf(v: IndexView, dir: u32, name: Seq<u8>, flags: u8, size: u64, mtime: i64)
    requires
        v.wf(),
        !model::has_dead_bit(flags),
        v.free.len() > 0 || v.slots.len() < u32::MAX,
    ensures
        v.push_entry(dir, name, flags, size, mtime).wf(),
{
    let w = v.push_entry(dir, name, flags, size, mtime);
    assert forall|d: int| 0 <= d < w.dirs.len() implies #[trigger] w.dir_wf(d) by {
        assert(v.dir_wf(d));
    }
    if v.free.len() > 0 {
        let at = v.free.last() as int;
        assert(v.free[v.free.len() - 1] == at);
        lemma_slot_bytes_update(v.slots, at, w.slots[at]);
        assert forall|i: int| 0 <= i < w.slots.len() implies #[trigger] w.slot_wf(i) by {
            assert(v.slot_wf(i));
        }
        assert forall|k: int| 0 <= k < w.free.len() implies (#[trigger] w.free[k]) < w.slots.len() && w.is_dead(
            w.free[k] as int,
        ) by {
            assert(v.free[k] == w.free[k]);
            assert(v.free[k] != v.free[v.free.len() - 1]);
            assert(v.is_dead(v.free[k] as int));
        }
        assert(w.free.no_duplicates());
    } else {
        assert(w.slots.drop_last() =~= v.slots);
        assert forall|i: int| 0 <= i < w.slots.len() implies #[trigger] w.slot_wf(i) by {
            if i < v.slots.len() {
                assert(v.slot_wf(i));
            }
        }
    }
}

/// Appending a hole keeps the index well formed.
pub proof fn law_push_hole_keeps_wf(v: IndexView)
    requires
        v.wf(),
        v.slots.len() < u32::MAX,
    ensures
        v.push_hole().wf(),
{
    let w = v.push_hole();
    assert(model::has_dead_bit(model::flags::DEAD)) by {
        assert(4u8 & 4u8 != 0) by (bit_vector);
    }
    assert(w.slots.drop_last() =~= v.slots);
    assert forall|d: int| 0 <= d < w.dirs.len() implies #[trigger] w.dir_wf(d) by {
        assert(v.dir_wf(d));
    }
    assert forall|i: int| 0 <= i < w.slots.len() implies #[trigger] w.slot_wf(i) by {
        if i < v.slots.len() {
            assert(v.slot_wf(i));
        }
    }
    assert forall|k: int| 0 <= k < w.free.len() implies (#[trigger] w.free[k]) < w.slots.len() && w.is_dead(
        w.free[k] as int,
    ) by {
        assert(v.is_dead(v.free[k] as int));
    }
}

/// Changing a slot's size and time keeps the index well formed.
pub proof fn law_update_entry_keeps_wf(v: IndexView, id: u32, size: u64, mtime: i64)
    requires
        v.wf(),
        id < v.slots.len(),
    ensures
        v.update_entry(id, size, mtime).wf(),
{
    let w = v.update_entry(id, size, mtime);
    lemma_slot_bytes_update(v.slots, id as int, w.slots[id as int]);
    assert forall|d: int| 0 <= d < w.dirs.len() implies #[trigger] w.dir_wf(d) by {
        assert(v.dir_wf(d));
    }
    assert forall|i: int| 0 <= i < w.slots.len() implies #[trigger] w.slot_wf(i) by {
        assert(v.slot_wf(i));
    }
    assert forall|k: int| 0 <= k < w.free.len() implies (#[trigger] w.free[k]) < w.slots.len() && w.is_dead(
        w.free[k] as int,
    ) by {
        assert(v.is_dead(v.free[k] as int));
    }
}

/// Setting the tombstone bit sets it and leaves the other bits.
pub(crate) proof fn lemma_set_dead(f: u8)
    ensures
        model::has_dead_bit(f | model::flags::DEAD),
{
    assert((f | 4u8) & 4u8 != 0) by (bit_vector);
}

/// Tombstoning an entry keeps the index well formed.
pub proof fn law_remove_entry_keeps_wf(v: IndexView, id: u32)
    requires
        v.wf(),
        id < v.slots.len(),
    ensures
        v.remove_entry(id).wf(),
{
    let w = v.remove_entry(id);
    if !model::has_dead_bit(v.slots[id as int].flags) {
        lemma_set_dead(v.slots[id as int].flags);
        lemma_slot_bytes_update(v.slots, id as int, w.slots[id as int]);
        assert forall|d: int| 0 <= d < w.dirs.len() implies #[trigger] w.dir_wf(d) by {
            assert(v.dir_wf(d));
        }
        assert forall|i: int| 0 <= i < w.slots.len() implies #[trigger] w.slot_wf(i) by {
            assert(v.slot_wf(i));
        }
        assert forall|k: int| 0 <= k < w.free.len() implies (#[trigger] w.free[k]) < w.slots.len() && w.is_dead(
            w.free[k] as int,
        ) by {
            if k < v.free.len() {
                assert(w.free[k] == v.free[k]);
                assert(v.is_dead(v.free[k] as int));
            }
        }
        assert forall|i: int, j: int| 0 <= i < w.free.len() && 0 <= j < w.free.len() && i != j implies w.free[i]
            != w.free[j] by {
            if i < v.free.len() && j < v.free.len() {
                assert(v.free[i] != v.free[j]);
            } else if i < v.free.len() {
                assert(v.is_dead(v.free[i] as int));
            } else {
                assert(v.is_dead(v.free[j] as int));
            }
        }
    }
}

/// Removing ids that are slots of the index keeps it well formed.
pub(crate) proof fn lemma_remove_all_keeps_wf(v: IndexView, ids: Seq<u32>)
    requires
        v.wf(),
        forall|k: int| 0 <= k < ids.len() ==> (#[trigger] ids[k]) < v.slots.len(),
    ensures
        v.remove_all(ids).wf(),
        v.remove_all(ids).slots.len() == v.slots.len(),
        v.remove_all(ids).dirs == v.dirs,
        v.remove_all(ids).roots == v.roots,
        v.remove_all(ids).name_bytes == v.name_bytes,
        v.remove_all(ids).dir_name_bytes == v.dir_name_bytes,
    decreases ids.len(),
{
    if ids.len() > 0 {
        assert forall|k: int| 0 <= k < ids.drop_last().len() implies (#[trigger] ids.drop_last()[k])
            < v.slots.len() by {
            assert(ids[k] == ids.drop_last()[k]);
        }
        lemma_remove_all_keeps_wf(v, ids.drop_last());
        assert(ids[ids.len() - 1] < v.slots.len());
        law_remove_entry_keeps_wf(v.remove_all(ids.drop_last()), ids.last());
    }
}

/// Taking elements out of an ascending list leaves an ascending list of elements
/// that were in it.
pub(crate) proof fn lemma_filter_list(list: Seq<u32>, d: u32)
    requires
        forall|i: int, j: int| 0 <= i < j < list.len() ==> list[i] < list[j],
    ensures
        ({
            let kept = crate::tree::without(list, d);
            &&& forall|i: int, j: int| 0 <= i < j < kept.len() ==> kept[i] < kept[j]
            &&& forall|i: int| 0 <= i < kept.len() ==> list.contains(#[trigger] kept[i]) && kept[i] != d
            &&& forall|x: u32| list.contains(x) && x != d ==> kept.contains(x)
        }),
    decreases list.len(),
{
    reveal(Seq::filter);
    let kept = crate::tree::without(list, d);
    if list.len() > 0 {
        let rest = list.drop_last();
        assert forall|i: int, j: int| 0 <= i < j < rest.len() implies rest[i] < rest[j] by {
            assert(list[i] < list[j]);
        }
        lemma_filter_list(rest, d);
        let shorter = crate::tree::without(rest, d);
        assert forall|i: int| 0 <= i < kept.len() implies list.contains(#[trigger] kept[i]) && kept[i] != d by {
            if i < shorter.len() {
                assert(kept[i] == shorter[i]);
                let k = choose|k: int| 0 <= k < rest.len() && rest[k] == shorter[i];
                assert(list[k] == kept[i]);
            } else {
                assert(list[list.len() - 1] == kept[i]);
            }
        }
        assert forall|i: int, j: int| 0 <= i < j < kept.len() implies kept[i] < kept[j] by {
            if j < shorter.len() {
                assert(kept[i] == shorter[i] && kept[j] == shorter[j]);
            } else {
                assert(kept[i] == shorter[i]);
                let k = choose|k: int| 0 <= k < rest.len() && rest[k] == shorter[i];
                assert(list[k] < list[list.len() - 1]);
            }
        }
        assert forall|x: u32| list.contains(x) && x != d implies kept.contains(x) by {
            let k = choose|k: int| 0 <= k < list.len() && list[k] == x;
            if k < rest.len() {
                assert(rest[k] == x);
                assert(rest.contains(x));
                let m = choose|m: int| 0 <= m < shorter.len() && shorter[m] == x;
                assert(kept[m] == x);
            } else {
                assert(kept[kept.len() - 1] == x);
            }
        }
    }
}

/// Taking a directory out of its parent's list keeps the index well formed.
pub proof fn law_detach_keeps_wf(v: IndexView, d: u32)
    requires
        v.wf(),
        v.is_dir(d),
    ensures
        v.detach(d).wf(),
{
    let w = v.detach(d);
    assert(v.dir_wf(d as int));
    let p = v.dirs[d as int].parent;
    assert(forall|i: int| 0 <= i < v.dirs.len() ==> (#[trigger] w.dirs[i]).name == v.dirs[i].name);
    lemma_dir_bytes_same(w.dirs, v.dirs);
    if p == NO_DIR {
        lemma_filter_list(v.roots, d);
    } else {
        assert(v.dir_wf(p as int));
        lemma_filter_list(v.dirs[p as int].children, d);
    }
    assert forall|x: int| 0 <= x < w.dirs.len() implies #[trigger] w.dir_wf(x) by {
        assert(v.dir_wf(x));
        let list = w.dirs[x].children;
        let old_list = v.dirs[x].children;
        assert forall|i: int| 0 <= i < list.len() implies (#[trigger] list[i]) < w.dirs.len()
            && w.dirs[list[i] as int].parent == x as u32 by {
            if x != p {
                assert(list[i] == old_list[i]);
            }
            assert(old_list.contains(list[i]));
        }
    }
    assert forall|i: int| 0 <= i < w.roots.len() implies (#[trigger] w.roots[i]) < w.dirs.len()
        && w.dirs[w.roots[i] as int].parent == NO_DIR by {
        if p != NO_DIR {
            assert(w.roots[i] == v.roots[i]);
        }
        assert(v.roots.contains(w.roots[i]));
    }
    assert forall|i: int| 0 <= i < w.slots.len() implies #[trigger] w.slot_wf(i) by {
        assert(v.slot_wf(i));
    }
    assert forall|k: int| 0 <= k < w.free.len() implies (#[trigger] w.free[k]) < w.slots.len() && w.is_dead(
        w.free[k] as int,
    ) by {
        assert(v.is_dead(v.free[k] as int));
    }
}

/// The entries found in a set of directories are live slots, ascending.
pub(crate) proof fn lemma_live_in(v: IndexView, set: Set<u32>, n: int)
    requires
        0 <= n <= v.slots.len() <= u32::MAX,
    ensures
        ({
            let ids = v.live_in(set, n);
            &&& forall|k: int| 0 <= k < ids.len() ==> (#[trigger] ids[k]) < n && v.is_live(ids[k] as int)
                && set.contains(v.slots[ids[k] as int].dir)
            &&& forall|i: int, j: int| 0 <= i < j < ids.len() ==> ids[i] < ids[j]
        }),
    decreases n,
{
    if n > 0 {
        lemma_live_in(v, set, n - 1);
        let before = v.live_in(set, n - 1);
        let ids = v.live_in(set, n);
        assert forall|k: int| 0 <= k < ids.len() implies (#[trigger] ids[k]) < n && v.is_live(ids[k] as int)
            && set.contains(v.slots[ids[k] as int].dir) by {
            if k < before.len() {
                assert(ids[k] == before[k]);
            }
        }
        assert forall|i: int, j: int| 0 <= i < j < ids.len() implies ids[i] < ids[j] by {
            assert(ids[i] == before[i]);
            if j < before.len() {
                assert(ids[j] == before[j]);
            }
        }
    }
}

/// Removing a subtree keeps the index well formed.
pub proof fn law_remove_subtree_keeps_wf(v: IndexView, top: u32)
    requires
        v.wf(),
        v.is_dir(top),
    ensures
        v.remove_subtree(top).wf(),
{
    law_detach_keeps_wf(v, top);
    lemma_live_in(v, v.subtree(top), v.slots.len() as int);
    lemma_remove_all_keeps_wf(v.detach(top), v.subtree_entries(top));
}

/// Slots that were not removed are as they were.
pub(crate) proof fn lemma_remove_all_others(v: IndexView, ids: Seq<u32>, i: int)
    requires
        0 <= i < v.slots.len(),
        forall|k: int| 0 <= k < ids.len() ==> #[trigger] ids[k] != i && ids[k] < v.slots.len(),
    ensures
        v.remove_all(ids).slots.len() == v.slots.len(),
        v.remove_all(ids).slots[i] == v.slots[i],
    decreases ids.len(),
{
    if ids.len() > 0 {
        assert forall|k: int| 0 <= k < ids.drop_last().len() implies #[trigger] ids.drop_last()[k] != i
            && ids.drop_last()[k] < v.slots.len() by {
            assert(ids[k] == ids.drop_last()[k]);
        }
        assert(ids[ids.len() - 1] != i && ids[ids.len() - 1] < v.slots.len());
        lemma_remove_all_others(v, ids.drop_last(), i);
    }
}

} // verus!
