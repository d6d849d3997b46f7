//! What holds of an index over a row of changes.

use vstd::prelude::*;

use crate::arena;
use crate::model;
use crate::tree;
use crate::tree::keeps;
use crate::tree::paths;
use crate::tree::removal;
use crate::tree::IndexView;

verus! {

/// A change of an index that renumbers nothing.
pub enum Call {
    AddDir { parent: u32, name: Seq<u8> },
    Push { dir: u32, name: Seq<u8>, flags: u8, size: u64, mtime: i64 },
    Hole,
    Update { id: u32, size: u64, mtime: i64 },
    Remove { id: u32 },
    RemoveSubtree { top: u32 },
}

impl Call {
    /// The change can be made.
    pub open spec fn can_be_made(self, v: IndexView) -> bool {
        match self {
            Call::AddDir { parent, name } => paths::is_place(v, parent) && v.dirs.len() < u32::MAX,
            Call::Push { dir, name, flags, size, mtime } => !model::has_dead_bit(flags) && v.slots.len() < u32::MAX,
            Call::Hole => v.slots.len() < u32::MAX,
            Call::Update { id, size, mtime } => id < v.slots.len(),
            Call::Remove { id } => id < v.slots.len(),
            Call::RemoveSubtree { top } => v.is_dir(top),
        }
    }

    /// The index after the change.
    pub open spec fn made(self, v: IndexView) -> IndexView {
        match self {
            Call::AddDir { parent, name } => v.add_dir(parent, name),
            Call::Push { dir, name, flags, size, mtime } => v.push_entry(dir, name, flags, size, mtime),
            Call::Hole => v.push_hole(),
            Call::Update { id, size, mtime } => v.update_entry(id, size, mtime),
            Call::Remove { id } => v.remove_entry(id),
            Call::RemoveSubtree { top } => v.remove_subtree(top),
        }
    }

    /// The slot that the change hands out.
    pub open spec fn hands_out(self, v: IndexView) -> Option<u32> {
        match self {
            Call::Push { .. } => Some(v.next_slot()),
            Call::Hole => Some(v.slots.len() as u32),
            _ => None,
        }
    }
}

/// The index after some changes.
pub open spec fn after(v: IndexView, calls: Seq<Call>) -> IndexView
    decreases calls.len(),
{
    if calls.len() == 0 {
        v
    } else {
        calls.last().made(after(v, calls.drop_last()))
    }
}

/// Each of the changes can be made when its turn comes.
pub open spec fn can_all_be_made(v: IndexView, calls: Seq<Call>) -> bool
    decreases calls.len(),
{
    calls.len() == 0 || can_all_be_made(v, calls.drop_last()) && calls.last().can_be_made(
        after(v, calls.drop_last()),
    )
}

/// None of the changes hands out the slot.
pub open spec fn never_hand_out(v: IndexView, calls: Seq<Call>, id: u32) -> bool
    decreases calls.len(),
{
    calls.len() == 0 || never_hand_out(v, calls.drop_last(), id) && calls.last().hands_out(
        after(v, calls.drop_last()),
    ) != Some(id)
}

/// The live entries.
pub open spec fn live_count(v: IndexView) -> int {
    v.slots.len() - tree::dead_count(v.slots)
}

/// A tombstone that no insertion takes.
pub open spec fn is_hole(v: IndexView, id: u32) -> bool {
    id < v.slots.len() && v.is_dead(id as int) && !v.free.contains(id)
}

/// What removing some slots puts on the free list.
proof fn lemma_freed(v: IndexView, ids: Seq<u32>, i: u32)
    requires
        v.remove_all(ids).free.contains(i),
        forall|k: int| 0 <= k < ids.len() ==> #[trigger] ids[k] != i,
    ensures
        v.free.contains(i),
    decreases ids.len(),
{
    if ids.len() > 0 {
        let b = v.remove_all(ids.drop_last());
        let w = v.remove_all(ids);
        assert(ids[ids.len() - 1] != i);
        let k = choose|k: int| 0 <= k < w.free.len() && w.free[k] == i;
        assert(k < b.free.len() && b.free[k] == i);
        assert forall|k: int| 0 <= k < ids.drop_last().len() implies #[trigger] ids.drop_last()[k] != i by {
            assert(ids.drop_last()[k] == ids[k]);
        }
        lemma_freed(v, ids.drop_last(), i);
    }
}

/// What one change does to the slots that it does not hand out.
proof fn lemma_call(v: IndexView, call: Call, id: u32)
    requires
        v.wf(),
        call.can_be_made(v),
        id < v.slots.len(),
    ensures
        ({
            let w = call.made(v);
            &&& w.wf()
            &&& w.slots.len() >= v.slots.len()
            &&& call.hands_out(v) != Some(id) ==> w.slots[id as int].name == v.slots[id as int].name
            &&& is_hole(v, id) ==> call.hands_out(v) != Some(id) && is_hole(w, id)
        }),
{
    let w = call.made(v);
    match call {
        Call::AddDir { parent, name } => {
            keeps::law_add_dir_keeps_wf(v, parent, name);
        },
        Call::Push { dir, name, flags, size, mtime } => {
            keeps::law_push_entry_keeps_wf(v, dir, name, flags, size, mtime);
            if v.free.len() > 0 {
                assert(v.free.contains(v.free[v.free.len() - 1]));
                assert(v.free[v.free.len() - 1] < v.slots.len());
                if w.free.contains(id) {
                    let k = choose|k: int| 0 <= k < w.free.len() && w.free[k] == id;
                    assert(v.free[k] == id);
                }
            }
        },
        Call::Hole => {
            keeps::law_push_hole_keeps_wf(v);
        },
        Call::Update { id, size, mtime } => {
            keeps::law_update_entry_keeps_wf(v, id, size, mtime);
        },
        Call::Remove { id: gone } => {
            keeps::law_remove_entry_keeps_wf(v, gone);
            keeps::lemma_set_dead(v.slots[gone as int].flags);
            if is_hole(v, id) && w.free.contains(id) {
                let k = choose|k: int| 0 <= k < w.free.len() && w.free[k] == id;
                if k < v.free.len() {
                    assert(v.free[k] == id);
                }
            }
        },
        Call::RemoveSubtree { top } => {
            keeps::law_remove_subtree_keeps_wf(v, top);
            keeps::lemma_live_in(v, v.subtree(top), v.slots.len() as int);
            let base = v.detach(top);
            let ids = v.subtree_entries(top);
            lemma_name_after_removal(base, ids, id as int);
            if is_hole(v, id) {
                removal::law_remove_subtree_removes_exactly(v, top, id as int);
                assert forall|k: int| 0 <= k < ids.len() implies #[trigger] ids[k] != id by {
                    assert(v.is_live(ids[k] as int));
                }
                if w.free.contains(id) {
                    lemma_freed(base, ids, id);
                }
            }
        },
    }
}

proof fn lemma_name_after_removal(v: IndexView, ids: Seq<u32>, i: int)
    requires
        0 <= i < v.slots.len(),
        forall|k: int| 0 <= k < ids.len() ==> (#[trigger] ids[k]) < v.slots.len(),
    ensures
        v.remove_all(ids).slots.len() == v.slots.len(),
        v.remove_all(ids).slots[i].name == v.slots[i].name,
    decreases ids.len(),
{
    if ids.len() > 0 {
        assert forall|k: int| 0 <= k < ids.drop_last().len() implies (#[trigger] ids.drop_last()[k])
            < v.slots.len() by {
            assert(ids[k] == ids.drop_last()[k]);
        }
        assert(ids[ids.len() - 1] < v.slots.len());
        lemma_name_after_removal(v, ids.drop_last(), i);
    }
}

/// Changes that can be made keep the index well formed and take no slot away.
pub proof fn law_changes_keep_wf(v: IndexView, calls: Seq<Call>)
    requires
        v.wf(),
        can_all_be_made(v, calls),
    ensures
        after(v, calls).wf(),
        after(v, calls).slots.len() >= v.slots.len(),
    decreases calls.len(),
{
    if calls.len() > 0 {
        let b = after(v, calls.drop_last());
        law_changes_keep_wf(v, calls.drop_last());
        let call = calls.last();
        match call {
            Call::AddDir { parent, name } => {
                keeps::law_add_dir_keeps_wf(b, parent, name);
            },
            Call::Push { dir, name, flags, size, mtime } => {
                keeps::law_push_entry_keeps_wf(b, dir, name, flags, size, mtime);
            },
            Call::Hole => {
                keeps::law_push_hole_keeps_wf(b);
            },
            Call::Update { id, size, mtime } => {
                keeps::law_update_entry_keeps_wf(b, id, size, mtime);
            },
            Call::Remove { id } => {
                keeps::law_remove_entry_keeps_wf(b, id);
            },
            Call::RemoveSubtree { top } => {
                keeps::law_remove_subtree_keeps_wf(b, top);
                keeps::lemma_live_in(b, b.subtree(top), b.slots.len() as int);
                keeps::law_detach_keeps_wf(b, top);
                keeps::lemma_remove_all_keeps_wf(b.detach(top), b.subtree_entries(top));
            },
        }
    }
}

/// The name of a slot stays under every row of changes that does not hand the slot
/// out, also while it is tombstoned.
pub proof fn law_name_stays(v: IndexView, calls: Seq<Call>, id: u32)
    requires
        v.wf(),
        id < v.slots.len(),
        can_all_be_made(v, calls),
        never_hand_out(v, calls, id),
    ensures
        after(v, calls).slots[id as int].name == v.slots[id as int].name,
    decreases calls.len(),
{
    if calls.len() > 0 {
        law_name_stays(v, calls.drop_last(), id);
        law_changes_keep_wf(v, calls.drop_last());
        lemma_call(after(v, calls.drop_last()), calls.last(), id);
    }
}

/// An inserted entry keeps what was kept of its name until its slot is handed out
/// again.
pub proof fn law_inserted_name_stays(
    v: IndexView,
    dir: u32,
    name: Seq<u8>,
    flags: u8,
    size: u64,
    mtime: i64,
    calls: Seq<Call>,
)
    requires
        v.wf(),
        (Call::Push { dir, name, flags, size, mtime }).can_be_made(v),
        can_all_be_made(v.push_entry(dir, name, flags, size, mtime), calls),
        never_hand_out(v.push_entry(dir, name, flags, size, mtime), calls, v.next_slot()),
    ensures
        after(v.push_entry(dir, name, flags, size, mtime), calls).slots[v.next_slot() as int].name
            == arena::kept_name(name),
{
    let w = v.push_entry(dir, name, flags, size, mtime);
    keeps::law_push_entry_keeps_wf(v, dir, name, flags, size, mtime);
    if v.free.len() > 0 {
        assert(v.free[v.free.len() - 1] < v.slots.len());
    }
    law_name_stays(w, calls, v.next_slot());
}

/// A hole stays a hole: no row of changes hands it out.
pub proof fn law_hole_is_never_handed_out(v: IndexView, calls: Seq<Call>, id: u32)
    requires
        v.wf(),
        is_hole(v, id),
        can_all_be_made(v, calls),
    ensures
        never_hand_out(v, calls, id),
        is_hole(after(v, calls), id),
    decreases calls.len(),
{
    if calls.len() > 0 {
        law_hole_is_never_handed_out(v, calls.drop_last(), id);
        law_changes_keep_wf(v, calls.drop_last());
        lemma_call(after(v, calls.drop_last()), calls.last(), id);
    }
}

/// An appended hole is the last slot, and a hole. It leaves the other slots alone,
/// and with no removed entry waiting the next insertion takes the slot behind it.
pub proof fn law_appended_hole(v: IndexView)
    requires
        v.wf(),
        v.slots.len() < u32::MAX,
    ensures
        ({
            let w = v.push_hole();
            let id = v.slots.len() as u32;
            &&& is_hole(w, id)
            &&& w.slots.len() == v.slots.len() + 1
            &&& tree::dead_count(w.slots) == tree::dead_count(v.slots) + 1
            &&& live_count(w) == live_count(v)
            &&& forall|i: int| 0 <= i < v.slots.len() ==> #[trigger] w.slots[i] == v.slots[i]
            &&& v.free.len() == 0 && v.slots.len() + 1 < u32::MAX ==> w.next_slot() == id + 1
        }),
{
    let w = v.push_hole();
    let id = v.slots.len() as u32;
    keeps::lemma_dead_count_push(v.slots, w.slots.last());
    assert(model::has_dead_bit(model::flags::DEAD)) by {
        assert(4u8 & 4u8 != 0) by (bit_vector);
    }
    if w.free.contains(id) {
        let k = choose|k: int| 0 <= k < v.free.len() && v.free[k] == id;
        assert(v.free[k] < v.slots.len());
    }
}

/// Every slot is live or dead, and of the changes an insertion alone adds a live
/// entry, and a removal takes away those that it removes and no others.
pub proof fn law_live_entries_are_counted(v: IndexView, call: Call)
    requires
        v.wf(),
        call.can_be_made(v),
    ensures
        0 <= live_count(v) <= v.slots.len(),
        live_count(call.made(v)) == live_count(v) + (match call {
            Call::Push { .. } => 1int,
            Call::Remove { id } => if v.is_live(id as int) {
                -1int
            } else {
                0int
            },
            Call::RemoveSubtree { top } => -(v.subtree_entries(top).len() as int),
            _ => 0int,
        }),
{
    let w = call.made(v);
    keeps::lemma_dead_count_bounds(v.slots);
    match call {
        Call::AddDir { .. } => {},
        Call::Push { dir, name, flags, size, mtime } => {
            if v.free.len() > 0 {
                let at = v.free[v.free.len() - 1] as int;
                assert(at < v.slots.len() && v.is_dead(at));
                keeps::lemma_dead_count_update(v.slots, at, w.slots[at]);
            } else {
                keeps::lemma_dead_count_push(v.slots, w.slots.last());
            }
        },
        Call::Hole => {
            law_appended_hole(v);
        },
        Call::Update { id, size, mtime } => {
            keeps::lemma_dead_count_update(v.slots, id as int, w.slots[id as int]);
        },
        Call::Remove { id } => {
            lemma_removed_count(v, id);
        },
        Call::RemoveSubtree { top } => {
            keeps::lemma_live_in(v, v.subtree(top), v.slots.len() as int);
            let ids = v.subtree_entries(top);
            let base = v.detach(top);
            assert forall|k: int| 0 <= k < ids.len() implies (#[trigger] ids[k]) < base.slots.len() && base.is_live(
                ids[k] as int,
            ) by {
                assert(v.is_live(ids[k] as int));
            }
            lemma_all_removed_count(base, ids);
        },
    }
}

proof fn lemma_removed_count(v: IndexView, id: u32)
    requires
        id < v.slots.len(),
    ensures
        live_count(v.remove_entry(id)) == live_count(v) - if v.is_live(id as int) {
            1int
        } else {
            0int
        },
{
    keeps::lemma_set_dead(v.slots[id as int].flags);
    if v.is_live(id as int) {
        keeps::lemma_dead_count_update(v.slots, id as int, v.remove_entry(id).slots[id as int]);
    }
}

proof fn lemma_all_removed_count(v: IndexView, ids: Seq<u32>)
    requires
        forall|i: int, j: int| 0 <= i < j < ids.len() ==> ids[i] < ids[j],
        forall|k: int| 0 <= k < ids.len() ==> (#[trigger] ids[k]) < v.slots.len() && v.is_live(ids[k] as int),
    ensures
        live_count(v.remove_all(ids)) == live_count(v) - ids.len(),
    decreases ids.len(),
{
    if ids.len() > 0 {
        let some = ids.drop_last();
        assert forall|k: int| 0 <= k < some.len() implies (#[trigger] some[k]) < v.slots.len() && v.is_live(
            some[k] as int,
        ) && some[k] != ids.last() by {
            assert(some[k] == ids[k]);
        }
        lemma_all_removed_count(v, some);
        assert(ids[ids.len() - 1] < v.slots.len());
        keeps::lemma_remove_all_others(v, some, ids.last() as int);
        lemma_removed_count(v.remove_all(some), ids.last());
    }
}

} // verus!
