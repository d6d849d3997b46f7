//! Compaction keeps what the index holds: every live entry of an attached
//! directory, at its path, with its attributes, in the same order.

use vstd::prelude::*;

use crate::arena;
use crate::model;
use crate::tree::keeps;
use crate::tree::order;
use crate::tree::{DirView, IndexView, SlotView, NO_DIR};

verus! {

/// The bytes of the names of some directories.
pub open spec fn named_bytes(dirs: Seq<DirView>, ids: Seq<u32>) -> nat
    decreases ids.len(),
{
    if ids.len() == 0 {
        0
    } else {
        named_bytes(dirs, ids.drop_last()) + dirs[ids.last() as int].name.len()
    }
}

proof fn lemma_named_bytes_remove(dirs: Seq<DirView>, ids: Seq<u32>, p: int)
    requires
        0 <= p < ids.len(),
    ensures
        named_bytes(dirs, ids) == named_bytes(dirs, ids.remove(p)) + dirs[ids[p] as int].name.len(),
    decreases ids.len(),
{
    if p == ids.len() - 1 {
        assert(ids.remove(p) =~= ids.drop_last());
    } else {
        assert(ids.remove(p).drop_last() =~= ids.drop_last().remove(p));
        assert(ids.remove(p).last() == ids.last());
        lemma_named_bytes_remove(dirs, ids.drop_last(), p);
    }
}

proof fn lemma_named_bytes_prefix(dirs: Seq<DirView>, ids: Seq<u32>)
    requires
        dirs.len() > 0,
        forall|k: int| 0 <= k < ids.len() ==> (#[trigger] ids[k]) < dirs.len() - 1,
    ensures
        named_bytes(dirs, ids) == named_bytes(dirs.drop_last(), ids),
    decreases ids.len(),
{
    if ids.len() > 0 {
        assert(ids[ids.len() - 1] < dirs.len() - 1);
        assert forall|k: int| 0 <= k < ids.drop_last().len() implies (#[trigger] ids.drop_last()[k]) < dirs.len()
            - 1 by {
            assert(ids[k] == ids.drop_last()[k]);
        }
        lemma_named_bytes_prefix(dirs, ids.drop_last());
    }
}

/// Distinct directories' names are no longer than all names together.
proof fn lemma_named_bytes_bound(dirs: Seq<DirView>, ids: Seq<u32>)
    requires
        ids.no_duplicates(),
        forall|k: int| 0 <= k < ids.len() ==> (#[trigger] ids[k]) < dirs.len(),
    ensures
        named_bytes(dirs, ids) <= crate::tree::dir_bytes(dirs),
    decreases dirs.len(),
{
    if dirs.len() == 0 {
        if ids.len() > 0 {
            assert(ids[0] < 0);
        }
    } else {
        let m = (dirs.len() - 1) as int;
        if exists|p: int| 0 <= p < ids.len() && ids[p] == m {
            let p = choose|p: int| 0 <= p < ids.len() && ids[p] == m;
            let rest = ids.remove(p);
            lemma_named_bytes_remove(dirs, ids, p);
            assert forall|k: int| 0 <= k < rest.len() implies (#[trigger] rest[k]) < m by {
                if k < p {
                    assert(rest[k] == ids[k]);
                } else {
                    assert(rest[k] == ids[k + 1]);
                }
            }
            assert forall|i: int, j: int| 0 <= i < rest.len() && 0 <= j < rest.len() && i != j implies rest[i]
                != rest[j] by {
                let i2: int = if i < p {
                    i
                } else {
                    i + 1
                };
                let j2: int = if j < p {
                    j
                } else {
                    j + 1
                };
                assert(ids[i2] != ids[j2]);
            }
            lemma_named_bytes_prefix(dirs, rest);
            lemma_named_bytes_bound(dirs.drop_last(), rest);
        } else {
            assert forall|k: int| 0 <= k < ids.len() implies (#[trigger] ids[k]) < dirs.len() - 1 by {
                assert(ids[k] != m);
            }
            lemma_named_bytes_prefix(dirs, ids);
            lemma_named_bytes_bound(dirs.drop_last(), ids);
        }
    }
}

proof fn lemma_named_bytes_monotone(dirs: Seq<DirView>, ids: Seq<u32>, k: int)
    requires
        0 <= k <= ids.len(),
    ensures
        named_bytes(dirs, ids.subrange(0, k)) <= named_bytes(dirs, ids),
    decreases ids.len(),
{
    if k == ids.len() {
        assert(ids.subrange(0, k) =~= ids);
    } else {
        assert(ids.drop_last().subrange(0, k) =~= ids.subrange(0, k));
        lemma_named_bytes_monotone(dirs, ids.drop_last(), k);
    }
}

/// The place of an element in a list without duplicates.
pub(crate) proof fn lemma_moved(order: Seq<u32>, k: int)
    requires
        order.no_duplicates(),
        0 <= k < order.len() <= u32::MAX,
        order[k] != NO_DIR,
    ensures
        crate::tree::moved(order, order[k]) == k,
{
    assert(order.contains(order[k]));
    let i = order.index_of(order[k]);
    assert(0 <= i < order.len() && order[i] == order[k]);
}

/// Adding a directory leaves attached what was attached.
pub(crate) proof fn lemma_add_dir_attached(v: IndexView, parent: u32, name: Seq<u8>, x: u32)
    requires
        v.dirs_wf(),
        v.dirs.len() < u32::MAX,
        parent == NO_DIR || parent < v.dirs.len(),
        v.attached(x),
    ensures
        v.add_dir(parent, name).attached(x),
    decreases x,
{
    let w = v.add_dir(parent, name);
    let p = v.dirs[x as int].parent;
    assert(w.dirs[x as int].parent == p);
    if p == NO_DIR {
        let i = choose|i: int| 0 <= i < v.roots.len() && v.roots[i] == x;
        assert(w.roots[i] == x);
    } else {
        lemma_add_dir_attached(v, parent, name, p);
        let list = v.dirs[p as int].children;
        let i = choose|i: int| 0 <= i < list.len() && list[i] == x;
        assert(w.dirs[p as int].children[i] == x);
    }
}

/// What the replay of the first `k` directories holds.
pub open spec fn replayed(v: IndexView, order: Seq<u32>, k: int, w: IndexView) -> bool {
    &&& w.wf()
    &&& w.dirs.len() == k
    &&& w.slots.len() == 0
    &&& w.free.len() == 0
    &&& w.name_bytes == 0
    &&& w.dir_name_bytes == named_bytes(v.dirs, order.subrange(0, k))
    &&& w.dir_name_bytes <= v.dir_name_bytes
    &&& forall|j: int|
        0 <= j < k ==> (#[trigger] w.dirs[j]).name == v.dirs[order[j] as int].name && w.dirs[j].parent
            == crate::tree::moved(order, v.dirs[order[j] as int].parent) && w.attached(j as u32)
}

/// The parent of a directory of the forest comes before it.
pub(crate) proof fn lemma_parent_moved(v: IndexView, k: int)
    requires
        v.dirs_wf(),
        0 <= k < v.forest().len(),
    ensures
        ({
            let d = v.forest()[k];
            let p = crate::tree::moved(v.forest(), v.dirs[d as int].parent);
            &&& d < v.dirs.len()
            &&& p == NO_DIR <==> v.dirs[d as int].parent == NO_DIR
            &&& p == NO_DIR || p < k
        }),
{
    order::law_forest_order(v);
    let order = v.forest();
    let d = order[k];
    if v.dirs[d as int].parent != NO_DIR {
        let j = choose|j: int| 0 <= j < k && order[j] == v.dirs[d as int].parent;
        lemma_moved(order, j);
    }
}

pub(crate) proof fn lemma_replay_dirs(v: IndexView, k: int)
    requires
        v.dirs_wf(),
        0 <= k <= v.forest().len(),
    ensures
        replayed(v, v.forest(), k, v.replay_dirs(v.forest(), k as nat)),
    decreases k,
{
    let order = v.forest();
    order::law_forest_order(v);
    let w = v.replay_dirs(order, k as nat);
    lemma_named_bytes_bound(v.dirs, order);
    lemma_named_bytes_monotone(v.dirs, order, k);
    if k > 0 {
        lemma_replay_dirs(v, k - 1);
        lemma_parent_moved(v, k - 1);
        let b = v.replay_dirs(order, (k - 1) as nat);
        let d = order[k - 1];
        let node = v.dirs[d as int];
        let parent = crate::tree::moved(order, node.parent);
        assert(v.dir_wf(d as int));
        keeps::law_add_dir_keeps_wf(b, parent, node.name);
        assert(w == b.add_dir(parent, node.name));
        assert(order.subrange(0, k).drop_last() =~= order.subrange(0, k - 1));
        assert forall|j: int| 0 <= j < k implies (#[trigger] w.dirs[j]).name == v.dirs[order[j] as int].name
            && w.dirs[j].parent == crate::tree::moved(order, v.dirs[order[j] as int].parent) && w.attached(
            j as u32,
        ) by {
            if j < k - 1 {
                assert(b.dirs[j].name == w.dirs[j].name);
                lemma_add_dir_attached(b, parent, node.name, j as u32);
            } else if parent == NO_DIR {
                assert(w.roots[w.roots.len() - 1] == j);
                assert(w.attached(j as u32));
            } else {
                assert(b.dirs[parent as int].parent == w.dirs[parent as int].parent);
                lemma_add_dir_attached(b, parent, node.name, parent);
                let list = w.dirs[parent as int].children;
                assert(list[list.len() - 1] == j);
                assert(w.attached(j as u32));
            }
        }
    } else {
        assert(order.subrange(0, 0).len() == 0);
        assert(w.siblings(w.roots, NO_DIR));
    }
}

/// A directory keeps its path.
pub(crate) proof fn lemma_replay_path(v: IndexView, w: IndexView, j: int, out: Seq<u8>)
    requires
        v.dirs_wf(),
        0 <= j < v.forest().len(),
        w.dirs == v.replay_dirs(v.forest(), v.forest().len()).dirs,
    ensures
        w.append_dir_path(j as u32, out) == v.append_dir_path(v.forest()[j], out),
    decreases j,
{
    let order = v.forest();
    order::law_forest_order(v);
    lemma_replay_dirs(v, order.len() as int);
    lemma_parent_moved(v, j);
    let d = order[j];
    let p = v.dirs[d as int].parent;
    assert(v.dir_wf(d as int));
    assert(w.dirs[j].name == v.dirs[d as int].name);
    if p != NO_DIR {
        let i = crate::tree::moved(order, p);
        assert(order.contains(p));
        assert(order[order.index_of(p)] == p);
        assert(order[i as int] == p);
        lemma_replay_path(v, w, i as int, out);
    }
}

proof fn lemma_records_same(a: IndexView, b: IndexView, k: nat)
    requires
        a.dirs == b.dirs,
        a.roots == b.roots,
        k <= a.slots.len(),
        k <= b.slots.len(),
        forall|i: int| 0 <= i < k ==> #[trigger] a.slots[i] == b.slots[i],
    ensures
        a.records(k) == b.records(k),
    decreases k,
{
    if k > 0 {
        lemma_records_same(a, b, (k - 1) as nat);
        let s = a.slots[k - 1];
        assert(s == b.slots[k - 1]);
        lemma_attached_same(a, b, s.dir);
        lemma_path_same(a, b, s.dir, Seq::empty());
    }
}

proof fn lemma_attached_same(a: IndexView, b: IndexView, x: u32)
    requires
        a.dirs == b.dirs,
        a.roots == b.roots,
    ensures
        a.attached(x) == b.attached(x),
    decreases x,
{
    if x < a.dirs.len() && a.dirs[x as int].parent < x {
        lemma_attached_same(a, b, a.dirs[x as int].parent);
    }
}

proof fn lemma_path_same(a: IndexView, b: IndexView, d: u32, out: Seq<u8>)
    requires
        a.dirs == b.dirs,
    ensures
        a.append_dir_path(d, out) == b.append_dir_path(d, out),
    decreases d,
{
    if d < a.dirs.len() && a.dirs[d as int].parent < d {
        lemma_path_same(a, b, a.dirs[d as int].parent, out);
    }
}

/// What the replay of the first `k` slots holds.
pub open spec fn replayed_slots(v: IndexView, k: int, w: IndexView) -> bool {
    let base = v.replay_dirs(v.forest(), v.forest().len());
    &&& w.wf()
    &&& w.dirs == base.dirs
    &&& w.roots == base.roots
    &&& w.dir_name_bytes == base.dir_name_bytes
    &&& w.free.len() == 0
    &&& w.slots.len() <= k
    &&& w.name_bytes <= crate::tree::slot_bytes(v.slots.subrange(0, k))
    &&& crate::tree::dead_count(w.slots) == 0
    &&& forall|i: int| 0 <= i < w.slots.len() ==> !(#[trigger] w.is_dead(i))
    &&& w.records(w.slots.len()) == v.records(k as nat)
}

pub(crate) proof fn lemma_replay_slots(v: IndexView, k: int)
    requires
        v.wf(),
        0 <= k <= v.slots.len(),
    ensures
        replayed_slots(v, k, v.replay_slots(v.forest(), k as nat)),
    decreases k,
{
    let order = v.forest();
    order::law_forest_order(v);
    lemma_replay_dirs(v, order.len() as int);
    let w = v.replay_slots(order, k as nat);
    if k > 0 {
        lemma_replay_slots(v, k - 1);
        let b = v.replay_slots(order, (k - 1) as nat);
        let s = v.slots[k - 1];
        assert(v.slots.subrange(0, k).drop_last() =~= v.slots.subrange(0, k - 1));
        assert(v.slot_wf(k - 1));
        let to = crate::tree::moved(order, s.dir);
        if !model::has_dead_bit(s.flags) {
            assert(order.contains(s.dir) <==> v.attached(s.dir));
            if order.contains(s.dir) {
                let at = order.index_of(s.dir);
                assert(0 <= at < order.len() && order[at] == s.dir);
                lemma_moved(order, at);
                keeps::law_push_entry_keeps_wf(b, to, s.name, s.flags, s.size, s.mtime);
                let new = SlotView {
                    dir: to,
                    off: b.name_bytes as u32,
                    name: arena::kept_name(s.name),
                    flags: s.flags,
                    size: s.size,
                    mtime: s.mtime,
                };
                assert(w.slots == b.slots.push(new));
                keeps::lemma_dead_count_push(b.slots, new);
                assert forall|i: int| 0 <= i < w.slots.len() implies !(#[trigger] w.is_dead(i)) by {
                    if i < b.slots.len() {
                        assert(!b.is_dead(i));
                    }
                }
                lemma_records_same(w, b, b.slots.len());
                assert(w.dirs[to as int].name == v.dirs[s.dir as int].name);
                let base = v.replay_dirs(order, order.len());
                assert(base.dirs[to as int].parent == w.dirs[to as int].parent);
                lemma_attached_same(base, w, to);
                assert(w.attached(to));
                lemma_replay_path(v, w, at, Seq::empty());
                assert(w.record(w.slots.len() - 1) == v.record(k - 1));
                assert(w.records(w.slots.len()) == b.records(b.slots.len()).push(v.record(k - 1)));
            }
        }
    } else {
        assert(v.slots.subrange(0, 0).len() == 0);
    }
}

/// Compaction drops the tombstones and the detached directories, and nothing
/// else: the same records, in the same order, at the same paths.
pub proof fn law_compaction_keeps_records(v: IndexView)
    requires
        v.wf(),
    ensures
        v.compacted().wf(),
        v.compacted().records(v.compacted().slots.len()) == v.records(v.slots.len()),
        v.compacted().free.len() == 0,
        v.compacted().dirs.len() == v.forest().len(),
        forall|i: int| 0 <= i < v.compacted().slots.len() ==> !(#[trigger] v.compacted().is_dead(i)),
        forall|d: int| 0 <= d < v.compacted().dirs.len() ==> #[trigger] v.compacted().attached(d as u32),
{
    let w = v.compacted();
    order::law_forest_order(v);
    lemma_replay_slots(v, v.slots.len() as int);
    let base = v.replay_dirs(v.forest(), v.forest().len());
    lemma_replay_dirs(v, v.forest().len() as int);
    assert forall|d: int| 0 <= d < w.dirs.len() implies #[trigger] w.attached(d as u32) by {
        assert(base.dirs[d].name == w.dirs[d].name);
        lemma_attached_same(base, w, d as u32);
    }
}

} // verus!
