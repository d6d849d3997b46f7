//! What a batch of events leaves behind.

use vstd::prelude::*;

use crate::arena;
use crate::db;
use crate::db::laws::Tables;
use crate::db::OpView;
use crate::events;
use crate::events::{EventView, Progress, Target};
use crate::index::NO_DIR;
use crate::path;
use crate::tree;
use crate::tree::keeps;
use crate::tree::paths;
use crate::tree::removal;
use crate::tree::IndexView;

verus! {

/// Making a chain of directories exist, and writing those that were added, keeps
/// the tables a snapshot of the index.
proof fn lemma_ensure_is_written(v: IndexView, cur: u32, names: Seq<Seq<u8>>)
    requires
        v.wf(),
        paths::is_place(v, cur),
        paths::can_ensure(v, cur, names),
    ensures
        ({
            let w = v.ensure(cur, names).0;
            db::laws::tables_of(v).written_all(
                events::added_dirs(w, v.dirs.len() as int, w.dirs.len() as int),
            ) == db::laws::tables_of(w)
        }),
    decreases names.len(),
{
    let w = v.ensure(cur, names).0;
    let n = v.dirs.len() as int;
    paths::law_ensure_keeps(v, cur, names);
    if names.len() == 0 {
        assert(events::added_dirs(w, n, n).len() == 0);
    } else {
        match v.child_dir(cur, names[0]) {
            Some(c) => {
                paths::lemma_child_dir(v, cur, names[0]);
                lemma_ensure_is_written(v, c, names.skip(1));
            },
            None => {
                let u = v.add_dir(cur, names[0]);
                paths::lemma_missing_below_new(v, cur, names[0], names.skip(1));
                keeps::law_add_dir_keeps_wf(v, cur, names[0]);
                paths::law_ensure_keeps(u, n as u32, names.skip(1));
                lemma_ensure_is_written(u, n as u32, names.skip(1));
                db::laws::law_added_dir_is_written(v, cur, names[0]);
                let all = events::added_dirs(w, n, w.dirs.len() as int);
                let rest = events::added_dirs(w, n + 1, w.dirs.len() as int);
                let first = OpView::AddDir { id: n as u32, parent: cur, name: arena::kept_name(names[0]) };
                assert(w.dirs[n].name == u.dirs[n].name && w.dirs[n].parent == u.dirs[n].parent);
                assert(all =~= seq![first] + rest);
                db::laws::lemma_written_concat(db::laws::tables_of(v), seq![first], rest);
                assert(seq![first].drop_last().len() == 0);
                assert(db::laws::tables_of(v).written_all(seq![first].drop_last()) == db::laws::tables_of(v));
                assert(seq![first].last() == first);
            },
        }
    }
}

/// The writes queued while drafting keep the tables a snapshot of the index.
proof fn lemma_draft_is_written(v: IndexView, evs: Seq<EventView>, k: int)
    requires
        v.wf(),
        events::has_room(v, evs),
        0 <= k <= evs.len(),
    ensures
        ({
            let d = events::draft_of(v, evs.subrange(0, k));
            db::laws::tables_of(v).written_all(d.ops) == db::laws::tables_of(d.index)
        }),
    decreases k,
{
    let some = evs.subrange(0, k);
    if k > 0 {
        lemma_draft_is_written(v, evs, k - 1);
        events::lemma_draft(v, evs, k - 1);
        events::lemma_draft(v, evs, k);
        events::lemma_can_draft(v, evs, k - 1);
        assert(some.drop_last() =~= evs.subrange(0, k - 1));
        let b = events::draft_of(v, some.drop_last());
        let ev = some.last();
        let d = events::draft_of(v, some);
        if events::is_placed(ev) {
            let names = path::parent_names(ev.path());
            lemma_ensure_is_written(b.index, NO_DIR, names);
            let more = events::added_dirs(d.index, b.index.dirs.len() as int, d.index.dirs.len() as int);
            db::laws::lemma_written_concat(db::laws::tables_of(v), b.ops, more);
        }
    }
}

/// In a steady batch an upsert that found its entry still finds it in its slot
/// when its turn comes: no earlier event of the batch has taken it away. Names
/// are short enough to be kept whole.
pub open spec fn is_steady(v: IndexView, evs: Seq<EventView>) -> bool {
    let d = events::draft_of(v, evs);
    forall|k: int|
        0 <= k < evs.len() && (#[trigger] evs[k]) is Upsert ==> match (
            d.targets[k],
            events::find_target(d.index, d.targets[k]),
        ) {
            (Some(t), Some(id)) => {
                let now = events::progress_of(v, evs, k as nat).index;
                now.is_live(id as int) && now.slots[id as int].dir == t.dir && now.slots[id as int].name
                    == t.name
            },
            (Some(t), None) => t.name.len() <= arena::MAX_NAME_LEN,
            _ => true,
        }
}

/// The queued writes of a steady batch turn the snapshot of the index before it
/// into the snapshot of the index after it.
pub proof fn law_batch_is_written(v: IndexView, evs: Seq<EventView>, k: int)
    requires
        v.wf(),
        events::has_room(v, evs),
        is_steady(v, evs),
        0 <= k <= evs.len(),
    ensures
        ({
            let p = events::progress_of(v, evs, k as nat);
            db::laws::tables_of(v).written_all(p.ops) == db::laws::tables_of(p.index)
        }),
    decreases k,
{
    let d = events::draft_of(v, evs);
    let base = db::laws::tables_of(v);
    assert(evs.subrange(0, evs.len() as int) =~= evs);
    if k == 0 {
        lemma_draft_is_written(v, evs, evs.len() as int);
    } else {
        law_batch_is_written(v, evs, k - 1);
        events::lemma_draft(v, evs, evs.len() as int);
        events::lemma_progress(v, evs, k - 1);
        events::lemma_can_apply(v, evs, k - 1);
        let b = events::progress_of(v, evs, (k - 1) as nat);
        let ev = evs[k - 1];
        let t = d.targets[k - 1];
        let existing = events::find_target(d.index, t);
        events::lemma_found_is_slot(d.index, t);
        lemma_step_is_written(base, b, ev, t, existing);
    }
}

proof fn lemma_step_is_written(
    base: Tables,
    b: Progress,
    ev: EventView,
    t: Option<Target>,
    existing: Option<u32>,
)
    requires
        b.index.wf(),
        base.written_all(b.ops) == db::laws::tables_of(b.index),
        t matches Some(x) ==> paths::is_place(b.index, x.dir) && path::file_name_of(ev.path()) == Some(x.name),
        existing matches Some(id) ==> id < b.index.slots.len(),
        events::can_apply(b.index, ev, t, existing),
        ev is Upsert ==> match (t, existing) {
            (Some(t), Some(id)) => b.index.is_live(id as int) && b.index.slots[id as int].dir == t.dir
                && b.index.slots[id as int].name == t.name,
            (Some(t), None) => t.name.len() <= arena::MAX_NAME_LEN,
            _ => true,
        },
    ensures
        ({
            let p = b.with_event(ev, t, existing);
            base.written_all(p.ops) == db::laws::tables_of(p.index)
        }),
{
    let p = b.with_event(ev, t, existing);
    match (t, ev) {
        (None, _) => {},
        (Some(t), EventView::Upsert { path, size, mtime, is_dir }) => match existing {
            Some(id) => {
                db::laws::law_updated_entry_is_written(b.index, id, size, mtime);
                assert(p.ops.drop_last() =~= b.ops);
                assert(base.written_all(p.ops) == db::laws::tables_of(p.index));
            },
            None => {
                let f = events::new_flags(t.name, is_dir);
                events::lemma_flags(t.name, is_dir);
                let w = b.index.push_entry(t.dir, t.name, f, size, mtime);
                let id = b.index.next_slot();
                keeps::law_push_entry_keeps_wf(b.index, t.dir, t.name, f, size, mtime);
                db::laws::law_inserted_entry_is_written(b.index, t.dir, t.name, f, size, mtime);
                if b.index.free.len() > 0 {
                    assert(b.index.free[b.index.free.len() - 1] < b.index.slots.len());
                }
                let put = OpView::Upsert { id, dir: t.dir, name: t.name, size, mtime, flags: f };
                let before = db::laws::tables_of(b.index);
                assert(w.slots[id as int].dir == t.dir && w.slots[id as int].size == size
                    && w.slots[id as int].mtime == mtime && w.slots[id as int].flags == f);
                assert(arena::kept_name(t.name) == t.name);
                if is_dir && w.child_dir(t.dir, t.name) is None {
                    let made = OpView::AddDir { id: w.dirs.len() as u32, parent: t.dir, name: t.name };
                    db::laws::law_added_dir_is_written(w, t.dir, t.name);
                    assert(p.ops =~= b.ops.push(made).push(put));
                    assert(p.ops.drop_last() =~= b.ops.push(made));
                    assert(b.ops.push(made).drop_last() =~= b.ops);
                    // The two writes touch different tables.
                    assert(before.written(made).written(put) =~= before.written(put).written(made));
                    assert(base.written_all(b.ops.push(made)) == before.written(made));
                    assert(p.index == w.add_dir(t.dir, t.name));
                    assert(base.written_all(p.ops) == db::laws::tables_of(p.index));
                } else {
                    assert(p.ops =~= b.ops.push(put));
                    assert(p.ops.drop_last() =~= b.ops);
                    assert(base.written_all(p.ops) == db::laws::tables_of(p.index));
                }
            },
        },
        (Some(t), EventView::Remove { path }) => {
            lemma_removed_if_is_written(base, b, existing);
        },
        (Some(t), EventView::RemoveDir { path }) => {
            lemma_removed_if_is_written(base, b, existing);
            let q = b.removed_if(existing);
            let names = path::named_components(path);
            paths::lemma_lookup(q.index, NO_DIR, names);
            match q.index.lookup(NO_DIR, names) {
                Some(top) => {
                    db::laws::law_removed_subtree_is_written(q.index, top);
                    db::laws::lemma_written_concat(
                        base,
                        q.ops,
                        db::laws::deletes(q.index.subtree_entries(top)),
                    );
                },
                None => {},
            }
        },
    }
}

proof fn lemma_removed_if_is_written(base: Tables, b: Progress, existing: Option<u32>)
    requires
        b.index.wf(),
        base.written_all(b.ops) == db::laws::tables_of(b.index),
        existing matches Some(id) ==> id < b.index.slots.len(),
    ensures
        ({
            let p = b.removed_if(existing);
            &&& p.index.wf()
            &&& base.written_all(p.ops) == db::laws::tables_of(p.index)
        }),
{
    match existing {
        Some(id) => {
            keeps::law_remove_entry_keeps_wf(b.index, id);
            db::laws::law_removed_entry_is_written(b.index, id);
            assert(b.removed(id).ops.drop_last() =~= b.ops);
        },
        None => {},
    }
}

/// A batch of one event with a name that is kept whole is steady.
pub proof fn law_single_event_is_steady(v: IndexView, ev: EventView)
    requires
        v.wf(),
        events::has_room(v, seq![ev]),
        path::file_name_of(ev.path()) matches Some(name) ==> name.len() <= arena::MAX_NAME_LEN,
    ensures
        is_steady(v, seq![ev]),
{
    let evs = seq![ev];
    let d = events::draft_of(v, evs);
    assert(evs.subrange(0, 1) =~= evs);
    events::lemma_draft(v, evs, 1);
    match d.targets[0] {
        Some(t) => {
            removal::law_find_is_exact(d.index, 0, t.dir, t.name);
        },
        None => {},
    }
}

/// A lookup that led somewhere leads there after more directories were added.
pub(crate) proof fn lemma_lookup_extends(v: IndexView, w: IndexView, cur: u32, names: Seq<Seq<u8>>)
    requires
        v.dirs_wf(),
        paths::is_place(v, cur),
        paths::extends(v, w),
        v.lookup(cur, names) is Some,
    ensures
        w.lookup(cur, names) == v.lookup(cur, names),
    decreases names.len(),
{
    if names.len() > 0 {
        paths::lemma_child_dir(v, cur, names[0]);
        let c = v.child_dir(cur, names[0])->0;
        assert(w.child_dir(cur, names[0]) == v.child_dir(cur, names[0]));
        lemma_lookup_extends(v, w, c, names.skip(1));
    }
}

/// Finding depends on the slots alone.
proof fn lemma_find_same(v: IndexView, w: IndexView, from: int, dir: u32, name: Seq<u8>)
    requires
        v.slots == w.slots,
    ensures
        v.find_from(from, dir, name) == w.find_from(from, dir, name),
    decreases v.slots.len() - from,
{
    if 0 <= from < v.slots.len() {
        lemma_find_same(v, w, from + 1, dir, name);
    }
}

/// Changing a size and time changes no find.
proof fn lemma_find_updated(v: IndexView, id: u32, size: u64, mtime: i64, from: int, dir: u32, name: Seq<u8>)
    requires
        id < v.slots.len(),
    ensures
        v.update_entry(id, size, mtime).find_from(from, dir, name) == v.find_from(from, dir, name),
    decreases v.slots.len() - from,
{
    if 0 <= from < v.slots.len() {
        lemma_find_updated(v, id, size, mtime, from + 1, dir, name);
    }
}

/// After an upsert the entry is found under its path, with the size and time of
/// the event.
pub proof fn law_upserted_entry_is_found(v: IndexView, path: Seq<u8>, size: u64, mtime: i64, is_dir: bool)
    requires
        v.wf(),
        events::has_room(v, seq![EventView::Upsert { path, size, mtime, is_dir }]),
        path::file_name_of(path) is Some,
        path::parent_names(path).len() > 0,
        path::file_name_of(path)->0.len() <= arena::MAX_NAME_LEN,
        paths::all_kept(path::parent_names(path)),
    ensures
        ({
            let w = events::progress_of(v, seq![EventView::Upsert { path, size, mtime, is_dir }], 1).index;
            let dir = w.lookup(NO_DIR, path::parent_names(path));
            &&& dir is Some
            &&& w.find(dir->0, path::file_name_of(path)->0) matches Some(id) && w.is_live(id as int)
                && w.slots[id as int].size == size && w.slots[id as int].mtime == mtime
        }),
{
    let ev = EventView::Upsert { path, size, mtime, is_dir };
    let evs = seq![ev];
    let names = path::parent_names(path);
    let name = path::file_name_of(path)->0;
    assert(evs.subrange(0, 1) =~= evs);
    assert(evs.drop_last().len() == 0);
    events::lemma_draft(v, evs, 1);
    events::lemma_draft(v, evs, 0);
    events::lemma_can_draft(v, evs, 0);
    events::lemma_can_apply(v, evs, 0);
    assert(evs.subrange(0, 0) =~= evs.drop_last());
    let d = events::draft_of(v, evs);
    let b = events::draft_of(v, evs.drop_last());
    assert(b.index == v);
    assert(evs.last() == ev);
    assert(d == b.with_event(ev));
    let t = d.targets[0]->0;
    paths::law_ensure_then_lookup(v, NO_DIR, names);
    assert(d.index.lookup(NO_DIR, names) == Some(t.dir));
    let p0 = events::progress_of(v, evs, 0);
    let w = events::progress_of(v, evs, 1).index;
    assert(p0.index == d.index);
    removal::law_find_is_exact(d.index, 0, t.dir, t.name);
    match d.index.find(t.dir, t.name) {
        Some(id) => {
            assert(w == d.index.update_entry(id, size, mtime));
            lemma_find_updated(d.index, id, size, mtime, 0, t.dir, t.name);
            keeps::law_update_entry_keeps_wf(d.index, id, size, mtime);
            assert(paths::extends(d.index, w)) by {
                lemma_same_dirs_extend(d.index, w);
            }
            lemma_lookup_extends(d.index, w, NO_DIR, names);
        },
        None => {
            let f = events::new_flags(t.name, is_dir);
            events::lemma_flags(t.name, is_dir);
            let u = d.index.push_entry(t.dir, t.name, f, size, mtime);
            keeps::law_push_entry_keeps_wf(d.index, t.dir, t.name, f, size, mtime);
            removal::law_inserted_entry_is_found(d.index, t.dir, t.name, f, size, mtime);
            removal::law_find_is_exact(u, 0, t.dir, t.name);
            lemma_same_dirs_extend(d.index, u);
            lemma_lookup_extends(d.index, u, NO_DIR, names);
            if is_dir && u.child_dir(t.dir, t.name) is None {
                paths::law_add_dir_is_found(u, t.dir, t.name);
                lemma_lookup_extends(u, w, NO_DIR, names);
                lemma_find_same(u, w, 0, t.dir, t.name);
            }
        },
    }
}

/// Changing slots alone changes no directory.
proof fn lemma_same_dirs_extend(v: IndexView, w: IndexView)
    requires
        v.dirs == w.dirs,
        v.roots == w.roots,
    ensures
        paths::extends(v, w),
{
    assert forall|p: u32, name: Seq<u8>| paths::is_place(v, p) && v.child_dir(p, name) is Some implies #[trigger] w.child_dir(
        p,
        name,
    ) == v.child_dir(p, name) by {
        lemma_first_named_dirs(v, w, v.children(p), name);
    }
}

proof fn lemma_first_named_dirs(v: IndexView, w: IndexView, list: Seq<u32>, name: Seq<u8>)
    requires
        v.dirs == w.dirs,
    ensures
        w.first_named(list, name) == v.first_named(list, name),
    decreases list.len(),
{
    if list.len() > 0 {
        lemma_first_named_dirs(v, w, list.skip(1), name);
    }
}

/// After the removal of a directory that the index holds, no entry below it is
/// live.
pub proof fn law_removed_dir_is_empty(v: IndexView, path: Seq<u8>, dir: u32, i: int)
    requires
        v.wf(),
        events::has_room(v, seq![EventView::RemoveDir { path }]),
        path::file_name_of(path) is Some,
        v.lookup(NO_DIR, path::parent_names(path)) is Some,
        v.lookup(NO_DIR, path::named_components(path)) == Some(dir),
        0 <= i < v.slots.len(),
        v.in_subtree(v.slots[i].dir, dir),
    ensures
        !events::progress_of(v, seq![EventView::RemoveDir { path }], 1).index.is_live(i),
{
    let ev = EventView::RemoveDir { path };
    let evs = seq![ev];
    let names = path::named_components(path);
    assert(evs.subrange(0, 1) =~= evs);
    assert(evs.drop_last().len() == 0);
    events::lemma_draft(v, evs, 1);
    let d = events::draft_of(v, evs);
    let b = events::draft_of(v, evs.drop_last());
    assert(b.index == v && evs.last() == ev && d == b.with_event(ev));
    let p0 = events::progress_of(v, evs, 0);
    let existing = events::find_target(d.index, d.targets[0]);
    events::lemma_found_is_slot(d.index, d.targets[0]);
    let q = p0.removed_if(existing);
    match existing {
        Some(id) => {
            keeps::law_remove_entry_keeps_wf(v, id);
            keeps::lemma_set_dead(v.slots[id as int].flags);
        },
        None => {},
    }
    lemma_same_dirs_extend(v, q.index);
    lemma_lookup_extends(v, q.index, NO_DIR, names);
    paths::lemma_lookup(v, NO_DIR, names);
    assert(q.index.slots[i].dir == v.slots[i].dir);
    lemma_in_subtree_dirs(v, q.index, v.slots[i].dir, dir);
    removal::law_remove_subtree_removes_exactly(q.index, dir, i);
}

proof fn lemma_in_subtree_dirs(v: IndexView, w: IndexView, x: u32, top: u32)
    requires
        v.dirs == w.dirs,
    ensures
        v.in_subtree(x, top) == w.in_subtree(x, top),
    decreases x,
{
    if x != top && x < v.dirs.len() && v.dirs[x as int].parent < x {
        lemma_in_subtree_dirs(v, w, v.dirs[x as int].parent, top);
    }
}

/// Removing an entry tombstones the entry that its path leads to.
pub proof fn law_removed_entry_is_gone(v: IndexView, path: Seq<u8>, dir: u32, id: u32)
    requires
        v.wf(),
        events::has_room(v, seq![EventView::Remove { path }]),
        path::file_name_of(path) is Some,
        v.lookup(NO_DIR, path::parent_names(path)) == Some(dir),
        v.find(dir, path::file_name_of(path)->0) == Some(id),
    ensures
        !events::progress_of(v, seq![EventView::Remove { path }], 1).index.is_live(id as int),
{
    let ev = EventView::Remove { path };
    let evs = seq![ev];
    assert(evs.drop_last().len() == 0);
    let d = events::draft_of(v, evs);
    let b = events::draft_of(v, evs.drop_last());
    assert(b.index == v && evs.last() == ev && d == b.with_event(ev));
    removal::law_find_is_exact(v, 0, dir, path::file_name_of(path)->0);
    assert(events::progress_of(v, evs, 0).index == v);
    keeps::lemma_set_dead(v.slots[id as int].flags);
}

/// Before compaction no batch is marked as compacted.
pub(crate) proof fn lemma_never_compacted(v: IndexView, evs: Seq<EventView>, k: nat)
    ensures
        !events::progress_of(v, evs, k).outcome.compacted,
    decreases k,
{
    if k > 0 {
        lemma_never_compacted(v, evs, (k - 1) as nat);
    }
}

} // verus!
