//! The places in the tree that the events of a batch are about.

use vstd::prelude::*;

use crate::arena;
use crate::events;
use crate::events::laws;
use crate::events::{EventView, Progress, Target};
use crate::index::NO_DIR;
use crate::path;
use crate::tree::chains;
use crate::tree::keeps;
use crate::tree::paths;
use crate::tree::IndexView;

verus! {

/// An absolute path below the root, without `.` and `..`.
pub open spec fn is_plain_path(p: Seq<u8>) -> bool {
    path::components(p).len() >= 2 && chains::is_plain_chain(path::components(p))
}

/// A plain path is the names above it and its own.
pub(crate) proof fn lemma_plain_path(p: Seq<u8>)
    requires
        is_plain_path(p),
    ensures
        path::file_name_of(p) == Some(path::components(p).last()),
        path::parent_names(p) == path::components(p).drop_last(),
        path::named_components(p) == path::components(p),
        path::parent_names(p).push(path::components(p).last()) == path::components(p),
{
    let c = path::components(p);
    assert forall|i: int| 0 <= i < c.len() implies path::is_named(#[trigger] c[i]) by {
        if i == 0 {
            assert(path::cur_dir().len() == 1 && path::parent_dir().len() == 2);
        } else {
            assert(path::is_plain_name(c[i]));
        }
    }
    assert(path::is_plain_name(c[c.len() - 1]));
    path::lemma_all_named(c);
    assert forall|i: int| 0 <= i < c.drop_last().len() implies path::is_named(#[trigger] c.drop_last()[i]) by {
        assert(c.drop_last()[i] == c[i]);
    }
    path::lemma_all_named(c.drop_last());
    assert(c.drop_last().push(c.last()) =~= c);
}

/// Every event of a batch names a plain path, and every upsert names that are short
/// enough to be kept whole.
pub open spec fn is_plain_batch(evs: Seq<EventView>) -> bool {
    forall|k: int|
        0 <= k < evs.len() ==> is_plain_path((#[trigger] evs[k]).path()) && (evs[k] is Upsert ==> paths::all_kept(
            path::components(evs[k].path()),
        ))
}

proof fn lemma_shorter_batch(v: IndexView, evs: Seq<EventView>)
    requires
        evs.len() > 0,
        events::drafts_fit(v, evs),
        is_plain_batch(evs),
    ensures
        events::drafts_fit(v, evs.drop_last()),
        is_plain_batch(evs.drop_last()),
{
    let some = evs.drop_last();
    events::lemma_shorter_drafts(v, evs, evs.len() - 1);
    assert(evs.subrange(0, evs.len() - 1) =~= some);
    assert forall|k: int| 0 <= k < some.len() implies is_plain_path((#[trigger] some[k]).path()) && (some[k] is Upsert
        ==> paths::all_kept(path::components(some[k].path()))) by {
        assert(some[k] == evs[k]);
    }
}

/// The target is the place that the path of its event names. An event has one where
/// the names above it lead somewhere, and an upsert always.
pub open spec fn is_target_of(v: IndexView, w: IndexView, ev: EventView, target: Option<Target>) -> bool {
    &&& target matches Some(t) ==> w.is_dir(t.dir) && chains::chain(w, t.dir).push(t.name) == path::components(ev.path())
    &&& ev is Upsert ==> target is Some
    &&& v.lookup(NO_DIR, path::parent_names(ev.path())) matches Some(dir) ==> target == Some(
        Target { dir, name: path::components(ev.path()).last() },
    )
}

/// The target of the last event of a batch.
proof fn lemma_last_target(v: IndexView, evs: Seq<EventView>)
    requires
        v.wf(),
        events::drafts_fit(v, evs),
        is_plain_batch(evs),
        evs.len() > 0,
    ensures
        ({
            let d = events::draft_of(v, evs);
            let b = events::draft_of(v, evs.drop_last());
            &&& d.targets.len() == evs.len()
            &&& d.targets.drop_last() == b.targets
            &&& b.targets.len() == evs.len() - 1
            &&& chains::keeps_names(v, d.index)
            &&& chains::keeps_names(b.index, d.index)
            &&& is_target_of(v, d.index, evs.last(), d.targets.last())
        }),
{
    let d = events::draft_of(v, evs);
    let some = evs.drop_last();
    let b = events::draft_of(v, some);
    let last = evs.last();
    lemma_shorter_batch(v, evs);
    assert(evs.subrange(0, evs.len() as int) =~= evs);
    events::lemma_draft(v, evs, evs.len() as int);
    assert(some.subrange(0, some.len() as int) =~= some);
    events::lemma_draft(v, some, some.len() as int);
    assert(is_plain_path(evs[evs.len() - 1].path()));
    assert(last is Upsert ==> paths::all_kept(path::components(evs[evs.len() - 1].path())));
    lemma_plain_path(last.path());
    let names = path::parent_names(last.path());
    events::lemma_can_draft(v, evs, evs.len() - 1);
    assert(evs.subrange(0, evs.len() - 1) =~= some);
    assert(d == b.with_event(last));
    assert(d.targets.drop_last() =~= b.targets);
    lemma_drafted_target(v, b.index, last);
}

/// Where the path of an event leads in an index that extends another.
proof fn lemma_drafted_target(v: IndexView, b: IndexView, ev: EventView)
    requires
        v.wf(),
        b.wf(),
        paths::extends(v, b),
        is_plain_path(ev.path()),
        ev is Upsert ==> paths::all_kept(path::components(ev.path())),
        events::can_draft(b, ev),
    ensures
        ({
            let names = path::parent_names(ev.path());
            let name = path::components(ev.path()).last();
            let (w, dir) = b.ensure(NO_DIR, names);
            if ev is Upsert {
                chains::keeps_names(b, w) && is_target_of(v, w, ev, Some(Target { dir, name }))
            } else {
                is_target_of(
                    v,
                    b,
                    ev,
                    match b.lookup(NO_DIR, names) {
                        Some(dir) => Some(Target { dir, name }),
                        None => None,
                    },
                )
            }
        }),
{
    lemma_plain_path(ev.path());
    let names = path::parent_names(ev.path());
    assert(Seq::<Seq<u8>>::empty() + names =~= names);
    if v.lookup(NO_DIR, names) is Some {
        laws::lemma_lookup_extends(v, b, NO_DIR, names);
    }
    if ev is Upsert {
        let w = b.ensure(NO_DIR, names).0;
        assert(paths::all_kept(names)) by {
            assert forall|i: int| 0 <= i < names.len() implies (#[trigger] names[i]).len() <= arena::MAX_NAME_LEN by {
                assert(names[i] == path::components(ev.path())[i]);
            }
        }
        paths::law_ensure_keeps(b, NO_DIR, names);
        paths::law_ensure_then_lookup(b, NO_DIR, names);
        chains::lemma_lookup_gives_chain(w, NO_DIR, names);
        if b.lookup(NO_DIR, names) is Some {
            laws::lemma_lookup_extends(b, w, NO_DIR, names);
        }
    } else {
        chains::lemma_lookup_gives_chain(b, NO_DIR, names);
    }
}

/// The targets of a batch are the places that the paths of its events name.
pub(crate) proof fn lemma_target(v: IndexView, evs: Seq<EventView>, k: int)
    requires
        v.wf(),
        events::drafts_fit(v, evs),
        is_plain_batch(evs),
        0 <= k < evs.len(),
    ensures
        ({
            let d = events::draft_of(v, evs);
            &&& d.targets.len() == evs.len()
            &&& chains::keeps_names(v, d.index)
            &&& is_target_of(v, d.index, evs[k], d.targets[k])
        }),
    decreases evs.len(),
{
    let d = events::draft_of(v, evs);
    let some = evs.drop_last();
    let b = events::draft_of(v, some);
    lemma_last_target(v, evs);
    if k < evs.len() - 1 {
        lemma_shorter_batch(v, evs);
        lemma_target(v, some, k);
        assert(some[k] == evs[k]);
        assert(d.targets.drop_last()[k] == b.targets[k]);
        match b.targets[k] {
            Some(t) => {
                chains::lemma_chain_kept(b.index, d.index, t.dir);
            },
            None => {},
        }
    }
}

/// Detaching a directory changes no name and no parent.
proof fn lemma_detached_names(v: IndexView, top: u32)
    requires
        v.wf(),
        v.is_dir(top),
    ensures
        chains::keeps_names(v, v.remove_subtree(top)),
{
    assert(v.dir_wf(top as int));
    let base = v.detach(top);
    assert(chains::keeps_names(v, base));
    keeps::lemma_live_in(v, v.subtree(top), v.slots.len() as int);
    lemma_same_dirs(base, v.subtree_entries(top));
}

proof fn lemma_same_dirs(v: IndexView, ids: Seq<u32>)
    ensures
        v.remove_all(ids).dirs == v.dirs,
    decreases ids.len(),
{
    if ids.len() > 0 {
        lemma_same_dirs(v, ids.drop_last());
    }
}

/// No event changes the name or the parent of a directory.
pub(crate) proof fn lemma_progress_names(v: IndexView, evs: Seq<EventView>, k: int)
    requires
        v.wf(),
        events::has_room(v, evs),
        0 <= k <= evs.len(),
    ensures
        chains::keeps_names(events::draft_of(v, evs).index, events::progress_of(v, evs, k as nat).index),
    decreases k,
{
    let d = events::draft_of(v, evs);
    if k > 0 {
        let before = events::progress_of(v, evs, (k - 1) as nat);
        lemma_progress_names(v, evs, k - 1);
        assert(evs.subrange(0, evs.len() as int) =~= evs);
        events::lemma_draft(v, evs, evs.len() as int);
        events::lemma_progress(v, evs, k - 1);
        let existing = events::find_target(d.index, d.targets[k - 1]);
        events::lemma_found_is_slot(d.index, d.targets[k - 1]);
        lemma_step_names(before, evs[k - 1], d.targets[k - 1], existing);
    }
}

proof fn lemma_step_names(b: Progress, ev: EventView, t: Option<Target>, existing: Option<u32>)
    requires
        b.index.wf(),
        t matches Some(x) ==> paths::is_place(b.index, x.dir),
        existing matches Some(id) ==> id < b.index.slots.len(),
    ensures
        chains::keeps_names(b.index, b.with_event(ev, t, existing).index),
{
    match (t, ev) {
        (Some(t), EventView::RemoveDir { path }) => {
            let q = b.removed_if(existing);
            match existing {
                Some(id) => {
                    keeps::law_remove_entry_keeps_wf(b.index, id);
                },
                None => {},
            }
            let names = path::named_components(path);
            paths::lemma_lookup(q.index, NO_DIR, names);
            match q.index.lookup(NO_DIR, names) {
                Some(top) => {
                    lemma_detached_names(q.index, top);
                },
                None => {},
            }
        },
        _ => {},
    }
}

} // verus!
