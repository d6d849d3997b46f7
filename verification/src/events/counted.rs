//! What the outcome of an event counts.

use vstd::prelude::*;

use crate::db;
use crate::events;
use crate::events::{EventView, Progress, Target};
use crate::index::NO_DIR;
use crate::model;
use crate::path;
use crate::tree;
use crate::tree::calls;
use crate::tree::calls::Call;
use crate::tree::keeps;
use crate::tree::paths;
use crate::tree::removal;
use crate::tree::IndexView;

verus! {

/// An event counts what it does: there are as many more live entries as it added, less
/// those that it removed. An upsert adds or updates one entry and removes none; a removal
/// adds and updates none.
pub proof fn law_outcome_accounts_for_entries(v: IndexView, ev: EventView)
    requires
        v.wf(),
        events::has_room(v, seq![ev]),
    ensures
        ({
            let p = events::progress_of(v, seq![ev], 1);
            &&& calls::live_count(p.index) == calls::live_count(v) + p.outcome.added - p.outcome.removed
            &&& ev is Upsert && path::file_name_of(ev.path()) is Some ==> p.outcome.added + p.outcome.updated == 1
                && p.outcome.removed == 0
            &&& !(ev is Upsert) ==> p.outcome.added == 0 && p.outcome.updated == 0
            &&& ev is Remove ==> p.outcome.removed <= 1
            &&& path::file_name_of(ev.path()) is None ==> p.outcome.added == 0 && p.outcome.updated == 0
                && p.outcome.removed == 0
        }),
{
    let evs = seq![ev];
    assert(evs.subrange(0, 1) =~= evs);
    assert(evs.drop_last().len() == 0);
    events::lemma_draft(v, evs, 1);
    events::lemma_can_draft(v, evs, 0);
    events::lemma_can_apply(v, evs, 0);
    assert(evs.subrange(0, 0) =~= evs.drop_last());
    let d = events::draft_of(v, evs);
    let b = events::draft_of(v, evs.drop_last());
    assert(b.index == v && evs.last() == ev && d == b.with_event(ev));
    let p0 = events::progress_of(v, evs, 0);
    assert(p0.index == d.index);
    let names = path::parent_names(ev.path());
    if ev is Upsert && path::file_name_of(ev.path()) is Some {
        events::lemma_chain_weight(names);
        paths::law_ensure_keeps(v, NO_DIR, names);
    }
    assert(d.index.slots == v.slots && d.index.wf());
    match d.targets[0] {
        None => {},
        Some(t) => {
            removal::law_find_is_exact(d.index, 0, t.dir, t.name);
            keeps::lemma_dead_count_bounds(d.index.slots);
            match ev {
                EventView::Upsert { path, size, mtime, is_dir } => {
                    lemma_upsert(p0, t, d.index.find(t.dir, t.name), size, mtime, is_dir);
                },
                _ => {
                    lemma_removal(p0, ev, t, d.index.find(t.dir, t.name));
                },
            }
        },
    }
}

proof fn lemma_upsert(p: Progress, t: Target, existing: Option<u32>, size: u64, mtime: i64, is_dir: bool)
    requires
        p.index.wf(),
        paths::is_place(p.index, t.dir),
        existing matches Some(id) ==> id < p.index.slots.len(),
        existing is None ==> p.index.fits_entry(t.name),
        p.outcome == events::EventOutcome::nothing(),
    ensures
        existing is Some ==> calls::live_count(p.index.update_entry(existing->0, size, mtime)) == calls::live_count(
            p.index,
        ),
        existing is None ==> calls::live_count(p.added(t, is_dir, size, mtime).index) == calls::live_count(p.index) + 1,
{
    match existing {
        Some(id) => {
            calls::law_live_entries_are_counted(p.index, Call::Update { id, size, mtime });
        },
        None => {
            model::bits::law_flags_tell(false, is_dir, t.name);
            let flags = events::new_flags(t.name, is_dir);
            let w = p.index.push_entry(t.dir, t.name, flags, size, mtime);
            if p.index.slots.len() < u32::MAX {
                calls::law_live_entries_are_counted(
                    p.index,
                    Call::Push { dir: t.dir, name: t.name, flags, size, mtime },
                );
            } else {
                let at = p.index.free[p.index.free.len() - 1] as int;
                assert(at < p.index.slots.len() && p.index.is_dead(at));
                keeps::lemma_dead_count_update(p.index.slots, at, w.slots[at]);
            }
        },
    }
}

proof fn lemma_removal(p: Progress, ev: EventView, t: Target, existing: Option<u32>)
    requires
        p.index.wf(),
        !(ev is Upsert),
        p.outcome == events::EventOutcome::nothing(),
        existing matches Some(id) ==> p.index.is_live(id as int),
    ensures
        ({
            let r = p.with_event(ev, Some(t), existing);
            &&& calls::live_count(r.index) == calls::live_count(p.index) - r.outcome.removed
            &&& r.outcome.added == 0 && r.outcome.updated == 0
            &&& ev is Remove ==> r.outcome.removed <= 1
        }),
{
    let q = p.removed_if(existing);
    if let Some(id) = existing {
        calls::law_live_entries_are_counted(p.index, Call::Remove { id });
        keeps::law_remove_entry_keeps_wf(p.index, id);
    }
    if let EventView::RemoveDir { path } = ev {
        let names = path::named_components(path);
        paths::lemma_lookup(q.index, NO_DIR, names);
        if let Some(top) = q.index.lookup(NO_DIR, names) {
            if q.index.is_dir(top) {
                calls::law_live_entries_are_counted(q.index, Call::RemoveSubtree { top });
                keeps::lemma_dead_count_bounds(q.index.slots);
                keeps::law_remove_subtree_keeps_wf(q.index, top);
                keeps::lemma_dead_count_bounds(q.index.remove_subtree(top).slots);
            }
        }
    }
}

proof fn lemma_dead_set(v: IndexView, n: int)
    requires
        0 <= n <= v.slots.len(),
    ensures
        Set::new(|i: int| 0 <= i < n && v.is_dead(i)).finite(),
        Set::new(|i: int| 0 <= i < n && v.is_dead(i)).len() == tree::dead_count(v.slots.take(n)),
    decreases n,
{
    let here = Set::new(|i: int| 0 <= i < n && v.is_dead(i));
    if n == 0 {
        assert(here =~= Set::empty());
    } else {
        lemma_dead_set(v, n - 1);
        let before = Set::new(|i: int| 0 <= i < n - 1 && v.is_dead(i));
        assert(v.slots.take(n).drop_last() =~= v.slots.take(n - 1));
        assert(v.slots.take(n).last() == v.slots[n - 1]);
        if v.is_dead(n - 1) {
            assert(here =~= before.insert(n - 1));
        } else {
            assert(here =~= before);
        }
    }
}

/// The tombstones are as many as there are tombstoned slots, and compaction is called for
/// where they are more than a quarter of all slots.
pub proof fn law_litter(v: IndexView)
    ensures
        tree::dead_count(v.slots) == Set::new(|i: int| 0 <= i < v.slots.len() && v.is_dead(i)).len(),
        events::is_littered(v) <==> 4 * Set::new(|i: int| 0 <= i < v.slots.len() && v.is_dead(i)).len() > v.slots.len(),
{
    let n = v.slots.len() as int;
    lemma_dead_set(v, n);
    assert(v.slots.take(n) =~= v.slots);
}

/// A batch compacts exactly where it leaves the index littered, and then everything is
/// written anew; the counts are those of its events either way.
pub proof fn law_compaction_follows_litter(v: IndexView, evs: Seq<EventView>)
    ensures
        ({
            let p = events::progress_of(v, evs, evs.len());
            let b = events::batch_of(v, evs);
            &&& b.outcome.compacted <==> events::is_littered(p.index)
            &&& b.outcome.added == p.outcome.added && b.outcome.updated == p.outcome.updated && b.outcome.removed
                == p.outcome.removed
            &&& b.outcome.compacted ==> b.index == p.index.compacted() && b.ops == seq![db::OpView::FullResave]
            &&& !b.outcome.compacted ==> b.index == p.index && b.ops == p.ops
        }),
{
    events::laws::lemma_never_compacted(v, evs, evs.len());
}

} // verus!
