//! Folding a batch of filesystem changes into the index.

use vstd::prelude::*;

use crate::db;
use crate::db::DbOp;
use crate::events;
use crate::events::{event_path, Draft, EventOutcome, EventView, IndexEvent, Progress, Target};
use crate::index::{DirNode, Index, NO_DIR};
use crate::model::flags;
use crate::model::Entry;
use crate::path;
use crate::path::split_path;
use crate::tree;
use crate::tree::paths;

verus! {

/// Where the lookups of a batch stand: for each event its place in `wanted`.
#[derive(Debug)]
struct Lookups {
    wanted: Vec<(u32, Vec<u8>)>,
    places: Vec<Option<usize>>,
}

impl Lookups {
    /// The lookup of one event is for its target.
    spec fn is_for(self, i: int, t: Option<Target>) -> bool {
        match self.places@[i] {
            Some(k) => {
                &&& k < self.wanted@.len()
                &&& t == Some(Target { dir: self.wanted@[k as int].0, name: self.wanted@[k as int].1@ })
            },
            None => t is None,
        }
    }

    spec fn are_for(self, targets: Seq<Option<Target>>) -> bool {
        &&& self.places@.len() == targets.len()
        &&& forall|i: int| 0 <= i < targets.len() ==> #[trigger] self.is_for(i, targets[i])
    }

    fn want(&mut self, dir: u32, name: Vec<u8>, Ghost(targets): Ghost<Seq<Option<Target>>>)
        requires
            old(self).are_for(targets),
        ensures
            final(self).are_for(targets.push(Some(Target { dir, name: name@ }))),
    {
        let ghost before = *self;
        let ghost next = targets.push(Some(Target { dir, name: name@ }));
        self.places.push(Some(self.wanted.len()));
        self.wanted.push((dir, name));
        assert forall|i: int| 0 <= i < next.len() implies #[trigger] self.is_for(i, next[i]) by {
            if i < targets.len() {
                assert(before.is_for(i, targets[i]));
            }
        }
    }

    fn skip(&mut self, Ghost(targets): Ghost<Seq<Option<Target>>>)
        requires
            old(self).are_for(targets),
        ensures
            final(self).are_for(targets.push(None)),
    {
        let ghost before = *self;
        let ghost next = targets.push(None);
        self.places.push(None);
        assert forall|i: int| 0 <= i < next.len() implies #[trigger] self.is_for(i, next[i]) by {
            if i < targets.len() {
                assert(before.is_for(i, targets[i]));
            }
        }
    }
}

proof fn lemma_push_op(ops: Seq<DbOp>, op: DbOp)
    ensures
        db::op_views(ops.push(op)) == db::op_views(ops).push(op@),
{
    assert(db::op_views(ops.push(op)) =~= db::op_views(ops).push(op@));
}

/// Queues the writes of the directories from `from` on.
fn note_dirs(index: &Index, from: usize, ops: &mut Vec<DbOp>)
    requires
        index.wf(),
        from <= index@.dirs.len(),
    ensures
        db::op_views(final(ops)@) == db::op_views(old(ops)@) + events::added_dirs(
            index@,
            from as int,
            index@.dirs.len() as int,
        ),
{
    let n: usize = index.dir_count();
    let mut new: usize = from;
    let ghost before = db::op_views(ops@);
    assert(before + events::added_dirs(index@, from as int, from as int) =~= before);
    while new < n
        invariant
            index.wf(),
            n == index@.dirs.len(),
            n <= u32::MAX,
            from <= new <= n,
            before == db::op_views(old(ops)@),
            db::op_views(ops@) == before + events::added_dirs(index@, from as int, new as int),
        decreases n - new,
    {
        let node: DirNode = index.dir_node(new as u32);
        let op: DbOp = DbOp::AddDir {
            id: new as u32,
            parent: node.parent,
            name: vstd::slice::slice_to_vec(index.dir_name(new as u32)),
        };
        proof {
            lemma_push_op(ops@, op);
            assert(events::added_dirs(index@, from as int, new + 1) =~= events::added_dirs(
                index@,
                from as int,
                new as int,
            ).push(op@));
        }
        ops.push(op);
        new += 1;
    }
}

/// The kept paths stay as long as no directory is made.
spec fn kept_with_dirs(before: Index, after: Index) -> bool {
    &&& before@.dirs.len() <= after@.dirs.len()
    &&& before@.dirs.len() == after@.dirs.len() ==> after.kept_paths() == before.kept_paths()
}

/// The target of one more event. Says whether there was room for its directories; where
/// there was not, some of them may have been made.
fn draft_event(
    index: &mut Index,
    ops: &mut Vec<DbOp>,
    lookups: &mut Lookups,
    ev: &IndexEvent,
    Ghost(d): Ghost<Draft>,
) -> (r: bool)
    requires
        old(index).wf(),
        old(index)@ == d.index,
        db::op_views(old(ops)@) == d.ops,
        old(lookups).are_for(d.targets),
    ensures
        final(index).wf(),
        r == events::can_draft(d.index, ev@),
        r ==> kept_with_dirs(*old(index), *final(index)),
        r ==> {
            &&& final(index)@ == d.with_event(ev@).index
            &&& db::op_views(final(ops)@) == d.with_event(ev@).ops
            &&& final(lookups).are_for(d.with_event(ev@).targets)
        },
{
    match split_path(event_path(ev).as_slice()) {
        None => {
            lookups.skip(Ghost(d.targets));
        },
        Some((names, name)) => {
            match ev {
                IndexEvent::Upsert { .. } => {
                    let before: usize = index.dir_count();
                    let id: u32 = match index.try_ensure_chain(&names) {
                        Some(id) => id,
                        None => {
                            return false;
                        },
                    };
                    proof {
                        paths::law_ensure_keeps(d.index, NO_DIR, path::parent_names(ev@.path()));
                    }
                    note_dirs(index, before, ops);
                    lookups.want(id, name, Ghost(d.targets));
                },
                _ => match index.dir_by_chain(&names) {
                    Some(id) => {
                        lookups.want(id, name, Ghost(d.targets));
                    },
                    None => {
                        lookups.skip(Ghost(d.targets));
                    },
                },
            }
        },
    }
    true
}

/// The progress that the parts stand for.
spec fn stands_at(index: Index, ops: Seq<DbOp>, out: EventOutcome, p: Progress) -> bool {
    &&& index.wf()
    &&& index@ == p.index
    &&& db::op_views(ops) == p.ops
    &&& out == p.outcome
}

fn entry_flags(name: &[u8], is_dir: bool) -> (f: u8)
    ensures
        f == events::new_flags(name@, is_dir),
{
    let mut f: u8 = if is_dir {
        flags::DIR
    } else {
        0
    };
    if name.len() > 0 && name[0] == 46 {
        f = f | flags::HIDDEN;
    }
    f
}

/// An upsert takes effect. Says whether there was room for what it adds.
fn upsert(
    index: &mut Index,
    ops: &mut Vec<DbOp>,
    out: &mut EventOutcome,
    target: &(u32, Vec<u8>),
    existing: Option<u32>,
    size: u64,
    mtime: i64,
    is_dir: bool,
    Ghost(p): Ghost<Progress>,
    Ghost(ev): Ghost<EventView>,
) -> (r: bool)
    requires
        stands_at(*old(index), old(ops)@, *old(out), p),
        ev matches EventView::Upsert { path, size: s, mtime: m, is_dir: d } && s == size && m == mtime && d
            == is_dir,
        paths::is_place(p.index, target.0),
        existing matches Some(id) ==> id < p.index.slots.len(),
    ensures
        final(index).wf(),
        r == events::can_apply(p.index, ev, Some(Target { dir: target.0, name: target.1@ }), existing),
        r ==> kept_with_dirs(*old(index), *final(index)),
        r ==> stands_at(
            *final(index),
            final(ops)@,
            *final(out),
            p.with_event(ev, Some(Target { dir: target.0, name: target.1@ }), existing),
        ),
{
    let dir: u32 = target.0;
    let name: &[u8] = target.1.as_slice();
    let id: u32 = match existing {
        Some(id) => {
            index.update_entry(id, size, mtime);
            out.updated = out.updated.saturating_add(1);
            id
        },
        None => {
            proof {
                events::lemma_flags(name@, is_dir);
            }
            if !index.fits_entry(name) {
                return false;
            }
            let id: u32 = index.push_entry(dir, name, entry_flags(name, is_dir), size, mtime);
            if is_dir && index.child_dir(dir, name).is_none() {
                if !index.fits_dir(name) {
                    return false;
                }
                let new: u32 = index.add_dir(dir, name);
                let op: DbOp = DbOp::AddDir { id: new, parent: dir, name: vstd::slice::slice_to_vec(name) };
                proof {
                    lemma_push_op(ops@, op);
                }
                ops.push(op);
            }
            out.added = out.added.saturating_add(1);
            id
        },
    };
    let e: Entry = index.entry(id);
    let op: DbOp = DbOp::Upsert {
        id,
        dir: e.dir,
        name: vstd::slice::slice_to_vec(name),
        size: e.size,
        mtime: e.mtime,
        flags: e.flags,
    };
    proof {
        lemma_push_op(ops@, op);
    }
    ops.push(op);
    true
}

/// The entry is removed, where there is one.
fn remove(
    index: &mut Index,
    ops: &mut Vec<DbOp>,
    out: &mut EventOutcome,
    existing: Option<u32>,
    Ghost(p): Ghost<Progress>,
)
    requires
        stands_at(*old(index), old(ops)@, *old(out), p),
        existing matches Some(id) ==> id < p.index.slots.len(),
    ensures
        stands_at(*final(index), final(ops)@, *final(out), p.removed_if(existing)),
        kept_with_dirs(*old(index), *final(index)),
{
    if let Some(id) = existing {
        index.remove_entry(id);
        let op: DbOp = DbOp::Delete { id };
        proof {
            lemma_push_op(ops@, op);
        }
        ops.push(op);
        out.removed = out.removed.saturating_add(1);
    }
}

/// The subtree of a directory is removed, where the directory exists.
fn prune(
    index: &mut Index,
    ops: &mut Vec<DbOp>,
    out: &mut EventOutcome,
    place: &[u8],
    Ghost(p): Ghost<Progress>,
)
    requires
        stands_at(*old(index), old(ops)@, *old(out), p),
    ensures
        stands_at(
            *final(index),
            final(ops)@,
            *final(out),
            p.pruned(p.index.lookup(NO_DIR, path::named_components(place@))),
        ),
{
    if let Some(dir) = index.dir_by_path(place) {
        proof {
            paths::lemma_lookup(p.index, NO_DIR, path::named_components(place@));
        }
        let ids: Vec<u32> = index.remove_dir_subtree(dir);
        let n: usize = ids.len();
        let mut i: usize = 0;
        let ghost before = p.ops;
        let ghost counted = p.outcome;
        assert(before + db::laws::deletes(ids@.subrange(0, 0)) =~= before);
        while i < n
            invariant
                n == ids@.len(),
                i <= n,
                db::op_views(ops@) == before + db::laws::deletes(ids@.subrange(0, i as int)),
                *out == (EventOutcome { removed: events::raised(counted.removed, i as nat), ..counted }),
            decreases n - i,
        {
            let op: DbOp = DbOp::Delete { id: ids[i] };
            proof {
                lemma_push_op(ops@, op);
                assert(db::laws::deletes(ids@.subrange(0, i + 1)) =~= db::laws::deletes(
                    ids@.subrange(0, i as int),
                ).push(op@));
            }
            ops.push(op);
            out.removed = out.removed.saturating_add(1);
            i += 1;
        }
        assert(ids@.subrange(0, n as int) =~= ids@);
    }
}

/// One event takes effect. Says whether there was room for what it adds.
fn apply_event(
    index: &mut Index,
    ops: &mut Vec<DbOp>,
    out: &mut EventOutcome,
    ev: &IndexEvent,
    target: &(u32, Vec<u8>),
    existing: Option<u32>,
    Ghost(p): Ghost<Progress>,
) -> (r: bool)
    requires
        stands_at(*old(index), old(ops)@, *old(out), p),
        paths::is_place(p.index, target.0),
        existing matches Some(id) ==> id < p.index.slots.len(),
    ensures
        final(index).wf(),
        r == events::can_apply(p.index, ev@, Some(Target { dir: target.0, name: target.1@ }), existing),
        r && !(ev is RemoveDir) ==> kept_with_dirs(*old(index), *final(index)),
        r ==> stands_at(
            *final(index),
            final(ops)@,
            *final(out),
            p.with_event(ev@, Some(Target { dir: target.0, name: target.1@ }), existing),
        ),
{
    match ev {
        IndexEvent::Upsert { path: _, size, mtime, is_dir } => {
            upsert(index, ops, out, target, existing, *size, *mtime, *is_dir, Ghost(p), Ghost(ev@))
        },
        IndexEvent::Remove { .. } => {
            remove(index, ops, out, existing, Ghost(p));
            true
        },
        IndexEvent::RemoveDir { path } => {
            remove(index, ops, out, existing, Ghost(p));
            prune(index, ops, out, path.as_slice(), Ghost(p.removed_if(existing)));
            true
        },
    }
}

/// The targets of a batch; the directories that lead to upserts are made, where there
/// is room for them.
fn draft(index: &mut Index, ops: &mut Vec<DbOp>, batch: &[IndexEvent]) -> (r: Option<Lookups>)
    requires
        old(index).wf(),
        old(ops)@.len() == 0,
    ensures
        final(index).wf(),
        r is Some == events::drafts_fit(old(index)@, events::event_views(batch@)),
        r is Some ==> kept_with_dirs(*old(index), *final(index)),
        r matches Some(lookups) ==> {
            let d = events::draft_of(old(index)@, events::event_views(batch@));
            &&& final(index)@ == d.index
            &&& db::op_views(final(ops)@) == d.ops
            &&& lookups.are_for(d.targets)
        },
{
    let ghost v = index@;
    let ghost all = events::event_views(batch@);
    let n: usize = batch.len();
    let mut lookups: Lookups = Lookups { wanted: Vec::new(), places: Vec::new() };
    let mut i: usize = 0;
    proof {
        assert(all.subrange(0, 0).len() == 0);
        assert(db::op_views(ops@) =~= Seq::empty());
        reveal(events::drafts_fit);
        assert(events::drafts_fit(v, all.subrange(0, 0)));
    }
    while i < n
        invariant
            v == old(index)@,
            all == events::event_views(batch@),
            n == batch@.len(),
            i <= n,
            events::drafts_fit(v, all.subrange(0, i as int)),
            index.wf(),
            index@ == events::draft_of(v, all.subrange(0, i as int)).index,
            kept_with_dirs(*old(index), *index),
            db::op_views(ops@) == events::draft_of(v, all.subrange(0, i as int)).ops,
            lookups.are_for(events::draft_of(v, all.subrange(0, i as int)).targets),
        decreases n - i,
    {
        let ghost before = all.subrange(0, i as int);
        let ghost next = all.subrange(0, i + 1);
        let ev: &IndexEvent = &batch[i];
        proof {
            assert(next.drop_last() =~= before);
            assert(next.last() == ev@);
            assert(all[i as int] == ev@);
        }
        if !draft_event(index, ops, &mut lookups, ev, Ghost(events::draft_of(v, before))) {
            proof {
                if events::drafts_fit(v, all) {
                    events::lemma_can_draft(v, all, i as int);
                }
            }
            return None;
        }
        proof {
            events::lemma_longer_drafts(v, before, ev@);
            assert(before.push(ev@) =~= next);
        }
        i += 1;
    }
    assert(all.subrange(0, n as int) =~= all);
    Some(lookups)
}

/// Folds a batch into the index, as long as there is room: the events one after the
/// other, then compaction where more than a quarter of the slots are tombstones.
/// Returns the database writes that the batch asks for, and what it did. Where the
/// room does not suffice, part of the batch may have been folded in.
fn try_batch(index: &mut Index, batch: &[IndexEvent]) -> (r: Option<(Vec<DbOp>, EventOutcome)>)
    requires
        old(index).wf(),
    ensures
        final(index).wf(),
        r is Some == events::has_room(old(index)@, events::event_views(batch@)),
        r is Some && events::keeps_tree(old(index)@, events::event_views(batch@)) ==> final(index).kept_paths()
            == old(index).kept_paths(),
        r matches Some(done) ==> {
            let p = events::batch_of(old(index)@, events::event_views(batch@));
            &&& final(index)@ == p.index
            &&& db::op_views(done.0@) == p.ops
            &&& done.1 == p.outcome
        },
{
    let ghost v = index@;
    let ghost all = events::event_views(batch@);
    let ghost d = events::draft_of(v, all);
    let n: usize = batch.len();
    if index.name_bytes() > 0xFFFF_FFFF || index.dir_name_bytes() > 0xFFFF_FFFF {
        return None;
    }
    let mut ops: Vec<DbOp> = Vec::new();
    let mut out: EventOutcome = EventOutcome::default();
    let lookups: Lookups = match draft(index, &mut ops, batch) {
        Some(l) => l,
        None => {
            return None;
        },
    };
    let found: Vec<Option<u32>> = index.find_batch(lookups.wanted.as_slice());
    proof {
        assert(all.subrange(0, n as int) =~= all);
        events::lemma_draft(v, all, n as int);
    }
    let mut i: usize = 0;
    while i < n
        invariant
            v == old(index)@,
            v.wf(),
            events::has_room_until(v, all, i as int),
            all == events::event_views(batch@),
            n == batch@.len(),
            i <= n,
            d == events::draft_of(v, all),
            events::draft_fits(v, all, d),
            lookups.are_for(d.targets),
            found@.len() == lookups.wanted@.len(),
            forall|s: int|
                0 <= s < found@.len() ==> #[trigger] found@[s] == d.index.find(
                    lookups.wanted@[s].0,
                    lookups.wanted@[s].1@,
                ),
            stands_at(*index, ops@, out, events::progress_of(v, all, i as nat)),
            (forall|k: int| 0 <= k < i ==> !((#[trigger] all[k]) is RemoveDir)) ==> kept_with_dirs(
                *old(index),
                *index,
            ),
        decreases n - i,
    {
        let ghost p = events::progress_of(v, all, i as nat);
        let ghost t = d.targets[i as int];
        let ev: &IndexEvent = &batch[i];
        proof {
            assert(lookups.is_for(i as int, t));
            assert(all[i as int] == ev@);
            events::lemma_progress(v, all, i as int);
            events::lemma_found_is_slot(d.index, t);
        }
        if let Some(place) = lookups.places[i] {
            assert(found@[place as int] == events::find_target(d.index, t));
            if !apply_event(
                index,
                &mut ops,
                &mut out,
                ev,
                &lookups.wanted[place],
                found[place],
                Ghost(p),
            ) {
                proof {
                    if events::has_room(v, all) {
                        events::lemma_can_apply(v, all, i as int);
                    }
                }
                return None;
            }
        }
        assert(events::step_fits(v, all, i as int)) by {
            reveal(events::step_fits);
        }
        i += 1;
    }
    proof {
        events::lemma_progress(v, all, n as int);
    }
    if index.compact_if_needed(1, 4) {
        out.compacted = true;
        ops = Vec::new();
        ops.push(DbOp::FullResave);
        assert(db::op_views(ops@) =~= seq![db::OpView::FullResave]);
    }
    Some((ops, out))
}

/// Whether the index has room for more than a batch can add.
fn fits_easily(index: &Index, batch: &[IndexEvent]) -> (r: bool)
    ensures
        r == events::fits_easily(index@, events::event_views(batch@)),
{
    let n: usize = batch.len();
    let ghost all = events::event_views(batch@);
    let mut cost: u128 = 0;
    let mut i: usize = 0;
    assert(all.subrange(0, 0).len() == 0);
    while i < n
        invariant
            n == batch@.len(),
            i <= n,
            all == events::event_views(batch@),
            cost == events::batch_cost(all.subrange(0, i as int)),
            cost <= i * 0x1_0000_0000_0000_0000,
        decreases n - i,
    {
        let ev: &IndexEvent = &batch[i];
        assert(all[i as int] == ev@);
        proof {
            let next = all.subrange(0, i + 1);
            assert(next.drop_last() =~= all.subrange(0, i as int));
            assert(next.last() == ev@);
        }
        cost = cost + event_path(ev).len() as u128 + 1;
        i += 1;
    }
    assert(all.subrange(0, n as int) =~= all);
    let limit: u128 = 0xFFFF_FFFF;
    index.dir_count() as u128 + cost <= limit && index.dir_name_bytes() as u128 + cost <= limit
        && index.len() as u128 + cost <= limit && index.name_bytes() as u128 + cost <= limit
}

/// Whether the index has room for a batch. Close to the limits the batch is tried on a
/// copy.
pub fn batch_fits(index: &Index, batch: &[IndexEvent]) -> (r: bool)
    requires
        index.wf(),
    ensures
        r == events::has_room(index@, events::event_views(batch@)),
{
    if fits_easily(index, batch) {
        proof {
            events::law_easy_fit_is_a_fit(index@, events::event_views(batch@));
        }
        return true;
    }
    let mut copy: Index = index.copy();
    try_batch(&mut copy, batch).is_some()
}

/// Folds a batch into the index: the events one after the other, then compaction
/// where more than a quarter of the slots are tombstones. Returns the database
/// writes that the batch asks for, and what it did.
pub fn apply_batch(index: &mut Index, batch: &[IndexEvent]) -> (r: (Vec<DbOp>, EventOutcome))
    requires
        old(index).wf(),
        events::has_room(old(index)@, events::event_views(batch@)),
    ensures
        final(index).wf(),
        events::keeps_tree(old(index)@, events::event_views(batch@)) ==> final(index).kept_paths() == old(
            index,
        ).kept_paths(),
        ({
            let p = events::batch_of(old(index)@, events::event_views(batch@));
            &&& final(index)@ == p.index
            &&& db::op_views(r.0@) == p.ops
            &&& r.1 == p.outcome
        }),
{
    match try_batch(index, batch) {
        Some(done) => done,
        None => (Vec::new(), EventOutcome::default()),
    }
}

} // verus!
