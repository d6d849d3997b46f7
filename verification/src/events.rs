//! Filesystem changes, and what a batch of them does to the index and asks of the
//! database.

use vstd::prelude::*;

use crate::db;
use crate::db::OpView;
use crate::index::NO_DIR;
use crate::model;
use crate::model::flags;
use crate::path;
use crate::tree;
use crate::tree::keeps;
use crate::tree::paths;
use crate::tree::IndexView;

pub mod batch;
pub mod contents;
pub mod counted;
pub mod laws;
pub mod places;

verus! {

/// A filesystem change to fold into the index.
///
/// This is the vocabulary of the watcher seam: the watcher translates debounced
/// notifications into these and hands batches to the engine.
#[derive(Debug, Clone)]
pub enum IndexEvent {
    /// File or directory created or modified.
    Upsert { path: Vec<u8>, size: u64, mtime: i64, is_dir: bool },
    /// A single entry disappeared.
    Remove { path: Vec<u8> },
    /// A directory disappeared: it and everything below it are removed.
    RemoveDir { path: Vec<u8> },
}

/// A filesystem change, as a mathematical value.
pub enum EventView {
    Upsert { path: Seq<u8>, size: u64, mtime: i64, is_dir: bool },
    Remove { path: Seq<u8> },
    RemoveDir { path: Seq<u8> },
}

impl View for IndexEvent {
    type V = EventView;

    open spec fn view(&self) -> EventView {
        match self {
            IndexEvent::Upsert { path, size, mtime, is_dir } => EventView::Upsert {
                path: path@,
                size: *size,
                mtime: *mtime,
                is_dir: *is_dir,
            },
            IndexEvent::Remove { path } => EventView::Remove { path: path@ },
            IndexEvent::RemoveDir { path } => EventView::RemoveDir { path: path@ },
        }
    }
}

impl EventView {
    pub open spec fn path(self) -> Seq<u8> {
        match self {
            EventView::Upsert { path, .. } => path,
            EventView::Remove { path } => path,
            EventView::RemoveDir { path } => path,
        }
    }
}

pub open spec fn event_views(events: Seq<IndexEvent>) -> Seq<EventView> {
    Seq::new(events.len(), |i: int| events[i]@)
}

/// The path that an event is about.
pub fn event_path(ev: &IndexEvent) -> (r: &Vec<u8>)
    ensures
        r@ == ev@.path(),
{
    match ev {
        IndexEvent::Upsert { path, .. } => path,
        IndexEvent::Remove { path } => path,
        IndexEvent::RemoveDir { path } => path,
    }
}

#[derive(Debug, Clone, Copy)]
pub struct EventOutcome {
    pub added: usize,
    pub updated: usize,
    pub removed: usize,
    /// True when the index was compacted, which renumbers ids and forces a full
    /// database rewrite on the next flush.
    pub compacted: bool,
}

impl Default for EventOutcome {
    fn default() -> (r: Self)
        ensures
            r == EventOutcome::nothing(),
    {
        EventOutcome { added: 0, updated: 0, removed: 0, compacted: false }
    }
}

impl EventOutcome {
    /// Nothing happened.
    pub open spec fn nothing() -> EventOutcome {
        EventOutcome { added: 0, updated: 0, removed: 0, compacted: false }
    }
}

/// A count raised, up to the greatest `usize`.
pub open spec fn raised(n: usize, by: nat) -> usize {
    if n + by > usize::MAX {
        usize::MAX
    } else {
        (n + by) as usize
    }
}

/// The entry that an event is about: its directory and its name.
pub struct Target {
    pub dir: u32,
    pub name: Seq<u8>,
}

/// The writes that add directories `from` to `to`.
pub open spec fn added_dirs(v: IndexView, from: int, to: int) -> Seq<OpView> {
    Seq::new(
        (to - from) as nat,
        |i: int|
            OpView::AddDir {
                id: (from + i) as u32,
                parent: v.dirs[from + i].parent,
                name: v.dirs[from + i].name,
            },
    )
}

/// The targets of a batch, and the directories made for them.
pub struct Draft {
    pub index: IndexView,
    pub ops: Seq<OpView>,
    pub targets: Seq<Option<Target>>,
}

impl Draft {
    /// The target of one more event. An upsert makes the directories that lead to
    /// it exist; where none does, as with a lone name, it has no directory. Of
    /// another event nothing is left to do where they do not exist.
    pub open spec fn with_event(self, ev: EventView) -> Draft {
        match path::file_name_of(ev.path()) {
            None => Draft { targets: self.targets.push(None), ..self },
            Some(name) => {
                let names = path::parent_names(ev.path());
                match ev {
                    EventView::Upsert { .. } => {
                        let (w, dir) = self.index.ensure(NO_DIR, names);
                        Draft {
                            index: w,
                            ops: self.ops + added_dirs(w, self.index.dirs.len() as int, w.dirs.len() as int),
                            targets: self.targets.push(Some(Target { dir, name })),
                        }
                    },
                    _ => match self.index.lookup(NO_DIR, names) {
                        Some(dir) => Draft { targets: self.targets.push(Some(Target { dir, name })), ..self },
                        None => Draft { targets: self.targets.push(None), ..self },
                    },
                }
            },
        }
    }
}

/// The targets of a batch, on an index.
pub open spec fn draft_of(v: IndexView, events: Seq<EventView>) -> Draft
    decreases events.len(),
{
    if events.len() == 0 {
        Draft { index: v, ops: Seq::empty(), targets: Seq::empty() }
    } else {
        draft_of(v, events.drop_last()).with_event(events.last())
    }
}

/// What a batch has done so far.
pub struct Progress {
    pub index: IndexView,
    pub ops: Seq<OpView>,
    pub outcome: EventOutcome,
}

/// The flags of a new entry.
pub open spec fn new_flags(name: Seq<u8>, is_dir: bool) -> u8 {
    let f = if is_dir {
        flags::DIR
    } else {
        0u8
    };
    if name.len() > 0 && name[0] == 46 {
        f | flags::HIDDEN
    } else {
        f
    }
}

impl Progress {
    /// An entry was there already: its size and time are set.
    pub open spec fn updated(self, id: u32, size: u64, mtime: i64) -> Progress {
        Progress {
            index: self.index.update_entry(id, size, mtime),
            outcome: EventOutcome { updated: raised(self.outcome.updated, 1), ..self.outcome },
            ..self
        }
    }

    /// A new entry, and with a directory's entry the directory.
    pub open spec fn added(self, t: Target, is_dir: bool, size: u64, mtime: i64) -> Progress {
        let w = self.index.push_entry(t.dir, t.name, new_flags(t.name, is_dir), size, mtime);
        let outcome = EventOutcome { added: raised(self.outcome.added, 1), ..self.outcome };
        if is_dir && w.child_dir(t.dir, t.name) is None {
            Progress {
                index: w.add_dir(t.dir, t.name),
                ops: self.ops.push(OpView::AddDir { id: w.dirs.len() as u32, parent: t.dir, name: t.name }),
                outcome,
            }
        } else {
            Progress { index: w, outcome, ..self }
        }
    }

    /// The write of an entry's slot.
    pub open spec fn noted(self, id: u32, name: Seq<u8>) -> Progress {
        let s = self.index.slots[id as int];
        Progress {
            ops: self.ops.push(
                OpView::Upsert { id, dir: s.dir, name, size: s.size, mtime: s.mtime, flags: s.flags },
            ),
            ..self
        }
    }

    /// An entry removed.
    pub open spec fn removed(self, id: u32) -> Progress {
        Progress {
            index: self.index.remove_entry(id),
            ops: self.ops.push(OpView::Delete { id }),
            outcome: EventOutcome { removed: raised(self.outcome.removed, 1), ..self.outcome },
        }
    }

    /// The entry removed, where there is one.
    pub open spec fn removed_if(self, existing: Option<u32>) -> Progress {
        match existing {
            Some(id) => self.removed(id),
            None => self,
        }
    }

    /// A directory's subtree removed, where the directory exists.
    pub open spec fn pruned(self, dir: Option<u32>) -> Progress {
        match dir {
            Some(d) => {
                let ids = self.index.subtree_entries(d);
                Progress {
                    index: self.index.remove_subtree(d),
                    ops: self.ops + db::laws::deletes(ids),
                    outcome: EventOutcome { removed: raised(self.outcome.removed, ids.len()), ..self.outcome },
                }
            },
            None => self,
        }
    }

    /// What one more event does, whose target is `t` and whose entry was found
    /// under `existing`.
    pub open spec fn with_event(self, ev: EventView, t: Option<Target>, existing: Option<u32>) -> Progress {
        match (t, ev) {
            (None, _) => self,
            (Some(t), EventView::Upsert { path, size, mtime, is_dir }) => match existing {
                Some(id) => self.updated(id, size, mtime).noted(id, t.name),
                None => self.added(t, is_dir, size, mtime).noted(self.index.next_slot(), t.name),
            },
            (Some(t), EventView::Remove { path }) => self.removed_if(existing),
            (Some(t), EventView::RemoveDir { path }) => {
                let p = self.removed_if(existing);
                p.pruned(p.index.lookup(NO_DIR, path::named_components(path)))
            },
        }
    }
}

/// The entry that a target names.
pub open spec fn find_target(v: IndexView, t: Option<Target>) -> Option<u32> {
    match t {
        Some(t) => v.find(t.dir, t.name),
        None => None,
    }
}

/// What the first `k` events of a batch do. Their entries are looked up once,
/// before the first of them takes effect.
pub open spec fn progress_of(v: IndexView, events: Seq<EventView>, k: nat) -> Progress
    decreases k,
{
    let d = draft_of(v, events);
    if k == 0 {
        Progress { index: d.index, ops: d.ops, outcome: EventOutcome::nothing() }
    } else {
        progress_of(v, events, (k - 1) as nat).with_event(
            events[k - 1],
            d.targets[k - 1],
            find_target(d.index, d.targets[k - 1]),
        )
    }
}

/// The share of tombstones calls for compaction: more than a quarter.
pub open spec fn is_littered(v: IndexView) -> bool {
    tree::dead_count(v.slots) * 4 > v.slots.len()
}

/// What a batch does: the events one after the other, then compaction where it is
/// called for.
pub open spec fn batch_of(v: IndexView, events: Seq<EventView>) -> Progress {
    let p = progress_of(v, events, events.len());
    if is_littered(p.index) {
        Progress {
            index: p.index.compacted(),
            ops: seq![OpView::FullResave],
            outcome: EventOutcome { compacted: true, ..p.outcome },
        }
    } else {
        p
    }
}

/// A batch leaves the tree of directories as it is: it makes none, removes none, and
/// calls for no compaction.
pub open spec fn keeps_tree(v: IndexView, events: Seq<EventView>) -> bool {
    let p = batch_of(v, events);
    &&& !p.outcome.compacted
    &&& p.index.dirs.len() == v.dirs.len()
    &&& forall|k: int| 0 <= k < events.len() ==> !((#[trigger] events[k]) is RemoveDir)
}

// ---- what a batch needs -----------------------------------------------------------

/// An upsert whose path names an entry.
pub open spec fn is_placed(ev: EventView) -> bool {
    ev is Upsert && path::file_name_of(ev.path()) is Some
}

/// There is room for the directories that an upsert makes.
pub open spec fn can_draft(v: IndexView, ev: EventView) -> bool {
    is_placed(ev) ==> paths::fits_chain(v, NO_DIR, path::parent_names(ev.path()))
}

/// There is room for the directories that lead to the entries of a batch.
#[verifier::opaque]
pub open spec fn drafts_fit(v: IndexView, events: Seq<EventView>) -> bool {
    forall|k: int|
        0 <= k < events.len() ==> can_draft(draft_of(v, events.subrange(0, k)).index, #[trigger] events[k])
}

/// There is room for what an event adds: an upsert that found no entry adds one, and
/// with a directory's entry the directory where there is none. No other event adds
/// anything.
pub open spec fn can_apply(v: IndexView, ev: EventView, t: Option<Target>, existing: Option<u32>) -> bool {
    match (t, ev, existing) {
        (Some(t), EventView::Upsert { path, size, mtime, is_dir }, None) => {
            let w = v.push_entry(t.dir, t.name, new_flags(t.name, is_dir), size, mtime);
            &&& v.fits_entry(t.name)
            &&& is_dir && w.child_dir(t.dir, t.name) is None ==> w.fits_dir(t.name)
        },
        _ => true,
    }
}

/// There is room for what an event of a batch adds when its turn comes.
#[verifier::opaque]
pub open spec fn step_fits(v: IndexView, events: Seq<EventView>, k: int) -> bool {
    let d = draft_of(v, events);
    can_apply(progress_of(v, events, k as nat).index, events[k], d.targets[k], find_target(d.index, d.targets[k]))
}

/// There is room for what the first `k` events of a batch add, and for the directories
/// of all of them.
pub open spec fn has_room_until(v: IndexView, events: Seq<EventView>, k: int) -> bool {
    &&& v.name_bytes <= u32::MAX
    &&& v.dir_name_bytes <= u32::MAX
    &&& drafts_fit(v, events)
    &&& forall|i: int| 0 <= i < k ==> #[trigger] step_fits(v, events, i)
}

/// There is room for what a batch adds: ids and offsets are within 32 bits.
pub open spec fn has_room(v: IndexView, events: Seq<EventView>) -> bool {
    has_room_until(v, events, events.len() as int)
}

// ---- a bound that is easily found --------------------------------------------------

/// A bound on what a batch adds.
pub open spec fn batch_cost(events: Seq<EventView>) -> nat
    decreases events.len(),
{
    if events.len() == 0 {
        0
    } else {
        batch_cost(events.drop_last()) + events.last().path().len() + 1
    }
}

/// There is room for more than a batch can add.
pub open spec fn fits_easily(v: IndexView, events: Seq<EventView>) -> bool {
    let cost = batch_cost(events);
    &&& v.dirs.len() + cost <= u32::MAX
    &&& v.dir_name_bytes + cost <= u32::MAX
    &&& v.slots.len() + cost <= u32::MAX
    &&& v.name_bytes + cost <= u32::MAX
}

/// What the directories that lead to an event's entry may add.
pub open spec fn lead_cost(ev: EventView) -> nat {
    if path::file_name_of(ev.path()) is Some {
        path::weight(path::parent_names(ev.path()))
    } else {
        0
    }
}

/// What an event's entry itself may add.
pub open spec fn own_cost(ev: EventView) -> nat {
    match path::file_name_of(ev.path()) {
        Some(name) => name.len() + 1,
        None => 0,
    }
}

pub open spec fn lead_costs(events: Seq<EventView>) -> nat
    decreases events.len(),
{
    if events.len() == 0 {
        0
    } else {
        lead_costs(events.drop_last()) + lead_cost(events.last())
    }
}

pub open spec fn own_costs(events: Seq<EventView>) -> nat
    decreases events.len(),
{
    if events.len() == 0 {
        0
    } else {
        own_costs(events.drop_last()) + own_cost(events.last())
    }
}

pub(crate) proof fn lemma_costs(events: Seq<EventView>)
    ensures
        lead_costs(events) + own_costs(events) <= batch_cost(events),
    decreases events.len(),
{
    if events.len() > 0 {
        lemma_costs(events.drop_last());
        let p = events.last().path();
        if path::file_name_of(p) is Some {
            path::lemma_weight_of_split(p);
        }
    }
}

pub(crate) proof fn lemma_costs_monotone(events: Seq<EventView>, k: int)
    requires
        0 <= k <= events.len(),
    ensures
        lead_costs(events.subrange(0, k)) <= lead_costs(events),
        own_costs(events.subrange(0, k)) <= own_costs(events),
    decreases events.len(),
{
    if k == events.len() {
        assert(events.subrange(0, k) =~= events);
    } else {
        assert(events.drop_last().subrange(0, k) =~= events.subrange(0, k));
        lemma_costs_monotone(events.drop_last(), k);
    }
}

pub(crate) proof fn lemma_chain_weight(names: Seq<Seq<u8>>)
    ensures
        names.len() <= path::weight(names),
        paths::chain_bytes(names) <= path::weight(names),
    decreases names.len(),
{
    if names.len() > 0 {
        lemma_chain_weight(names.skip(1));
        let first = names.subrange(0, 1);
        assert(names =~= first + names.skip(1));
        path::lemma_weight_concat(first, names.skip(1));
        assert(first.drop_last().len() == 0);
        assert(path::weight(first.drop_last()) == 0);
        assert(first.last() == names[0]);
    }
}

/// The target has the name of the event's path, and a directory of the index, unless
/// the path of an upsert has none.
pub open spec fn is_aimed(v: IndexView, ev: EventView, t: Target) -> bool {
    &&& path::file_name_of(ev.path()) == Some(t.name)
    &&& v.is_dir(t.dir) || t.dir == NO_DIR && ev is Upsert && path::parent_names(ev.path()).len() == 0
}

/// What drafting keeps and adds.
pub open spec fn draft_fits(v: IndexView, events: Seq<EventView>, d: Draft) -> bool {
    let cost = lead_costs(events);
    &&& d.index.wf()
    &&& paths::extends(v, d.index)
    &&& d.index.slots == v.slots
    &&& d.index.free == v.free
    &&& d.index.name_bytes == v.name_bytes
    &&& d.index.dirs.len() <= v.dirs.len() + cost
    &&& d.index.dir_name_bytes <= v.dir_name_bytes + cost
    &&& v.dir_name_bytes <= u32::MAX ==> d.index.dir_name_bytes <= u32::MAX
    &&& d.targets.len() == events.len()
    &&& forall|i: int|
        0 <= i < events.len() ==> match #[trigger] d.targets[i] {
            Some(t) => is_aimed(d.index, events[i], t),
            None => !is_placed(events[i]),
        }
}

pub(crate) proof fn lemma_can_draft(v: IndexView, events: Seq<EventView>, k: int)
    requires
        drafts_fit(v, events),
        0 <= k < events.len(),
    ensures
        can_draft(draft_of(v, events.subrange(0, k)).index, events[k]),
{
    reveal(drafts_fit);
}

pub(crate) proof fn lemma_can_apply(v: IndexView, events: Seq<EventView>, k: int)
    requires
        has_room_until(v, events, k + 1),
        0 <= k < events.len(),
    ensures
        can_apply(
            progress_of(v, events, k as nat).index,
            events[k],
            draft_of(v, events).targets[k],
            find_target(draft_of(v, events).index, draft_of(v, events).targets[k]),
        ),
{
    assert(step_fits(v, events, k));
    reveal(step_fits);
}

/// A shorter batch needs no more room for its directories.
pub(crate) proof fn lemma_shorter_drafts(v: IndexView, events: Seq<EventView>, n: int)
    requires
        drafts_fit(v, events),
        0 <= n <= events.len(),
    ensures
        drafts_fit(v, events.subrange(0, n)),
{
    let some = events.subrange(0, n);
    assert forall|k: int| 0 <= k < n implies can_draft(draft_of(v, some.subrange(0, k)).index, #[trigger] some[k]) by {
        lemma_can_draft(v, events, k);
        assert(some.subrange(0, k) =~= events.subrange(0, k));
    }
    reveal(drafts_fit);
}

pub(crate) proof fn lemma_draft(v: IndexView, events: Seq<EventView>, k: int)
    requires
        v.wf(),
        drafts_fit(v, events),
        0 <= k <= events.len(),
    ensures
        draft_fits(v, events.subrange(0, k), draft_of(v, events.subrange(0, k))),
    decreases k,
{
    let some = events.subrange(0, k);
    let d = draft_of(v, some);
    if k > 0 {
        lemma_draft(v, events, k - 1);
        assert(some.drop_last() =~= events.subrange(0, k - 1));
        let b = draft_of(v, some.drop_last());
        let ev = some.last();
        assert(ev == events[k - 1]);
        lemma_can_draft(v, events, k - 1);
        assert(d == b.with_event(ev));
        match path::file_name_of(ev.path()) {
            None => {},
            Some(name) => {
                let names = path::parent_names(ev.path());
                lemma_chain_weight(names);
                if is_placed(ev) {
                    paths::law_ensure_keeps(b.index, NO_DIR, names);
                    paths::lemma_extends_trans(v, b.index, d.index);
                } else {
                    paths::lemma_lookup(b.index, NO_DIR, names);
                }
            },
        }
        assert forall|i: int| 0 <= i < some.len() implies match #[trigger] d.targets[i] {
            Some(t) => is_aimed(d.index, some[i], t),
            None => !is_placed(some[i]),
        } by {
            if i < k - 1 {
                assert(d.targets[i] == b.targets[i]);
                assert(some[i] == some.drop_last()[i]);
            }
        }
    } else {
        assert(some.len() == 0);
    }
}

/// What applying keeps and adds.
pub open spec fn progress_fits(v: IndexView, events: Seq<EventView>, k: int, p: Progress) -> bool {
    let d = draft_of(v, events);
    let own = own_costs(events.subrange(0, k));
    &&& p.index.wf()
    &&& d.index.dirs.len() <= p.index.dirs.len() <= d.index.dirs.len() + own
    &&& p.index.dir_name_bytes <= d.index.dir_name_bytes + own
    &&& d.index.slots.len() <= p.index.slots.len() <= d.index.slots.len() + own
    &&& p.index.name_bytes <= d.index.name_bytes + own
    &&& p.index.name_bytes <= u32::MAX
    &&& p.index.dir_name_bytes <= u32::MAX
}

pub(crate) proof fn lemma_flags(name: Seq<u8>, is_dir: bool)
    ensures
        !model::has_dead_bit(new_flags(name, is_dir)),
{
    assert(0u8 & 4 == 0 && 1u8 & 4 == 0 && (0u8 | 8) & 4 == 0 && (1u8 | 8) & 4 == 0) by (bit_vector);
}

/// A found entry is a slot of the index.
pub(crate) proof fn lemma_found_is_slot(v: IndexView, t: Option<Target>)
    requires
        v.wf(),
    ensures
        find_target(v, t) matches Some(id) ==> id < v.slots.len(),
{
    match t {
        Some(t) => {
            tree::removal::law_find_is_exact(v, 0, t.dir, t.name);
        },
        None => {},
    }
}

pub(crate) proof fn lemma_progress(v: IndexView, events: Seq<EventView>, k: int)
    requires
        v.wf(),
        has_room_until(v, events, k),
        0 <= k <= events.len(),
    ensures
        progress_fits(v, events, k, progress_of(v, events, k as nat)),
    decreases k,
{
    let d = draft_of(v, events);
    assert(events.subrange(0, events.len() as int) =~= events);
    lemma_draft(v, events, events.len() as int);
    if k > 0 {
        lemma_progress(v, events, k - 1);
        let b = progress_of(v, events, (k - 1) as nat);
        let some = events.subrange(0, k);
        assert(some.drop_last() =~= events.subrange(0, k - 1));
        assert(some.last() == events[k - 1]);
        lemma_can_apply(v, events, k - 1);
        lemma_step(d, b, events[k - 1], d.targets[k - 1], find_target(d.index, d.targets[k - 1]));
    } else {
        assert(events.subrange(0, 0).len() == 0);
    }
}

/// One event keeps the index well formed and adds at most its own cost.
pub(crate) proof fn lemma_step(d: Draft, b: Progress, ev: EventView, t: Option<Target>, existing: Option<u32>)
    requires
        d.index.wf(),
        b.index.wf(),
        d.index.dirs.len() <= b.index.dirs.len(),
        d.index.slots.len() <= b.index.slots.len(),
        t matches Some(x) ==> paths::is_place(d.index, x.dir) && path::file_name_of(ev.path()) == Some(x.name),
        existing == find_target(d.index, t),
        can_apply(b.index, ev, t, existing),
        b.index.name_bytes <= u32::MAX,
        b.index.dir_name_bytes <= u32::MAX,
    ensures
        ({
            let p = b.with_event(ev, t, existing);
            &&& p.index.wf()
            &&& b.index.dirs.len() <= p.index.dirs.len() <= b.index.dirs.len() + own_cost(ev)
            &&& p.index.dir_name_bytes <= b.index.dir_name_bytes + own_cost(ev)
            &&& b.index.slots.len() <= p.index.slots.len() <= b.index.slots.len() + own_cost(ev)
            &&& p.index.name_bytes <= b.index.name_bytes + own_cost(ev)
            &&& p.index.name_bytes <= u32::MAX
            &&& p.index.dir_name_bytes <= u32::MAX
        }),
{
    lemma_found_is_slot(d.index, t);
    match (t, ev) {
        (None, _) => {},
        (Some(t), EventView::Upsert { path, size, mtime, is_dir }) => match existing {
            Some(id) => {
                keeps::law_update_entry_keeps_wf(b.index, id, size, mtime);
            },
            None => {
                let f = new_flags(t.name, is_dir);
                lemma_flags(t.name, is_dir);
                keeps::law_push_entry_keeps_wf(b.index, t.dir, t.name, f, size, mtime);
                let w = b.index.push_entry(t.dir, t.name, f, size, mtime);
                if is_dir && w.child_dir(t.dir, t.name) is None {
                    keeps::law_add_dir_keeps_wf(w, t.dir, t.name);
                }
            },
        },
        (Some(t), EventView::Remove { path }) => {
            lemma_removed_if(b, existing);
        },
        (Some(t), EventView::RemoveDir { path }) => {
            lemma_removed_if(b, existing);
            let p = b.removed_if(existing);
            let names = path::named_components(path);
            paths::lemma_lookup(p.index, NO_DIR, names);
            match p.index.lookup(NO_DIR, names) {
                Some(top) => {
                    lemma_pruned(p.index, top);
                },
                None => {},
            }
        },
    }
}

proof fn lemma_removed_if(b: Progress, existing: Option<u32>)
    requires
        b.index.wf(),
        existing matches Some(id) ==> id < b.index.slots.len(),
    ensures
        ({
            let p = b.removed_if(existing).index;
            &&& p.wf()
            &&& p.dirs == b.index.dirs
            &&& p.slots.len() == b.index.slots.len()
            &&& p.name_bytes == b.index.name_bytes
            &&& p.dir_name_bytes == b.index.dir_name_bytes
        }),
{
    match existing {
        Some(id) => {
            keeps::law_remove_entry_keeps_wf(b.index, id);
        },
        None => {},
    }
}

pub(crate) proof fn lemma_pruned(v: IndexView, top: u32)
    requires
        v.wf(),
        v.is_dir(top),
    ensures
        ({
            let w = v.remove_subtree(top);
            &&& w.wf()
            &&& w.dirs.len() == v.dirs.len()
            &&& w.slots.len() == v.slots.len()
            &&& w.name_bytes == v.name_bytes
            &&& w.dir_name_bytes == v.dir_name_bytes
        }),
{
    assert(v.dir_wf(top as int));
    keeps::law_detach_keeps_wf(v, top);
    keeps::lemma_live_in(v, v.subtree(top), v.slots.len() as int);
    keeps::lemma_remove_all_keeps_wf(v.detach(top), v.subtree_entries(top));
}

/// One more event whose directories fit.
pub(crate) proof fn lemma_longer_drafts(v: IndexView, events: Seq<EventView>, ev: EventView)
    requires
        drafts_fit(v, events),
        can_draft(draft_of(v, events).index, ev),
    ensures
        drafts_fit(v, events.push(ev)),
{
    let more = events.push(ev);
    assert forall|k: int| 0 <= k < more.len() implies can_draft(draft_of(v, more.subrange(0, k)).index, #[trigger] more[k]) by {
        if k < events.len() {
            lemma_can_draft(v, events, k);
            assert(more.subrange(0, k) =~= events.subrange(0, k));
        } else {
            assert(more.subrange(0, k) =~= events);
        }
    }
    reveal(drafts_fit);
}

proof fn lemma_easy_drafts(v: IndexView, events: Seq<EventView>, k: int)
    requires
        v.wf(),
        fits_easily(v, events),
        0 <= k <= events.len(),
    ensures
        drafts_fit(v, events.subrange(0, k)),
    decreases k,
{
    if k == 0 {
        reveal(drafts_fit);
    } else {
        let before = events.subrange(0, k - 1);
        let ev = events[k - 1];
        lemma_easy_drafts(v, events, k - 1);
        assert(before.subrange(0, k - 1) =~= before);
        lemma_draft(v, before, k - 1);
        lemma_costs(events);
        lemma_costs_monotone(events, k);
        let some = events.subrange(0, k);
        assert(some.drop_last() =~= before);
        assert(some.last() == ev);
        let names = path::parent_names(ev.path());
        lemma_chain_weight(names);
        paths::lemma_missing_is_less(draft_of(v, before).index, NO_DIR, names);
        lemma_longer_drafts(v, before, ev);
        assert(some =~= before.push(ev));
    }
}

proof fn lemma_easy_apply(v: IndexView, ev: EventView, t: Option<Target>, existing: Option<u32>)
    requires
        v.slots.len() + own_cost(ev) <= u32::MAX,
        v.name_bytes + own_cost(ev) <= u32::MAX,
        v.dirs.len() + own_cost(ev) <= u32::MAX,
        v.dir_name_bytes + own_cost(ev) <= u32::MAX,
        t matches Some(x) ==> path::file_name_of(ev.path()) == Some(x.name),
    ensures
        can_apply(v, ev, t, existing),
{
}

proof fn lemma_easy_steps(v: IndexView, events: Seq<EventView>, k: int)
    requires
        v.wf(),
        fits_easily(v, events),
        drafts_fit(v, events),
        0 <= k <= events.len(),
    ensures
        has_room_until(v, events, k),
    decreases k,
{
    if k > 0 {
        lemma_easy_steps(v, events, k - 1);
        assert(events.subrange(0, events.len() as int) =~= events);
        lemma_draft(v, events, events.len() as int);
        lemma_progress(v, events, k - 1);
        lemma_costs(events);
        lemma_costs_monotone(events, k);
        let some = events.subrange(0, k);
        assert(some.drop_last() =~= events.subrange(0, k - 1));
        assert(some.last() == events[k - 1]);
        let d = draft_of(v, events);
        let t = d.targets[k - 1];
        assert(t matches Some(x) ==> is_aimed(d.index, events[k - 1], x));
        let b = progress_of(v, events, (k - 1) as nat).index;
        lemma_easy_apply(b, events[k - 1], t, find_target(d.index, t));
        assert(step_fits(v, events, k - 1)) by {
            reveal(step_fits);
        }
    }
}

/// Where there is room for more than a batch can add, there is room for the batch.
pub proof fn law_easy_fit_is_a_fit(v: IndexView, events: Seq<EventView>)
    requires
        v.wf(),
        fits_easily(v, events),
    ensures
        has_room(v, events),
{
    assert(events.subrange(0, events.len() as int) =~= events);
    lemma_easy_drafts(v, events, events.len() as int);
    lemma_easy_steps(v, events, events.len() as int);
}

} // verus!
