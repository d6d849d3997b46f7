//! What a batch of events leaves in the index, entry by entry.

use vstd::prelude::*;

use crate::arena;
use crate::events;
use crate::events::{EventView, Progress, Target};
use crate::index::NO_DIR;
use crate::path;
use crate::tree::keeps;
use crate::tree::paths;
use crate::tree::removal;
use crate::tree::IndexView;

verus! {

/// No two live entries share their directory and their name.
#[verifier::opaque]
pub open spec fn no_twins(v: IndexView) -> bool {
    forall|i: int, j: int|
        #![trigger v.slots[i], v.slots[j]]
        v.is_live(i) && v.is_live(j) && v.slots[i].dir == v.slots[j].dir && v.slots[i].name == v.slots[j].name ==> i
            == j
}

/// What an entry says of its file.
pub struct Attributes {
    pub flags: u8,
    pub size: u64,
    pub mtime: i64,
}

/// The first live entry with this directory and name, whether or not the directory
/// exists.
pub open spec fn held_at(v: IndexView, dir: u32, name: Seq<u8>) -> Option<u32> {
    v.find_from(0, dir, name)
}

/// What the index says of the entry with this directory and name.
pub open spec fn said(v: IndexView, dir: u32, name: Seq<u8>) -> Option<Attributes> {
    match held_at(v, dir, name) {
        Some(id) => {
            let s = v.slots[id as int];
            Some(Attributes { flags: s.flags, size: s.size, mtime: s.mtime })
        },
        None => None,
    }
}

/// The slot is live and holds the entry with this directory and name.
pub open spec fn holds(v: IndexView, i: int, dir: u32, name: Seq<u8>) -> bool {
    v.is_live(i) && v.slots[i].dir == dir && v.slots[i].name == name
}

/// A live entry without a twin is what a lookup finds.
pub(crate) proof fn lemma_found(v: IndexView, i: int, dir: u32, name: Seq<u8>)
    requires
        no_twins(v),
        v.slots.len() <= u32::MAX,
        holds(v, i, dir, name),
    ensures
        held_at(v, dir, name) == Some(i as u32),
{
    reveal(no_twins);
    removal::law_find_is_exact(v, 0, dir, name);
    match held_at(v, dir, name) {
        Some(id) => {
            assert(v.slots[id as int].dir == v.slots[i].dir);
        },
        None => {
            assert(v.slots[i].dir == dir);
        },
    }
}

/// What is not held is not found.
proof fn lemma_not_found(v: IndexView, dir: u32, name: Seq<u8>)
    requires
        v.slots.len() <= u32::MAX,
        forall|i: int| !#[trigger] holds(v, i, dir, name),
    ensures
        held_at(v, dir, name) is None,
{
    removal::law_find_is_exact(v, 0, dir, name);
    match held_at(v, dir, name) {
        Some(id) => {
            assert(holds(v, id as int, dir, name));
        },
        None => {},
    }
}

/// What is found is held, and what is held under a name that is not found does not
/// exist.
pub(crate) proof fn lemma_find(v: IndexView, dir: u32, name: Seq<u8>)
    requires
        v.slots.len() <= u32::MAX,
    ensures
        match held_at(v, dir, name) {
            Some(id) => holds(v, id as int, dir, name),
            None => forall|i: int| !#[trigger] holds(v, i, dir, name),
        },
{
    removal::law_find_is_exact(v, 0, dir, name);
    if held_at(v, dir, name) is None {
        assert forall|i: int| !#[trigger] holds(v, i, dir, name) by {
            if v.is_live(i) {
                assert(v.slots[i].dir == dir ==> v.slots[i].name != name);
            }
        }
    }
}

/// An entry whose slots did not change is found where it was.
proof fn lemma_find_kept(v: IndexView, w: IndexView, dir: u32, name: Seq<u8>)
    requires
        no_twins(w),
        v.slots.len() <= u32::MAX,
        w.slots.len() <= u32::MAX,
        forall|i: int| #[trigger] holds(v, i, dir, name) ==> holds(w, i, dir, name),
        forall|i: int| #[trigger] holds(w, i, dir, name) ==> holds(v, i, dir, name),
    ensures
        held_at(w, dir, name) == held_at(v, dir, name),
{
    lemma_find(v, dir, name);
    match held_at(v, dir, name) {
        Some(id) => {
            lemma_found(w, id as int, dir, name);
        },
        None => {
            lemma_not_found(w, dir, name);
        },
    }
}

/// An upsert sets what is said of its entry, and leaves every other entry alone.
proof fn lemma_upserted(
    b: Progress,
    t: Target,
    existing: Option<u32>,
    ev: EventView,
    dir: u32,
    name: Seq<u8>,
)
    requires
        b.index.wf(),
        no_twins(b.index),
        ev is Upsert,
        existing == held_at(b.index, t.dir, t.name),
        t.name.len() <= arena::MAX_NAME_LEN,
        existing is None ==> b.index.free.len() > 0 || b.index.slots.len() < u32::MAX,
    ensures
        ({
            let p = b.with_event(ev, Some(t), existing).index;
            &&& no_twins(p)
            &&& p.slots.len() <= u32::MAX
            &&& forall|i: int| #[trigger]
                b.index.is_live(i) ==> p.is_live(i) && p.slots[i].dir == b.index.slots[i].dir && p.slots[i].name
                    == b.index.slots[i].name
            &&& said(p, t.dir, t.name) == Some(
                Attributes {
                    flags: match said(b.index, t.dir, t.name) {
                        Some(a) => a.flags,
                        None => events::new_flags(t.name, ev->is_dir),
                    },
                    size: ev->size,
                    mtime: ev->mtime,
                },
            )
            &&& dir != t.dir || name != t.name ==> held_at(p, dir, name) == held_at(b.index, dir, name) && said(p, dir, name)
                == said(b.index, dir, name)
        }),
{
    reveal(no_twins);
    let v = b.index;
    let p = b.with_event(ev, Some(t), existing).index;
    lemma_find(v, t.dir, t.name);
    let at = match existing {
        Some(id) => id as int,
        None => v.next_slot() as int,
    };
    if existing is None {
        events::lemma_flags(t.name, ev->is_dir);
        if v.free.len() > 0 {
            assert(v.free[v.free.len() - 1] < v.slots.len() && v.is_dead(v.free[v.free.len() - 1] as int));
        }
        assert(arena::kept_name(t.name) == t.name);
        let f = events::new_flags(t.name, ev->is_dir);
        assert(p.slots == v.push_entry(t.dir, t.name, f, ev->size, ev->mtime).slots);
    } else {
        assert(p.slots == v.update_entry(existing->0, ev->size, ev->mtime).slots);
    }
    assert(p.slots.len() <= u32::MAX);
    assert(holds(p, at, t.dir, t.name));
    assert forall|i: int| i != at implies #[trigger] p.is_live(i) == v.is_live(i) && (v.is_live(i) ==> p.slots[i]
        == v.slots[i]) by {}
    assert forall|i: int, j: int|
        #![trigger p.slots[i], p.slots[j]]
        p.is_live(i) && p.is_live(j) && p.slots[i].dir == p.slots[j].dir && p.slots[i].name
            == p.slots[j].name implies i == j by {
        if i != at && j != at {
            assert(v.slots[i].dir == v.slots[j].dir);
        } else if i != at || j != at {
            let other = if i == at {
                j
            } else {
                i
            };
            assert(holds(v, other, t.dir, t.name));
            if existing is Some {
                assert(v.slots[other].dir == v.slots[at].dir);
            }
        }
    }
    lemma_found(p, at, t.dir, t.name);
    if dir != t.dir || name != t.name {
        assert forall|i: int| #[trigger] holds(v, i, dir, name) implies holds(p, i, dir, name) by {}
        assert forall|i: int| #[trigger] holds(p, i, dir, name) implies holds(v, i, dir, name) by {}
        lemma_find_kept(v, p, dir, name);
        lemma_find(v, dir, name);
    }
}

/// The directory lies in the subtree that an event removes.
pub open spec fn sweeps(b: Progress, ev: EventView, existing: Option<u32>, dir: u32) -> bool {
    match ev {
        EventView::RemoveDir { path } => {
            let q = b.removed_if(existing).index;
            q.lookup(NO_DIR, path::named_components(path)) matches Some(top) && q.in_subtree(dir, top)
        },
        _ => false,
    }
}

/// Tombstoning a slot leaves the others alone.
proof fn lemma_tombstoned(v: IndexView, id: u32)
    requires
        v.wf(),
        no_twins(v),
        id < v.slots.len(),
    ensures
        ({
            let w = v.remove_entry(id);
            &&& w.wf()
            &&& no_twins(w)
            &&& w.slots.len() == v.slots.len()
            &&& !w.is_live(id as int)
            &&& forall|i: int| #[trigger]
                w.is_live(i) ==> v.is_live(i) && w.slots[i] == v.slots[i]
            &&& forall|i: int| #[trigger] v.is_live(i) && i != id ==> w.is_live(i)
            &&& forall|i: int|
                0 <= i < v.slots.len() ==> (#[trigger] w.slots[i]).dir == v.slots[i].dir && w.slots[i].name
                    == v.slots[i].name
        }),
{
    reveal(no_twins);
    let w = v.remove_entry(id);
    keeps::law_remove_entry_keeps_wf(v, id);
    keeps::lemma_set_dead(v.slots[id as int].flags);
    assert forall|i: int| #[trigger] w.is_live(i) implies v.is_live(i) && w.slots[i] == v.slots[i] by {}
    assert forall|i: int, j: int|
        #![trigger w.slots[i], w.slots[j]]
        w.is_live(i) && w.is_live(j) && w.slots[i].dir == w.slots[j].dir && w.slots[i].name
            == w.slots[j].name implies i == j by {
        assert(v.is_live(i) && v.is_live(j));
        assert(v.slots[i].dir == v.slots[j].dir);
    }
}

/// Removing a subtree leaves the entries outside alone.
proof fn lemma_swept(v: IndexView, top: u32)
    requires
        v.wf(),
        no_twins(v),
        v.is_dir(top),
    ensures
        ({
            let w = v.remove_subtree(top);
            &&& w.slots.len() == v.slots.len()
            &&& no_twins(w)
            &&& forall|i: int| #[trigger]
                w.is_live(i) ==> v.is_live(i) && w.slots[i] == v.slots[i] && !v.in_subtree(v.slots[i].dir, top)
            &&& forall|i: int| #[trigger]
                v.is_live(i) && !v.in_subtree(v.slots[i].dir, top) ==> w.is_live(i)
            &&& forall|i: int|
                0 <= i < v.slots.len() ==> (#[trigger] w.slots[i]).dir == v.slots[i].dir && w.slots[i].name
                    == v.slots[i].name
        }),
{
    reveal(no_twins);
    let w = v.remove_subtree(top);
    events::lemma_pruned(v, top);
    assert forall|i: int| 0 <= i < v.slots.len() implies {
        &&& #[trigger] w.is_live(i) <==> v.is_live(i) && !v.in_subtree(v.slots[i].dir, top)
        &&& w.is_live(i) ==> w.slots[i] == v.slots[i]
    } by {
        removal::law_remove_subtree_removes_exactly(v, top, i);
    }
    assert forall|i: int| 0 <= i < v.slots.len() implies (#[trigger] w.slots[i]).dir == v.slots[i].dir && w.slots[i].name
        == v.slots[i].name by {
        keeps::lemma_live_in(v, v.subtree(top), v.slots.len() as int);
        lemma_named_still(v.detach(top), v.subtree_entries(top), i);
    }
    assert forall|i: int, j: int|
        #![trigger w.slots[i], w.slots[j]]
        w.is_live(i) && w.is_live(j) && w.slots[i].dir == w.slots[j].dir && w.slots[i].name
            == w.slots[j].name implies i == j by {
        assert(v.slots[i].dir == v.slots[j].dir);
    }
}

/// Tombstoning changes no slot's directory and name.
proof fn lemma_named_still(v: IndexView, ids: Seq<u32>, i: int)
    requires
        0 <= i < v.slots.len(),
        forall|k: int| 0 <= k < ids.len() ==> (#[trigger] ids[k]) < v.slots.len(),
    ensures
        v.remove_all(ids).slots.len() == v.slots.len(),
        v.remove_all(ids).slots[i].dir == v.slots[i].dir,
        v.remove_all(ids).slots[i].name == v.slots[i].name,
    decreases ids.len(),
{
    if ids.len() > 0 {
        assert forall|k: int| 0 <= k < ids.drop_last().len() implies (#[trigger] ids.drop_last()[k])
            < v.slots.len() by {
            assert(ids[k] == ids.drop_last()[k]);
        }
        assert(ids[ids.len() - 1] < v.slots.len());
        lemma_named_still(v, ids.drop_last(), i);
    }
}

/// A removal takes its entry away, and with a directory all that lies in it, and
/// leaves every other entry alone.
proof fn lemma_taken(b: Progress, t: Target, existing: Option<u32>, ev: EventView, dir: u32, name: Seq<u8>)
    requires
        b.index.wf(),
        no_twins(b.index),
        !(ev is Upsert),
        existing matches Some(id) ==> id < b.index.slots.len() && b.index.slots[id as int].dir == t.dir
            && b.index.slots[id as int].name == t.name,
        held_at(b.index, t.dir, t.name) is Some ==> held_at(b.index, t.dir, t.name) == existing,
    ensures
        ({
            let p = b.with_event(ev, Some(t), existing).index;
            &&& no_twins(p)
            &&& p.slots.len() == b.index.slots.len()
            &&& forall|i: int|
                0 <= i < p.slots.len() ==> (#[trigger] p.slots[i]).dir == b.index.slots[i].dir && p.slots[i].name
                    == b.index.slots[i].name
            &&& if (dir == t.dir && name == t.name) || sweeps(b, ev, existing, dir) {
                held_at(p, dir, name) is None
            } else {
                held_at(p, dir, name) == held_at(b.index, dir, name) && said(p, dir, name) == said(b.index, dir, name)
            }
        }),
{
    let v = b.index;
    let q = b.removed_if(existing).index;
    let p = b.with_event(ev, Some(t), existing).index;
    match existing {
        Some(id) => {
            lemma_tombstoned(v, id);
        },
        None => {},
    }
    if let EventView::RemoveDir { path } = ev {
        let names = path::named_components(path);
        paths::lemma_lookup(q, NO_DIR, names);
        match q.lookup(NO_DIR, names) {
            Some(top) => {
                lemma_swept(q, top);
            },
            None => {},
        }
    }
    assert(p.slots.len() == v.slots.len());
    lemma_find(v, t.dir, t.name);
    lemma_find(v, dir, name);
    assert forall|i: int| #[trigger] holds(p, i, dir, name) implies holds(v, i, dir, name) && !sweeps(
        b,
        ev,
        existing,
        dir,
    ) by {
        assert(q.is_live(i));
    }
    if (dir == t.dir && name == t.name) || sweeps(b, ev, existing, dir) {
        assert forall|i: int| !#[trigger] holds(p, i, dir, name) by {
            if holds(p, i, dir, name) {
                lemma_found(v, i, dir, name);
                assert(q.is_live(i));
            }
        }
        lemma_not_found(p, dir, name);
    } else {
        assert forall|i: int| #[trigger] holds(v, i, dir, name) implies holds(p, i, dir, name) by {
            assert(existing != Some(i as u32));
            assert(q.is_live(i));
        }
        lemma_find_kept(v, p, dir, name);
        match held_at(v, dir, name) {
            Some(id) => {
                assert(holds(p, id as int, dir, name));
                assert(q.is_live(id as int));
            },
            None => {},
        }
    }
}

// ---- batches ------------------------------------------------------------------------

/// A batch of `m` upserts and then removals. An upsert shares its entry with no
/// other event, has a directory, and its name is short enough to be kept whole.
pub open spec fn is_tidy(v: IndexView, evs: Seq<EventView>, m: int) -> bool {
    let d = events::draft_of(v, evs);
    &&& 0 <= m <= evs.len()
    &&& forall|k: int| 0 <= k < evs.len() ==> ((#[trigger] evs[k]) is Upsert <==> k < m)
    &&& forall|i: int, j: int|
        #![trigger d.targets[i], d.targets[j]]
        0 <= i < m && i < j < evs.len() && d.targets[i] is Some ==> d.targets[i] != d.targets[j]
    &&& forall|i: int|
        0 <= i < m ==> (#[trigger] d.targets[i] matches Some(t) ==> t.dir != NO_DIR && t.name.len()
            <= arena::MAX_NAME_LEN)
}

/// The event is about the entry with this directory and name.
pub open spec fn is_about(v: IndexView, evs: Seq<EventView>, k: int, dir: u32, name: Seq<u8>) -> bool {
    events::draft_of(v, evs).targets[k] == Some(Target { dir, name })
}

/// The event removes a subtree in which the directory lies.
pub open spec fn takes_along(v: IndexView, evs: Seq<EventView>, k: int, dir: u32) -> bool {
    let d = events::draft_of(v, evs);
    d.targets[k] is Some && sweeps(
        events::progress_of(v, evs, k as nat),
        evs[k],
        events::find_target(d.index, d.targets[k]),
        dir,
    )
}

/// One of the events is about the entry or takes it along with its directory.
#[verifier::opaque]
pub open spec fn is_taken(v: IndexView, evs: Seq<EventView>, from: int, to: int, dir: u32, name: Seq<u8>) -> bool {
    exists|j: int| from <= j < to && (#[trigger] is_about(v, evs, j, dir, name) || takes_along(v, evs, j, dir))
}

proof fn lemma_one_more_taken(v: IndexView, evs: Seq<EventView>, from: int, to: int, dir: u32, name: Seq<u8>)
    requires
        from <= to,
    ensures
        !is_taken(v, evs, from, from, dir, name),
        is_taken(v, evs, from, to + 1, dir, name) == (is_taken(v, evs, from, to, dir, name) || is_about(
            v,
            evs,
            to,
            dir,
            name,
        ) || takes_along(v, evs, to, dir)),
{
    reveal(is_taken);
    if is_taken(v, evs, from, to, dir, name) {
        let j = choose|j: int|
            from <= j < to && (#[trigger] is_about(v, evs, j, dir, name) || takes_along(v, evs, j, dir));
        assert(from <= j < to + 1 && (is_about(v, evs, j, dir, name) || takes_along(v, evs, j, dir)));
    }
    if is_about(v, evs, to, dir, name) || takes_along(v, evs, to, dir) {
        assert(from <= to < to + 1);
    }
}

/// What an upsert makes the index say of its entry. An entry that is there already
/// keeps its flags.
pub open spec fn set_by(v: IndexView, ev: EventView, dir: u32, name: Seq<u8>) -> Attributes {
    Attributes {
        flags: match said(v, dir, name) {
            Some(a) => a.flags,
            None => events::new_flags(name, ev->is_dir),
        },
        size: ev->size,
        mtime: ev->mtime,
    }
}

/// A batch that can be applied to an index without twins.
pub open spec fn can_take(v: IndexView, evs: Seq<EventView>, m: int) -> bool {
    &&& v.wf()
    &&& no_twins(v)
    &&& events::has_room(v, evs)
    &&& is_tidy(v, evs, m)
}

/// Drafting makes directories, and leaves the entries as they are.
pub(crate) proof fn lemma_drafted(v: IndexView, evs: Seq<EventView>, dir: u32, name: Seq<u8>)
    requires
        v.wf(),
        no_twins(v),
        events::has_room(v, evs),
    ensures
        ({
            let d = events::draft_of(v, evs);
            &&& d.index.wf()
            &&& d.index.slots == v.slots
            &&& no_twins(d.index)
            &&& d.targets.len() == evs.len()
            &&& held_at(d.index, dir, name) == held_at(v, dir, name)
            &&& said(d.index, dir, name) == said(v, dir, name)
        }),
{
    reveal(no_twins);
    let d = events::draft_of(v, evs);
    assert(evs.subrange(0, evs.len() as int) =~= evs);
    events::lemma_draft(v, evs, evs.len() as int);
    assert forall|i: int| #[trigger] d.index.is_live(i) == v.is_live(i) by {}
    assert forall|i: int, j: int|
        #![trigger d.index.slots[i], d.index.slots[j]]
        d.index.is_live(i) && d.index.is_live(j) && d.index.slots[i].dir == d.index.slots[j].dir
            && d.index.slots[i].name == d.index.slots[j].name implies i == j by {
        assert(v.slots[i].dir == v.slots[j].dir);
    }
    assert forall|i: int| #[trigger] holds(v, i, dir, name) == holds(d.index, i, dir, name) by {}
    lemma_find_kept(v, d.index, dir, name);
}

/// There is room for the next event of a batch.
proof fn lemma_room(v: IndexView, evs: Seq<EventView>, k: int)
    requires
        v.wf(),
        events::has_room(v, evs),
        0 <= k < evs.len(),
    ensures
        ({
            let d = events::draft_of(v, evs);
            let b = events::progress_of(v, evs, k as nat).index;
            &&& b.wf()
            &&& evs[k] is Upsert && d.targets[k] is Some && events::find_target(d.index, d.targets[k]) is None
                ==> b.free.len() > 0 || b.slots.len() < u32::MAX
        }),
{
    events::lemma_progress(v, evs, k);
    events::lemma_can_apply(v, evs, k);
}

/// The upserts of a batch set what is said of their entries and leave the others.
proof fn lemma_upserts(v: IndexView, evs: Seq<EventView>, m: int, k: int, dir: u32, name: Seq<u8>)
    requires
        can_take(v, evs, m),
        0 <= k <= m,
    ensures
        ({
            let d = events::draft_of(v, evs);
            let b = events::progress_of(v, evs, k as nat).index;
            &&& no_twins(b)
            &&& b.slots.len() <= u32::MAX
            &&& forall|i: int| #[trigger]
                d.index.is_live(i) ==> b.is_live(i) && b.slots[i].dir == d.index.slots[i].dir && b.slots[i].name
                    == d.index.slots[i].name
            &&& forall|i: int|
                0 <= i < k && #[trigger] is_about(v, evs, i, dir, name) ==> said(b, dir, name) == Some(
                    set_by(v, evs[i], dir, name),
                )
            &&& (forall|i: int| 0 <= i < k ==> !#[trigger] is_about(v, evs, i, dir, name)) ==> held_at(b, dir, name)
                == held_at(v, dir, name) && said(b, dir, name) == said(v, dir, name)
        }),
    decreases k,
{
    let d = events::draft_of(v, evs);
    let b = events::progress_of(v, evs, k as nat).index;
    lemma_drafted(v, evs, dir, name);
    if k > 0 {
        let before = events::progress_of(v, evs, (k - 1) as nat);
        let ev = evs[k - 1];
        lemma_upserts(v, evs, m, k - 1, dir, name);
        assert(evs.subrange(0, evs.len() as int) =~= evs);
        events::lemma_draft(v, evs, evs.len() as int);
        match d.targets[k - 1] {
            None => {
                assert(b == before.index);
                assert(!is_about(v, evs, k - 1, dir, name));
            },
            Some(t) => {
                lemma_room(v, evs, k - 1);
                lemma_drafted(v, evs, t.dir, t.name);
                lemma_upserts(v, evs, m, k - 1, t.dir, t.name);
                assert forall|i: int| 0 <= i < k - 1 implies !#[trigger] is_about(v, evs, i, t.dir, t.name) by {
                    assert(d.targets[i] is Some ==> d.targets[i] != d.targets[k - 1]);
                }
                let existing = events::find_target(d.index, d.targets[k - 1]);
                lemma_upserted(before, t, existing, ev, dir, name);
                assert(b == before.with_event(ev, Some(t), existing).index);
                if is_about(v, evs, k - 1, dir, name) {
                    assert(t.dir == dir && t.name == name);
                } else {
                    assert(dir != t.dir || name != t.name);
                }
            },
        }
    }
}

/// The removals of a batch take their entries and what lies below, and leave the
/// others.
proof fn lemma_removals(v: IndexView, evs: Seq<EventView>, m: int, k: int, dir: u32, name: Seq<u8>)
    requires
        can_take(v, evs, m),
        m <= k <= evs.len(),
    ensures
        ({
            let d = events::draft_of(v, evs);
            let a = events::progress_of(v, evs, m as nat).index;
            let b = events::progress_of(v, evs, k as nat).index;
            &&& no_twins(b)
            &&& a.slots.len() == b.slots.len()
            &&& forall|i: int|
                0 <= i < a.slots.len() ==> (#[trigger] b.slots[i]).dir == a.slots[i].dir && b.slots[i].name
                    == a.slots[i].name
            &&& if is_taken(v, evs, m, k, dir, name) {
                held_at(b, dir, name) is None
            } else {
                held_at(b, dir, name) == held_at(a, dir, name) && said(b, dir, name) == said(a, dir, name)
            }
        }),
    decreases k,
{
    let d = events::draft_of(v, evs);
    let a = events::progress_of(v, evs, m as nat).index;
    let b = events::progress_of(v, evs, k as nat).index;
    lemma_upserts(v, evs, m, m, dir, name);
    lemma_one_more_taken(v, evs, m, m, dir, name);
    if k > m {
        lemma_one_more_taken(v, evs, m, k - 1, dir, name);
        let before = events::progress_of(v, evs, (k - 1) as nat);
        let ev = evs[k - 1];
        lemma_removals(v, evs, m, k - 1, dir, name);
        assert(evs.subrange(0, evs.len() as int) =~= evs);
        events::lemma_draft(v, evs, evs.len() as int);
        events::lemma_progress(v, evs, k - 1);
        let existing = events::find_target(d.index, d.targets[k - 1]);
        match d.targets[k - 1] {
            None => {
                assert(b == before.index);
                assert(!is_about(v, evs, k - 1, dir, name) && !takes_along(v, evs, k - 1, dir));
            },
            Some(t) => {
                lemma_drafted(v, evs, t.dir, t.name);
                lemma_upserts(v, evs, m, m, t.dir, t.name);
                lemma_removals(v, evs, m, k - 1, t.dir, t.name);
                assert forall|i: int| 0 <= i < m implies !#[trigger] is_about(v, evs, i, t.dir, t.name) by {
                    assert(d.targets[i] is Some ==> d.targets[i] != d.targets[k - 1]);
                }
                lemma_find(d.index, t.dir, t.name);
                assert(held_at(a, t.dir, t.name) == existing);
                match existing {
                    Some(id) => {
                        assert(d.index.is_live(id as int));
                        assert(a.is_live(id as int));
                    },
                    None => {},
                }
                lemma_taken(before, t, existing, ev, dir, name);
                assert(b == before.with_event(ev, Some(t), existing).index);
                assert(is_about(v, evs, k - 1, dir, name) == (dir == t.dir && name == t.name));
                assert(takes_along(v, evs, k - 1, dir) == sweeps(before, ev, existing, dir));
            },
        }
    }
}

/// What a batch leaves of the entry with this directory and name.
pub open spec fn left_by(v: IndexView, evs: Seq<EventView>, m: int, dir: u32, name: Seq<u8>) -> Option<Attributes> {
    if is_taken(v, evs, m, evs.len() as int, dir, name) {
        None
    } else if exists|i: int| 0 <= i < m && #[trigger] is_about(v, evs, i, dir, name) {
        let i = choose|i: int| 0 <= i < m && #[trigger] is_about(v, evs, i, dir, name);
        Some(set_by(v, evs[i], dir, name))
    } else {
        said(v, dir, name)
    }
}

/// A batch does what its events say and nothing else: an entry that is removed, or
/// lies in a directory that is, is gone; any other that is upserted has the size and
/// time of its event; and every other entry is as it was. No entry gets a twin.
pub proof fn law_batch_leaves_exactly(v: IndexView, evs: Seq<EventView>, m: int, dir: u32, name: Seq<u8>)
    requires
        can_take(v, evs, m),
    ensures
        said(events::progress_of(v, evs, evs.len()).index, dir, name) == left_by(v, evs, m, dir, name),
        no_twins(events::progress_of(v, evs, evs.len()).index),
{
    lemma_upserts(v, evs, m, m, dir, name);
    lemma_removals(v, evs, m, evs.len() as int, dir, name);
}

} // verus!
