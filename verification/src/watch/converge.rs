//! The index converges to what is on disk.

use vstd::prelude::*;

use crate::events;
use crate::events::contents;
use crate::events::places;
use crate::events::EventView;
use crate::index::NO_DIR;
use crate::path;
use crate::tree::chains;
use crate::tree::keeps;
use crate::tree::paths;
use crate::tree::IndexView;
use crate::watch::diff;
use crate::watch::diff::{Known, Walked};
use crate::watch::laws;

verus! {

/// An index that holds each path once, below the root and without `.` and `..`.
pub open spec fn is_proper(v: IndexView) -> bool {
    &&& v.wf()
    &&& contents::no_twins(v)
    &&& chains::no_twin_dirs(v)
    &&& forall|i: int| #[trigger]
        v.is_live(i) ==> v.is_dir(v.slots[i].dir) && chains::is_plain_chain(chains::place_of(v, i))
}

/// The paths of a walk, as a walk below an absolute path gives them; their names are
/// short enough to be kept whole.
pub open spec fn are_plain(walked: Seq<Walked>) -> bool {
    forall|j: int|
        0 <= j < walked.len() ==> places::is_plain_path((#[trigger] walked[j]).path@) && paths::all_kept(
            walked[j].place(),
        )
}

/// The events of a diff.
pub open spec fn diff_events(known: Seq<Known>, walked: Seq<Walked>) -> Seq<EventView> {
    diff::upserts(known, walked, walked.len()) + diff::removals(known, walked, known.len())
}

/// What a diff starts from.
pub open spec fn is_diff_of(v: IndexView, roots: Seq<Vec<u8>>, known: Seq<Known>, walked: Seq<Walked>) -> bool {
    &&& is_proper(v)
    &&& diff::is_snapshot(v, roots, known)
    &&& laws::is_walk(known, walked)
    &&& are_plain(walked)
    &&& events::has_room(v, diff_events(known, walked))
}

// ---- the events of a diff ------------------------------------------------------------

/// The walked path that an upsert is about.
proof fn lemma_upsert_of(known: Seq<Known>, walked: Seq<Walked>, n: nat, k: int) -> (j: int)
    requires
        n <= walked.len(),
        0 <= k < diff::upserts(known, walked, n).len(),
    ensures
        0 <= j < n,
        diff::upserts(known, walked, n)[k] == walked[j].event(),
        !diff::is_unchanged(known, walked[j]),
        diff::upserts(known, walked, j as nat).len() == k,
    decreases n,
{
    let b = (n - 1) as nat;
    let some = diff::upserts(known, walked, b);
    if k < some.len() {
        lemma_upsert_of(known, walked, b, k)
    } else {
        n - 1
    }
}

/// The upsert of a walked path that is new or changed.
proof fn lemma_upsert_at(known: Seq<Known>, walked: Seq<Walked>, n: nat, j: int) -> (k: int)
    requires
        0 <= j < n <= walked.len(),
        !diff::is_unchanged(known, walked[j]),
    ensures
        0 <= k < diff::upserts(known, walked, n).len(),
        diff::upserts(known, walked, n)[k] == walked[j].event(),
    decreases n,
{
    let b = (n - 1) as nat;
    let some = diff::upserts(known, walked, b);
    if j < b {
        lemma_upsert_at(known, walked, b, j)
    } else {
        some.len() as int
    }
}

/// The known path that a removal is about.
proof fn lemma_removal_of(known: Seq<Known>, walked: Seq<Walked>, n: nat, k: int) -> (r: int)
    requires
        n <= known.len(),
        0 <= k < diff::removals(known, walked, n).len(),
    ensures
        0 <= r < n,
        !(diff::removals(known, walked, n)[k] is Upsert),
        diff::removals(known, walked, n)[k].path() == known[r].path@,
        !diff::was_walked(walked, walked.len() as int, known[r].place()),
    decreases n,
{
    let b = (n - 1) as nat;
    let some = diff::removals(known, walked, b);
    if k < some.len() {
        lemma_removal_of(known, walked, b, k)
    } else {
        n - 1
    }
}

/// The removal of a known path that was not walked.
proof fn lemma_removal_at(known: Seq<Known>, walked: Seq<Walked>, n: nat, r: int) -> (k: int)
    requires
        0 <= r < n <= known.len(),
        !diff::was_walked(walked, walked.len() as int, known[r].place()),
    ensures
        0 <= k < diff::removals(known, walked, n).len(),
        !(diff::removals(known, walked, n)[k] is Upsert),
        diff::removals(known, walked, n)[k].path() == known[r].path@,
    decreases n,
{
    let b = (n - 1) as nat;
    let some = diff::removals(known, walked, b);
    if r < b {
        lemma_removal_at(known, walked, b, r)
    } else {
        some.len() as int
    }
}

/// The entry that a known path tells of.
proof fn lemma_known_entry(v: IndexView, roots: Seq<Vec<u8>>, known: Seq<Known>, r: int) -> (id: int)
    requires
        is_proper(v),
        diff::is_snapshot(v, roots, known),
        0 <= r < known.len(),
    ensures
        v.is_live(id),
        v.is_dir(v.slots[id].dir),
        diff::tells(v, id, known[r]),
        known[r].place() == chains::place_of(v, id),
        places::is_plain_path(known[r].path@),
{
    assert(diff::tells_last(v, roots, known[r]));
    let id = choose|id: int| diff::is_last(v, roots, id) && #[trigger] diff::tells(v, id, known[r]);
    assert(diff::lives_in(v, roots, id));
    assert(v.slot_wf(id));
    chains::lemma_entry_path_of_chain(v, id);
    assert(chains::chain(v, v.slots[id].dir).len() > 0);
    id
}

/// The events of a diff are a batch of plain paths.
proof fn lemma_diff_is_plain(v: IndexView, roots: Seq<Vec<u8>>, known: Seq<Known>, walked: Seq<Walked>)
    requires
        is_diff_of(v, roots, known, walked),
    ensures
        places::is_plain_batch(diff_events(known, walked)),
{
    let ups = diff::upserts(known, walked, walked.len());
    let evs = diff_events(known, walked);
    assert forall|k: int| 0 <= k < evs.len() implies places::is_plain_path((#[trigger] evs[k]).path()) && (evs[k] is Upsert
        ==> paths::all_kept(path::components(evs[k].path()))) by {
        if k < ups.len() {
            let j = lemma_upsert_of(known, walked, walked.len(), k);
            assert(places::is_plain_path(walked[j].path@));
        } else {
            let r = lemma_removal_of(known, walked, known.len(), k - ups.len());
            lemma_known_entry(v, roots, known, r);
        }
    }
}

/// What an event of a diff is about: an upsert about a walked path, a removal about a
/// known one that was not walked.
proof fn lemma_diff_place(
    v: IndexView,
    roots: Seq<Vec<u8>>,
    known: Seq<Known>,
    walked: Seq<Walked>,
    k: int,
    dir: u32,
    name: Seq<u8>,
)
    requires
        is_diff_of(v, roots, known, walked),
        0 <= k < diff_events(known, walked).len(),
        contents::is_about(v, diff_events(known, walked), k, dir, name),
    ensures
        ({
            let d = events::draft_of(v, diff_events(known, walked));
            let place = chains::chain(d.index, dir).push(name);
            let m = diff::upserts(known, walked, walked.len()).len();
            &&& d.index.is_dir(dir)
            &&& path::components(diff_events(known, walked)[k].path()) == place
            &&& if k < m {
                exists|j: int|
                    0 <= j < walked.len() && (#[trigger] walked[j]).place() == place && !diff::is_unchanged(
                        known,
                        walked[j],
                    ) && diff::upserts(known, walked, j as nat).len() == k
            } else {
                !diff::was_walked(walked, walked.len() as int, place)
            }
        }),
{
    let evs = diff_events(known, walked);
    let m = diff::upserts(known, walked, walked.len()).len();
    lemma_diff_is_plain(v, roots, known, walked);
    places::lemma_target(v, evs, k);
    if k < m {
        let j = lemma_upsert_of(known, walked, walked.len(), k);
        assert(walked[j].place() == path::components(evs[k].path()));
    } else {
        lemma_removal_of(known, walked, known.len(), k - m);
    }
}

/// The events of a diff are a tidy batch: upserts first, each about a path of its own.
proof fn lemma_diff_is_tidy(v: IndexView, roots: Seq<Vec<u8>>, known: Seq<Known>, walked: Seq<Walked>)
    requires
        is_diff_of(v, roots, known, walked),
    ensures
        contents::can_take(
            v,
            diff_events(known, walked),
            diff::upserts(known, walked, walked.len()).len() as int,
        ),
{
    let evs = diff_events(known, walked);
    let m = diff::upserts(known, walked, walked.len()).len() as int;
    let d = events::draft_of(v, evs);
    lemma_diff_is_plain(v, roots, known, walked);
    assert forall|k: int| 0 <= k < evs.len() implies ((#[trigger] evs[k]) is Upsert <==> k < m) by {
        if k < m {
            lemma_upsert_of(known, walked, walked.len(), k);
        } else {
            lemma_removal_of(known, walked, known.len(), k - m);
        }
    }
    assert forall|i: int, j: int|
        #![trigger d.targets[i], d.targets[j]]
        0 <= i < m && i < j < evs.len() && d.targets[i] is Some implies d.targets[i] != d.targets[j] by {
        if d.targets[i] == d.targets[j] {
            let t = d.targets[i]->0;
            assert(contents::is_about(v, evs, i, t.dir, t.name));
            assert(contents::is_about(v, evs, j, t.dir, t.name));
            lemma_diff_place(v, roots, known, walked, i, t.dir, t.name);
            lemma_diff_place(v, roots, known, walked, j, t.dir, t.name);
            let place = chains::chain(d.index, t.dir).push(t.name);
            let a = choose|a: int|
                0 <= a < walked.len() && (#[trigger] walked[a]).place() == place && !diff::is_unchanged(
                    known,
                    walked[a],
                ) && diff::upserts(known, walked, a as nat).len() == i;
            if j < m {
                let b = choose|b: int|
                    0 <= b < walked.len() && (#[trigger] walked[b]).place() == place && !diff::is_unchanged(
                        known,
                        walked[b],
                    ) && diff::upserts(known, walked, b as nat).len() == j;
                assert(walked[a].place() == walked[b].place());
                assert(a == b);
            } else {
                assert(diff::was_walked(walked, walked.len() as int, walked[a].place()));
            }
        }
    }
    assert(evs.subrange(0, evs.len() as int) =~= evs);
    events::lemma_draft(v, evs, evs.len() as int);
    assert forall|i: int| 0 <= i < m implies (#[trigger] d.targets[i] matches Some(t) ==> t.dir != NO_DIR
        && t.name.len() <= crate::arena::MAX_NAME_LEN) by {
        places::lemma_target(v, evs, i);
        assert(evs[i] is Upsert);
        match d.targets[i] {
            Some(t) => {
                let c = path::components(evs[i].path());
                assert(c[c.len() - 1] == t.name);
            },
            None => {},
        }
    }
}

/// No removal of a diff takes away what was walked.
proof fn lemma_walked_stays(
    v: IndexView,
    roots: Seq<Vec<u8>>,
    known: Seq<Known>,
    walked: Seq<Walked>,
    a: int,
    dir: u32,
    name: Seq<u8>,
)
    requires
        is_diff_of(v, roots, known, walked),
        0 <= a < walked.len(),
        events::draft_of(v, diff_events(known, walked)).index.is_dir(dir),
        chains::chain(events::draft_of(v, diff_events(known, walked)).index, dir).push(name) == walked[a].place(),
    ensures
        !contents::is_taken(
            v,
            diff_events(known, walked),
            diff::upserts(known, walked, walked.len()).len() as int,
            diff_events(known, walked).len() as int,
            dir,
            name,
        ),
{
    let evs = diff_events(known, walked);
    let m = diff::upserts(known, walked, walked.len()).len() as int;
    reveal(contents::is_taken);
    assert(diff::was_walked(walked, walked.len() as int, walked[a].place()));
    assert forall|j: int| m <= j < evs.len() implies !#[trigger] contents::is_about(v, evs, j, dir, name)
        && !contents::takes_along(v, evs, j, dir) by {
        if contents::is_about(v, evs, j, dir, name) {
            lemma_diff_place(v, roots, known, walked, j, dir, name);
        }
        if contents::takes_along(v, evs, j, dir) {
            lemma_not_along(v, roots, known, walked, a, j, dir, name);
        }
    }
}

/// No removal of a diff takes along what was walked.
#[verifier::rlimit(40)]
proof fn lemma_not_along(
    v: IndexView,
    roots: Seq<Vec<u8>>,
    known: Seq<Known>,
    walked: Seq<Walked>,
    a: int,
    j: int,
    dir: u32,
    name: Seq<u8>,
)
    requires
        is_diff_of(v, roots, known, walked),
        0 <= a < walked.len(),
        events::draft_of(v, diff_events(known, walked)).index.is_dir(dir),
        chains::chain(events::draft_of(v, diff_events(known, walked)).index, dir).push(name) == walked[a].place(),
        diff::upserts(known, walked, walked.len()).len() <= j < diff_events(known, walked).len(),
    ensures
        !contents::takes_along(v, diff_events(known, walked), j, dir),
{
    let evs = diff_events(known, walked);
    let m = diff::upserts(known, walked, walked.len()).len();
    let d = events::draft_of(v, evs);
    if contents::takes_along(v, evs, j, dir) {
        let r = lemma_removal_of(known, walked, known.len(), j - m);
        lemma_known_entry(v, roots, known, r);
        let removed = known[r].place();
        places::lemma_plain_path(known[r].path@);
        assert(evs.subrange(0, evs.len() as int) =~= evs);
        events::lemma_draft(v, evs, evs.len() as int);
        events::lemma_progress(v, evs, j);
        places::lemma_progress_names(v, evs, j);
        let before = events::progress_of(v, evs, j as nat);
        let existing = events::find_target(d.index, d.targets[j]);
        events::lemma_found_is_slot(d.index, d.targets[j]);
        let q = before.removed_if(existing).index;
        match existing {
            Some(id) => {
                keeps::law_remove_entry_keeps_wf(before.index, id);
            },
            None => {},
        }
        assert(q.dirs == before.index.dirs);
        assert(d.index.wf() && q.wf());
        assert(chains::keeps_names(d.index, q));
        chains::lemma_chain_kept(d.index, q, dir);
        chains::lemma_lookup_gives_chain(q, NO_DIR, removed);
        let top = q.lookup(NO_DIR, removed)->0;
        assert(Seq::<Seq<u8>>::empty() + removed =~= removed);
        chains::lemma_subtree_chain(q, dir, top);
        assert(walked[a].place().subrange(0, removed.len() as int) =~= removed);
        assert(laws::leads_to(known[r].place(), walked[a].place()));
    }
}

/// An entry of the index with this path, size and time is live.
pub open spec fn shows(w: IndexView, i: int, place: Seq<Seq<u8>>, size: u64, mtime: i64) -> bool {
    &&& w.is_live(i)
    &&& path::components(w.entry_path(i)) == place
    &&& w.slots[i].size == size
    &&& w.slots[i].mtime == mtime
}

/// An entry that the index says something of after a batch has the path of its place.
proof fn lemma_entry_after(v: IndexView, evs: Seq<EventView>, dir: u32, name: Seq<u8>) -> (id: int)
    requires
        v.wf(),
        events::has_room(v, evs),
        events::draft_of(v, evs).index.is_dir(dir),
        chains::is_plain_chain(chains::chain(events::draft_of(v, evs).index, dir).push(name)),
        contents::said(events::progress_of(v, evs, evs.len()).index, dir, name) is Some,
    ensures
        ({
            let w = events::progress_of(v, evs, evs.len()).index;
            let a = contents::said(w, dir, name)->0;
            &&& shows(w, id, chains::chain(events::draft_of(v, evs).index, dir).push(name), a.size, a.mtime)
            &&& w.slots[id].dir == dir
            &&& w.slots[id].name == name
        }),
{
    let d = events::draft_of(v, evs);
    let w = events::progress_of(v, evs, evs.len()).index;
    events::lemma_progress(v, evs, evs.len() as int);
    places::lemma_progress_names(v, evs, evs.len() as int);
    contents::lemma_find(w, dir, name);
    let id = w.find(dir, name)->0 as int;
    chains::lemma_chain_kept(d.index, w, dir);
    chains::lemma_entry_path_of_chain(w, id);
    id
}

/// After the events of a diff the index shows every walked path with the size and
/// time that the walk found.
pub proof fn law_walked_paths_are_shown(
    v: IndexView,
    roots: Seq<Vec<u8>>,
    known: Seq<Known>,
    walked: Seq<Walked>,
    j: int,
)
    requires
        is_diff_of(v, roots, known, walked),
        0 <= j < walked.len(),
    ensures
        exists|i: int| #[trigger]
            shows(
                events::progress_of(v, diff_events(known, walked), diff_events(known, walked).len()).index,
                i,
                walked[j].place(),
                walked[j].size,
                walked[j].mtime,
            ),
{
    let evs = diff_events(known, walked);
    let m = diff::upserts(known, walked, walked.len()).len() as int;
    let d = events::draft_of(v, evs);
    let place = walked[j].place();
    lemma_diff_is_plain(v, roots, known, walked);
    lemma_diff_is_tidy(v, roots, known, walked);
    assert(places::is_plain_path(walked[j].path@));
    if diff::is_unchanged(known, walked[j]) {
        let r = choose|r: int|
            0 <= r < known.len() && (#[trigger] known[r]).place() == place && known[r].size == walked[j].size
                && known[r].mtime == walked[j].mtime && known[r].is_dir == walked[j].is_dir;
        let id = lemma_known_entry(v, roots, known, r);
        let (dir, name) = (v.slots[id].dir, v.slots[id].name);
        contents::lemma_drafted(v, evs, dir, name);
        assert(evs.subrange(0, evs.len() as int) =~= evs);
        events::lemma_draft(v, evs, evs.len() as int);
        assert(chains::keeps_names(v, d.index));
        chains::lemma_chain_kept(v, d.index, dir);
        lemma_walked_stays(v, roots, known, walked, j, dir, name);
        assert forall|i: int| 0 <= i < m implies !#[trigger] contents::is_about(v, evs, i, dir, name) by {
            if contents::is_about(v, evs, i, dir, name) {
                lemma_diff_place(v, roots, known, walked, i, dir, name);
                let a = choose|a: int|
                    0 <= a < walked.len() && (#[trigger] walked[a]).place() == place && !diff::is_unchanged(
                        known,
                        walked[a],
                    ) && diff::upserts(known, walked, a as nat).len() == i;
                assert(walked[a].place() == walked[j].place());
                assert(a == j);
            }
        }
        contents::law_batch_leaves_exactly(v, evs, m, dir, name);
        assert(contents::holds(v, id, dir, name));
        contents::lemma_found(v, id, dir, name);
        lemma_entry_after(v, evs, dir, name);
    } else {
        let k = lemma_upsert_at(known, walked, walked.len(), j);
        assert(evs[k] == walked[j].event());
        places::lemma_target(v, evs, k);
        let t = d.targets[k]->0;
        assert(contents::is_about(v, evs, k, t.dir, t.name));
        lemma_walked_stays(v, roots, known, walked, j, t.dir, t.name);
        contents::law_batch_leaves_exactly(v, evs, m, t.dir, t.name);
        let i = choose|i: int| 0 <= i < m && #[trigger] contents::is_about(v, evs, i, t.dir, t.name);
        assert(d.targets[i] == d.targets[k]);
        assert(i == k);
        lemma_entry_after(v, evs, t.dir, t.name);
    }
}

/// After the events of a diff the index shows nothing in the walked roots, nor in a
/// directory that was made for it, but what was walked.
pub proof fn law_only_walked_paths_are_shown(
    v: IndexView,
    roots: Seq<Vec<u8>>,
    known: Seq<Known>,
    walked: Seq<Walked>,
    i: int,
)
    requires
        is_diff_of(v, roots, known, walked),
        ({
            let w = events::progress_of(v, diff_events(known, walked), diff_events(known, walked).len()).index;
            w.is_live(i) && (v.is_dir(w.slots[i].dir) ==> diff::in_roots(v, roots, w.slots[i].dir))
        }),
    ensures
        diff::was_walked(
            walked,
            walked.len() as int,
            path::components(
                events::progress_of(v, diff_events(known, walked), diff_events(known, walked).len()).index.entry_path(i),
            ),
        ),
{
    let evs = diff_events(known, walked);
    let m = diff::upserts(known, walked, walked.len()).len() as int;
    let w = events::progress_of(v, evs, evs.len()).index;
    let (dir, name) = (w.slots[i].dir, w.slots[i].name);
    lemma_diff_is_plain(v, roots, known, walked);
    lemma_diff_is_tidy(v, roots, known, walked);
    contents::law_batch_leaves_exactly(v, evs, m, dir, name);
    events::lemma_progress(v, evs, evs.len() as int);
    assert(contents::holds(w, i, dir, name));
    contents::lemma_found(w, i, dir, name);
    assert(contents::said(w, dir, name) is Some);
    if exists|k: int| 0 <= k < m && #[trigger] contents::is_about(v, evs, k, dir, name) {
        let k = choose|k: int| 0 <= k < m && #[trigger] contents::is_about(v, evs, k, dir, name);
        lemma_diff_place(v, roots, known, walked, k, dir, name);
        let at = lemma_entry_after(v, evs, dir, name);
        contents::lemma_found(w, at, dir, name);
        assert(at == i);
    } else {
        assert(contents::said(v, dir, name) is Some);
        lemma_left_alone(v, roots, known, walked, dir, name);
        let at = lemma_entry_after(v, evs, dir, name);
        contents::lemma_found(w, at, dir, name);
        assert(at == i);
    }
}

/// An entry of the walked roots that no event of a diff takes away was walked.
proof fn lemma_left_alone(
    v: IndexView,
    roots: Seq<Vec<u8>>,
    known: Seq<Known>,
    walked: Seq<Walked>,
    dir: u32,
    name: Seq<u8>,
)
    requires
        is_diff_of(v, roots, known, walked),
        contents::said(v, dir, name) is Some,
        v.is_dir(dir) ==> diff::in_roots(v, roots, dir),
        !contents::is_taken(
            v,
            diff_events(known, walked),
            diff::upserts(known, walked, walked.len()).len() as int,
            diff_events(known, walked).len() as int,
            dir,
            name,
        ),
    ensures
        ({
            let d = events::draft_of(v, diff_events(known, walked));
            let place = chains::chain(d.index, dir).push(name);
            &&& d.index.is_dir(dir)
            &&& chains::is_plain_chain(place)
            &&& diff::was_walked(walked, walked.len() as int, place)
        }),
{
    let evs = diff_events(known, walked);
    let m = diff::upserts(known, walked, walked.len()).len() as int;
    let d = events::draft_of(v, evs);
    contents::lemma_find(v, dir, name);
    let id = contents::held_at(v, dir, name)->0 as int;
    assert(v.is_live(id) && v.slot_wf(id));
    assert(diff::lives_in(v, roots, id));
    let place = chains::place_of(v, id);
    chains::lemma_entry_path_of_chain(v, id);
    assert(diff::is_listed(known, place));
    let r = choose|r: int| 0 <= r < known.len() && (#[trigger] known[r]).place() == place;
    assert(evs.subrange(0, evs.len() as int) =~= evs);
    events::lemma_draft(v, evs, evs.len() as int);
    assert(chains::keeps_names(v, d.index));
    chains::lemma_chain_kept(v, d.index, dir);
    if !diff::was_walked(walked, walked.len() as int, place) {
        let k = lemma_removal_at(known, walked, known.len(), r);
        let at = m + k;
        lemma_known_entry(v, roots, known, r);
        assert(evs[at].path() == known[r].path@);
        places::lemma_plain_path(known[r].path@);
        let g = choose|g: int|
            0 <= g < roots.len() && (v.lookup(NO_DIR, path::named_components((#[trigger] roots[g])@)) matches Some(top)
                && v.in_subtree(dir, top));
        let names = path::named_components(roots[g]@);
        let top = v.lookup(NO_DIR, names)->0;
        chains::lemma_chain_leads_to(v, names, top, dir);
        assert(path::parent_names(known[r].path@) =~= chains::chain(v, dir));
        lemma_diff_is_plain(v, roots, known, walked);
        places::lemma_target(v, evs, at);
        assert(path::components(known[r].path@).last() == name);
        assert(contents::is_about(v, evs, at, dir, name));
        reveal(contents::is_taken);
    }
}

} // verus!
