//! What the watcher keeps to.

use vstd::prelude::*;

use crate::events::EventView;
use crate::path;
use crate::watch::diff;
use crate::watch::diff::{Known, Walked};
use crate::watch::worker;
use crate::watch::worker::{WatchOutcome, WorkerView};

verus! {

proof fn lemma_prefix_transitive(a: Seq<u8>, b: Seq<u8>, c: Seq<u8>)
    requires
        path::path_starts_with(a, b),
        path::path_starts_with(b, c),
    ensures
        path::path_starts_with(a, c),
{
    let (x, y, z) = (path::components(a), path::components(b), path::components(c));
    assert(x.subrange(0, z.len() as int) =~= x.subrange(0, y.len() as int).subrange(0, z.len() as int));
}

proof fn lemma_prefix_reflexive(a: Seq<u8>)
    ensures
        path::path_starts_with(a, a),
{
    let x = path::components(a);
    assert(x.subrange(0, x.len() as int) =~= x);
}

/// A subtree that is recorded is left to the periodic rescans.
pub proof fn law_recorded_subtree_is_rescanned(w: WorkerView, root: Seq<u8>, p: Seq<u8>)
    requires
        path::path_starts_with(p, root),
    ensures
        w.with_unwatched(root, p).leaves_to_rescans(p),
{
    let after = w.with_unwatched(root, p);
    lemma_prefix_reflexive(p);
    if w.unwatched.len() < worker::MAX_UNWATCHED_TRACKED {
        if w.leaves_to_rescans(p) {
            let i = choose|i: int| 0 <= i < w.unwatched.len() && path::path_starts_with(p, #[trigger] w.unwatched[i]);
            assert(path::path_starts_with(p, after.unwatched[i]));
        } else {
            assert(path::path_starts_with(p, after.unwatched[w.unwatched.len() as int]));
        }
    } else if path::same_path(w.unwatched.last(), root) {
        assert(path::path_starts_with(p, after.unwatched[w.unwatched.len() - 1]));
    } else {
        assert(path::path_starts_with(p, after.unwatched[0]));
    }
}

/// What of a root is left to the rescans stays so when more of the root is
/// recorded.
pub proof fn law_recording_keeps_what_is_rescanned(w: WorkerView, root: Seq<u8>, p: Seq<u8>, q: Seq<u8>)
    requires
        path::path_starts_with(p, root),
        w.leaves_to_rescans(p),
    ensures
        w.with_unwatched(root, q).leaves_to_rescans(p),
{
    let after = w.with_unwatched(root, q);
    let i = choose|i: int| 0 <= i < w.unwatched.len() && path::path_starts_with(p, #[trigger] w.unwatched[i]);
    if w.unwatched.len() < worker::MAX_UNWATCHED_TRACKED || path::same_path(w.unwatched.last(), root) {
        assert(path::path_starts_with(p, after.unwatched[i]));
    } else {
        assert(path::path_starts_with(p, after.unwatched[0]));
    }
}

/// A list of the directories of a root, each followed by what lies below it.
pub open spec fn is_preorder(root: Seq<u8>, dirs: Seq<(Vec<u8>, usize)>) -> bool {
    &&& forall|i: int| 0 <= i < dirs.len() ==> path::path_starts_with((#[trigger] dirs[i]).0@, root)
    &&& forall|i: int, j: int|
        0 <= i < j < worker::past_subtree(dirs, i + 1, dirs[i].1) ==> path::path_starts_with(
            (#[trigger] dirs[j]).0@,
            (#[trigger] dirs[i]).0@,
        )
}

proof fn lemma_frontier_keeps(w: WorkerView, root: Seq<u8>, dirs: Seq<(Vec<u8>, usize)>, i: int, p: Seq<u8>)
    requires
        0 <= i <= dirs.len(),
        path::path_starts_with(p, root),
        w.leaves_to_rescans(p),
    ensures
        w.with_frontier(root, dirs, i).leaves_to_rescans(p),
    decreases dirs.len() - i,
{
    if i < dirs.len() {
        let next = worker::past_subtree(dirs, i + 1, dirs[i].1);
        worker::lemma_past_subtree(dirs, i + 1, dirs[i].1);
        law_recording_keeps_what_is_rescanned(w, root, p, dirs[i].0@);
        lemma_frontier_keeps(w.with_unwatched(root, dirs[i].0@), root, dirs, next, p);
    }
}

/// When the budget runs out, every directory that is then not watched is left to
/// the periodic rescans.
pub proof fn law_frontier_covers_the_rest(
    w: WorkerView,
    root: Seq<u8>,
    dirs: Seq<(Vec<u8>, usize)>,
    i: int,
    j: int,
)
    requires
        is_preorder(root, dirs),
        0 <= i <= j < dirs.len(),
    ensures
        w.with_frontier(root, dirs, i).leaves_to_rescans(dirs[j].0@),
    decreases dirs.len() - i,
{
    let next = worker::past_subtree(dirs, i + 1, dirs[i].1);
    let p = dirs[j].0@;
    let after = w.with_unwatched(root, dirs[i].0@);
    worker::lemma_past_subtree(dirs, i + 1, dirs[i].1);
    assert(path::path_starts_with(dirs[i].0@, root));
    assert(path::path_starts_with(p, root));
    if j < next {
        law_recorded_subtree_is_rescanned(w, root, dirs[i].0@);
        let k = choose|k: int|
            0 <= k < after.unwatched.len() && path::path_starts_with(dirs[i].0@, #[trigger] after.unwatched[k]);
        if j > i {
            lemma_prefix_transitive(p, dirs[i].0@, after.unwatched[k]);
        }
        assert(path::path_starts_with(p, after.unwatched[k]));
        lemma_frontier_keeps(after, root, dirs, next, p);
    } else {
        law_frontier_covers_the_rest(after, root, dirs, next, j);
    }
}

/// The budget is kept: a watch is only asked for where there is room for it.
pub proof fn law_budget_is_kept(w: WorkerView, outcome: WatchOutcome)
    requires
        w.watched <= w.opts.budget,
        !w.is_full(),
    ensures
        w.after_attempt(outcome).watched <= w.opts.budget,
        w.after_attempt(outcome).opts == w.opts,
{
}

/// No more subtrees are tracked one by one than there may be.
pub proof fn law_tracked_subtrees_are_bounded(w: WorkerView, root: Seq<u8>, p: Seq<u8>)
    requires
        w.unwatched.len() <= worker::MAX_UNWATCHED_TRACKED,
    ensures
        w.with_unwatched(root, p).unwatched.len() <= worker::MAX_UNWATCHED_TRACKED,
{
}

// ---- reconciling -------------------------------------------------------------------

/// What is told of a path.
pub struct Told {
    pub size: u64,
    pub mtime: i64,
    pub is_dir: bool,
}

/// What a list of known paths tells of each of them.
pub open spec fn known_listing(known: Seq<Known>) -> Map<Seq<Seq<u8>>, Told> {
    Map::new(
        |place: Seq<Seq<u8>>| diff::is_listed(known, place),
        |place: Seq<Seq<u8>>|
            {
                let k = choose|k: int| 0 <= k < known.len() && (#[trigger] known[k]).place() == place;
                Told { size: known[k].size, mtime: known[k].mtime, is_dir: known[k].is_dir }
            },
    )
}

/// What a walk tells of each path that it came by.
pub open spec fn walked_listing(walked: Seq<Walked>) -> Map<Seq<Seq<u8>>, Told> {
    Map::new(
        |place: Seq<Seq<u8>>| diff::was_walked(walked, walked.len() as int, place),
        |place: Seq<Seq<u8>>|
            {
                let j = choose|j: int| 0 <= j < walked.len() && (#[trigger] walked[j]).place() == place;
                Told { size: walked[j].size, mtime: walked[j].mtime, is_dir: walked[j].is_dir }
            },
    )
}

/// One path leads to the other, or is it.
pub open spec fn leads_to(above: Seq<Seq<u8>>, below: Seq<Seq<u8>>) -> bool {
    above.len() <= below.len() && below.subrange(0, above.len() as int) == above
}

/// A listing after an event: an upsert sets what is told of its path, a removal
/// takes its path away, and the removal of a directory all that lies below, too.
pub open spec fn listing_after(m: Map<Seq<Seq<u8>>, Told>, ev: EventView) -> Map<Seq<Seq<u8>>, Told> {
    match ev {
        EventView::Upsert { path, size, mtime, is_dir } => m.insert(
            path::components(path),
            Told { size, mtime, is_dir },
        ),
        EventView::Remove { path } => m.remove(path::components(path)),
        EventView::RemoveDir { path } => Map::new(
            |place: Seq<Seq<u8>>| m.dom().contains(place) && !leads_to(path::components(path), place),
            |place: Seq<Seq<u8>>| m[place],
        ),
    }
}

/// A listing after some events.
pub open spec fn listing_after_all(m: Map<Seq<Seq<u8>>, Told>, evs: Seq<EventView>) -> Map<Seq<Seq<u8>>, Told>
    decreases evs.len(),
{
    if evs.len() == 0 {
        m
    } else {
        listing_after(listing_after_all(m, evs.drop_last()), evs.last())
    }
}

/// A walk comes by each path once, and by the directories that lead to it: no known
/// path that leads to a walked one was passed over.
pub open spec fn is_walk(known: Seq<Known>, walked: Seq<Walked>) -> bool {
    &&& forall|i: int, j: int|
        0 <= i < j < walked.len() ==> (#[trigger] walked[i]).place() != (#[trigger] walked[j]).place()
    &&& forall|k: int, j: int|
        #![trigger known[k], walked[j]]
        0 <= k < known.len() && 0 <= j < walked.len() && leads_to(known[k].place(), walked[j].place())
            ==> diff::was_walked(walked, walked.len() as int, known[k].place())
}

/// What is told of a walked path.
proof fn lemma_walked_listing(walked: Seq<Walked>, j: int)
    requires
        0 <= j < walked.len(),
        forall|i: int, j: int|
            0 <= i < j < walked.len() ==> (#[trigger] walked[i]).place() != (#[trigger] walked[j]).place(),
    ensures
        walked_listing(walked).dom().contains(walked[j].place()),
        walked_listing(walked)[walked[j].place()] == (Told {
            size: walked[j].size,
            mtime: walked[j].mtime,
            is_dir: walked[j].is_dir,
        }),
{
    let place = walked[j].place();
    assert(diff::was_walked(walked, walked.len() as int, place));
    let c = choose|c: int| 0 <= c < walked.len() && (#[trigger] walked[c]).place() == place;
    assert(walked[c].place() == walked[j].place());
    assert(c == j);
}

/// What is told of a known path.
proof fn lemma_known_listing(known: Seq<Known>, k: int)
    requires
        0 <= k < known.len(),
        diff::known_wf(known),
    ensures
        known_listing(known).dom().contains(known[k].place()),
        known_listing(known)[known[k].place()] == (Told {
            size: known[k].size,
            mtime: known[k].mtime,
            is_dir: known[k].is_dir,
        }),
{
    let place = known[k].place();
    assert(diff::is_listed(known, place));
    let c = choose|c: int| 0 <= c < known.len() && (#[trigger] known[c]).place() == place;
    diff::lemma_known_once(known, c, k);
}

/// After the upserts the walked paths are told as the walk tells them, and the
/// others as they were known.
proof fn lemma_upserted_listing(known: Seq<Known>, walked: Seq<Walked>, n: nat)
    requires
        diff::known_wf(known),
        is_walk(known, walked),
        n <= walked.len(),
    ensures
        ({
            let m = listing_after_all(known_listing(known), diff::upserts(known, walked, n));
            forall|place: Seq<Seq<u8>>| #[trigger]
                m.dom().contains(place) <==> diff::is_listed(known, place) || diff::was_walked(walked, n as int, place)
        }),
        ({
            let m = listing_after_all(known_listing(known), diff::upserts(known, walked, n));
            forall|place: Seq<Seq<u8>>|
                #![trigger m[place]]
                m.dom().contains(place) ==> m[place] == if diff::was_walked(walked, n as int, place) {
                    walked_listing(walked)[place]
                } else {
                    known_listing(known)[place]
                }
        }),
    decreases n,
{
    let m = listing_after_all(known_listing(known), diff::upserts(known, walked, n));
    if n == 0 {
        assert(diff::upserts(known, walked, 0).len() == 0);
        assert(m == known_listing(known));
    } else {
        let b = (n - 1) as nat;
        let w = walked[n - 1];
        lemma_upserted_listing(known, walked, b);
        lemma_walked_listing(walked, n - 1);
        let before = listing_after_all(known_listing(known), diff::upserts(known, walked, b));
        assert forall|place: Seq<Seq<u8>>| #[trigger] diff::was_walked(walked, n as int, place) == (diff::was_walked(
            walked,
            b as int,
            place,
        ) || place == w.place()) by {
            if diff::was_walked(walked, b as int, place) {
                let j = choose|j: int| 0 <= j < b && (#[trigger] walked[j]).place() == place;
                assert(walked[j].place() == place);
            }
            if diff::was_walked(walked, n as int, place) {
                let j = choose|j: int| 0 <= j < n && (#[trigger] walked[j]).place() == place;
                assert(walked[j].place() == place);
            }
            if place == w.place() {
                assert(walked[n - 1].place() == place);
            }
        }
        if diff::is_unchanged(known, w) {
            let k = choose|k: int|
                0 <= k < known.len() && (#[trigger] known[k]).place() == w.place() && known[k].size == w.size
                    && known[k].mtime == w.mtime && known[k].is_dir == w.is_dir;
            lemma_known_listing(known, k);
            assert(m == before);
        } else {
            let evs = diff::upserts(known, walked, n);
            assert(evs.drop_last() =~= diff::upserts(known, walked, b));
            assert(evs.last() == w.event());
            assert(m == before.insert(w.place(), Told { size: w.size, mtime: w.mtime, is_dir: w.is_dir }));
        }
    }
}

proof fn lemma_listing_concat(m: Map<Seq<Seq<u8>>, Told>, a: Seq<EventView>, b: Seq<EventView>)
    ensures
        listing_after_all(m, a + b) == listing_after_all(listing_after_all(m, a), b),
    decreases b.len(),
{
    if b.len() == 0 {
        assert(a + b =~= a);
    } else {
        lemma_listing_concat(m, a, b.drop_last());
        assert((a + b).drop_last() =~= a + b.drop_last());
        assert((a + b).last() == b.last());
    }
}

/// The removals take away the known paths that were not walked, and nothing that
/// was.
proof fn lemma_removed_listing(
    m: Map<Seq<Seq<u8>>, Told>,
    known: Seq<Known>,
    walked: Seq<Walked>,
    n: nat,
    place: Seq<Seq<u8>>,
)
    requires
        is_walk(known, walked),
        n <= known.len(),
    ensures
        ({
            let after = listing_after_all(m, diff::removals(known, walked, n));
            &&& diff::was_walked(walked, walked.len() as int, place) ==> (after.dom().contains(place)
                == m.dom().contains(place)) && (m.dom().contains(place) ==> after[place] == m[place])
            &&& after.dom().contains(place) ==> m.dom().contains(place)
            &&& (exists|k: int| 0 <= k < n && (#[trigger] known[k]).place() == place) && !diff::was_walked(
                walked,
                walked.len() as int,
                place,
            ) ==> !after.dom().contains(place)
        }),
    decreases n,
{
    if n > 0 {
        let b = (n - 1) as nat;
        let k = known[n - 1];
        lemma_removed_listing(m, known, walked, b, place);
        let evs = diff::removals(known, walked, n);
        if !diff::was_walked(walked, walked.len() as int, k.place()) {
            assert(evs.drop_last() =~= diff::removals(known, walked, b));
            if diff::was_walked(walked, walked.len() as int, place) {
                let j = choose|j: int| 0 <= j < walked.len() && (#[trigger] walked[j]).place() == place;
                assert(!leads_to(known[n - 1].place(), walked[j].place()));
            }
            assert(k.place().subrange(0, k.place().len() as int) =~= k.place());
        }
    }
}

/// Reconciling leads to what the walk found: the events of a diff turn what was
/// known of the walked subtrees into what the walk tells of them.
pub proof fn law_reconciling_leads_to_the_walk(known: Seq<Known>, walked: Seq<Walked>)
    requires
        diff::known_wf(known),
        is_walk(known, walked),
    ensures
        listing_after_all(
            known_listing(known),
            diff::upserts(known, walked, walked.len()) + diff::removals(known, walked, known.len()),
        ) == walked_listing(walked),
{
    let ups = diff::upserts(known, walked, walked.len());
    let rems = diff::removals(known, walked, known.len());
    let m = listing_after_all(known_listing(known), ups);
    lemma_listing_concat(known_listing(known), ups, rems);
    lemma_upserted_listing(known, walked, walked.len());
    let after = listing_after_all(m, rems);
    let found = walked_listing(walked);
    assert forall|place: Seq<Seq<u8>>| #[trigger] after.dom().contains(place) == found.dom().contains(place) by {
        lemma_removed_listing(m, known, walked, known.len(), place);
    }
    assert forall|place: Seq<Seq<u8>>| #[trigger] found.dom().contains(place) implies after[place] == found[place] by {
        lemma_removed_listing(m, known, walked, known.len(), place);
        assert(m.dom().contains(place));
        assert(m[place] == found[place]);
    }
    assert(after =~= found);
}

} // verus!
