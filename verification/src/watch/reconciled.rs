//! What a walk of a root comes to, told path by path.

use vstd::prelude::*;

use crate::events::EventView;
use crate::model::flags;
use crate::path;
use crate::tree::IndexView;
use crate::watch::diff;
use crate::watch::diff::{Known, Walked};
use crate::watch::order;
use crate::watch::touched;
use crate::watch::WatchOptions;

verus! {

/// The index has the walked path with the same size, time and kind.
pub open spec fn is_known_so(known: Seq<Known>, w: Walked) -> bool {
    exists|k: int|
        0 <= k < known.len() && path::same_path((#[trigger] known[k]).path@, w.path@) && known[k].size == w.size
            && known[k].mtime == w.mtime && known[k].is_dir == w.is_dir
}

/// The upserts of a walk are for the walked paths that are new, or whose size, time or
/// kind has changed, and for no others; in the order of the walk, each with what the walk
/// found.
pub proof fn law_changed_paths_are_upserted(known: Seq<Known>, walked: Seq<Walked>, n: nat) -> (from: Seq<int>)
    requires
        n <= walked.len(),
    ensures
        touched::are_places(from, n),
        from.len() == diff::upserts(known, walked, n).len(),
        forall|k: int| 0 <= k < n ==> (#[trigger] from.contains(k) <==> !is_known_so(known, walked[k])),
        forall|a: int|
            0 <= a < from.len() ==> diff::upserts(known, walked, n)[a] == (EventView::Upsert {
                path: walked[#[trigger] from[a]].path@,
                size: walked[from[a]].size,
                mtime: walked[from[a]].mtime,
                is_dir: walked[from[a]].is_dir,
            }),
    decreases n,
{
    if n == 0 {
        Seq::empty()
    } else {
        let m = (n - 1) as nat;
        let before = law_changed_paths_are_upserted(known, walked, m);
        let b = diff::upserts(known, walked, m);
        let r = diff::upserts(known, walked, n);
        touched::lemma_push_place(before, m);
        let w = walked[m as int];
        assert(diff::is_unchanged(known, w) <==> is_known_so(known, w)) by {
            if diff::is_unchanged(known, w) {
                let k = choose|k: int|
                    0 <= k < known.len() && (#[trigger] known[k]).place() == w.place() && known[k].size == w.size
                        && known[k].mtime == w.mtime && known[k].is_dir == w.is_dir;
                assert(path::same_path(known[k].path@, w.path@));
            }
            if is_known_so(known, w) {
                let k = choose|k: int|
                    0 <= k < known.len() && path::same_path((#[trigger] known[k]).path@, w.path@) && known[k].size
                        == w.size && known[k].mtime == w.mtime && known[k].is_dir == w.is_dir;
                assert(known[k].place() == w.place());
            }
        }
        if !is_known_so(known, w) {
            let from = before.push(m as int);
            assert forall|a: int| 0 <= a < from.len() implies r[a] == (EventView::Upsert {
                path: walked[#[trigger] from[a]].path@,
                size: walked[from[a]].size,
                mtime: walked[from[a]].mtime,
                is_dir: walked[from[a]].is_dir,
            }) by {
                if a < before.len() {
                    assert(from[a] == before[a]);
                    assert(r[a] == b[a]);
                }
            }
            from
        } else {
            before
        }
    }
}

/// The path was walked.
pub open spec fn was_seen(walked: Seq<Walked>, p: Seq<u8>) -> bool {
    exists|j: int| 0 <= j < walked.len() && path::same_path((#[trigger] walked[j]).path@, p)
}

/// The removals of a walk are for the known paths that were not walked, and for no
/// others: of a directory with all below it, of anything else alone.
pub proof fn law_missing_paths_are_removed(known: Seq<Known>, walked: Seq<Walked>, n: nat) -> (from: Seq<int>)
    requires
        n <= known.len(),
    ensures
        touched::are_places(from, n),
        from.len() == diff::removals(known, walked, n).len(),
        forall|k: int| 0 <= k < n ==> (#[trigger] from.contains(k) <==> !was_seen(walked, known[k].path@)),
        forall|a: int|
            0 <= a < from.len() ==> diff::removals(known, walked, n)[a] == (if known[#[trigger] from[a]].is_dir {
                EventView::RemoveDir { path: known[from[a]].path@ }
            } else {
                EventView::Remove { path: known[from[a]].path@ }
            }),
    decreases n,
{
    if n == 0 {
        Seq::empty()
    } else {
        let m = (n - 1) as nat;
        let before = law_missing_paths_are_removed(known, walked, m);
        let b = diff::removals(known, walked, m);
        let r = diff::removals(known, walked, n);
        touched::lemma_push_place(before, m);
        let k = known[m as int];
        assert(diff::was_walked(walked, walked.len() as int, k.place()) <==> was_seen(walked, k.path@)) by {
            if diff::was_walked(walked, walked.len() as int, k.place()) {
                let j = choose|j: int| 0 <= j < walked.len() && (#[trigger] walked[j]).place() == k.place();
                assert(path::same_path(walked[j].path@, k.path@));
            }
            if was_seen(walked, k.path@) {
                let j = choose|j: int|
                    0 <= j < walked.len() && path::same_path((#[trigger] walked[j]).path@, k.path@);
                assert(walked[j].place() == k.place());
            }
        }
        if !was_seen(walked, k.path@) {
            let from = before.push(m as int);
            assert forall|a: int| 0 <= a < from.len() implies r[a] == (if known[#[trigger] from[a]].is_dir {
                EventView::RemoveDir { path: known[from[a]].path@ }
            } else {
                EventView::Remove { path: known[from[a]].path@ }
            }) by {
                if a < before.len() {
                    assert(from[a] == before[a]);
                    assert(r[a] == b[a]);
                }
            }
            from
        } else {
            before
        }
    }
}

/// The directories of a walk that are watched are those with no excluded name below the
/// first root that they lie in, for a walk of the roots.
pub proof fn law_walked_directories_are_watched(opts: WatchOptions, walked: Seq<Walked>, n: nat) -> (from: Seq<int>)
    requires
        n <= walked.len(),
        forall|j: int| 0 <= j < opts.roots@.len() ==> path::components((#[trigger] opts.roots@[j])@).len() > 0,
        forall|k: int| 0 <= k < walked.len() ==> touched::lies_in_some(opts.roots@, (#[trigger] walked[k]).path@),
    ensures
        touched::are_places(from, n),
        from.len() == diff::dirs_to_watch(opts, walked, n).len(),
        forall|k: int|
            0 <= k < n ==> (#[trigger] from.contains(k) <==> walked[k].is_dir && touched::has_no_excluded_name(
                opts,
                walked[k].path@,
            )),
        forall|a: int|
            0 <= a < from.len() ==> diff::dirs_to_watch(opts, walked, n)[a] == walked[#[trigger] from[a]].path@,
    decreases n,
{
    if n == 0 {
        Seq::empty()
    } else {
        let m = (n - 1) as nat;
        let before = law_walked_directories_are_watched(opts, walked, m);
        let b = diff::dirs_to_watch(opts, walked, m);
        let r = diff::dirs_to_watch(opts, walked, n);
        touched::lemma_push_place(before, m);
        assert(touched::lies_in_some(opts.roots@, walked[m as int].path@));
        touched::law_excluded_names_are_not_watched(opts, walked[m as int].path@);
        if walked[m as int].is_dir && opts.may_watch(walked[m as int].path@) {
            let from = before.push(m as int);
            assert forall|a: int| 0 <= a < from.len() implies r[a] == walked[#[trigger] from[a]].path@ by {
                if a < before.len() {
                    assert(from[a] == before[a]);
                    assert(r[a] == b[a]);
                }
            }
            from
        } else {
            before
        }
    }
}

/// What a snapshot tells of a path is what the index has of a live entry with that path:
/// its size, its time and its kind; no later entry in the roots has the path.
pub proof fn law_snapshot_tells_the_index(v: IndexView, roots: Seq<Vec<u8>>, known: Seq<Known>, k: int) -> (id: int)
    requires
        diff::is_snapshot(v, roots, known),
        0 <= k < known.len(),
    ensures
        v.is_live(id),
        diff::in_roots(v, roots, v.slots[id].dir),
        known[k].path@ == v.entry_path(id),
        known[k].size == v.slots[id].size,
        known[k].mtime == v.slots[id].mtime,
        known[k].is_dir == (v.slots[id].flags & flags::DIR != 0),
        forall|j: int|
            id < j && #[trigger] v.is_live(j) && diff::in_roots(v, roots, v.slots[j].dir) ==> !path::same_path(
                v.entry_path(j),
                v.entry_path(id),
            ),
{
    assert(diff::tells_last(v, roots, known[k]));
    let id = choose|id: int| diff::is_last(v, roots, id) && #[trigger] diff::tells(v, id, known[k]);
    assert forall|j: int| id < j && #[trigger] v.is_live(j) && diff::in_roots(v, roots, v.slots[j].dir) implies
        !path::same_path(v.entry_path(j), v.entry_path(id)) by {
        assert(diff::lives_in(v, roots, j));
    }
    id
}

/// Every live entry in the roots is in the snapshot, under its path, and no path twice.
pub proof fn law_snapshot_is_complete(v: IndexView, roots: Seq<Vec<u8>>, known: Seq<Known>, id: int, a: int, b: int)
    requires
        diff::is_snapshot(v, roots, known),
    ensures
        v.is_live(id) && diff::in_roots(v, roots, v.slots[id].dir) ==> exists|k: int|
            0 <= k < known.len() && path::same_path((#[trigger] known[k]).path@, v.entry_path(id)),
        0 <= a < b < known.len() ==> !path::same_path(known[a].path@, known[b].path@),
{
    if v.is_live(id) && diff::in_roots(v, roots, v.slots[id].dir) {
        assert(diff::lives_in(v, roots, id));
        let k = choose|k: int|
            0 <= k < known.len() && (#[trigger] known[k]).place() == path::components(v.entry_path(id));
        assert(path::same_path(known[k].path@, v.entry_path(id)));
    }
    if 0 <= a < b < known.len() {
        assert(order::before(known[a].place(), known[b].place()));
        order::law_path_order_is_total(known[a].place(), known[b].place());
    }
}

} // verus!
