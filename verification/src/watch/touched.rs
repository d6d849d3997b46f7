//! What a window of touched paths comes to, told path by path.

use vstd::prelude::*;

use crate::events::EventView;
use crate::outside;
use crate::path;
use crate::watch::diff;
use crate::watch::diff::Stat;
use crate::watch::plan::{Touch, Touched};
use crate::watch::WatchOptions;

verus! {

/// Strictly ascending places below `n`.
pub open spec fn are_places(places: Seq<int>, n: nat) -> bool {
    &&& forall|a: int| 0 <= a < places.len() ==> 0 <= #[trigger] places[a] < n
    &&& forall|a: int, b: int| 0 <= a < b < places.len() ==> places[a] < places[b]
}

/// Some root, wherever it stands in the list, is a prefix of the path.
pub open spec fn lies_in_some(roots: Seq<Vec<u8>>, p: Seq<u8>) -> bool {
    exists|j: int| 0 <= j < roots.len() && path::path_starts_with(p, (#[trigger] roots[j])@)
}

/// No name below the first root that the path lies in is excluded.
pub open spec fn has_no_excluded_name(opts: WatchOptions, p: Seq<u8>) -> bool {
    exists|j: int|
        0 <= j < opts.roots@.len() && path::path_starts_with(p, (#[trigger] opts.roots@[j])@) && (forall|i: int|
            0 <= i < j ==> !path::path_starts_with(p, (#[trigger] opts.roots@[i])@)) && (forall|c: int, x: int|
            path::components(opts.roots@[j]@).len() <= c < path::components(p).len() && 0 <= x < opts.excludes@.len()
                ==> (#[trigger] opts.excludes@[x])@ != outside::lossy_text_of(#[trigger] path::components(p)[c]))
}

pub(crate) proof fn lemma_push_place(places: Seq<int>, n: nat)
    requires
        are_places(places, n),
    ensures
        are_places(places, n + 1),
        are_places(places.push(n as int), n + 1),
        places.push(n as int).contains(n as int),
        !places.contains(n as int),
        forall|k: int| k != n ==> #[trigger] places.push(n as int).contains(k) == places.contains(k),
{
    let more = places.push(n as int);
    assert(more[places.len() as int] == n);
    assert forall|k: int| k != n implies #[trigger] more.contains(k) == places.contains(k) by {
        if places.contains(k) {
            let a = choose|a: int| 0 <= a < places.len() && places[a] == k;
            assert(more[a] == k);
        }
        if more.contains(k) {
            let a = choose|a: int| 0 <= a < more.len() && more[a] == k;
            assert(places[a] == k);
        }
    }
}

/// The events of touched paths, in their order, each from one touched path: what lies
/// in any of the roots and is there is upserted with the size, time and kind on disk,
/// what lies in any of them and is gone is removed with all below it, and what lies in
/// none of them, or could not be looked at, gives no event. `from` tells the touched
/// path of each event.
pub proof fn law_touched_paths_give_events(
    opts: WatchOptions,
    touches: Seq<Touched>,
    stats: Seq<Stat>,
    n: nat,
) -> (from: Seq<int>)
    requires
        n <= touches.len(),
        stats.len() == touches.len(),
    ensures
        are_places(from, n),
        from.len() == diff::resolved(opts, touches, stats, n).events.len(),
        forall|k: int|
            0 <= k < n ==> (#[trigger] from.contains(k) <==> !(stats[k] is Unreadable) && exists|j: int|
                0 <= j < opts.roots@.len() && path::path_starts_with(
                    touches[k].path@,
                    (#[trigger] opts.roots@[j])@,
                )),
        forall|a: int|
            0 <= a < from.len() ==> match stats[#[trigger] from[a]] {
                Stat::Present { size, mtime, is_dir } => diff::resolved(opts, touches, stats, n).events[a]
                    == (EventView::Upsert { path: touches[from[a]].path@, size, mtime, is_dir }),
                _ => diff::resolved(opts, touches, stats, n).events[a] == (EventView::RemoveDir {
                    path: touches[from[a]].path@,
                }),
            },
    decreases n,
{
    if n == 0 {
        Seq::empty()
    } else {
        let m = (n - 1) as nat;
        let before = law_touched_paths_give_events(opts, touches, stats, m);
        let b = diff::resolved(opts, touches, stats, m);
        let r = diff::resolved(opts, touches, stats, n);
        lemma_push_place(before, m);
        let p = touches[m as int].path@;
        if !(stats[m as int] is Unreadable) && (exists|j: int|
            0 <= j < opts.roots@.len() && path::path_starts_with(p, (#[trigger] opts.roots@[j])@)) {
            let from = before.push(m as int);
            assert forall|a: int| 0 <= a < from.len() implies match stats[#[trigger] from[a]] {
                Stat::Present { size, mtime, is_dir } => r.events[a] == (EventView::Upsert {
                    path: touches[from[a]].path@,
                    size,
                    mtime,
                    is_dir,
                }),
                _ => r.events[a] == (EventView::RemoveDir { path: touches[from[a]].path@ }),
            } by {
                if a < before.len() {
                    assert(from[a] == before[a]);
                    assert(r.events[a] == b.events[a]);
                }
            }
            from
        } else {
            before
        }
    }
}

/// The touched paths that are rescanned: the directories, in any of the roots, whose
/// touch asks for it.
pub proof fn law_new_directories_are_rescanned(
    opts: WatchOptions,
    touches: Seq<Touched>,
    stats: Seq<Stat>,
    n: nat,
) -> (from: Seq<int>)
    requires
        n <= touches.len(),
        stats.len() == touches.len(),
    ensures
        are_places(from, n),
        from.len() == diff::resolved(opts, touches, stats, n).rescan.len(),
        forall|k: int|
            0 <= k < n ==> (#[trigger] from.contains(k) <==> (stats[k] matches Stat::Present { is_dir, .. } && is_dir)
                && touches[k].touch == Touch::Rescan && exists|j: int|
                0 <= j < opts.roots@.len() && path::path_starts_with(
                    touches[k].path@,
                    (#[trigger] opts.roots@[j])@,
                )),
        forall|a: int|
            0 <= a < from.len() ==> diff::resolved(opts, touches, stats, n).rescan[a] == touches[#[trigger] from[a]].path@,
    decreases n,
{
    if n == 0 {
        Seq::empty()
    } else {
        let m = (n - 1) as nat;
        let before = law_new_directories_are_rescanned(opts, touches, stats, m);
        let b = diff::resolved(opts, touches, stats, m);
        let r = diff::resolved(opts, touches, stats, n);
        lemma_push_place(before, m);
        let p = touches[m as int].path@;
        if (stats[m as int] matches Stat::Present { is_dir, .. } && is_dir) && touches[m as int].touch == Touch::Rescan
            && (exists|j: int|
            0 <= j < opts.roots@.len() && path::path_starts_with(p, (#[trigger] opts.roots@[j])@)) {
            let from = before.push(m as int);
            assert forall|a: int| 0 <= a < from.len() implies r.rescan[a] == touches[#[trigger] from[a]].path@ by {
                if a < before.len() {
                    assert(from[a] == before[a]);
                    assert(r.rescan[a] == b.rescan[a]);
                }
            }
            from
        } else {
            before
        }
    }
}

/// The directories that are newly watched: those that are rescanned and have no
/// excluded name below the first root that they lie in.
pub proof fn law_new_directories_are_watched(
    opts: WatchOptions,
    touches: Seq<Touched>,
    stats: Seq<Stat>,
    n: nat,
) -> (from: Seq<int>)
    requires
        n <= touches.len(),
        stats.len() == touches.len(),
        forall|j: int| 0 <= j < opts.roots@.len() ==> path::components((#[trigger] opts.roots@[j])@).len() > 0,
    ensures
        are_places(from, n),
        from.len() == diff::resolved(opts, touches, stats, n).new_dirs.len(),
        forall|k: int|
            0 <= k < n ==> (#[trigger] from.contains(k) <==> (stats[k] matches Stat::Present { is_dir, .. } && is_dir)
                && touches[k].touch == Touch::Rescan && has_no_excluded_name(opts, touches[k].path@)),
        forall|a: int|
            0 <= a < from.len() ==> diff::resolved(opts, touches, stats, n).new_dirs[a] == touches[#[trigger] from[a]].path@,
    decreases n,
{
    if n == 0 {
        Seq::empty()
    } else {
        let m = (n - 1) as nat;
        let before = law_new_directories_are_watched(opts, touches, stats, m);
        let b = diff::resolved(opts, touches, stats, m);
        let r = diff::resolved(opts, touches, stats, n);
        lemma_push_place(before, m);
        let p = touches[m as int].path@;
        if lies_in_some(opts.roots@, p) {
            law_excluded_names_are_not_watched(opts, p);
        }
        if (stats[m as int] matches Stat::Present { is_dir, .. } && is_dir) && touches[m as int].touch == Touch::Rescan
            && lies_in_some(opts.roots@, p) && opts.may_watch(p) {
            let from = before.push(m as int);
            assert forall|a: int| 0 <= a < from.len() implies r.new_dirs[a] == touches[#[trigger] from[a]].path@ by {
                if a < before.len() {
                    assert(from[a] == before[a]);
                    assert(r.new_dirs[a] == b.new_dirs[a]);
                }
            }
            from
        } else {
            before
        }
    }
}

/// Only the root is an empty component.
proof fn lemma_later_components(rest: Seq<u8>, cur: Seq<u8>, leading: bool, i: int)
    requires
        0 <= i < path::components_after(rest, cur, leading).len(),
    ensures
        path::components_after(rest, cur, leading)[i].len() > 0,
    decreases rest.len(),
{
    if rest.len() > 0 {
        if rest[0] == path::SLASH {
            let head = path::segment(cur, leading);
            if i >= head.len() {
                lemma_later_components(rest.skip(1), Seq::empty(), false, i - head.len());
            }
        } else {
            lemma_later_components(rest.skip(1), cur.push(rest[0]), leading, i);
        }
    }
}

proof fn lemma_not_empty(p: Seq<u8>, i: int)
    requires
        0 < i < path::components(p).len(),
    ensures
        path::components(p)[i].len() > 0,
{
    if p[0] == path::SLASH {
        lemma_later_components(p.skip(1), Seq::empty(), false, i - 1);
    } else {
        lemma_later_components(p, Seq::empty(), true, i);
    }
}

/// A path in one of the roots may be watched exactly where no name below that root is
/// excluded.
pub proof fn law_excluded_names_are_not_watched(opts: WatchOptions, p: Seq<u8>)
    requires
        lies_in_some(opts.roots@, p),
        forall|j: int| 0 <= j < opts.roots@.len() ==> path::components((#[trigger] opts.roots@[j])@).len() > 0,
    ensures
        opts.may_watch(p) <==> has_no_excluded_name(opts, p),
{
    let first = lemma_first_root(opts.roots@, p, 0);
    lemma_below(opts, p, 0, first);
    let all = path::components(p);
    let skip = path::components(opts.roots@[first]@).len() as int;
    let below = opts.below_root(p, 0);
    assert(below == all.skip(skip));
    assert(path::components(opts.roots@[first]@).len() > 0);
    if opts.may_watch(p) {
        assert forall|c: int, x: int| skip <= c < all.len() && 0 <= x < opts.excludes@.len() implies (
        #[trigger] opts.excludes@[x])@ != outside::lossy_text_of(#[trigger] all[c]) by {
            lemma_not_empty(p, c);
            assert(below[c - skip] == all[c]);
            assert(!crate::watch::is_excluded(opts.excludes@, WatchOptions::written(below[c - skip])));
        }
        assert(path::path_starts_with(p, opts.roots@[first]@));
    }
    if has_no_excluded_name(opts, p) {
        let j = choose|j: int|
            0 <= j < opts.roots@.len() && path::path_starts_with(p, (#[trigger] opts.roots@[j])@) && (forall|i: int|
                0 <= i < j ==> !path::path_starts_with(p, (#[trigger] opts.roots@[i])@)) && (forall|c: int, x: int|
                path::components(opts.roots@[j]@).len() <= c < path::components(p).len() && 0 <= x
                    < opts.excludes@.len() ==> (#[trigger] opts.excludes@[x])@ != outside::lossy_text_of(
                    #[trigger] path::components(p)[c],
                ));
        if j < first {
            assert(!path::path_starts_with(p, opts.roots@[j]@));
        }
        assert(j == first);
        assert forall|i: int| 0 <= i < below.len() implies !crate::watch::is_excluded(
            opts.excludes@,
            WatchOptions::written(#[trigger] below[i]),
        ) by {
            lemma_not_empty(p, skip + i);
            assert(below[i] == all[skip + i]);
        }
    }
}

proof fn lemma_first_root(roots: Seq<Vec<u8>>, p: Seq<u8>, from: int) -> (first: int)
    requires
        0 <= from <= roots.len(),
        lies_in_some(roots, p),
        forall|i: int| 0 <= i < from ==> !path::path_starts_with(p, (#[trigger] roots[i])@),
    ensures
        from <= first < roots.len(),
        path::path_starts_with(p, roots[first]@),
        forall|i: int| 0 <= i < first ==> !path::path_starts_with(p, (#[trigger] roots[i])@),
    decreases roots.len() - from,
{
    let j = choose|j: int| 0 <= j < roots.len() && path::path_starts_with(p, (#[trigger] roots[j])@);
    if path::path_starts_with(p, roots[from]@) {
        from
    } else {
        lemma_first_root(roots, p, from + 1)
    }
}

proof fn lemma_below(opts: WatchOptions, p: Seq<u8>, from: int, first: int)
    requires
        0 <= from <= first < opts.roots@.len(),
        path::path_starts_with(p, opts.roots@[first]@),
        forall|i: int| 0 <= i < first ==> !path::path_starts_with(p, (#[trigger] opts.roots@[i])@),
    ensures
        opts.below_root(p, from) == path::components(p).skip(path::components(opts.roots@[first]@).len() as int),
    decreases first - from,
{
    if from < first {
        assert(!path::path_starts_with(p, opts.roots@[from]@));
        lemma_below(opts, p, from + 1, first);
    }
}

/// Of the unwatched subtrees that are looked at anew, a directory is upserted and
/// stays, what is gone or cannot be looked at is removed, and a file gives nothing.
pub proof fn law_unwatched_subtrees_are_rechecked(roots: Seq<Vec<u8>>, stats: Seq<Stat>, n: nat) -> (from: Seq<int>)
    requires
        n <= roots.len(),
        stats.len() == roots.len(),
    ensures
        are_places(from, n),
        from.len() == diff::rechecked(roots, stats, n).0.len(),
        forall|k: int|
            0 <= k < n ==> (#[trigger] from.contains(k) <==> match stats[k] {
                Stat::Present { is_dir, .. } => is_dir,
                _ => true,
            }),
        forall|a: int|
            0 <= a < from.len() ==> match stats[#[trigger] from[a]] {
                Stat::Present { size, mtime, is_dir } => diff::rechecked(roots, stats, n).0[a] == (EventView::Upsert {
                    path: roots[from[a]]@,
                    size,
                    mtime,
                    is_dir: true,
                }),
                _ => diff::rechecked(roots, stats, n).0[a] == (EventView::RemoveDir { path: roots[from[a]]@ }),
            },
    decreases n,
{
    if n == 0 {
        Seq::empty()
    } else {
        let m = (n - 1) as nat;
        let before = law_unwatched_subtrees_are_rechecked(roots, stats, m);
        let b = diff::rechecked(roots, stats, m).0;
        let r = diff::rechecked(roots, stats, n).0;
        lemma_push_place(before, m);
        if match stats[m as int] {
            Stat::Present { is_dir, .. } => is_dir,
            _ => true,
        } {
            let from = before.push(m as int);
            assert forall|a: int| 0 <= a < from.len() implies match stats[#[trigger] from[a]] {
                Stat::Present { size, mtime, is_dir } => r[a] == (EventView::Upsert {
                    path: roots[from[a]]@,
                    size,
                    mtime,
                    is_dir: true,
                }),
                _ => r[a] == (EventView::RemoveDir { path: roots[from[a]]@ }),
            } by {
                if a < before.len() {
                    assert(from[a] == before[a]);
                    assert(r[a] == b[a]);
                }
            }
            from
        } else {
            before
        }
    }
}

/// The unwatched subtrees that are still there are the directories among them.
pub proof fn law_unwatched_directories_stay(roots: Seq<Vec<u8>>, stats: Seq<Stat>, n: nat) -> (from: Seq<int>)
    requires
        n <= roots.len(),
        stats.len() == roots.len(),
    ensures
        are_places(from, n),
        from.len() == diff::rechecked(roots, stats, n).1.len(),
        forall|k: int|
            0 <= k < n ==> (#[trigger] from.contains(k) <==> (stats[k] matches Stat::Present { is_dir, .. } && is_dir)),
        forall|a: int| 0 <= a < from.len() ==> diff::rechecked(roots, stats, n).1[a] == roots[#[trigger] from[a]]@,
    decreases n,
{
    if n == 0 {
        Seq::empty()
    } else {
        let m = (n - 1) as nat;
        let before = law_unwatched_directories_stay(roots, stats, m);
        let b = diff::rechecked(roots, stats, m).1;
        let r = diff::rechecked(roots, stats, n).1;
        lemma_push_place(before, m);
        if stats[m as int] matches Stat::Present { is_dir, .. } && is_dir {
            let from = before.push(m as int);
            assert forall|a: int| 0 <= a < from.len() implies r[a] == roots[#[trigger] from[a]]@ by {
                if a < before.len() {
                    assert(from[a] == before[a]);
                    assert(r[a] == b[a]);
                }
            }
            from
        } else {
            before
        }
    }
}

} // verus!
