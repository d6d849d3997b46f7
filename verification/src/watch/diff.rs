//! Turning touched paths and walked subtrees into index events.

use vstd::prelude::*;

use crate::events;
use crate::events::{EventView, IndexEvent};
use crate::index::{Index, NO_DIR};
use crate::model;
use crate::model::Entry;
use crate::path;
use crate::path::path_components;
use crate::tree::paths;
use crate::tree::IndexView;
use crate::watch::order;
use crate::watch::order::{comes_before, sorted_places};
use crate::watch::plan;
use crate::watch::plan::{Touch, Touched};
use crate::watch::WatchOptions;

verus! {

/// What a path turned out to be on disk.
#[derive(Debug, Clone, Copy)]
pub enum Stat {
    Present { size: u64, mtime: i64, is_dir: bool },
    /// Nothing is there.
    Gone,
    /// It could not be looked at.
    Unreadable,
}

/// What touched paths turned into.
#[derive(Debug)]
pub struct Resolved {
    pub events: Vec<IndexEvent>,
    /// Directories that may have been populated before they were watched.
    pub rescan: Vec<Vec<u8>>,
    /// Directories to watch.
    pub new_dirs: Vec<Vec<u8>>,
}

/// What touched paths turned into, as mathematical values.
pub struct ResolvedView {
    pub events: Seq<EventView>,
    pub rescan: Seq<Seq<u8>>,
    pub new_dirs: Seq<Seq<u8>>,
}

impl View for Resolved {
    type V = ResolvedView;

    open spec fn view(&self) -> ResolvedView {
        ResolvedView {
            events: events::event_views(self.events@),
            rescan: path::views(self.rescan@),
            new_dirs: path::views(self.new_dirs@),
        }
    }
}

impl ResolvedView {
    /// One more touched path. What is there is upserted; a directory that is new
    /// to us is walked, and watched where it may be. What is gone is removed with
    /// all below it, whether or not it was a directory.
    pub open spec fn with_touched(self, opts: WatchOptions, t: Touched, s: Stat) -> ResolvedView {
        if !opts.covers(t.path@) {
            self
        } else {
            match s {
                Stat::Present { size, mtime, is_dir } => {
                    let new = is_dir && t.touch == Touch::Rescan;
                    ResolvedView {
                        events: self.events.push(EventView::Upsert { path: t.path@, size, mtime, is_dir }),
                        rescan: if new {
                            self.rescan.push(t.path@)
                        } else {
                            self.rescan
                        },
                        new_dirs: if new && opts.may_watch(t.path@) {
                            self.new_dirs.push(t.path@)
                        } else {
                            self.new_dirs
                        },
                    }
                },
                Stat::Gone => ResolvedView {
                    events: self.events.push(EventView::RemoveDir { path: t.path@ }),
                    ..self
                },
                Stat::Unreadable => self,
            }
        }
    }
}

/// What the first `k` touched paths turn into.
pub open spec fn resolved(opts: WatchOptions, touches: Seq<Touched>, stats: Seq<Stat>, k: nat) -> ResolvedView
    decreases k,
{
    if k == 0 {
        ResolvedView { events: Seq::empty(), rescan: Seq::empty(), new_dirs: Seq::empty() }
    } else {
        resolved(opts, touches, stats, (k - 1) as nat).with_touched(opts, touches[k - 1], stats[k - 1])
    }
}

pub(crate) fn clone_path(p: &Vec<u8>) -> (r: Vec<u8>)
    ensures
        r@ == p@,
{
    vstd::slice::slice_to_vec(p.as_slice())
}

pub(crate) proof fn lemma_push_event(list: Seq<IndexEvent>, ev: IndexEvent)
    ensures
        events::event_views(list.push(ev)) == events::event_views(list).push(ev@),
{
    assert(events::event_views(list.push(ev)) =~= events::event_views(list).push(ev@));
}

pub(crate) proof fn lemma_push_path(list: Seq<Vec<u8>>, p: Vec<u8>)
    ensures
        path::views(list.push(p)) == path::views(list).push(p@),
{
    assert(path::views(list.push(p)) =~= path::views(list).push(p@));
}

/// Turns touched paths into index events by what is on disk now.
pub fn resolve(opts: &WatchOptions, touches: &Vec<Touched>, stats: &Vec<Stat>) -> (r: Resolved)
    requires
        stats@.len() == touches@.len(),
    ensures
        r@ == resolved(*opts, touches@, stats@, touches@.len()),
{
    let mut out: Resolved = Resolved { events: Vec::new(), rescan: Vec::new(), new_dirs: Vec::new() };
    let n: usize = touches.len();
    let mut i: usize = 0;
    proof {
        assert(out@.events =~= Seq::empty());
        assert(out@.rescan =~= Seq::empty());
        assert(out@.new_dirs =~= Seq::empty());
    }
    while i < n
        invariant
            n == touches@.len(),
            n == stats@.len(),
            i <= n,
            out@ == resolved(*opts, touches@, stats@, i as nat),
        decreases n - i,
    {
        let t: &Touched = &touches[i];
        if opts.under_roots(t.path.as_slice()) {
            match stats[i] {
                Stat::Present { size, mtime, is_dir } => {
                    let ev: IndexEvent = IndexEvent::Upsert { path: clone_path(&t.path), size, mtime, is_dir };
                    proof {
                        lemma_push_event(out.events@, ev);
                    }
                    out.events.push(ev);
                    // Only a rescan implies the directory is new to us; a plain
                    // check means it is already watched, and re-registering
                    // would double-count it against the budget.
                    if is_dir && t.touch == Touch::Rescan {
                        if opts.watchable(t.path.as_slice()) {
                            let p: Vec<u8> = clone_path(&t.path);
                            proof {
                                lemma_push_path(out.new_dirs@, p);
                            }
                            out.new_dirs.push(p);
                        }
                        let p: Vec<u8> = clone_path(&t.path);
                        proof {
                            lemma_push_path(out.rescan@, p);
                        }
                        out.rescan.push(p);
                    }
                },
                Stat::Gone => {
                    let ev: IndexEvent = IndexEvent::RemoveDir { path: clone_path(&t.path) };
                    proof {
                        lemma_push_event(out.events@, ev);
                    }
                    out.events.push(ev);
                },
                Stat::Unreadable => {},
            }
        }
        i += 1;
    }
    out
}

// ---- periodic rescans ------------------------------------------------------------

/// What the first `k` unwatched subtrees turn into: those that are still
/// directories are upserted and stay; what cannot be looked at is removed.
pub open spec fn rechecked(roots: Seq<Vec<u8>>, stats: Seq<Stat>, k: nat) -> (Seq<EventView>, Seq<Seq<u8>>)
    decreases k,
{
    if k == 0 {
        (Seq::empty(), Seq::empty())
    } else {
        let (evs, alive) = rechecked(roots, stats, (k - 1) as nat);
        let p = roots[k - 1]@;
        match stats[k - 1] {
            Stat::Present { size, mtime, is_dir } => if is_dir {
                (evs.push(EventView::Upsert { path: p, size, mtime, is_dir: true }), alive.push(p))
            } else {
                (evs, alive)
            },
            _ => (evs.push(EventView::RemoveDir { path: p }), alive),
        }
    }
}

/// Looks at the roots of unwatched subtrees anew: the events for them, and those
/// that are still there to be diffed.
pub fn recheck(roots: &Vec<Vec<u8>>, stats: &Vec<Stat>) -> (r: (Vec<IndexEvent>, Vec<Vec<u8>>))
    requires
        stats@.len() == roots@.len(),
    ensures
        (events::event_views(r.0@), path::views(r.1@)) == rechecked(roots@, stats@, roots@.len()),
{
    let mut evs: Vec<IndexEvent> = Vec::new();
    let mut alive: Vec<Vec<u8>> = Vec::new();
    let n: usize = roots.len();
    let mut i: usize = 0;
    proof {
        assert(events::event_views(evs@) =~= Seq::empty());
        assert(path::views(alive@) =~= Seq::empty());
    }
    while i < n
        invariant
            n == roots@.len(),
            n == stats@.len(),
            i <= n,
            (events::event_views(evs@), path::views(alive@)) == rechecked(roots@, stats@, i as nat),
        decreases n - i,
    {
        match stats[i] {
            Stat::Present { size, mtime, is_dir } => {
                if is_dir {
                    let ev: IndexEvent = IndexEvent::Upsert {
                        path: clone_path(&roots[i]),
                        size,
                        mtime,
                        is_dir: true,
                    };
                    let p: Vec<u8> = clone_path(&roots[i]);
                    proof {
                        lemma_push_event(evs@, ev);
                        lemma_push_path(alive@, p);
                    }
                    evs.push(ev);
                    alive.push(p);
                }
            },
            _ => {
                let ev: IndexEvent = IndexEvent::RemoveDir { path: clone_path(&roots[i]) };
                proof {
                    lemma_push_event(evs@, ev);
                }
                evs.push(ev);
            },
        }
        i += 1;
    }
    (evs, alive)
}

// ---- what the index knows ---------------------------------------------------------

/// What the index believes of a path.
#[derive(Debug)]
pub struct Known {
    /// The components of the path.
    pub key: Vec<Vec<u8>>,
    pub path: Vec<u8>,
    pub size: u64,
    pub mtime: i64,
    pub is_dir: bool,
}

impl Known {
    /// The key holds the components of the path.
    pub open spec fn wf(self) -> bool {
        path::views(self.key@) == path::components(self.path@)
    }

    pub open spec fn place(self) -> Seq<Seq<u8>> {
        path::components(self.path@)
    }
}

/// Each path once, in the order of paths.
pub open spec fn known_wf(known: Seq<Known>) -> bool {
    &&& forall|i: int| 0 <= i < known.len() ==> (#[trigger] known[i]).wf()
    &&& forall|i: int, j: int|
        0 <= i < j < known.len() ==> order::before((#[trigger] known[i]).place(), (#[trigger] known[j]).place())
}

/// The directory lies in one of the roots.
pub open spec fn in_roots(v: IndexView, roots: Seq<Vec<u8>>, d: u32) -> bool {
    exists|i: int|
        0 <= i < roots.len() && (v.lookup(NO_DIR, path::named_components((#[trigger] roots[i])@)) matches Some(top)
            && v.in_subtree(d, top))
}

/// What lies in a root is a directory.
pub(crate) proof fn lemma_in_roots_is_dir(v: IndexView, roots: Seq<Vec<u8>>, d: u32)
    requires
        v.wf(),
        in_roots(v, roots, d),
    ensures
        v.is_dir(d),
{
    let i = choose|i: int|
        0 <= i < roots.len() && (v.lookup(NO_DIR, path::named_components((#[trigger] roots[i])@)) matches Some(top)
            && v.in_subtree(d, top));
    paths::lemma_lookup(v, NO_DIR, path::named_components(roots[i]@));
}

/// The index knows one of the roots.
pub open spec fn knows_some(v: IndexView, roots: Seq<Vec<u8>>) -> bool {
    exists|i: int|
        0 <= i < roots.len() && v.lookup(NO_DIR, path::named_components((#[trigger] roots[i])@)) is Some
}

/// The entry lives in one of the roots.
pub open spec fn lives_in(v: IndexView, roots: Seq<Vec<u8>>, id: int) -> bool {
    v.is_live(id) && in_roots(v, roots, v.slots[id].dir)
}

/// What is known is what the index says of the entry.
pub open spec fn tells(v: IndexView, id: int, k: Known) -> bool {
    &&& k.path@ == v.entry_path(id)
    &&& k.size == v.slots[id].size
    &&& k.mtime == v.slots[id].mtime
    &&& k.is_dir == model::has_dir_bit(v.slots[id].flags)
}

/// The last entry in the roots with the path is this one.
pub open spec fn is_last(v: IndexView, roots: Seq<Vec<u8>>, id: int) -> bool {
    &&& lives_in(v, roots, id)
    &&& forall|j: int|
        #![trigger lives_in(v, roots, j)]
        id < j && lives_in(v, roots, j) ==> !path::same_path(v.entry_path(j), v.entry_path(id))
}

/// The path is among the known ones.
pub open spec fn is_listed(known: Seq<Known>, place: Seq<Seq<u8>>) -> bool {
    exists|k: int| 0 <= k < known.len() && (#[trigger] known[k]).place() == place
}

/// The item tells of the last of the entries with its path.
pub open spec fn tells_last(v: IndexView, roots: Seq<Vec<u8>>, k: Known) -> bool {
    exists|id: int| is_last(v, roots, id) && #[trigger] tells(v, id, k)
}

/// Everything the index believes lives in the roots: each path once, as its last
/// entry tells it.
pub open spec fn is_snapshot(v: IndexView, roots: Seq<Vec<u8>>, known: Seq<Known>) -> bool {
    &&& known_wf(known)
    &&& forall|id: int| #[trigger] lives_in(v, roots, id) ==> is_listed(known, path::components(v.entry_path(id)))
    &&& forall|k: int| 0 <= k < known.len() ==> #[trigger] tells_last(v, roots, known[k])
}

/// The directories that lie in the roots, as a mark for each directory.
fn mark_roots(index: &Index, roots: &Vec<Vec<u8>>) -> (r: Option<Vec<bool>>)
    requires
        index.wf(),
    ensures
        match r {
            Some(marks) => {
                &&& knows_some(index@, roots@)
                &&& marks@.len() == index@.dirs.len()
                &&& forall|d: int|
                    0 <= d < marks@.len() ==> #[trigger] marks@[d] == in_roots(index@, roots@, d as u32)
            },
            None => !knows_some(index@, roots@),
        },
{
    let ghost v = index@;
    let n: usize = roots.len();
    let m: usize = index.dir_count();
    let mut all: Option<Vec<bool>> = None;
    let mut i: usize = 0;
    while i < n
        invariant
            index.wf(),
            v == index@,
            n == roots@.len(),
            m == v.dirs.len(),
            i <= n,
            match all {
                Some(marks) => {
                    &&& knows_some(v, roots@.subrange(0, i as int))
                    &&& marks@.len() == m
                    &&& forall|d: int|
                        0 <= d < m ==> #[trigger] marks@[d] == in_roots(v, roots@.subrange(0, i as int), d as u32)
                },
                None => !knows_some(v, roots@.subrange(0, i as int)),
            },
        decreases n - i,
    {
        let ghost some = roots@.subrange(0, i as int);
        let ghost next = roots@.subrange(0, i + 1);
        let ghost names = path::named_components(roots@[i as int]@);
        proof {
            assert(next =~= some.push(roots@[i as int]));
            lemma_one_more_root(v, some, roots@[i as int]);
            paths::lemma_lookup(v, NO_DIR, names);
        }
        if let Some(top) = index.dir_by_path(roots[i].as_slice()) {
            let fresh: Vec<bool> = index.mark_subtree(top);
            let merged: Vec<bool> = match all {
                None => {
                    assert forall|d: int| 0 <= d < m implies #[trigger] fresh@[d] == in_roots(v, next, d as u32) by {
                        if in_roots(v, some, d as u32) {
                            lemma_in_known_root(v, some, d as u32);
                        }
                    }
                    fresh
                },
                Some(old) => {
                    let mut out: Vec<bool> = Vec::new();
                    let mut d: usize = 0;
                    while d < m
                        invariant
                            d <= m,
                            m == fresh@.len(),
                            m == old@.len(),
                            out@.len() == d,
                            forall|x: int| 0 <= x < d ==> #[trigger] out@[x] == (old@[x] || fresh@[x]),
                        decreases m - d,
                    {
                        out.push(old[d] || fresh[d]);
                        d += 1;
                    }
                    out
                },
            };
            all = Some(merged);
        }
        i += 1;
    }
    assert(roots@.subrange(0, n as int) =~= roots@);
    all
}

proof fn lemma_in_known_root(v: IndexView, roots: Seq<Vec<u8>>, d: u32)
    requires
        in_roots(v, roots, d),
    ensures
        knows_some(v, roots),
{
    let i = choose|i: int|
        0 <= i < roots.len() && (v.lookup(NO_DIR, path::named_components((#[trigger] roots[i])@)) matches Some(top)
            && v.in_subtree(d, top));
    assert(v.lookup(NO_DIR, path::named_components(roots[i]@)) is Some);
}

/// One more root adds its own subtree.
proof fn lemma_one_more_root(v: IndexView, some: Seq<Vec<u8>>, root: Vec<u8>)
    ensures
        ({
            let found = v.lookup(NO_DIR, path::named_components(root@));
            &&& knows_some(v, some.push(root)) == (knows_some(v, some) || found is Some)
            &&& forall|d: u32| #[trigger]
                in_roots(v, some.push(root), d) == (in_roots(v, some, d) || (found matches Some(top) && v.in_subtree(
                    d,
                    top,
                )))
        }),
{
    let found = v.lookup(NO_DIR, path::named_components(root@));
    let more = some.push(root);
    assert(more[some.len() as int] == root);
    if knows_some(v, some) {
        let i = choose|i: int|
            0 <= i < some.len() && v.lookup(NO_DIR, path::named_components((#[trigger] some[i])@)) is Some;
        assert(more[i] == some[i]);
    }
    if knows_some(v, more) {
        let i = choose|i: int|
            0 <= i < more.len() && v.lookup(NO_DIR, path::named_components((#[trigger] more[i])@)) is Some;
        if i < some.len() {
            assert(some[i] == more[i]);
        }
    }
    assert forall|d: u32| #[trigger]
        in_roots(v, more, d) == (in_roots(v, some, d) || (found matches Some(top) && v.in_subtree(d, top))) by {
        if in_roots(v, some, d) {
            let i = choose|i: int|
                0 <= i < some.len() && (v.lookup(NO_DIR, path::named_components((#[trigger] some[i])@)) matches Some(
                    top,
                ) && v.in_subtree(d, top));
            assert(more[i] == some[i]);
        }
        if in_roots(v, more, d) {
            let i = choose|i: int|
                0 <= i < more.len() && (v.lookup(NO_DIR, path::named_components((#[trigger] more[i])@)) matches Some(
                    top,
                ) && v.in_subtree(d, top));
            if i < some.len() {
                assert(some[i] == more[i]);
            }
        }
    }
}

/// The entries of marked directories, with the components of their paths.
spec fn are_entries_of(v: IndexView, roots: Seq<Vec<u8>>, n: int, ids: Seq<u32>, keys: Seq<Vec<Vec<u8>>>) -> bool {
    &&& ids.len() == keys.len()
    &&& forall|i: int, j: int| 0 <= i < j < ids.len() ==> ids[i] < ids[j]
    &&& forall|i: int|
        0 <= i < ids.len() ==> {
            &&& (#[trigger] ids[i]) < n
            &&& lives_in(v, roots, ids[i] as int)
            &&& order::key_views(keys)[i] == path::components(v.entry_path(ids[i] as int))
        }
    &&& forall|id: int| 0 <= id < n && #[trigger] lives_in(v, roots, id) ==> ids.contains(id as u32)
}

fn entries_of(index: &Index, roots: &Vec<Vec<u8>>, marks: &Vec<bool>) -> (r: (Vec<u32>, Vec<Vec<Vec<u8>>>))
    requires
        index.wf(),
        marks@.len() == index@.dirs.len(),
        forall|d: int| 0 <= d < marks@.len() ==> #[trigger] marks@[d] == in_roots(index@, roots@, d as u32),
    ensures
        are_entries_of(index@, roots@, index@.slots.len() as int, r.0@, r.1@),
{
    let ghost v = index@;
    let n: usize = index.len();
    let mut ids: Vec<u32> = Vec::new();
    let mut keys: Vec<Vec<Vec<u8>>> = Vec::new();
    let mut i: usize = 0;
    while i < n
        invariant
            index.wf(),
            v == index@,
            n == v.slots.len(),
            n <= u32::MAX,
            i <= n,
            marks@.len() == v.dirs.len(),
            forall|d: int| 0 <= d < marks@.len() ==> #[trigger] marks@[d] == in_roots(v, roots@, d as u32),
            are_entries_of(v, roots@, i as int, ids@, keys@),
        decreases n - i,
    {
        let id: u32 = i as u32;
        let e: Entry = index.entry(id);
        let ghost ids_before = ids@;
        let ghost keys_before = keys@;
        assert(v.slot_wf(i as int));
        if !e.is_dead() && (e.dir as usize) < marks.len() && marks[e.dir as usize] {
            let p: Vec<u8> = index.path_of(id);
            keys.push(path_components(p.as_slice()));
            ids.push(id);
            proof {
                assert(lives_in(v, roots@, i as int));
                assert forall|j: int| 0 <= j < ids@.len() implies {
                    &&& (#[trigger] ids@[j]) < i + 1
                    &&& lives_in(v, roots@, ids@[j] as int)
                    &&& order::key_views(keys@)[j] == path::components(v.entry_path(ids@[j] as int))
                } by {
                    if j < ids_before.len() {
                        assert(ids@[j] == ids_before[j]);
                        assert(order::key_views(keys_before)[j] == order::key_views(keys@)[j]);
                    }
                }
                assert forall|x: int| 0 <= x < i + 1 && #[trigger] lives_in(v, roots@, x) implies ids@.contains(
                    x as u32,
                ) by {
                    if x < i {
                        assert(ids_before.contains(x as u32));
                        let k = choose|k: int| 0 <= k < ids_before.len() && ids_before[k] == x as u32;
                        assert(ids@[k] == x as u32);
                    } else {
                        assert(ids@[ids_before.len() as int] == id);
                    }
                }
            }
        } else {
            proof {
                if in_roots(v, roots@, e.dir) {
                    lemma_in_roots_is_dir(v, roots@, e.dir);
                }
            }
            assert(!lives_in(v, roots@, i as int));
        }
        i += 1;
    }
    (ids, keys)
}

/// An entry in its turn, where the next in order has another path, is the last
/// with its path.
proof fn lemma_last_in_group(
    v: IndexView,
    roots: Seq<Vec<u8>>,
    ids: Seq<u32>,
    keys: Seq<Vec<Vec<u8>>>,
    places: Seq<usize>,
    t: int,
)
    requires
        are_entries_of(v, roots, v.slots.len() as int, ids, keys),
        v.slots.len() <= u32::MAX,
        order::is_range(places, 0, keys.len() as int),
        order::is_sorted(order::key_views(keys), places),
        keys.len() <= usize::MAX,
        0 <= t < places.len(),
        t + 1 < places.len() ==> order::before(
            order::key_views(keys)[places[t] as int],
            order::key_views(keys)[places[t + 1] as int],
        ),
    ensures
        is_last(v, roots, ids[places[t] as int] as int),
        forall|s: int|
            t < s < places.len() ==> order::before(
                order::key_views(keys)[places[t] as int],
                order::key_views(keys)[#[trigger] places[s] as int],
            ),
{
    let kv = order::key_views(keys);
    let p = places[t] as int;
    assert forall|s: int| t < s < places.len() implies order::before(kv[p], kv[#[trigger] places[s] as int]) by {
        if s > t + 1 {
            assert(order::place_before(kv, places[t + 1] as int, places[s] as int));
            if kv[places[t + 1] as int] != kv[places[s] as int] {
                order::law_path_order_is_transitive(kv[p], kv[places[t + 1] as int], kv[places[s] as int]);
            }
        }
    }
    assert(lives_in(v, roots, ids[p] as int));
    assert forall|j: int|
        #![trigger lives_in(v, roots, j)]
        ids[p] < j && lives_in(v, roots, j) implies !path::same_path(v.entry_path(j), v.entry_path(ids[p] as int)) by {
        assert(ids.contains(j as u32));
        let q = choose|q: int| 0 <= q < ids.len() && ids[q] == j as u32;
        assert(ids[q] == j);
        assert(q > p) by {
            if q < p {
                assert(ids[q] < ids[p]);
            }
        }
        let s = order::lemma_place_of(places, keys.len() as int, q);
        assert(kv[q] == path::components(v.entry_path(j)));
        order::law_path_order_is_total(kv[p], kv[q]);
        if s < t {
            assert(order::place_before(kv, places[s] as int, places[t] as int));
        } else if s > t {
            assert(order::before(kv[p], kv[places[s] as int]));
        }
    }
}

/// Everything the index believes lives under `roots`, or `None` when it has
/// never heard of any of them — which is the common case for a freshly created
/// directory and lets the caller skip the full-index pass entirely.
pub fn index_snapshot(index: &Index, roots: &Vec<Vec<u8>>) -> (r: Option<Vec<Known>>)
    requires
        index.wf(),
    ensures
        match r {
            Some(known) => knows_some(index@, roots@) && is_snapshot(index@, roots@, known@),
            None => !knows_some(index@, roots@),
        },
{
    let marks: Vec<bool> = match mark_roots(index, roots) {
        Some(marks) => marks,
        None => {
            return None;
        },
    };
    let ghost v = index@;
    let (ids, keys) = entries_of(index, roots, &marks);
    let places: Vec<usize> = sorted_places(&keys);
    let ghost kv = order::key_views(keys@);
    let n: usize = places.len();
    let mut out: Vec<Known> = Vec::new();
    let mut t: usize = 0;
    while t < n
        invariant
            index.wf(),
            v == index@,
            kv == order::key_views(keys@),
            n == places@.len(),
            n == keys@.len(),
            t <= n,
            are_entries_of(v, roots@, v.slots.len() as int, ids@, keys@),
            order::is_range(places@, 0, n as int),
            order::is_sorted(kv, places@),
            known_wf(out@),
            forall|k: int| 0 <= k < out@.len() ==> #[trigger] tells_last(v, roots@, out@[k]),
            forall|k: int, s: int|
                0 <= k < out@.len() && t <= s < n ==> order::before(
                    (#[trigger] out@[k]).place(),
                    kv[#[trigger] places@[s] as int],
                ),
            forall|s: int|
                0 <= s < t ==> is_listed(out@, #[trigger] kv[places@[s] as int]) || (t < n && kv[places@[s] as int]
                    == kv[places@[t as int] as int]),
        decreases n - t,
    {
        let p: usize = places[t];
        let ghost before = out@;
        assert(places@[t as int] == p);
        let last: bool = if t + 1 < n {
            let q: usize = places[t + 1];
            proof {
                assert(order::place_before(kv, places@[t as int] as int, places@[t + 1] as int));
                assert(kv[p as int] == path::views(keys@[p as int]@));
                assert(kv[q as int] == path::views(keys@[q as int]@));
            }
            comes_before(&keys[p], &keys[q])
        } else {
            true
        };
        if last {
            let id: u32 = ids[p];
            proof {
                lemma_last_in_group(v, roots@, ids@, keys@, places@, t as int);
                assert(lives_in(v, roots@, id as int));
                assert(v.slot_wf(id as int));
            }
            let e: Entry = index.entry(id);
            let place: Vec<u8> = index.path_of(id);
            let item: Known = Known {
                key: path_components(place.as_slice()),
                path: place,
                size: e.size,
                mtime: e.mtime,
                is_dir: e.is_dir(),
            };
            proof {
                assert(tells(v, id as int, item));
                assert(item.place() == kv[p as int]);
            }
            out.push(item);
            proof {
                assert forall|k: int| 0 <= k < out@.len() implies #[trigger] tells_last(v, roots@, out@[k]) by {
                    if k < before.len() {
                        assert(out@[k] == before[k]);
                        assert(tells_last(v, roots@, before[k]));
                    }
                }
                assert forall|s: int| 0 <= s < t + 1 implies is_listed(out@, #[trigger] kv[places@[s] as int]) by {
                    if s < t && is_listed(before, kv[places@[s] as int]) {
                        let k = choose|k: int|
                            0 <= k < before.len() && (#[trigger] before[k]).place() == kv[places@[s] as int];
                        assert(out@[k] == before[k]);
                    } else {
                        assert(out@[before.len() as int].place() == kv[p as int]);
                    }
                }
                assert forall|i: int, j: int| 0 <= i < j < out@.len() implies order::before(
                    (#[trigger] out@[i]).place(),
                    (#[trigger] out@[j]).place(),
                ) by {
                    assert(out@[i] == before[i]);
                    if j < before.len() {
                        assert(out@[j] == before[j]);
                    }
                }
            }
        }
        t += 1;
    }
    proof {
        assert forall|id: int| #[trigger] lives_in(v, roots@, id) implies is_listed(
            out@,
            path::components(v.entry_path(id)),
        ) by {
            assert(ids@.contains(id as u32));
            let q = choose|q: int| 0 <= q < ids@.len() && ids@[q] == id as u32;
            let s = order::lemma_place_of(places@, n as int, q);
            assert(kv[q] == path::components(v.entry_path(ids@[q] as int)));
            assert(is_listed(out@, kv[places@[s] as int]));
        }
    }
    Some(out)
}

// ---- reconciling -------------------------------------------------------------------

/// What a walk found of a path.
#[derive(Debug)]
pub struct Walked {
    pub path: Vec<u8>,
    pub size: u64,
    pub mtime: i64,
    pub is_dir: bool,
}

impl Walked {
    pub open spec fn place(self) -> Seq<Seq<u8>> {
        path::components(self.path@)
    }

    pub open spec fn event(self) -> EventView {
        EventView::Upsert { path: self.path@, size: self.size, mtime: self.mtime, is_dir: self.is_dir }
    }
}

/// The index knows the walked path, and knows it as it is.
pub open spec fn is_unchanged(known: Seq<Known>, w: Walked) -> bool {
    exists|k: int|
        0 <= k < known.len() && (#[trigger] known[k]).place() == w.place() && known[k].size == w.size && known[k].mtime
            == w.mtime && known[k].is_dir == w.is_dir
}

/// Upserts for the first `n` walked paths that are new or changed.
pub open spec fn upserts(known: Seq<Known>, walked: Seq<Walked>, n: nat) -> Seq<EventView>
    decreases n,
{
    if n == 0 {
        Seq::empty()
    } else if is_unchanged(known, walked[n - 1]) {
        upserts(known, walked, (n - 1) as nat)
    } else {
        upserts(known, walked, (n - 1) as nat).push(walked[n - 1].event())
    }
}

/// The directories among the first `n` walked paths that may be watched.
pub open spec fn dirs_to_watch(opts: WatchOptions, walked: Seq<Walked>, n: nat) -> Seq<Seq<u8>>
    decreases n,
{
    if n == 0 {
        Seq::empty()
    } else if walked[n - 1].is_dir && opts.may_watch(walked[n - 1].path@) {
        dirs_to_watch(opts, walked, (n - 1) as nat).push(walked[n - 1].path@)
    } else {
        dirs_to_watch(opts, walked, (n - 1) as nat)
    }
}

/// One of the first `n` walked paths is this one.
pub open spec fn was_walked(walked: Seq<Walked>, n: int, place: Seq<Seq<u8>>) -> bool {
    exists|j: int| 0 <= j < n && (#[trigger] walked[j]).place() == place
}

/// Removals for the first `n` known paths that were not walked.
pub open spec fn removals(known: Seq<Known>, walked: Seq<Walked>, n: nat) -> Seq<EventView>
    decreases n,
{
    if n == 0 {
        Seq::empty()
    } else {
        let rest = removals(known, walked, (n - 1) as nat);
        let k = known[n - 1];
        if was_walked(walked, walked.len() as int, k.place()) {
            rest
        } else if k.is_dir {
            rest.push(EventView::RemoveDir { path: k.path@ })
        } else {
            rest.push(EventView::Remove { path: k.path@ })
        }
    }
}

/// What the index knows, where it knows anything.
pub open spec fn known_seq(known: Option<Vec<Known>>) -> Seq<Known> {
    match known {
        Some(k) => k@,
        None => Seq::empty(),
    }
}

/// Where a path stands among the known ones.
fn find_known(known: &Vec<Known>, place: &Vec<Vec<u8>>) -> (r: Option<usize>)
    requires
        known_wf(known@),
    ensures
        match r {
            Some(i) => i < known@.len() && known@[i as int].place() == path::views(place@),
            None => !is_listed(known@, path::views(place@)),
        },
{
    let ghost key = path::views(place@);
    let mut lo: usize = 0;
    let mut hi: usize = known.len();
    while lo < hi
        invariant
            known_wf(known@),
            key == path::views(place@),
            lo <= hi <= known@.len(),
            forall|i: int| 0 <= i < lo ==> order::before((#[trigger] known@[i]).place(), key),
            forall|i: int| hi <= i < known@.len() ==> order::before(key, (#[trigger] known@[i]).place()),
        decreases hi - lo,
    {
        let mid: usize = lo + (hi - lo) / 2;
        assert(known@[mid as int].wf());
        proof {
            order::law_path_order_is_total(known@[mid as int].place(), key);
        }
        if comes_before(&known[mid].key, place) {
            proof {
                assert forall|i: int| 0 <= i < mid + 1 implies order::before((#[trigger] known@[i]).place(), key) by {
                    if i < mid {
                        order::law_path_order_is_transitive(
                            known@[i].place(),
                            known@[mid as int].place(),
                            key,
                        );
                    }
                }
            }
            lo = mid + 1;
        } else if comes_before(place, &known[mid].key) {
            proof {
                assert forall|i: int| mid <= i < known@.len() implies order::before(
                    key,
                    (#[trigger] known@[i]).place(),
                ) by {
                    if i > mid {
                        order::law_path_order_is_transitive(
                            key,
                            known@[mid as int].place(),
                            known@[i].place(),
                        );
                    }
                }
            }
            hi = mid;
        } else {
            return Some(mid);
        }
    }
    proof {
        order::law_path_order_is_total(key, key);
    }
    None
}

/// Two known paths are never the same.
pub(crate) proof fn lemma_known_once(known: Seq<Known>, i: int, j: int)
    requires
        known_wf(known),
        0 <= i < known.len(),
        0 <= j < known.len(),
        known[i].place() == known[j].place(),
    ensures
        i == j,
{
    order::law_path_order_is_total(known[i].place(), known[i].place());
    if i < j {
        assert(order::before(known[i].place(), known[j].place()));
    } else if j < i {
        assert(order::before(known[j].place(), known[i].place()));
    }
}

/// Reconciles subtrees with the index: emits upserts for entries that are
/// new or changed on disk and removals for entries that only exist in the
/// index.
///
/// All roots are diffed together because the index-side snapshot costs one
/// pass over every entry; doing that per subtree would make a degraded
/// rescan of a few hundred subtrees quadratic.
pub fn diff_subtrees(
    opts: &WatchOptions,
    known: &Option<Vec<Known>>,
    walked: &Vec<Walked>,
    new_dirs: &mut Vec<Vec<u8>>,
    out: &mut Vec<IndexEvent>,
)
    requires
        known_wf(known_seq(*known)),
    ensures
        events::event_views(final(out)@) == events::event_views(old(out)@) + upserts(
            known_seq(*known),
            walked@,
            walked@.len(),
        ) + removals(known_seq(*known), walked@, known_seq(*known).len()),
        path::views(final(new_dirs)@) == path::views(old(new_dirs)@) + dirs_to_watch(
            *opts,
            walked@,
            walked@.len(),
        ),
{
    let none: Vec<Known> = Vec::new();
    assert(none@ =~= Seq::empty());
    let list: &Vec<Known> = match known {
        Some(k) => k,
        None => &none,
    };
    assert(list@ =~= known_seq(*known));
    let m: usize = list.len();
    let mut seen: Vec<bool> = Vec::new();
    let mut k: usize = 0;
    while k < m
        invariant
            k <= m,
            seen@.len() == k,
            forall|i: int| 0 <= i < k ==> !(#[trigger] seen@[i]),
        decreases m - k,
    {
        seen.push(false);
        k += 1;
    }
    let ghost evs = events::event_views(out@);
    let ghost dirs = path::views(new_dirs@);
    let n: usize = walked.len();
    let mut i: usize = 0;
    assert(evs + upserts(list@, walked@, 0) =~= evs);
    assert(dirs + dirs_to_watch(*opts, walked@, 0) =~= dirs);
    while i < n
        invariant
            n == walked@.len(),
            m == list@.len(),
            i <= n,
            known_wf(list@),
            seen@.len() == m,
            forall|k: int|
                0 <= k < m ==> #[trigger] seen@[k] == was_walked(walked@, i as int, list@[k].place()),
            events::event_views(out@) == evs + upserts(list@, walked@, i as nat),
            path::views(new_dirs@) == dirs + dirs_to_watch(*opts, walked@, i as nat),
        decreases n - i,
    {
        let w: &Walked = &walked[i];
        let ghost before = seen@;
        if w.is_dir && opts.watchable(w.path.as_slice()) {
            let p: Vec<u8> = clone_path(&w.path);
            proof {
                lemma_push_path(new_dirs@, p);
            }
            new_dirs.push(p);
            assert(path::views(new_dirs@) =~= dirs + dirs_to_watch(*opts, walked@, i as nat + 1));
        }
        let place: Vec<Vec<u8>> = path_components(w.path.as_slice());
        let found: Option<usize> = find_known(list, &place);
        let unchanged: bool = match found {
            Some(k) => {
                let e: &Known = &list[k];
                proof {
                    if is_unchanged(list@, *w) {
                        let j = choose|j: int|
                            0 <= j < list@.len() && (#[trigger] list@[j]).place() == w.place() && list@[j].size
                                == w.size && list@[j].mtime == w.mtime && list@[j].is_dir == w.is_dir;
                        lemma_known_once(list@, k as int, j);
                    }
                    assert(list@[k as int].place() == w.place());
                }
                e.size == w.size && e.mtime == w.mtime && e.is_dir == w.is_dir
            },
            None => {
                proof {
                    if is_unchanged(list@, *w) {
                        let j = choose|j: int|
                            0 <= j < list@.len() && (#[trigger] list@[j]).place() == w.place() && list@[j].size
                                == w.size && list@[j].mtime == w.mtime && list@[j].is_dir == w.is_dir;
                        assert(list@[j].place() == path::views(place@));
                    }
                }
                false
            },
        };
        assert(unchanged == is_unchanged(list@, *w));
        if !unchanged {
            let ev: IndexEvent = IndexEvent::Upsert {
                path: clone_path(&w.path),
                size: w.size,
                mtime: w.mtime,
                is_dir: w.is_dir,
            };
            proof {
                lemma_push_event(out@, ev);
            }
            out.push(ev);
            assert(events::event_views(out@) =~= evs + upserts(list@, walked@, i as nat + 1));
        }
        if let Some(k) = found {
            seen[k] = true;
        }
        proof {
            assert forall|k: int| 0 <= k < m implies #[trigger] seen@[k] == was_walked(
                walked@,
                i + 1,
                list@[k].place(),
            ) by {
                assert(before[k] == was_walked(walked@, i as int, list@[k].place()));
                if was_walked(walked@, i as int, list@[k].place()) {
                    let j = choose|j: int| 0 <= j < i && (#[trigger] walked@[j]).place() == list@[k].place();
                    assert(walked@[j].place() == list@[k].place());
                }
                match found {
                    Some(f) => {
                        if f == k {
                            assert(walked@[i as int].place() == list@[k].place());
                        } else if walked@[i as int].place() == list@[k].place() {
                            lemma_known_once(list@, f as int, k);
                        }
                    },
                    None => {
                        if walked@[i as int].place() == list@[k].place() {
                            assert(list@[k].place() == path::views(place@));
                        }
                    },
                }
                if was_walked(walked@, i + 1, list@[k].place()) {
                    let j = choose|j: int| 0 <= j < i + 1 && (#[trigger] walked@[j]).place() == list@[k].place();
                    if j < i {
                        assert(was_walked(walked@, i as int, list@[k].place()));
                    }
                }
            }
        }
        i += 1;
    }
    let ghost evs = events::event_views(out@);
    let mut k: usize = 0;
    assert(evs + removals(list@, walked@, 0) =~= evs);
    while k < m
        invariant
            m == list@.len(),
            k <= m,
            seen@.len() == m,
            forall|j: int|
                0 <= j < m ==> #[trigger] seen@[j] == was_walked(walked@, walked@.len() as int, list@[j].place()),
            events::event_views(out@) == evs + removals(list@, walked@, k as nat),
        decreases m - k,
    {
        if !seen[k] {
            let e: &Known = &list[k];
            let ev: IndexEvent = if e.is_dir {
                IndexEvent::RemoveDir { path: clone_path(&e.path) }
            } else {
                IndexEvent::Remove { path: clone_path(&e.path) }
            };
            proof {
                lemma_push_event(out@, ev);
            }
            out.push(ev);
            assert(events::event_views(out@) =~= evs + removals(list@, walked@, k as nat + 1));
        }
        k += 1;
    }
}

} // verus!
