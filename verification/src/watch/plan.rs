//! Coalescing a window of raw events into touched paths.

use std::collections::HashMap;

use vstd::prelude::*;

use crate::path;
use crate::path::path_components;
use crate::watch::order;
use crate::watch::order::{comes_before, sorted_places};

verus! {

/// What a touched path needs.
#[derive(Debug, Clone, Copy, PartialEq, Eq, Structural)]
pub enum Touch {
    /// Stat it and upsert or remove accordingly.
    Check,
    /// Same, plus walk it if it turned out to be a directory. Needed because a
    /// directory can be populated before its watch is registered (`git clone`,
    /// `npm install`, or any `mv` of a whole tree).
    Rescan,
}

/// What a raw event says happened.
#[derive(Debug, Clone, Copy, PartialEq, Eq, Structural)]
pub enum ChangeKind {
    Create,
    Remove,
    /// The path that a rename took away.
    RenameFrom,
    /// The path that a rename made.
    RenameTo,
    /// Both paths of a rename: the old one first.
    RenameBoth,
    /// A rename whose direction is unknown.
    Rename,
    /// Any other modification.
    Modify,
    Any,
    Access,
    Other,
}

/// A raw event.
#[derive(Debug, Clone)]
pub struct Change {
    pub kind: ChangeKind,
    pub paths: Vec<Vec<u8>>,
    /// What the two halves of a rename have in common.
    pub tracker: Option<usize>,
    /// The kernel dropped events.
    pub needs_rescan: bool,
}

/// A path that was touched.
#[derive(Debug, Clone)]
pub struct Touched {
    pub path: Vec<u8>,
    pub touch: Touch,
}

#[derive(Debug)]
pub struct Plan {
    /// The touched paths, in the order of paths.
    pub touches: Vec<Touched>,
    /// The kernel dropped events; only a rescan can restore consistency.
    pub overflow: bool,
    /// Renames whose two halves both landed in this window.
    pub pairs: usize,
    /// Renames with only one half, i.e. moved in or out of a watched root.
    pub halves: usize,
}

/// One path that an event touches.
pub struct Mark {
    pub path: Seq<u8>,
    pub touch: Touch,
}

/// The first `k` paths of an event, touched alike.
pub open spec fn marks_alike(paths: Seq<Vec<u8>>, touch: Touch) -> Seq<Mark> {
    Seq::new(paths.len(), |i: int| Mark { path: paths[i]@, touch })
}

/// What an event touches. What appears may be a populated directory; what
/// disappears or changes is only looked at. Where the direction of a rename is
/// unknown, both ends may be new.
pub open spec fn marks_of(ev: Change) -> Seq<Mark> {
    if ev.needs_rescan {
        Seq::empty()
    } else {
        match ev.kind {
            ChangeKind::Create | ChangeKind::RenameTo | ChangeKind::Rename | ChangeKind::Any => marks_alike(
                ev.paths@,
                Touch::Rescan,
            ),
            ChangeKind::Remove | ChangeKind::RenameFrom | ChangeKind::Modify => marks_alike(
                ev.paths@,
                Touch::Check,
            ),
            ChangeKind::RenameBoth => if ev.paths@.len() == 0 {
                Seq::empty()
            } else if ev.paths@.len() == 1 {
                seq![Mark { path: ev.paths@[0]@, touch: Touch::Check }]
            } else {
                seq![
                    Mark { path: ev.paths@[0]@, touch: Touch::Check },
                    Mark { path: ev.paths@[1]@, touch: Touch::Rescan },
                ]
            },
            ChangeKind::Access | ChangeKind::Other => Seq::empty(),
        }
    }
}

/// What a window of events touches.
pub open spec fn all_marks(events: Seq<Change>) -> Seq<Mark>
    decreases events.len(),
{
    if events.len() == 0 {
        Seq::empty()
    } else {
        all_marks(events.drop_last()) + marks_of(events.last())
    }
}

/// The components of a touched path.
pub open spec fn key_of(t: Touched) -> Seq<Seq<u8>> {
    path::components(t.path@)
}

/// The mark is on this path.
pub open spec fn is_on(m: Mark, t: Touched) -> bool {
    path::components(m.path) == key_of(t)
}

/// One touched path for each path that is marked, in the order of paths. It is
/// spelled as where it was first marked, and is to be rescanned where one of its
/// marks says so.
pub open spec fn collects(marks: Seq<Mark>, touches: Seq<Touched>) -> bool {
    &&& forall|i: int, j: int|
        0 <= i < j < touches.len() ==> order::before(key_of(#[trigger] touches[i]), key_of(#[trigger] touches[j]))
    &&& forall|m: int| 0 <= m < marks.len() ==> #[trigger] is_touched(marks[m], touches)
    &&& forall|i: int| 0 <= i < touches.len() ==> #[trigger] spelled_first(marks, touches[i])
    &&& forall|i: int|
        0 <= i < touches.len() ==> (touches[i].touch == Touch::Rescan) == #[trigger] some_rescan(marks, touches[i])
}

/// The path of a mark is among the touched ones.
pub open spec fn is_touched(m: Mark, touches: Seq<Touched>) -> bool {
    exists|i: int| 0 <= i < touches.len() && is_on(m, #[trigger] touches[i])
}

/// The path is spelled as in the first of its marks.
pub open spec fn spelled_first(marks: Seq<Mark>, t: Touched) -> bool {
    exists|f: int|
        0 <= f < marks.len() && (#[trigger] marks[f]).path == t.path@ && forall|m: int|
            0 <= m < f ==> !is_on(#[trigger] marks[m], t)
}

/// One of the marks on the path asks for a rescan.
pub open spec fn some_rescan(marks: Seq<Mark>, t: Touched) -> bool {
    exists|m: int| 0 <= m < marks.len() && is_on(#[trigger] marks[m], t) && marks[m].touch == Touch::Rescan
}

/// The tracker of a rename.
pub open spec fn tracker_of(ev: Change) -> Option<usize> {
    if ev.needs_rescan {
        None
    } else {
        match ev.kind {
            ChangeKind::RenameFrom | ChangeKind::RenameTo | ChangeKind::RenameBoth => ev.tracker,
            _ => None,
        }
    }
}

/// Some event tells the old path of a rename.
pub open spec fn saw_from(events: Seq<Change>, t: usize) -> bool {
    exists|i: int|
        0 <= i < events.len() && tracker_of(#[trigger] events[i]) == Some(t) && events[i].kind != ChangeKind::RenameTo
}

/// Some event tells the new path of a rename.
pub open spec fn saw_to(events: Seq<Change>, t: usize) -> bool {
    exists|i: int|
        0 <= i < events.len() && tracker_of(#[trigger] events[i]) == Some(t) && events[i].kind != ChangeKind::RenameFrom
}

/// The renames of a window, each once.
pub open spec fn trackers(events: Seq<Change>) -> Seq<usize>
    decreases events.len(),
{
    if events.len() == 0 {
        Seq::empty()
    } else {
        let earlier = trackers(events.drop_last());
        match tracker_of(events.last()) {
            Some(t) => if earlier.contains(t) {
                earlier
            } else {
                earlier.push(t)
            },
            None => earlier,
        }
    }
}

/// The number of renames, among some, of which both paths are told.
pub open spec fn paired(events: Seq<Change>, some: Seq<usize>) -> nat
    decreases some.len(),
{
    if some.len() == 0 {
        0
    } else {
        paired(events, some.drop_last()) + (if saw_from(events, some.last()) && saw_to(events, some.last()) {
            1nat
        } else {
            0nat
        })
    }
}

/// The plan for a window of events.
pub open spec fn is_plan_for(plan: Plan, events: Seq<Change>) -> bool {
    &&& collects(all_marks(events), plan.touches@)
    &&& plan.overflow == (exists|i: int| 0 <= i < events.len() && (#[trigger] events[i]).needs_rescan)
    &&& plan.pairs == paired(events, trackers(events))
    &&& plan.pairs + plan.halves == trackers(events).len()
}

// ---- collecting ---------------------------------------------------------------

pub open spec fn mark_views(marks: Seq<(Vec<u8>, Touch)>) -> Seq<Mark> {
    Seq::new(marks.len(), |i: int| Mark { path: marks[i].0@, touch: marks[i].1 })
}

fn mark_all(marks: &mut Vec<(Vec<u8>, Touch)>, paths: &Vec<Vec<u8>>, touch: Touch)
    ensures
        mark_views(final(marks)@) == mark_views(old(marks)@) + marks_alike(paths@, touch),
{
    let n: usize = paths.len();
    let mut i: usize = 0;
    let ghost before = mark_views(marks@);
    assert(before + marks_alike(paths@, touch).subrange(0, 0) =~= before);
    while i < n
        invariant
            n == paths@.len(),
            i <= n,
            mark_views(marks@) == before + marks_alike(paths@, touch).subrange(0, i as int),
        decreases n - i,
    {
        let ghost so_far = marks@;
        marks.push((vstd::slice::slice_to_vec(paths[i].as_slice()), touch));
        proof {
            let next = marks_alike(paths@, touch).subrange(0, i + 1);
            assert(next =~= marks_alike(paths@, touch).subrange(0, i as int).push(
                Mark { path: paths@[i as int]@, touch },
            ));
            assert(mark_views(marks@) =~= mark_views(so_far).push(Mark { path: paths@[i as int]@, touch }));
            assert(mark_views(marks@) =~= before + next);
        }
        i += 1;
    }
    assert(marks_alike(paths@, touch).subrange(0, n as int) =~= marks_alike(paths@, touch));
}

fn mark_event(marks: &mut Vec<(Vec<u8>, Touch)>, ev: &Change)
    ensures
        mark_views(final(marks)@) == mark_views(old(marks)@) + marks_of(*ev),
{
    let ghost before = marks@;
    if ev.needs_rescan {
        assert(mark_views(before) + marks_of(*ev) =~= mark_views(before));
        return;
    }
    match ev.kind {
        ChangeKind::Create | ChangeKind::RenameTo | ChangeKind::Rename | ChangeKind::Any => {
            mark_all(marks, &ev.paths, Touch::Rescan);
        },
        ChangeKind::Remove | ChangeKind::RenameFrom | ChangeKind::Modify => {
            mark_all(marks, &ev.paths, Touch::Check);
        },
        ChangeKind::RenameBoth => {
            if ev.paths.len() > 0 {
                marks.push((vstd::slice::slice_to_vec(ev.paths[0].as_slice()), Touch::Check));
            }
            if ev.paths.len() > 1 {
                marks.push((vstd::slice::slice_to_vec(ev.paths[1].as_slice()), Touch::Rescan));
            }
            assert(mark_views(marks@) =~= mark_views(before) + marks_of(*ev));
        },
        ChangeKind::Access | ChangeKind::Other => {
            assert(mark_views(before) + marks_of(*ev) =~= mark_views(before));
        },
    }
}

/// The keys of some marks.
spec fn mark_keys(marks: Seq<Mark>) -> Seq<Seq<Seq<u8>>> {
    Seq::new(marks.len(), |i: int| path::components(marks[i].path))
}

fn keys_of(marks: &Vec<(Vec<u8>, Touch)>) -> (keys: Vec<Vec<Vec<u8>>>)
    ensures
        order::key_views(keys@) == mark_keys(mark_views(marks@)),
{
    let n: usize = marks.len();
    let mut keys: Vec<Vec<Vec<u8>>> = Vec::new();
    let mut i: usize = 0;
    while i < n
        invariant
            n == marks@.len(),
            i <= n,
            keys@.len() == i,
            forall|j: int| 0 <= j < i ==> path::views((#[trigger] keys@[j])@) == path::components(marks@[j].0@),
        decreases n - i,
    {
        keys.push(path_components(marks[i].0.as_slice()));
        i += 1;
    }
    assert(order::key_views(keys@) =~= mark_keys(mark_views(marks@)));
    keys
}

/// Each of the first `t` places lies on a touched path.
#[verifier::opaque]
spec fn covered(marks: Seq<Mark>, places: Seq<usize>, t: int, out: Seq<Touched>) -> bool {
    forall|s: int|
        0 <= s < t ==> exists|g: int|
            0 <= g < out.len() && is_on(marks[#[trigger] places[s] as int], #[trigger] out[g])
}

/// The touched paths that one of the first `t` places wants rescanned.
#[verifier::opaque]
spec fn rescanned(marks: Seq<Mark>, places: Seq<usize>, t: int, out: Seq<Touched>) -> bool {
    forall|g: int|
        0 <= g < out.len() ==> ((#[trigger] out[g]).touch == Touch::Rescan) == (exists|s: int|
            0 <= s < t && is_on(marks[#[trigger] places[s] as int], out[g]) && marks[places[s] as int].touch
                == Touch::Rescan)
}

/// What has been gathered from the first `t` places of the order: the first place
/// of each touched path is in `firsts`.
spec fn gathered(marks: Seq<Mark>, places: Seq<usize>, t: int, out: Seq<Touched>, firsts: Seq<int>) -> bool {
    let keys = mark_keys(marks);
    &&& firsts.len() == out.len()
    &&& out.len() > 0 <==> t > 0
    &&& forall|g: int|
        0 <= g < out.len() ==> {
            &&& 0 <= #[trigger] firsts[g] < marks.len()
            &&& out[g].path@ == marks[firsts[g]].path
        }
    &&& t > 0 ==> keys[places[t - 1] as int] == key_of(out.last())
    &&& forall|i: int, j: int|
        0 <= i < j < out.len() ==> order::before(key_of(#[trigger] out[i]), key_of(#[trigger] out[j]))
    &&& covered(marks, places, t, out)
    &&& forall|s: int, g: int|
        0 <= s < t && 0 <= g < out.len() && is_on(marks[#[trigger] places[s] as int], #[trigger] out[g])
            ==> firsts[g] <= places[s]
    &&& rescanned(marks, places, t, out)
}

/// The next place lies on the last touched path, or behind all of them.
proof fn lemma_next_place(marks: Seq<Mark>, places: Seq<usize>, t: int, out: Seq<Touched>, firsts: Seq<int>)
    requires
        gathered(marks, places, t, out, firsts),
        order::is_sorted(mark_keys(marks), places),
        forall|i: int| 0 <= i < places.len() ==> 0 <= #[trigger] places[i] < marks.len(),
        0 < t < places.len(),
    ensures
        ({
            let k = mark_keys(marks)[places[t] as int];
            &&& k == key_of(out.last()) || order::before(key_of(out.last()), k)
            &&& forall|g: int| 0 <= g < out.len() - 1 ==> order::before(key_of(#[trigger] out[g]), k)
        }),
{
    let keys = mark_keys(marks);
    let k = keys[places[t] as int];
    assert(order::place_before(keys, places[t - 1] as int, places[t] as int));
    assert forall|g: int| 0 <= g < out.len() - 1 implies order::before(key_of(#[trigger] out[g]), k) by {
        assert(order::before(key_of(out[g]), key_of(out[out.len() - 1])));
        if k != key_of(out.last()) {
            order::law_path_order_is_transitive(key_of(out[g]), key_of(out.last()), k);
        }
    }
}

/// Groups marks by their paths.
fn gather(marks: &Vec<(Vec<u8>, Touch)>) -> (out: Vec<Touched>)
    ensures
        collects(mark_views(marks@), out@),
{
    let keys: Vec<Vec<Vec<u8>>> = keys_of(marks);
    let places: Vec<usize> = sorted_places(&keys);
    let ghost mv = mark_views(marks@);
    let ghost kv = mark_keys(mv);
    let mut out: Vec<Touched> = Vec::new();
    let ghost mut firsts: Seq<int> = Seq::empty();
    let n: usize = places.len();
    let mut t: usize = 0;
    proof {
        assert(order::key_views(keys@).len() == kv.len());
        reveal(covered);
        reveal(rescanned);
    }
    while t < n
        invariant
            n == places@.len(),
            n == marks@.len(),
            n == keys@.len(),
            t <= n,
            mv == mark_views(marks@),
            kv == mark_keys(mv),
            kv == order::key_views(keys@),
            order::is_range(places@, 0, n as int),
            order::is_sorted(kv, places@),
            gathered(mv, places@, t as int, out@, firsts),
        decreases n - t,
    {
        let p: usize = places[t];
        let ghost k = kv[p as int];
        let ghost before = out@;
        assert(places@[t as int] == p);
        assert(k == path::views(keys@[p as int]@));
        let fresh: bool = if t == 0 {
            true
        } else {
            let q: usize = places[t - 1];
            proof {
                lemma_next_place(mv, places@, t as int, out@, firsts);
                assert(places@[t - 1] == q);
                assert(kv[q as int] == path::views(keys@[q as int]@));
                order::law_path_order_is_total(kv[q as int], k);
            }
            comes_before(&keys[q], &keys[p])
        };
        if fresh {
            out.push(Touched { path: vstd::slice::slice_to_vec(marks[p].0.as_slice()), touch: marks[p].1 });
            proof {
                lemma_fresh(mv, places@, t as int, before, firsts, out@.last());
                assert(out@ =~= before.push(out@.last()));
                firsts = firsts.push(p as int);
            }
        } else {
            proof {
                lemma_more(mv, places@, t as int, before, firsts);
            }
            if marks[p].1 == Touch::Rescan {
                let last: usize = out.len() - 1;
                let old: Touched = out.pop().unwrap();
                out.push(Touched { path: old.path, touch: Touch::Rescan });
                assert(out@ =~= before.update(last as int, Touched { path: before.last().path, touch: Touch::Rescan }));
            } else {
                assert(out@ =~= before.update(before.len() - 1, before.last()));
            }
        }
        t += 1;
    }
    proof {
        lemma_gathered_all(mv, places@, out@, firsts);
    }
    out
}

/// A place behind all touched paths starts a new one.
proof fn lemma_fresh(marks: Seq<Mark>, places: Seq<usize>, t: int, out: Seq<Touched>, firsts: Seq<int>, new: Touched)
    requires
        gathered(marks, places, t, out, firsts),
        order::is_sorted(mark_keys(marks), places),
        forall|i: int| 0 <= i < places.len() ==> 0 <= #[trigger] places[i] < marks.len(),
        0 <= t < places.len(),
        new.path@ == marks[places[t] as int].path,
        new.touch == marks[places[t] as int].touch,
        t > 0 ==> order::before(
            mark_keys(marks)[places[t - 1] as int],
            mark_keys(marks)[places[t] as int],
        ),
    ensures
        gathered(marks, places, t + 1, out.push(new), firsts.push(places[t] as int)),
{
    reveal(covered);
    reveal(rescanned);
    let next = out.push(new);
    let nf = firsts.push(places[t] as int);
    let keys = mark_keys(marks);
    let k = keys[places[t] as int];
    if t > 0 {
        lemma_next_place(marks, places, t, out, firsts);
        assert forall|g: int| 0 <= g < out.len() implies order::before(key_of(#[trigger] out[g]), k) && key_of(out[g])
            != k by {
            if g == out.len() - 1 {
                assert(key_of(out.last()) == keys[places[t - 1] as int]);
            }
            order::law_path_order_is_total(key_of(out[g]), k);
        }
    }
    assert forall|g: int| 0 <= g < next.len() implies {
        &&& 0 <= #[trigger] nf[g] < marks.len()
        &&& next[g].path@ == marks[nf[g]].path
    } by {
        if g < out.len() {
            assert(nf[g] == firsts[g]);
        }
    }
    assert forall|i: int, j: int| 0 <= i < j < next.len() implies order::before(
        key_of(#[trigger] next[i]),
        key_of(#[trigger] next[j]),
    ) by {
        assert(next[i] == out[i]);
        if j < out.len() {
            assert(next[j] == out[j]);
        }
    }
    assert forall|s: int| 0 <= s < t + 1 implies exists|g: int|
        0 <= g < next.len() && is_on(marks[#[trigger] places[s] as int], #[trigger] next[g]) by {
        if s < t {
            let g = choose|g: int| 0 <= g < out.len() && is_on(marks[places[s] as int], #[trigger] out[g]);
            assert(next[g] == out[g]);
        } else {
            assert(is_on(marks[places[s] as int], next[out.len() as int]));
        }
    }
    // Nothing earlier lies on the new path, and the new place lies on no earlier one.
    assert forall|s: int| 0 <= s < t implies !is_on(marks[#[trigger] places[s] as int], new) by {
        let g = choose|g: int| 0 <= g < out.len() && is_on(marks[places[s] as int], #[trigger] out[g]);
        assert(key_of(out[g]) != k);
    }
    assert forall|s: int, g: int|
        0 <= s < t + 1 && 0 <= g < next.len() && is_on(marks[#[trigger] places[s] as int], #[trigger] next[g]) implies nf[g]
        <= places[s] by {
        if g < out.len() {
            assert(next[g] == out[g]);
            if s < t {
                assert(is_on(marks[places[s] as int], out[g]));
            }
        }
    }
    assert forall|g: int| 0 <= g < next.len() implies ((#[trigger] next[g]).touch == Touch::Rescan) == (exists|s: int|
        0 <= s < t + 1 && is_on(marks[#[trigger] places[s] as int], next[g]) && marks[places[s] as int].touch
            == Touch::Rescan) by {
        if g < out.len() {
            assert(next[g] == out[g]);
            if next[g].touch == Touch::Rescan {
                let s = choose|s: int|
                    0 <= s < t && is_on(marks[#[trigger] places[s] as int], out[g]) && marks[places[s] as int].touch
                        == Touch::Rescan;
                assert(is_on(marks[places[s] as int], next[g]));
            }
        } else if next[g].touch == Touch::Rescan {
            assert(is_on(marks[places[t] as int], next[g]));
        }
    }
}

/// A place on the last touched path joins it.
proof fn lemma_more(marks: Seq<Mark>, places: Seq<usize>, t: int, out: Seq<Touched>, firsts: Seq<int>)
    requires
        gathered(marks, places, t, out, firsts),
        order::is_sorted(mark_keys(marks), places),
        forall|i: int| 0 <= i < places.len() ==> 0 <= #[trigger] places[i] < marks.len(),
        0 < t < places.len(),
        mark_keys(marks)[places[t - 1] as int] == mark_keys(marks)[places[t] as int],
    ensures
        forall|new: Touched|
            new.path == out.last().path && new.touch == (if marks[places[t] as int].touch == Touch::Rescan {
                Touch::Rescan
            } else {
                out.last().touch
            }) ==> #[trigger] gathered(marks, places, t + 1, out.update(out.len() - 1, new), firsts),
{
    reveal(covered);
    reveal(rescanned);
    let keys = mark_keys(marks);
    let k = keys[places[t] as int];
    let last = out.len() - 1;
    lemma_next_place(marks, places, t, out, firsts);
    assert(order::place_before(keys, places[t - 1] as int, places[t] as int));
    order::law_path_order_is_total(k, k);
    assert(places[t - 1] < places[t]);
    assert forall|new: Touched|
        new.path == out.last().path && new.touch == (if marks[places[t] as int].touch == Touch::Rescan {
            Touch::Rescan
        } else {
            out.last().touch
        }) implies #[trigger] gathered(marks, places, t + 1, out.update(out.len() - 1, new), firsts) by {
        let next = out.update(last, new);
        assert forall|g: int| 0 <= g < next.len() implies key_of(#[trigger] next[g]) == key_of(out[g])
            && next[g].path@ == out[g].path@ by {}
        assert forall|g: int| 0 <= g < last implies key_of(#[trigger] next[g]) != k by {
            assert(next[g] == out[g]);
            order::law_path_order_is_total(key_of(out[g]), k);
        }
        assert forall|g: int| 0 <= g < next.len() implies {
            &&& 0 <= #[trigger] firsts[g] < marks.len()
            &&& next[g].path@ == marks[firsts[g]].path
        } by {
            assert(next[g].path@ == out[g].path@);
        }
        assert forall|i: int, j: int| 0 <= i < j < next.len() implies order::before(
            key_of(#[trigger] next[i]),
            key_of(#[trigger] next[j]),
        ) by {
            assert(order::before(key_of(out[i]), key_of(out[j])));
        }
        assert forall|s: int| 0 <= s < t + 1 implies exists|g: int|
            0 <= g < next.len() && is_on(marks[#[trigger] places[s] as int], #[trigger] next[g]) by {
            if s < t {
                let g = choose|g: int| 0 <= g < out.len() && is_on(marks[places[s] as int], #[trigger] out[g]);
                assert(is_on(marks[places[s] as int], next[g]));
            } else {
                assert(is_on(marks[places[s] as int], next[last]));
            }
        }
        assert(is_on(marks[places[t - 1] as int], out[last]));
        assert forall|s: int, g: int|
            0 <= s < t + 1 && 0 <= g < next.len() && is_on(marks[#[trigger] places[s] as int], #[trigger] next[g]) implies firsts[g]
            <= places[s] by {
            if s < t {
                assert(is_on(marks[places[s] as int], out[g]));
            } else {
                assert(g == last);
                assert(firsts[last] <= places[t - 1]);
            }
        }
        assert forall|g: int| 0 <= g < next.len() implies ((#[trigger] next[g]).touch == Touch::Rescan) == (exists|
            s: int,
        |
            0 <= s < t + 1 && is_on(marks[#[trigger] places[s] as int], next[g]) && marks[places[s] as int].touch
                == Touch::Rescan) by {
            assert((out[g].touch == Touch::Rescan) == (exists|s: int|
                0 <= s < t && is_on(marks[#[trigger] places[s] as int], out[g]) && marks[places[s] as int].touch
                    == Touch::Rescan));
            if out[g].touch == Touch::Rescan {
                let s = choose|s: int|
                    0 <= s < t && is_on(marks[#[trigger] places[s] as int], out[g]) && marks[places[s] as int].touch
                        == Touch::Rescan;
                assert(is_on(marks[places[s] as int], next[g]));
            }
            if g == last && marks[places[t] as int].touch == Touch::Rescan {
                assert(is_on(marks[places[t] as int], next[g]));
            }
        }
    }
}

proof fn lemma_all_covered(marks: Seq<Mark>, places: Seq<usize>, out: Seq<Touched>, m: int)
    requires
        covered(marks, places, places.len() as int, out),
        order::is_range(places, 0, marks.len() as int),
        0 <= m < marks.len() <= usize::MAX,
    ensures
        is_touched(marks[m], out),
{
    reveal(covered);
    let s = order::lemma_place_of(places, marks.len() as int, m);
    let g = choose|g: int| 0 <= g < out.len() && is_on(marks[places[s] as int], #[trigger] out[g]);
    assert(is_on(marks[m], out[g]));
}

proof fn lemma_all_spelled(marks: Seq<Mark>, places: Seq<usize>, t: Touched, f: int)
    requires
        0 <= f < marks.len() <= usize::MAX,
        t.path@ == marks[f].path,
        forall|s: int|
            0 <= s < places.len() && is_on(marks[#[trigger] places[s] as int], t) ==> f <= places[s],
        order::is_range(places, 0, marks.len() as int),
    ensures
        spelled_first(marks, t),
{
    assert(marks[f].path == t.path@);
    assert forall|m: int| 0 <= m < f implies !is_on(#[trigger] marks[m], t) by {
        let s = order::lemma_place_of(places, marks.len() as int, m);
        assert(marks[places[s] as int] == marks[m]);
    }
}

proof fn lemma_all_rescans(marks: Seq<Mark>, places: Seq<usize>, out: Seq<Touched>, i: int)
    requires
        rescanned(marks, places, places.len() as int, out),
        0 <= i < out.len(),
        order::is_range(places, 0, marks.len() as int),
        marks.len() <= usize::MAX,
    ensures
        (out[i].touch == Touch::Rescan) == some_rescan(marks, out[i]),
{
    reveal(rescanned);
    let t = out[i];
    if t.touch == Touch::Rescan {
        let s = choose|s: int|
            0 <= s < places.len() && is_on(marks[#[trigger] places[s] as int], t) && marks[places[s] as int].touch
                == Touch::Rescan;
        assert(is_on(marks[places[s] as int], t));
    }
    if some_rescan(marks, t) {
        let m = choose|m: int| 0 <= m < marks.len() && is_on(#[trigger] marks[m], t) && marks[m].touch == Touch::Rescan;
        let s = order::lemma_place_of(places, marks.len() as int, m);
        assert(is_on(marks[places[s] as int], t));
    }
}

/// When all places are gathered, so are all marks.
proof fn lemma_gathered_all(marks: Seq<Mark>, places: Seq<usize>, out: Seq<Touched>, firsts: Seq<int>)
    requires
        gathered(marks, places, places.len() as int, out, firsts),
        order::is_range(places, 0, marks.len() as int),
        marks.len() <= usize::MAX,
    ensures
        collects(marks, out),
{
    assert forall|m: int| 0 <= m < marks.len() implies #[trigger] is_touched(marks[m], out) by {
        lemma_all_covered(marks, places, out, m);
    }
    assert forall|i: int| 0 <= i < out.len() implies #[trigger] spelled_first(marks, out[i]) by {
        let f = firsts[i];
        lemma_all_spelled(marks, places, out[i], f);
    }
    assert forall|i: int| 0 <= i < out.len() implies (out[i].touch == Touch::Rescan) == #[trigger] some_rescan(
        marks,
        out[i],
    ) by {
        lemma_all_rescans(marks, places, out, i);
    }
}

// ---- renames --------------------------------------------------------------------

/// The renames of the events so far, and which of their paths were told.
struct Sides {
    places: HashMap<usize, usize>,
    told: Vec<(bool, bool)>,
}

impl Sides {
    /// Which paths of which renames were told by some events.
    spec fn is_for(self, events: Seq<Change>) -> bool {
        let all = trackers(events);
        &&& self.told@.len() == all.len()
        &&& forall|i: int|
            0 <= i < all.len() ==> {
                &&& (#[trigger] self.told@[i]).0 == saw_from(events, all[i])
                &&& self.told@[i].1 == saw_to(events, all[i])
            }
        &&& forall|i: int| 0 <= i < all.len() ==> self.places@.contains_pair(#[trigger] all[i], i as usize)
        &&& forall|t: usize| #[trigger] self.places@.contains_key(t) ==> all.contains(t)
    }
}

/// An event tells more only of its own rename.
proof fn lemma_told_by(events: Seq<Change>, ev: Change, t: usize)
    ensures
        saw_from(events.push(ev), t) == (saw_from(events, t) || (tracker_of(ev) == Some(t) && ev.kind
            != ChangeKind::RenameTo)),
        saw_to(events.push(ev), t) == (saw_to(events, t) || (tracker_of(ev) == Some(t) && ev.kind
            != ChangeKind::RenameFrom)),
{
    let more = events.push(ev);
    assert(more[events.len() as int] == ev);
    if saw_from(events, t) {
        let i = choose|i: int|
            0 <= i < events.len() && tracker_of(#[trigger] events[i]) == Some(t) && events[i].kind
                != ChangeKind::RenameTo;
        assert(more[i] == events[i]);
    }
    if saw_to(events, t) {
        let i = choose|i: int|
            0 <= i < events.len() && tracker_of(#[trigger] events[i]) == Some(t) && events[i].kind
                != ChangeKind::RenameFrom;
        assert(more[i] == events[i]);
    }
    if saw_from(more, t) {
        let i = choose|i: int|
            0 <= i < more.len() && tracker_of(#[trigger] more[i]) == Some(t) && more[i].kind != ChangeKind::RenameTo;
        if i < events.len() {
            assert(events[i] == more[i]);
        }
    }
    if saw_to(more, t) {
        let i = choose|i: int|
            0 <= i < more.len() && tracker_of(#[trigger] more[i]) == Some(t) && more[i].kind
                != ChangeKind::RenameFrom;
        if i < events.len() {
            assert(events[i] == more[i]);
        }
    }
}

/// A rename is among the renames of a window where one of its paths is told.
proof fn lemma_tracked(events: Seq<Change>, t: usize)
    ensures
        trackers(events).no_duplicates(),
        trackers(events).contains(t) == (saw_from(events, t) || saw_to(events, t)),
        trackers(events).len() <= events.len(),
    decreases events.len(),
{
    if events.len() > 0 {
        let rest = events.drop_last();
        lemma_tracked(rest, t);
        assert(events =~= rest.push(events.last()));
        lemma_told_by(rest, events.last(), t);
        let earlier = trackers(rest);
        match tracker_of(events.last()) {
            Some(x) => {
                let now = trackers(events);
                if !earlier.contains(x) {
                    assert(now == earlier.push(x));
                    assert(now[earlier.len() as int] == x);
                    if earlier.contains(t) {
                        let i = choose|i: int| 0 <= i < earlier.len() && earlier[i] == t;
                        assert(now[i] == t);
                    }
                    if now.contains(t) {
                        let i = choose|i: int| 0 <= i < now.len() && now[i] == t;
                        if i < earlier.len() {
                            assert(earlier[i] == t);
                        }
                    }
                    assert forall|i: int, j: int| 0 <= i < now.len() && 0 <= j < now.len() && i != j implies now[i]
                        != now[j] by {
                        if i < earlier.len() && j < earlier.len() {
                            assert(earlier[i] != earlier[j]);
                        } else if i < earlier.len() {
                            assert(earlier.contains(earlier[i]));
                        } else {
                            assert(earlier.contains(earlier[j]));
                        }
                    }
                }
            },
            None => {},
        }
    } else {
        assert(!trackers(events).contains(t));
    }
}

impl Sides {
    fn note(&mut self, ev: &Change, Ghost(events): Ghost<Seq<Change>>)
        requires
            old(self).is_for(events),
        ensures
            final(self).is_for(events.push(*ev)),
    {
        broadcast use vstd::std_specs::hash::group_hash_axioms;

        let ghost all = trackers(events);
        let ghost more = events.push(*ev);
        let ghost now = trackers(more);
        proof {
            assert(more.drop_last() =~= events);
            assert forall|t: usize| #![trigger saw_from(more, t)] saw_from(more, t) == (saw_from(events, t) || (
            tracker_of(*ev) == Some(t) && ev.kind != ChangeKind::RenameTo)) by {
                lemma_told_by(events, *ev, t);
            }
            assert forall|t: usize| #![trigger saw_to(more, t)] saw_to(more, t) == (saw_to(events, t) || (
            tracker_of(*ev) == Some(t) && ev.kind != ChangeKind::RenameFrom)) by {
                lemma_told_by(events, *ev, t);
            }
        }
        let renamed: bool = !ev.needs_rescan && (ev.kind == ChangeKind::RenameFrom || ev.kind
            == ChangeKind::RenameTo || ev.kind == ChangeKind::RenameBoth);
        if !renamed {
            return;
        }
        let from: bool = ev.kind != ChangeKind::RenameTo;
        let to: bool = ev.kind != ChangeKind::RenameFrom;
        if let Some(t) = ev.tracker {
            proof {
                lemma_tracked(events, t);
            }
            match self.places.get(&t) {
                Some(at) => {
                    let at: usize = *at;
                    proof {
                        assert(self.places@.contains_key(t));
                        let i = choose|i: int| 0 <= i < all.len() && all[i] == t;
                        assert(i < self.told.len());
                        assert(self.places@.contains_pair(all[i], i as usize));
                    }
                    let told: (bool, bool) = self.told[at];
                    self.told[at] = (told.0 || from, told.1 || to);
                    proof {
                        assert(now == all);
                        assert forall|i: int| 0 <= i < now.len() implies {
                            &&& (#[trigger] self.told@[i]).0 == saw_from(more, now[i])
                            &&& self.told@[i].1 == saw_to(more, now[i])
                        } by {
                            assert(old(self).told@[i].0 == saw_from(events, all[i]));
                            if i != at {
                                assert(all[i] != all[at as int]);
                            }
                        }
                    }
                },
                None => {
                    let at: usize = self.told.len();
                    self.told.push((from, to));
                    self.places.insert(t, at);
                    proof {
                        assert(!all.contains(t)) by {
                            if all.contains(t) {
                                let i = choose|i: int| 0 <= i < all.len() && all[i] == t;
                                assert(old(self).places@.contains_pair(all[i], i as usize));
                            }
                        }
                        assert(now == all.push(t));
                        assert forall|i: int| 0 <= i < now.len() implies self.places@.contains_pair(
                            #[trigger] now[i],
                            i as usize,
                        ) by {
                            if i < all.len() {
                                assert(now[i] == all[i]);
                                assert(all.contains(all[i]));
                                assert(old(self).places@.contains_pair(all[i], i as usize));
                            }
                        }
                        assert forall|i: int| 0 <= i < now.len() implies {
                            &&& (#[trigger] self.told@[i]).0 == saw_from(more, now[i])
                            &&& self.told@[i].1 == saw_to(more, now[i])
                        } by {
                            if i < all.len() {
                                assert(now[i] == all[i]);
                                assert(old(self).told@[i].0 == saw_from(events, all[i]));
                                assert(all.contains(all[i]));
                            }
                        }
                        assert forall|x: usize| #[trigger] self.places@.contains_key(x) implies now.contains(x) by {
                            if x == t {
                                assert(now[all.len() as int] == t);
                            } else {
                                assert(old(self).places@.contains_key(x));
                                let i = choose|i: int| 0 <= i < all.len() && all[i] == x;
                                assert(now[i] == x);
                            }
                        }
                    }
                },
            }
        }
    }
}

/// Whether a window of events tells that the kernel dropped some, what it
/// touches, and how its renames pair up.
pub fn coalesce(events: &[Change]) -> (plan: Plan)
    ensures
        is_plan_for(plan, events@),
{
    let mut marks: Vec<(Vec<u8>, Touch)> = Vec::new();
    let mut sides: Sides = Sides { places: HashMap::new(), told: Vec::new() };
    let mut overflow: bool = false;
    let n: usize = events.len();
    let mut i: usize = 0;
    proof {
        assert(events@.subrange(0, 0).len() == 0);
        assert(mark_views(marks@) =~= Seq::empty());
    }
    while i < n
        invariant
            n == events@.len(),
            i <= n,
            mark_views(marks@) == all_marks(events@.subrange(0, i as int)),
            sides.is_for(events@.subrange(0, i as int)),
            overflow == (exists|j: int| 0 <= j < i && (#[trigger] events@[j]).needs_rescan),
        decreases n - i,
    {
        let ev: &Change = &events[i];
        proof {
            let next = events@.subrange(0, i + 1);
            assert(next.drop_last() =~= events@.subrange(0, i as int));
            assert(next =~= events@.subrange(0, i as int).push(*ev));
            assert(next.last() == *ev);
        }
        if ev.needs_rescan {
            overflow = true;
            assert(events@[i as int].needs_rescan);
        }
        mark_event(&mut marks, ev);
        sides.note(ev, Ghost(events@.subrange(0, i as int)));
        i += 1;
    }
    assert(events@.subrange(0, n as int) =~= events@);
    let ghost all = trackers(events@);
    let m: usize = sides.told.len();
    let mut pairs: usize = 0;
    let mut k: usize = 0;
    assert(all.subrange(0, 0).len() == 0);
    while k < m
        invariant
            m == sides.told@.len(),
            k <= m,
            all == trackers(events@),
            sides.is_for(events@),
            pairs <= k,
            pairs == paired(events@, all.subrange(0, k as int)),
        decreases m - k,
    {
        proof {
            let next = all.subrange(0, k + 1);
            assert(next.drop_last() =~= all.subrange(0, k as int));
            assert(next.last() == all[k as int]);
        }
        let told: (bool, bool) = sides.told[k];
        if told.0 && told.1 {
            pairs += 1;
        }
        k += 1;
    }
    assert(all.subrange(0, m as int) =~= all);
    Plan { touches: gather(&marks), overflow, pairs, halves: m - pairs }
}

/// The touched paths are the marked ones, each once; a path is to be rescanned
/// exactly where an event asks for it, so a create wins over any number of
/// modifies.
pub proof fn law_strongest_touch_wins(plan: Plan, events: Seq<Change>, p: Seq<u8>)
    requires
        is_plan_for(plan, events),
    ensures
        ({
            let marks = all_marks(events);
            let on = |m: Mark| path::same_path(m.path, p);
            let at = |t: Touched| path::same_path(t.path@, p);
            &&& (exists|i: int| 0 <= i < plan.touches@.len() && at(#[trigger] plan.touches@[i])) == (exists|m: int|
                0 <= m < marks.len() && on(#[trigger] marks[m]))
            &&& (exists|i: int|
                0 <= i < plan.touches@.len() && at(#[trigger] plan.touches@[i]) && plan.touches@[i].touch
                    == Touch::Rescan) == (exists|m: int|
                0 <= m < marks.len() && on(#[trigger] marks[m]) && marks[m].touch == Touch::Rescan)
            &&& forall|i: int, j: int|
                0 <= i < plan.touches@.len() && 0 <= j < plan.touches@.len() && at(#[trigger] plan.touches@[i]) && at(
                    #[trigger] plan.touches@[j],
                ) ==> i == j
        }),
{
    let marks = all_marks(events);
    let touches = plan.touches@;
    let on = |m: Mark| path::same_path(m.path, p);
    let at = |t: Touched| path::same_path(t.path@, p);
    if exists|m: int| 0 <= m < marks.len() && on(#[trigger] marks[m]) {
        let m = choose|m: int| 0 <= m < marks.len() && on(#[trigger] marks[m]);
        assert(is_touched(marks[m], touches));
        let i = choose|i: int| 0 <= i < touches.len() && is_on(marks[m], #[trigger] touches[i]);
        assert(at(touches[i]));
    }
    if exists|i: int| 0 <= i < touches.len() && at(#[trigger] touches[i]) {
        let i = choose|i: int| 0 <= i < touches.len() && at(#[trigger] touches[i]);
        assert(spelled_first(marks, touches[i]));
        let f = choose|f: int| 0 <= f < marks.len() && (#[trigger] marks[f]).path == touches[i].path@;
        assert(on(marks[f]));
    }
    if exists|m: int| 0 <= m < marks.len() && on(#[trigger] marks[m]) && marks[m].touch == Touch::Rescan {
        let m = choose|m: int| 0 <= m < marks.len() && on(#[trigger] marks[m]) && marks[m].touch == Touch::Rescan;
        assert(is_touched(marks[m], touches));
        let i = choose|i: int| 0 <= i < touches.len() && is_on(marks[m], #[trigger] touches[i]);
        assert(at(touches[i]));
        assert(some_rescan(marks, touches[i]));
    }
    if exists|i: int| 0 <= i < touches.len() && at(#[trigger] touches[i]) && touches[i].touch == Touch::Rescan {
        let i = choose|i: int|
            0 <= i < touches.len() && at(#[trigger] touches[i]) && touches[i].touch == Touch::Rescan;
        assert(some_rescan(marks, touches[i]));
        let m = choose|m: int|
            0 <= m < marks.len() && is_on(#[trigger] marks[m], touches[i]) && marks[m].touch == Touch::Rescan;
        assert(on(marks[m]));
    }
    assert forall|i: int, j: int|
        0 <= i < touches.len() && 0 <= j < touches.len() && at(#[trigger] touches[i]) && at(#[trigger] touches[j]) implies i
        == j by {
        order::law_path_order_is_total(key_of(touches[i]), key_of(touches[i]));
        if i < j {
            assert(order::before(key_of(touches[i]), key_of(touches[j])));
        } else if j < i {
            assert(order::before(key_of(touches[j]), key_of(touches[i])));
        }
    }
}

} // verus!
