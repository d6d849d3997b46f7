//! What a window of raw events comes to, told event by event.

use vstd::prelude::*;

use crate::path;
use crate::watch::order;
use crate::watch::plan;
use crate::watch::plan::{Change, ChangeKind, Plan, Touch};

verus! {

/// The event tells that something happened at its `k`-th path. What was only opened or
/// read is not told, nor is anything by an event that says that events were dropped.
pub open spec fn tells_of(ev: Change, k: int) -> bool {
    &&& 0 <= k < ev.paths@.len()
    &&& !ev.needs_rescan
    &&& ev.kind != ChangeKind::Access
    &&& ev.kind != ChangeKind::Other
    &&& ev.kind == ChangeKind::RenameBoth ==> k < 2
}

/// Something may be new at the `k`-th path of the event: it was created, it is where a
/// rename led to, or the event does not say which end of a rename it is, or what
/// happened.
pub open spec fn may_be_new(ev: Change, k: int) -> bool {
    &&& tells_of(ev, k)
    &&& ev.kind == ChangeKind::Create || ev.kind == ChangeKind::RenameTo || ev.kind == ChangeKind::Rename || ev.kind
        == ChangeKind::Any || (ev.kind == ChangeKind::RenameBoth && k == 1)
}

/// The mark of an event on its `k`-th path.
proof fn lemma_mark_for(events: Seq<Change>, e: int, k: int) -> (m: int)
    requires
        0 <= e < events.len(),
        tells_of(events[e], k),
    ensures
        0 <= m < plan::all_marks(events).len(),
        plan::all_marks(events)[m].path == events[e].paths@[k]@,
        plan::all_marks(events)[m].touch == Touch::Rescan <==> may_be_new(events[e], k),
    decreases events.len(),
{
    let before = plan::all_marks(events.drop_last());
    let own = plan::marks_of(events.last());
    let now = plan::all_marks(events);
    assert(now == before + own);
    if e == events.len() - 1 {
        assert(k < own.len());
        assert(now[before.len() + k] == own[k]);
        before.len() + k
    } else {
        let front = events.drop_last();
        assert(front[e] == events[e]);
        let m = lemma_mark_for(front, e, k);
        assert(now[m] == before[m]);
        m
    }
}

/// The event of a mark, and which of its paths it is on.
proof fn lemma_event_for(events: Seq<Change>, m: int) -> (at: (int, int))
    requires
        0 <= m < plan::all_marks(events).len(),
    ensures
        0 <= at.0 < events.len(),
        tells_of(events[at.0], at.1),
        plan::all_marks(events)[m].path == events[at.0].paths@[at.1]@,
        plan::all_marks(events)[m].touch == Touch::Rescan <==> may_be_new(events[at.0], at.1),
    decreases events.len(),
{
    let front = events.drop_last();
    let before = plan::all_marks(front);
    let own = plan::marks_of(events.last());
    let now = plan::all_marks(events);
    assert(now == before + own);
    if m < before.len() {
        assert(now[m] == before[m]);
        let at = lemma_event_for(front, m);
        assert(front[at.0] == events[at.0]);
        at
    } else {
        let k = m - before.len();
        assert(now[m] == own[k]);
        assert(tells_of(events.last(), k));
        (events.len() - 1, k)
    }
}

/// An event of the window tells of the place.
pub open spec fn is_told(events: Seq<Change>, place: Seq<u8>) -> bool {
    exists|e: int, k: int|
        0 <= e < events.len() && #[trigger] tells_of(events[e], k) && path::same_path(events[e].paths@[k]@, place)
}

/// Something may be new at the place, as an event of the window tells.
pub open spec fn is_new(events: Seq<Change>, place: Seq<u8>) -> bool {
    exists|e: int, k: int|
        0 <= e < events.len() && #[trigger] may_be_new(events[e], k) && path::same_path(events[e].paths@[k]@, place)
}

proof fn lemma_told_is_marked(events: Seq<Change>, place: Seq<u8>)
    ensures
        is_told(events, place) <==> exists|m: int|
            0 <= m < plan::all_marks(events).len() && path::same_path(
                (#[trigger] plan::all_marks(events)[m]).path,
                place,
            ),
        is_new(events, place) <==> exists|m: int|
            0 <= m < plan::all_marks(events).len() && path::same_path(
                (#[trigger] plan::all_marks(events)[m]).path,
                place,
            ) && plan::all_marks(events)[m].touch == Touch::Rescan,
{
    let marks = plan::all_marks(events);
    if is_told(events, place) {
        let (e, k) = choose|e: int, k: int|
            0 <= e < events.len() && #[trigger] tells_of(events[e], k) && path::same_path(events[e].paths@[k]@, place);
        let m = lemma_mark_for(events, e, k);
        assert(path::same_path(marks[m].path, place));
    }
    if is_new(events, place) {
        let (e, k) = choose|e: int, k: int|
            0 <= e < events.len() && #[trigger] may_be_new(events[e], k) && path::same_path(
                events[e].paths@[k]@,
                place,
            );
        let m = lemma_mark_for(events, e, k);
        assert(path::same_path(marks[m].path, place));
    }
    if exists|m: int| 0 <= m < marks.len() && path::same_path((#[trigger] marks[m]).path, place) {
        let m = choose|m: int| 0 <= m < marks.len() && path::same_path((#[trigger] marks[m]).path, place);
        let (e, k) = lemma_event_for(events, m);
        assert(tells_of(events[e], k));
    }
    if exists|m: int|
        0 <= m < marks.len() && path::same_path((#[trigger] marks[m]).path, place) && marks[m].touch
            == Touch::Rescan {
        let m = choose|m: int|
            0 <= m < marks.len() && path::same_path((#[trigger] marks[m]).path, place) && marks[m].touch
                == Touch::Rescan;
        let (e, k) = lemma_event_for(events, m);
        assert(may_be_new(events[e], k));
    }
}

/// A path is touched exactly where an event of the window tells of it, and is to be
/// rescanned exactly where something may be new there; each path once.
pub proof fn law_told_paths_are_touched(p: Plan, events: Seq<Change>, place: Seq<u8>)
    requires
        plan::is_plan_for(p, events),
    ensures
        (exists|i: int| 0 <= i < p.touches@.len() && path::same_path((#[trigger] p.touches@[i]).path@, place))
            <==> is_told(events, place),
        (exists|i: int|
            0 <= i < p.touches@.len() && path::same_path((#[trigger] p.touches@[i]).path@, place) && p.touches@[i].touch
                == Touch::Rescan) <==> is_new(events, place),
        forall|i: int, j: int|
            0 <= i < p.touches@.len() && 0 <= j < p.touches@.len() && path::same_path(
                (#[trigger] p.touches@[i]).path@,
                place,
            ) && path::same_path((#[trigger] p.touches@[j]).path@, place) ==> i == j,
{
    plan::law_strongest_touch_wins(p, events, place);
    lemma_told_is_marked(events, place);
}

// ---- renames ----------------------------------------------------------------------

/// An event tells the old path of the rename.
pub open spec fn tells_old(ev: Change, t: usize) -> bool {
    !ev.needs_rescan && ev.tracker == Some(t) && (ev.kind == ChangeKind::RenameFrom || ev.kind
        == ChangeKind::RenameBoth)
}

/// An event tells the new path of the rename.
pub open spec fn tells_new(ev: Change, t: usize) -> bool {
    !ev.needs_rescan && ev.tracker == Some(t) && (ev.kind == ChangeKind::RenameTo || ev.kind == ChangeKind::RenameBoth)
}

pub open spec fn old_is_told(events: Seq<Change>, t: usize) -> bool {
    exists|e: int| 0 <= e < events.len() && tells_old(#[trigger] events[e], t)
}

pub open spec fn new_is_told(events: Seq<Change>, t: usize) -> bool {
    exists|e: int| 0 <= e < events.len() && tells_new(#[trigger] events[e], t)
}

proof fn lemma_told(events: Seq<Change>, t: usize)
    ensures
        plan::saw_from(events, t) <==> old_is_told(events, t),
        plan::saw_to(events, t) <==> new_is_told(events, t),
{
    if plan::saw_from(events, t) {
        let e = choose|e: int|
            0 <= e < events.len() && plan::tracker_of(#[trigger] events[e]) == Some(t) && events[e].kind
                != ChangeKind::RenameTo;
        assert(tells_old(events[e], t));
    }
    if plan::saw_to(events, t) {
        let e = choose|e: int|
            0 <= e < events.len() && plan::tracker_of(#[trigger] events[e]) == Some(t) && events[e].kind
                != ChangeKind::RenameFrom;
        assert(tells_new(events[e], t));
    }
    if old_is_told(events, t) {
        let e = choose|e: int| 0 <= e < events.len() && tells_old(#[trigger] events[e], t);
        assert(plan::tracker_of(events[e]) == Some(t));
    }
    if new_is_told(events, t) {
        let e = choose|e: int| 0 <= e < events.len() && tells_new(#[trigger] events[e], t);
        assert(plan::tracker_of(events[e]) == Some(t));
    }
}

proof fn lemma_trackers(events: Seq<Change>)
    ensures
        plan::trackers(events).no_duplicates(),
        forall|t: usize| #[trigger]
            plan::trackers(events).contains(t) <==> exists|e: int|
                0 <= e < events.len() && plan::tracker_of(#[trigger] events[e]) == Some(t),
    decreases events.len(),
{
    let all = plan::trackers(events);
    if events.len() > 0 {
        let front = events.drop_last();
        let earlier = plan::trackers(front);
        lemma_trackers(front);
        let last = events.len() - 1;
        assert(events[last] == events.last());
        assert forall|t: usize| #[trigger] all.contains(t) implies exists|e: int|
            0 <= e < events.len() && plan::tracker_of(#[trigger] events[e]) == Some(t) by {
            if earlier.contains(t) {
                let e = choose|e: int| 0 <= e < front.len() && plan::tracker_of(#[trigger] front[e]) == Some(t);
                assert(events[e] == front[e]);
            } else {
                let i = choose|i: int| 0 <= i < all.len() && all[i] == t;
                if i < earlier.len() {
                    assert(earlier[i] == t);
                }
                assert(plan::tracker_of(events[last]) == Some(t));
            }
        }
        assert forall|t: usize|
            (exists|e: int| 0 <= e < events.len() && plan::tracker_of(#[trigger] events[e]) == Some(t)) implies
            #[trigger] all.contains(t) by {
            let e = choose|e: int| 0 <= e < events.len() && plan::tracker_of(#[trigger] events[e]) == Some(t);
            if e < last {
                assert(front[e] == events[e]);
                assert(earlier.contains(t));
                let i = choose|i: int| 0 <= i < earlier.len() && earlier[i] == t;
                assert(all[i] == t);
            } else if earlier.contains(t) {
                assert(all == earlier);
            } else {
                assert(all[earlier.len() as int] == t);
            }
        }
    }
}

proof fn lemma_paired(events: Seq<Change>, some: Seq<usize>)
    requires
        some.no_duplicates(),
    ensures
        Set::new(|t: usize| some.contains(t) && old_is_told(events, t) && new_is_told(events, t)).finite(),
        plan::paired(events, some) == Set::new(
            |t: usize| some.contains(t) && old_is_told(events, t) && new_is_told(events, t),
        ).len(),
        Set::new(|t: usize| some.contains(t) && !(old_is_told(events, t) && new_is_told(events, t))).finite(),
        some.len() - plan::paired(events, some) == Set::new(
            |t: usize| some.contains(t) && !(old_is_told(events, t) && new_is_told(events, t)),
        ).len(),
    decreases some.len(),
{
    let both = Set::new(|t: usize| some.contains(t) && old_is_told(events, t) && new_is_told(events, t));
    let rest = Set::new(|t: usize| some.contains(t) && !(old_is_told(events, t) && new_is_told(events, t)));
    if some.len() == 0 {
        assert(both =~= Set::empty());
        assert(rest =~= Set::empty());
    } else {
        let front = some.drop_last();
        let last = some.last();
        assert(!front.contains(last)) by {
            if front.contains(last) {
                let i = choose|i: int| 0 <= i < front.len() && front[i] == last;
                assert(some[i] == some[some.len() - 1]);
            }
        }
        assert(front.no_duplicates());
        lemma_paired(events, front);
        let both_before = Set::new(|t: usize| front.contains(t) && old_is_told(events, t) && new_is_told(events, t));
        let rest_before = Set::new(
            |t: usize| front.contains(t) && !(old_is_told(events, t) && new_is_told(events, t)),
        );
        assert forall|t: usize| #[trigger] some.contains(t) <==> front.contains(t) || t == last by {
            if some.contains(t) {
                let i = choose|i: int| 0 <= i < some.len() && some[i] == t;
                if i < front.len() {
                    assert(front[i] == t);
                }
            }
            if front.contains(t) {
                let i = choose|i: int| 0 <= i < front.len() && front[i] == t;
                assert(some[i] == t);
            }
            assert(some[some.len() - 1] == last);
        }
        lemma_told(events, last);
        if old_is_told(events, last) && new_is_told(events, last) {
            assert(both =~= both_before.insert(last));
            assert(rest =~= rest_before);
        } else {
            assert(both =~= both_before);
            assert(rest =~= rest_before.insert(last));
        }
    }
}

/// Renames are counted by what they have in common: the pairs are those of which both
/// paths are told, the halves those of which only one is.
pub proof fn law_renames_are_counted(p: Plan, events: Seq<Change>)
    requires
        plan::is_plan_for(p, events),
    ensures
        p.pairs == Set::new(|t: usize| old_is_told(events, t) && new_is_told(events, t)).len(),
        p.halves == Set::new(|t: usize| old_is_told(events, t) != new_is_told(events, t)).len(),
        p.overflow <==> exists|e: int| 0 <= e < events.len() && (#[trigger] events[e]).needs_rescan,
{
    let all = plan::trackers(events);
    lemma_trackers(events);
    lemma_paired(events, all);
    assert forall|t: usize| #[trigger] all.contains(t) <==> old_is_told(events, t) || new_is_told(events, t) by {
        lemma_told(events, t);
        if all.contains(t) {
            let e = choose|e: int| 0 <= e < events.len() && plan::tracker_of(#[trigger] events[e]) == Some(t);
            assert(tells_old(events[e], t) || tells_new(events[e], t));
        }
    }
    assert(Set::new(|t: usize| all.contains(t) && old_is_told(events, t) && new_is_told(events, t)) =~= Set::new(
        |t: usize| old_is_told(events, t) && new_is_told(events, t),
    ));
    assert(Set::new(|t: usize| all.contains(t) && !(old_is_told(events, t) && new_is_told(events, t))) =~= Set::new(
        |t: usize| old_is_told(events, t) != new_is_told(events, t),
    ));
}

/// The touched paths come in the order of paths, a directory before what lies in it.
pub proof fn law_touches_are_in_order(p: Plan, events: Seq<Change>, i: int, j: int)
    requires
        plan::is_plan_for(p, events),
        0 <= i < j < p.touches@.len(),
    ensures
        order::before(path::components(p.touches@[i].path@), path::components(p.touches@[j].path@)),
{
    let touches = p.touches@;
    assert(order::before(plan::key_of(touches[i]), plan::key_of(touches[j])));
}

// ---- spelling ---------------------------------------------------------------------

/// Where the mark of an event on its `k`-th path stands among the marks of a window.
spec fn mark_place(events: Seq<Change>, e: int, k: int) -> int {
    plan::all_marks(events.take(e)).len() + k
}

proof fn lemma_marks_grow(events: Seq<Change>, a: int, b: int)
    requires
        0 <= a <= b <= events.len(),
    ensures
        plan::all_marks(events.take(a)).len() <= plan::all_marks(events.take(b)).len(),
        forall|m: int|
            0 <= m < plan::all_marks(events.take(a)).len() ==> plan::all_marks(events.take(b))[m] == #[trigger] plan::all_marks(
                events.take(a),
            )[m],
    decreases b - a,
{
    if a < b {
        lemma_marks_grow(events, a, b - 1);
        assert(events.take(b).drop_last() =~= events.take(b - 1));
        let before = plan::all_marks(events.take(b - 1));
        assert(plan::all_marks(events.take(b)) == before + plan::marks_of(events.take(b).last()));
    }
}

proof fn lemma_mark_place(events: Seq<Change>, e: int, k: int)
    requires
        0 <= e < events.len(),
        tells_of(events[e], k),
    ensures
        0 <= mark_place(events, e, k) < plan::all_marks(events.take(e + 1)).len() <= plan::all_marks(events).len(),
        plan::all_marks(events)[mark_place(events, e, k)].path == events[e].paths@[k]@,
{
    let own = plan::marks_of(events[e]);
    assert(k < own.len() && own[k].path == events[e].paths@[k]@);
    assert(events.take(e + 1).drop_last() =~= events.take(e));
    assert(events.take(e + 1).last() == events[e]);
    let upto = plan::all_marks(events.take(e + 1));
    assert(upto == plan::all_marks(events.take(e)) + own);
    assert(upto[mark_place(events, e, k)] == own[k]);
    lemma_marks_grow(events, e + 1, events.len() as int);
    assert(events.take(events.len() as int) =~= events);
}

proof fn lemma_placed_event(events: Seq<Change>, n: int, m: int) -> (at: (int, int))
    requires
        0 <= n <= events.len(),
        0 <= m < plan::all_marks(events.take(n)).len(),
    ensures
        0 <= at.0 < n,
        tells_of(events[at.0], at.1),
        m == mark_place(events, at.0, at.1),
    decreases n,
{
    if n == 0 {
        assert(events.take(0).len() == 0);
        (0, 0)
    } else {
        assert(events.take(n).drop_last() =~= events.take(n - 1));
        assert(events.take(n).last() == events[n - 1]);
        let before = plan::all_marks(events.take(n - 1));
        assert(plan::all_marks(events.take(n)) == before + plan::marks_of(events[n - 1]));
        if m < before.len() {
            lemma_placed_event(events, n - 1, m)
        } else {
            assert(tells_of(events[n - 1], m - before.len()));
            (n - 1, m - before.len())
        }
    }
}

/// A touched path is spelled as the first event that tells of it spells it.
pub proof fn law_first_spelling_counts(p: Plan, events: Seq<Change>, i: int, e: int, k: int)
    requires
        plan::is_plan_for(p, events),
        0 <= i < p.touches@.len(),
        0 <= e < events.len(),
        tells_of(events[e], k),
        path::same_path(events[e].paths@[k]@, p.touches@[i].path@),
        forall|f: int, j: int|
            0 <= f < events.len() && #[trigger] tells_of(events[f], j) && (f < e || f == e && j < k) ==> !path::same_path(
                events[f].paths@[j]@,
                p.touches@[i].path@,
            ),
    ensures
        p.touches@[i].path@ == events[e].paths@[k]@,
{
    let marks = plan::all_marks(events);
    let t = p.touches@[i];
    assert(plan::spelled_first(marks, p.touches@[i]));
    let f = choose|f: int|
        0 <= f < marks.len() && (#[trigger] marks[f]).path == t.path@ && forall|m: int|
            0 <= m < f ==> !plan::is_on(#[trigger] marks[m], t);
    assert(events.take(events.len() as int) =~= events);
    let at = lemma_placed_event(events, events.len() as int, f);
    lemma_mark_place(events, at.0, at.1);
    lemma_mark_place(events, e, k);
    let m = mark_place(events, e, k);
    assert(plan::is_on(marks[m], t));
    assert(m >= f);
    // Nor does the mark come before the first that tells of the place.
    assert(path::same_path(events[at.0].paths@[at.1]@, t.path@));
    assert(!(at.0 < e || at.0 == e && at.1 < k));
    if at.0 > e {
        lemma_marks_grow(events, e + 1, at.0);
    }
    assert(m == f);
}

} // verus!
