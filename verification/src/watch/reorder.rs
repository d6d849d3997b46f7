//! The order in which the events of a window came in does not change its plan.

use vstd::prelude::*;

use crate::watch::order;
use crate::watch::plan;
use crate::watch::plan::{Change, Mark, Plan, Touch, Touched};

verus! {

/// The same events in any order, each any number of times.
pub open spec fn same_events(a: Seq<Change>, b: Seq<Change>) -> bool {
    forall|e: Change| #[trigger] a.contains(e) <==> b.contains(e)
}

// ---- the marks ------------------------------------------------------------------

spec fn marks_it(e: Change, m: Mark) -> bool {
    plan::marks_of(e).contains(m)
}

proof fn lemma_marked(events: Seq<Change>, m: Mark)
    ensures
        plan::all_marks(events).contains(m) <==> exists|e: Change| events.contains(e) && #[trigger] marks_it(e, m),
    decreases events.len(),
{
    let all = plan::all_marks(events);
    if events.len() > 0 {
        let front = events.drop_last();
        let last = events.last();
        let (x, y) = (plan::all_marks(front), plan::marks_of(last));
        lemma_marked(front, m);
        assert(all == x + y);
        if all.contains(m) {
            let k = choose|k: int| 0 <= k < all.len() && all[k] == m;
            if k < x.len() {
                assert(x[k] == m);
                let e = choose|e: Change| front.contains(e) && #[trigger] marks_it(e, m);
                let i = choose|i: int| 0 <= i < front.len() && front[i] == e;
                assert(events[i] == e);
                assert(events.contains(e) && marks_it(e, m));
            } else {
                assert(y[k - x.len()] == m);
                assert(events[events.len() - 1] == last);
                assert(events.contains(last) && marks_it(last, m));
            }
        }
        if exists|e: Change| events.contains(e) && #[trigger] marks_it(e, m) {
            let e = choose|e: Change| events.contains(e) && #[trigger] marks_it(e, m);
            let i = choose|i: int| 0 <= i < events.len() && events[i] == e;
            if i < front.len() {
                assert(front[i] == e);
                assert(front.contains(e) && marks_it(e, m));
                let k = choose|k: int| 0 <= k < x.len() && x[k] == m;
                assert(all[k] == m);
            } else {
                let k = choose|k: int| 0 <= k < y.len() && y[k] == m;
                assert(all[x.len() + k] == m);
            }
        }
    }
}

proof fn lemma_same_marks(a: Seq<Change>, b: Seq<Change>, m: Mark)
    requires
        same_events(a, b),
        plan::all_marks(a).contains(m),
    ensures
        plan::all_marks(b).contains(m),
{
    lemma_marked(a, m);
    lemma_marked(b, m);
    let e = choose|e: Change| a.contains(e) && #[trigger] marks_it(e, m);
    assert(b.contains(e));
}

// ---- the touched paths ------------------------------------------------------------

spec fn keys_of(touches: Seq<Touched>) -> Seq<Seq<Seq<u8>>> {
    Seq::new(touches.len(), |i: int| plan::key_of(touches[i]))
}

spec fn ascends(keys: Seq<Seq<Seq<u8>>>) -> bool {
    forall|i: int, j: int| 0 <= i < j < keys.len() ==> order::before(#[trigger] keys[i], #[trigger] keys[j])
}

/// Ascending rows of the same keys are the same.
proof fn lemma_ascending_alike(a: Seq<Seq<Seq<u8>>>, b: Seq<Seq<Seq<u8>>>)
    requires
        ascends(a),
        ascends(b),
        forall|x: Seq<Seq<u8>>| #[trigger] a.contains(x) <==> b.contains(x),
    ensures
        a == b,
    decreases a.len(),
{
    if a.len() == 0 {
        if b.len() > 0 {
            assert(b.contains(b[0]) && a.contains(b[0]));
        }
        assert(a =~= b);
    } else {
        let (p, q) = (a.len() - 1, b.len() - 1);
        assert(a.contains(a[p]));
        let j = choose|j: int| 0 <= j < b.len() && b[j] == a[p];
        assert(b.contains(b[q]) && a.contains(b[q]));
        let i = choose|i: int| 0 <= i < a.len() && a[i] == b[q];
        order::law_path_order_is_total(a[p], b[q]);
        if j < q && i < p {
            assert(order::before(b[j], b[q]));
            assert(order::before(a[i], a[p]));
        }
        assert(a[p] == b[q]);
        let (u, v) = (a.drop_last(), b.drop_last());
        assert forall|x: Seq<Seq<u8>>| #[trigger] u.contains(x) <==> v.contains(x) by {
            order::law_path_order_is_total(a[p], a[p]);
            if u.contains(x) {
                let k = choose|k: int| 0 <= k < u.len() && u[k] == x;
                assert(a[k] == x);
                assert(a.contains(x));
                assert(order::before(a[k], a[p]));
                let m = choose|m: int| 0 <= m < b.len() && b[m] == x;
                assert(v[m] == x);
            }
            if v.contains(x) {
                let k = choose|k: int| 0 <= k < v.len() && v[k] == x;
                assert(b[k] == x);
                assert(b.contains(x));
                assert(order::before(b[k], b[q]));
                assert(a.contains(x));
                let m = choose|m: int| 0 <= m < a.len() && a[m] == x;
                assert(u[m] == x);
            }
        }
        lemma_ascending_alike(u, v);
        assert(a =~= u.push(a[p]));
        assert(b =~= v.push(b[q]));
    }
}

proof fn lemma_key_is_shared(x: Seq<Touched>, y: Seq<Touched>, a: Seq<Change>, b: Seq<Change>, key: Seq<Seq<u8>>)
    requires
        same_events(a, b),
        plan::collects(plan::all_marks(a), x),
        plan::collects(plan::all_marks(b), y),
        keys_of(x).contains(key),
    ensures
        keys_of(y).contains(key),
{
    let marks = plan::all_marks(a);
    let others = plan::all_marks(b);
    let i = choose|i: int| 0 <= i < keys_of(x).len() && keys_of(x)[i] == key;
    assert(plan::spelled_first(marks, x[i]));
    let f = choose|f: int|
        0 <= f < marks.len() && (#[trigger] marks[f]).path == x[i].path@ && forall|m: int|
            0 <= m < f ==> !plan::is_on(#[trigger] marks[m], x[i]);
    assert(marks.contains(marks[f]));
    lemma_same_marks(a, b, marks[f]);
    let g = choose|g: int| 0 <= g < others.len() && others[g] == marks[f];
    assert(plan::is_touched(others[g], y));
    let j = choose|j: int| 0 <= j < y.len() && plan::is_on(others[g], #[trigger] y[j]);
    assert(keys_of(y)[j] == key);
}

proof fn lemma_rescan_is_shared(a: Seq<Change>, b: Seq<Change>, t: Touched, u: Touched)
    requires
        same_events(a, b),
        plan::key_of(t) == plan::key_of(u),
        plan::some_rescan(plan::all_marks(a), t),
    ensures
        plan::some_rescan(plan::all_marks(b), u),
{
    let marks = plan::all_marks(a);
    let others = plan::all_marks(b);
    let m = choose|m: int|
        0 <= m < marks.len() && plan::is_on(#[trigger] marks[m], t) && marks[m].touch == Touch::Rescan;
    assert(marks.contains(marks[m]));
    lemma_same_marks(a, b, marks[m]);
    let g = choose|g: int| 0 <= g < others.len() && others[g] == marks[m];
    assert(plan::is_on(others[g], u));
}

// ---- the renames --------------------------------------------------------------------

proof fn lemma_trackers(events: Seq<Change>)
    ensures
        plan::trackers(events).no_duplicates(),
        forall|t: usize| #[trigger]
            plan::trackers(events).contains(t) <==> exists|e: Change|
                events.contains(e) && #[trigger] plan::tracker_of(e) == Some(t),
    decreases events.len(),
{
    if events.len() > 0 {
        let front = events.drop_last();
        let last = events.last();
        let earlier = plan::trackers(front);
        let all = plan::trackers(events);
        lemma_trackers(front);
        assert(events[events.len() - 1] == last);
        assert(events.contains(last));
        assert forall|t: usize| #[trigger] all.contains(t) <==> exists|e: Change|
            events.contains(e) && #[trigger] plan::tracker_of(e) == Some(t) by {
            if all.contains(t) {
                let k = choose|k: int| 0 <= k < all.len() && all[k] == t;
                if k < earlier.len() {
                    assert(earlier[k] == t);
                    assert(earlier.contains(t));
                    let e = choose|e: Change| front.contains(e) && #[trigger] plan::tracker_of(e) == Some(t);
                    let i = choose|i: int| 0 <= i < front.len() && front[i] == e;
                    assert(events[i] == e);
                    assert(events.contains(e));
                } else {
                    assert(plan::tracker_of(last) == Some(t));
                }
            }
            if exists|e: Change| events.contains(e) && #[trigger] plan::tracker_of(e) == Some(t) {
                let e = choose|e: Change| events.contains(e) && #[trigger] plan::tracker_of(e) == Some(t);
                let i = choose|i: int| 0 <= i < events.len() && events[i] == e;
                if i < front.len() {
                    assert(front[i] == e);
                    assert(front.contains(e));
                    assert(earlier.contains(t));
                    let k = choose|k: int| 0 <= k < earlier.len() && earlier[k] == t;
                    assert(all[k] == t);
                } else if earlier.contains(t) {
                    assert(all == earlier);
                } else {
                    assert(all[earlier.len() as int] == t);
                }
            }
        }
    }
}

proof fn lemma_saw(a: Seq<Change>, b: Seq<Change>, t: usize)
    requires
        same_events(a, b),
    ensures
        plan::saw_from(a, t) ==> plan::saw_from(b, t),
        plan::saw_to(a, t) ==> plan::saw_to(b, t),
{
    if plan::saw_from(a, t) {
        let i = choose|i: int|
            0 <= i < a.len() && plan::tracker_of(#[trigger] a[i]) == Some(t) && a[i].kind
                != plan::ChangeKind::RenameTo;
        assert(a.contains(a[i]));
        assert(b.contains(a[i]));
        let j = choose|j: int| 0 <= j < b.len() && b[j] == a[i];
        assert(plan::tracker_of(b[j]) == Some(t));
    }
    if plan::saw_to(a, t) {
        let i = choose|i: int|
            0 <= i < a.len() && plan::tracker_of(#[trigger] a[i]) == Some(t) && a[i].kind
                != plan::ChangeKind::RenameFrom;
        assert(a.contains(a[i]));
        assert(b.contains(a[i]));
        let j = choose|j: int| 0 <= j < b.len() && b[j] == a[i];
        assert(plan::tracker_of(b[j]) == Some(t));
    }
}

proof fn lemma_paired_without(events: Seq<Change>, some: Seq<usize>, j: int)
    requires
        0 <= j < some.len(),
    ensures
        plan::paired(events, some) == plan::paired(events, some.remove(j)) + plan::paired(events, seq![some[j]]),
    decreases some.len(),
{
    let one = seq![some[j]];
    assert(one.drop_last() =~= Seq::<usize>::empty());
    assert(plan::paired(events, one.drop_last()) == 0);
    if j == some.len() - 1 {
        assert(some.remove(j) =~= some.drop_last());
    } else {
        lemma_paired_without(events, some.drop_last(), j);
        assert(some.remove(j).drop_last() =~= some.drop_last().remove(j));
        assert(some.remove(j).last() == some.last());
    }
}

/// Renames that are the same but for their order are counted alike.
proof fn lemma_paired_alike(a: Seq<Change>, b: Seq<Change>, s: Seq<usize>, t: Seq<usize>)
    requires
        same_events(a, b),
        s.no_duplicates(),
        t.no_duplicates(),
        forall|x: usize| #[trigger] s.contains(x) <==> t.contains(x),
    ensures
        s.len() == t.len(),
        plan::paired(a, s) == plan::paired(b, t),
    decreases s.len(),
{
    if s.len() == 0 {
        if t.len() > 0 {
            assert(t.contains(t[0]) && s.contains(t[0]));
        }
    } else {
        let x = s.last();
        assert(s[s.len() - 1] == x);
        assert(s.contains(x));
        let j = choose|j: int| 0 <= j < t.len() && t[j] == x;
        let (u, v) = (s.drop_last(), t.remove(j));
        assert forall|y: usize| #[trigger] u.contains(y) <==> v.contains(y) by {
            if u.contains(y) {
                let k = choose|k: int| 0 <= k < u.len() && u[k] == y;
                assert(s[k] == y);
                assert(s.contains(y));
                let m = choose|m: int| 0 <= m < t.len() && t[m] == y;
                assert(m != j);
                if m < j {
                    assert(v[m] == y);
                } else {
                    assert(v[m - 1] == y);
                }
            }
            if v.contains(y) {
                let k = choose|k: int| 0 <= k < v.len() && v[k] == y;
                let m = if k < j {
                    k
                } else {
                    k + 1
                };
                assert(t[m] == y);
                assert(t.contains(y));
                assert(s.contains(y));
                let n = choose|n: int| 0 <= n < s.len() && s[n] == y;
                assert(n != s.len() - 1);
                assert(u[n] == y);
            }
        }
        assert(v.no_duplicates()) by {
            assert forall|k: int, m: int| 0 <= k < v.len() && 0 <= m < v.len() && k != m implies v[k] != v[m] by {
                assert(v[k] == t[if k < j {
                    k
                } else {
                    k + 1
                }]);
                assert(v[m] == t[if m < j {
                    m
                } else {
                    m + 1
                }]);
            }
        }
        lemma_paired_alike(a, b, u, v);
        lemma_paired_without(b, t, j);
        lemma_saw(a, b, x);
        lemma_saw(b, a, x);
        let one = seq![x];
        assert(one.drop_last() =~= Seq::<usize>::empty());
        assert(plan::paired(b, one.drop_last()) == 0);
    }
}

// ---- the law ------------------------------------------------------------------------

/// Neither the order of a window's events nor a repetition changes its plan: the
/// same paths are touched, in the same order and each as strongly, and the flag
/// and the counts of renames are the same. Only the spelling of a path may differ,
/// where events spell it differently.
pub proof fn law_order_of_events_does_not_matter(p: Plan, q: Plan, a: Seq<Change>, b: Seq<Change>)
    requires
        plan::is_plan_for(p, a),
        plan::is_plan_for(q, b),
        same_events(a, b),
    ensures
        p.overflow == q.overflow,
        p.pairs == q.pairs,
        p.halves == q.halves,
        p.touches@.len() == q.touches@.len(),
        forall|i: int|
            0 <= i < p.touches@.len() ==> plan::key_of(#[trigger] p.touches@[i]) == plan::key_of(q.touches@[i])
                && p.touches@[i].touch == q.touches@[i].touch,
{
    let (x, y) = (p.touches@, q.touches@);
    assert(same_events(b, a));
    assert(p.overflow == q.overflow) by {
        if p.overflow {
            let i = choose|i: int| 0 <= i < a.len() && (#[trigger] a[i]).needs_rescan;
            assert(a.contains(a[i]) && b.contains(a[i]));
            let j = choose|j: int| 0 <= j < b.len() && b[j] == a[i];
            assert(b[j].needs_rescan);
        }
        if q.overflow {
            let i = choose|i: int| 0 <= i < b.len() && (#[trigger] b[i]).needs_rescan;
            assert(b.contains(b[i]) && a.contains(b[i]));
            let j = choose|j: int| 0 <= j < a.len() && a[j] == b[i];
            assert(a[j].needs_rescan);
        }
    }
    assert(keys_of(x) == keys_of(y)) by {
        assert forall|k: Seq<Seq<u8>>| #[trigger] keys_of(x).contains(k) <==> keys_of(y).contains(k) by {
            if keys_of(x).contains(k) {
                lemma_key_is_shared(x, y, a, b, k);
            }
            if keys_of(y).contains(k) {
                lemma_key_is_shared(y, x, b, a, k);
            }
        }
        assert(ascends(keys_of(x))) by {
            assert forall|i: int, j: int| 0 <= i < j < keys_of(x).len() implies order::before(
                #[trigger] keys_of(x)[i],
                #[trigger] keys_of(x)[j],
            ) by {
                assert(order::before(plan::key_of(x[i]), plan::key_of(x[j])));
            }
        }
        assert(ascends(keys_of(y))) by {
            assert forall|i: int, j: int| 0 <= i < j < keys_of(y).len() implies order::before(
                #[trigger] keys_of(y)[i],
                #[trigger] keys_of(y)[j],
            ) by {
                assert(order::before(plan::key_of(y[i]), plan::key_of(y[j])));
            }
        }
        lemma_ascending_alike(keys_of(x), keys_of(y));
    }
    assert(keys_of(x).len() == x.len() && keys_of(y).len() == y.len());
    assert forall|i: int| 0 <= i < x.len() implies plan::key_of(#[trigger] x[i]) == plan::key_of(y[i]) && x[i].touch
        == y[i].touch by {
        assert(keys_of(x)[i] == plan::key_of(x[i]) && keys_of(y)[i] == plan::key_of(y[i]));
        let (here, there) = (
            plan::some_rescan(plan::all_marks(a), x[i]),
            plan::some_rescan(plan::all_marks(b), y[i]),
        );
        if here {
            lemma_rescan_is_shared(a, b, x[i], y[i]);
        }
        if there {
            lemma_rescan_is_shared(b, a, y[i], x[i]);
        }
    }
    assert(p.pairs == q.pairs && p.halves == q.halves) by {
        let (s, t) = (plan::trackers(a), plan::trackers(b));
        lemma_trackers(a);
        lemma_trackers(b);
        assert forall|n: usize| #[trigger] s.contains(n) <==> t.contains(n) by {
            if s.contains(n) {
                let e = choose|e: Change| a.contains(e) && #[trigger] plan::tracker_of(e) == Some(n);
                assert(b.contains(e));
            }
            if t.contains(n) {
                let e = choose|e: Change| b.contains(e) && #[trigger] plan::tracker_of(e) == Some(n);
                assert(a.contains(e));
            }
        }
        lemma_paired_alike(a, b, s, t);
    }
}

/// Events that are only put in another order are the same events.
pub proof fn law_reordered_events_are_the_same(a: Seq<Change>, b: Seq<Change>)
    requires
        a.to_multiset() == b.to_multiset(),
    ensures
        same_events(a, b),
{
    broadcast use vstd::seq_lib::group_to_multiset_ensures;

    assert forall|e: Change| #[trigger] a.contains(e) <==> b.contains(e) by {
        assert(a.contains(e) <==> a.to_multiset().count(e) > 0);
        assert(b.contains(e) <==> b.to_multiset().count(e) > 0);
    }
}

} // verus!
