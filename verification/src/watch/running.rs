//! What a running watcher keeps to.

use vstd::prelude::*;

use crate::decimal;
use crate::decimal::exact;
use crate::engine::EngineView;
use crate::events;
use crate::events::{EventOutcome, EventView};
use crate::path;
use crate::text;
use crate::watch::worker;
use crate::watch::worker::{WatchOutcome, WorkerView};

verus! {

/// A directory that was watched takes one watch, one that could not be takes none; when
/// the system has no more, none is asked for any more, and the reason is told.
pub proof fn law_attempts(w: WorkerView, outcome: WatchOutcome)
    ensures
        ({
            let a = w.after_attempt(outcome);
            &&& outcome is Watched && w.watched < usize::MAX ==> a.watched == w.watched + 1
            &&& !(outcome is Watched) ==> a.watched == w.watched
            &&& outcome is OutOfWatches ==> a.is_full() && a.reason is Some
            &&& !(outcome is OutOfWatches) ==> a.exhausted == w.exhausted && a.reason == w.reason
            &&& a.unwatched == w.unwatched && a.unwatched_total == w.unwatched_total && a.opts == w.opts
        }),
{
}

/// No more watches may be taken where the budget is used up, or the system has no more.
pub proof fn law_fullness(w: WorkerView)
    ensures
        w.watched >= w.opts.budget ==> w.is_full(),
        w.exhausted ==> w.is_full(),
        w.watched < w.opts.budget && !w.exhausted ==> !w.is_full(),
{
}

/// Of several reasons the first is kept, whatever comes after it.
pub proof fn law_first_reason_stays(w: WorkerView, reason: Seq<char>, outcome: WatchOutcome)
    ensures
        w.degraded(reason).reason is Some,
        w.reason is None ==> w.degraded(reason).reason == Some(reason),
        w.reason is Some ==> w.degraded(reason).reason == w.reason,
        w.reason is Some ==> w.spent().reason == w.reason && w.after_attempt(outcome).reason == w.reason,
{
}

/// When the budget has run out it is said how large it was.
pub proof fn law_spent_budget_is_told(w: WorkerView)
    ensures
        w.spent().exhausted,
        w.spent().is_full(),
        w.spent().watched == w.watched,
        w.reason is None && !w.exhausted ==> {
            let told = w.spent().reason->0;
            let (before, behind) = ("watch budget of "@.len() as int, " directories exhausted"@.len() as int);
            &&& w.spent().reason is Some
            &&& told.len() > before + behind
            &&& decimal::all_digits(told.subrange(before, told.len() - behind))
            &&& decimal::digits_value(told.subrange(before, told.len() - behind)) == w.opts.budget
        },
{
    exact::law_digits_read_back(w.opts.budget as nat);
    if w.reason is None && !w.exhausted {
        let told = w.spent().reason->0;
        let (a, b) = ("watch budget of "@, " directories exhausted"@);
        let digits = text::decimal_text(w.opts.budget as nat);
        assert(told == a + digits + b);
        assert(told.subrange(a.len() as int, told.len() - b.len()) =~= digits);
    }
}

/// Each subtree that is recorded as unwatched is counted once.
pub proof fn law_unwatched_are_counted(w: WorkerView, root: Seq<u8>, p: Seq<u8>)
    ensures
        w.unwatched_total < usize::MAX ==> w.with_unwatched(root, p).unwatched_total == w.unwatched_total + 1,
        w.with_unwatched(root, p).watched == w.watched,
        w.with_unwatched(root, p).exhausted == w.exhausted,
{
}

/// When the budget runs out within a subtree, the subtree is recorded by its top alone.
pub proof fn law_subtree_is_recorded_once(w: WorkerView, root: Seq<u8>, dirs: Seq<(Vec<u8>, usize)>, i: int)
    requires
        0 <= i < dirs.len(),
        forall|j: int| i < j < dirs.len() ==> (#[trigger] dirs[j]).1 > dirs[i].1,
    ensures
        w.with_frontier(root, dirs, i) == w.with_unwatched(root, dirs[i].0@),
{
    lemma_past_all(dirs, i + 1, dirs[i].1);
    let n = dirs.len() as int;
    let b = w.with_unwatched(root, dirs[i].0@);
    assert(b.with_frontier(root, dirs, n) == b);
}

/// What comes next on the same level, or above it, is recorded by itself.
pub proof fn law_next_subtree_is_recorded_too(
    w: WorkerView,
    root: Seq<u8>,
    dirs: Seq<(Vec<u8>, usize)>,
    i: int,
    k: int,
)
    requires
        0 <= i < k < dirs.len(),
        forall|j: int| i < j < k ==> (#[trigger] dirs[j]).1 > dirs[i].1,
        dirs[k].1 <= dirs[i].1,
    ensures
        w.with_frontier(root, dirs, i) == w.with_unwatched(root, dirs[i].0@).with_frontier(root, dirs, k),
{
    lemma_past_to(dirs, i + 1, k, dirs[i].1);
}

proof fn lemma_past_to(dirs: Seq<(Vec<u8>, usize)>, j: int, k: int, depth: usize)
    requires
        0 <= j <= k < dirs.len(),
        forall|m: int| j <= m < k ==> (#[trigger] dirs[m]).1 > depth,
        dirs[k].1 <= depth,
    ensures
        worker::past_subtree(dirs, j, depth) == k,
    decreases k - j,
{
    if j < k {
        assert(dirs[j].1 > depth);
        lemma_past_to(dirs, j + 1, k, depth);
    }
}

proof fn lemma_past_all(dirs: Seq<(Vec<u8>, usize)>, j: int, depth: usize)
    requires
        0 <= j <= dirs.len(),
        forall|m: int| j <= m < dirs.len() ==> (#[trigger] dirs[m]).1 > depth,
    ensures
        worker::past_subtree(dirs, j, depth) == dirs.len(),
    decreases dirs.len() - j,
{
    if j < dirs.len() {
        assert(dirs[j].1 > depth);
        lemma_past_all(dirs, j + 1, depth);
    }
}

/// A batch counts as one, and what it added, updated and removed counts as applied.
pub proof fn law_batches_are_counted(w: WorkerView, out: EventOutcome)
    requires
        w.batches < u64::MAX,
        out.added + out.updated + out.removed <= usize::MAX,
        w.events_applied + out.added + out.updated + out.removed <= u64::MAX,
    ensures
        w.after_batch(out).batches == w.batches + 1,
        w.after_batch(out).events_applied == w.events_applied + out.added + out.updated + out.removed,
        w.after_batch(out).watched == w.watched,
{
}

/// The engine after the batches between the first cuts, one after the other.
pub open spec fn after_batches(e: EngineView, evs: Seq<EventView>, cuts: Seq<int>, k: nat) -> EngineView
    decreases k,
{
    if k == 0 {
        e
    } else {
        let b = after_batches(e, evs, cuts, (k - 1) as nat);
        let batch = evs.subrange(cuts[k - 1], cuts[k as int]);
        if events::has_room(b.index, batch) {
            b.after_batch(batch)
        } else {
            b
        }
    }
}

proof fn lemma_later(e: EngineView, evs: Seq<EventView>, cuts: Seq<int>, at: int, k: nat)
    requires
        k < cuts.len(),
    ensures
        ({
            let first = evs.subrange(at, cuts[0]);
            let b = if events::has_room(e.index, first) {
                e.after_batch(first)
            } else {
                e
            };
            after_batches(e, evs, seq![at] + cuts, k + 1) == after_batches(b, evs, cuts, k)
        }),
    decreases k,
{
    let more = seq![at] + cuts;
    assert(more[0] == at && more[1] == cuts[0]);
    if k > 0 {
        lemma_later(e, evs, cuts, at, (k - 1) as nat);
        assert(more[k as int] == cuts[k - 1]);
        assert(more[k as int + 1] == cuts[k as int]);
    } else {
        assert(after_batches(e, evs, more, 0) == e);
    }
}

/// Events are applied in their order, in batches of no more than so many, none of them
/// twice and none left out but those of a batch that the index has no room for. `cuts`
/// tells where the batches begin and end.
pub proof fn law_events_are_applied_in_order(w: WorkerView, e: EngineView, evs: Seq<EventView>, at: int) -> (cuts:
    Seq<int>)
    requires
        0 <= at <= evs.len(),
    ensures
        cuts.len() > 0,
        cuts[0] == at,
        cuts.last() == evs.len(),
        forall|k: int|
            0 <= k < cuts.len() - 1 ==> (#[trigger] cuts[k]) < cuts[k + 1] <= cuts[k] + worker::MAX_BATCH,
        worker::applied(w, e, evs, at).1 == after_batches(e, evs, cuts, (cuts.len() - 1) as nat),
    decreases evs.len() - at,
{
    if at >= evs.len() {
        seq![at]
    } else {
        let end = worker::batch_end(evs.len(), at);
        let batch = evs.subrange(at, end);
        let roomy = events::has_room(e.index, batch);
        let later = law_events_are_applied_in_order(
            if roomy {
                w.after_batch(events::batch_of(e.index, batch).outcome)
            } else {
                WorkerView { reason: Some("applying events: no room in the index"@), ..w }
            },
            if roomy {
                e.after_batch(batch)
            } else {
                e
            },
            evs,
            end,
        );
        let cuts = seq![at] + later;
        lemma_later(e, evs, later, at, (later.len() - 1) as nat);
        assert(later[0] == end);
        assert forall|k: int| 0 <= k < cuts.len() - 1 implies (#[trigger] cuts[k]) < cuts[k + 1] <= cuts[k]
            + worker::MAX_BATCH by {
            if k > 0 {
                assert(cuts[k] == later[k - 1]);
                assert(cuts[k + 1] == later[k]);
            }
        }
        assert(cuts.last() == later.last());
        cuts
    }
}

/// As long as there is room to track them, unwatched subtrees are recorded one by one,
/// and none that lies in a recorded one; then the root stands for all of them.
pub proof fn law_recording_is_precise(w: WorkerView, root: Seq<u8>, p: Seq<u8>)
    ensures
        ({
            let a = w.with_unwatched(root, p);
            let lies = exists|i: int| 0 <= i < w.unwatched.len() && path::path_starts_with(p, #[trigger] w.unwatched[i]);
            &&& w.unwatched.len() < worker::MAX_UNWATCHED_TRACKED && !lies ==> a.unwatched == w.unwatched.push(p)
            &&& w.unwatched.len() < worker::MAX_UNWATCHED_TRACKED && lies ==> a.unwatched == w.unwatched
            &&& w.unwatched.len() >= worker::MAX_UNWATCHED_TRACKED && !path::same_path(w.unwatched.last(), root)
                ==> a.unwatched == seq![root]
        }),
{
}

} // verus!
