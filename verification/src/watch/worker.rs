//! What the watcher decides: which directories it watches within its budget, what
//! it leaves to periodic rescans, and what it reports.

use vstd::prelude::*;

use crate::engine::{Engine, EngineView};
use crate::events;
use crate::events::{EventOutcome, EventView, IndexEvent};
use crate::path;
use crate::path::{eq_path, starts_with_path};
use crate::text;
use crate::text::{joined, number_text};
use crate::watch::clone_paths;
use crate::watch::diff;
use crate::watch::diff::clone_path;
use crate::watch::WatchOptions;

verus! {

/// Upper bound on raw events pulled from one debounce window.
pub const MAX_RAW_EVENTS: usize = 32_768;
/// Events handed to [`Engine::apply_events`] in one call.
pub const MAX_BATCH: usize = 8_192;
/// Entries a single subtree diff will look at before giving up on precision.
pub const MAX_RESCAN_ENTRIES: usize = 500_000;
/// Unwatched subtree roots tracked individually before falling back to
/// recording the whole configured root.
pub const MAX_UNWATCHED_TRACKED: usize = 512;
/// Unwatched roots surfaced in the status.
pub const STATUS_UNWATCHED_SHOWN: usize = 32;

/// Snapshot of what the watcher is doing, for the UI's status line.
#[derive(Debug, Clone)]
pub struct WatchStatus {
    /// Still walking the tree registering watches. Registration is done on the
    /// worker thread so that starting the watcher never blocks the UI.
    pub registering: bool,
    pub watched_dirs: usize,
    /// True when part of the tree is covered by periodic rescans instead of
    /// watches, so the UI can warn that results may lag there.
    pub degraded: bool,
    /// Subtrees that are not watched (capped; see `unwatched_total`).
    pub unwatched_roots: Vec<Vec<u8>>,
    pub unwatched_total: usize,
    pub events_applied: u64,
    pub batches: u64,
    pub rescans: u64,
    /// Why the watcher degraded, if it did.
    pub reason: Option<String>,
}

impl Default for WatchStatus {
    /// Nothing is watched and nothing has happened.
    fn default() -> (r: Self)
        ensures
            !r.registering,
            r.watched_dirs == 0,
            !r.degraded,
            r.unwatched_roots@.len() == 0,
            r.unwatched_total == 0,
            r.events_applied == 0,
            r.batches == 0,
            r.rescans == 0,
            r.reason is None,
    {
        WatchStatus {
            registering: false,
            watched_dirs: 0,
            degraded: false,
            unwatched_roots: Vec::new(),
            unwatched_total: 0,
            events_applied: 0,
            batches: 0,
            rescans: 0,
            reason: None,
        }
    }
}

/// What became of an attempt to watch a directory.
#[derive(Debug, Clone)]
pub enum WatchOutcome {
    Watched,
    /// The system has no more watches to give, and says why.
    OutOfWatches(String),
    /// Vanished or unreadable.
    Failed,
}

/// Whether an error says that there are no more watches: by its kind, or by the
/// code that the system gives at the limit.
pub fn is_budget_error(at_limit: bool, os_error: Option<i32>) -> (r: bool)
    ensures
        r == (at_limit || os_error == Some(28i32)),
{
    if at_limit {
        return true;
    }
    match os_error {
        Some(code) => code == 28,
        None => false,
    }
}

#[derive(Debug)]
pub struct Worker {
    pub opts: WatchOptions,
    pub watched: usize,
    pub unwatched: Vec<Vec<u8>>,
    pub unwatched_total: usize,
    pub exhausted: bool,
    pub reason: Option<String>,
    pub events_applied: u64,
    pub batches: u64,
    pub rescans: u64,
}

/// The state of a worker, as a mathematical value.
pub struct WorkerView {
    pub opts: WatchOptions,
    pub watched: usize,
    pub unwatched: Seq<Seq<u8>>,
    pub unwatched_total: usize,
    pub exhausted: bool,
    pub reason: Option<Seq<char>>,
    pub events_applied: u64,
    pub batches: u64,
    pub rescans: u64,
}

/// A count raised, up to the greatest `u64`.
pub open spec fn raised64(n: u64, by: nat) -> u64 {
    if n + by > u64::MAX {
        u64::MAX
    } else {
        (n + by) as u64
    }
}

pub open spec fn text_view(t: Option<String>) -> Option<Seq<char>> {
    match t {
        Some(s) => Some(s@),
        None => None,
    }
}

impl View for Worker {
    type V = WorkerView;

    open spec fn view(&self) -> WorkerView {
        WorkerView {
            opts: self.opts,
            watched: self.watched,
            unwatched: path::views(self.unwatched@),
            unwatched_total: self.unwatched_total,
            exhausted: self.exhausted,
            reason: text_view(self.reason),
            events_applied: self.events_applied,
            batches: self.batches,
            rescans: self.rescans,
        }
    }
}

/// The first place from `j` on whose depth is at most `depth`.
pub open spec fn past_subtree(dirs: Seq<(Vec<u8>, usize)>, j: int, depth: usize) -> int
    decreases dirs.len() - j,
{
    if j < dirs.len() && dirs[j].1 > depth {
        past_subtree(dirs, j + 1, depth)
    } else {
        j
    }
}

/// Skipping a subtree moves ahead, within the list.
pub proof fn lemma_past_subtree(dirs: Seq<(Vec<u8>, usize)>, j: int, depth: usize)
    requires
        j <= dirs.len(),
    ensures
        j <= past_subtree(dirs, j, depth) <= dirs.len(),
    decreases dirs.len() - j,
{
    if j < dirs.len() && dirs[j].1 > depth {
        lemma_past_subtree(dirs, j + 1, depth);
    }
}

impl WorkerView {
    /// The path lies in a recorded subtree.
    pub open spec fn leaves_to_rescans(self, p: Seq<u8>) -> bool {
        exists|i: int| 0 <= i < self.unwatched.len() && path::path_starts_with(p, #[trigger] self.unwatched[i])
    }

    /// A subtree of a root recorded as unwatched: by itself, unless it lies in a
    /// recorded one already; where there are too many to track precisely, the
    /// whole root stands for all of them.
    pub open spec fn with_unwatched(self, root: Seq<u8>, p: Seq<u8>) -> WorkerView {
        WorkerView {
            unwatched_total: events::raised(self.unwatched_total, 1),
            unwatched: if self.unwatched.len() < MAX_UNWATCHED_TRACKED {
                if self.leaves_to_rescans(p) {
                    self.unwatched
                } else {
                    self.unwatched.push(p)
                }
            } else if path::same_path(self.unwatched.last(), root) {
                self.unwatched
            } else {
                seq![root]
            },
            ..self
        }
    }

    /// The first reason is kept.
    pub open spec fn degraded(self, reason: Seq<char>) -> WorkerView {
        WorkerView {
            reason: match self.reason {
                Some(r) => Some(r),
                None => Some(reason),
            },
            ..self
        }
    }

    /// No more watches may be taken.
    pub open spec fn is_full(self) -> bool {
        self.exhausted || self.watched >= self.opts.budget
    }

    /// The budget has run out, and it is said so once.
    pub open spec fn spent(self) -> WorkerView {
        if self.exhausted {
            self
        } else {
            WorkerView {
                exhausted: true,
                ..self.degraded(
                    "watch budget of "@ + text::decimal_text(self.opts.budget as nat)
                        + " directories exhausted"@,
                )
            }
        }
    }

    /// The rest of a pre-order list of directories recorded as unwatched, the
    /// topmost directories only.
    pub open spec fn with_frontier(self, root: Seq<u8>, dirs: Seq<(Vec<u8>, usize)>, i: int) -> WorkerView
        decreases dirs.len() - i,
    {
        if i < 0 || i >= dirs.len() {
            self
        } else {
            proof {
                lemma_past_subtree(dirs, i + 1, dirs[i].1);
            }
            self.with_unwatched(root, dirs[i].0@).with_frontier(
                root,
                dirs,
                past_subtree(dirs, i + 1, dirs[i].1),
            )
        }
    }

    /// An attempt to watch a directory of a list was made.
    pub open spec fn after_attempt(self, outcome: WatchOutcome) -> WorkerView {
        match outcome {
            WatchOutcome::Watched => WorkerView { watched: events::raised(self.watched, 1), ..self },
            WatchOutcome::OutOfWatches(e) => WorkerView {
                exhausted: true,
                ..self.degraded("inotify refused more watches: "@ + e@)
            },
            WatchOutcome::Failed => self,
        }
    }

    /// A batch was applied.
    pub open spec fn after_batch(self, out: EventOutcome) -> WorkerView {
        WorkerView {
            events_applied: raised64(
                self.events_applied,
                events::raised(events::raised(out.added, out.updated as nat), out.removed as nat) as nat,
            ),
            batches: raised64(self.batches, 1),
            ..self
        }
    }
}

impl Worker {
    pub fn new(opts: WatchOptions) -> (r: Worker)
        ensures
            r@ == (WorkerView {
                opts,
                watched: 0,
                unwatched: Seq::empty(),
                unwatched_total: 0,
                exhausted: false,
                reason: None,
                events_applied: 0,
                batches: 0,
                rescans: 0,
            }),
    {
        let r: Worker = Worker {
            opts,
            watched: 0,
            unwatched: Vec::new(),
            unwatched_total: 0,
            exhausted: false,
            reason: None,
            events_applied: 0,
            batches: 0,
            rescans: 0,
        };
        assert(r@.unwatched =~= Seq::empty());
        r
    }

    /// Registration starts over.
    pub fn start_over(&mut self)
        ensures
            final(self)@ == (WorkerView {
                watched: 0,
                unwatched: Seq::empty(),
                unwatched_total: 0,
                exhausted: false,
                ..old(self)@
            }),
    {
        self.watched = 0;
        self.unwatched = Vec::new();
        self.unwatched_total = 0;
        self.exhausted = false;
        assert(path::views(self.unwatched@) =~= Seq::empty());
    }

    pub fn record_unwatched(&mut self, root: &[u8], p: &[u8])
        ensures
            final(self)@ == old(self)@.with_unwatched(root@, p@),
    {
        let ghost v = self@;
        self.unwatched_total = self.unwatched_total.saturating_add(1);
        let n: usize = self.unwatched.len();
        if n < MAX_UNWATCHED_TRACKED {
            let mut i: usize = 0;
            while i < n
                invariant
                    n == self.unwatched@.len(),
                    n < MAX_UNWATCHED_TRACKED,
                    i <= n,
                    v == old(self)@,
                    v.unwatched == path::views(self.unwatched@),
                    self@ == (WorkerView { unwatched_total: events::raised(v.unwatched_total, 1), ..v }),
                    forall|j: int| 0 <= j < i ==> !path::path_starts_with(p@, #[trigger] v.unwatched[j]),
                decreases n - i,
            {
                assert(v.unwatched[i as int] == self.unwatched@[i as int]@);
                if starts_with_path(p, self.unwatched[i].as_slice()) {
                    assert(v.leaves_to_rescans(p@));
                    return;
                }
                i += 1;
            }
            let item: Vec<u8> = vstd::slice::slice_to_vec(p);
            proof {
                diff::lemma_push_path(self.unwatched@, item);
            }
            self.unwatched.push(item);
        } else {
            assert(v.unwatched.last() == self.unwatched@[n - 1]@);
            if !eq_path(self.unwatched[n - 1].as_slice(), root) {
                // Too fragmented to track precisely; fall back to the whole root.
                self.unwatched = Vec::new();
                self.unwatched.push(vstd::slice::slice_to_vec(root));
                assert(path::views(self.unwatched@) =~= seq![root@]);
            }
        }
    }

    pub fn degrade(&mut self, reason: &str)
        ensures
            final(self)@ == old(self)@.degraded(reason@),
    {
        if self.reason.is_none() {
            self.reason = Some(reason.to_owned());
        }
    }

    fn full(&self) -> (r: bool)
        ensures
            r == self@.is_full(),
    {
        self.exhausted || self.watched >= self.opts.budget
    }

    fn spend(&mut self)
        ensures
            final(self)@ == old(self)@.spent(),
    {
        if !self.exhausted {
            let head: String = joined("watch budget of ", number_text(self.opts.budget as u64).as_str());
            let reason: String = joined(head.as_str(), " directories exhausted");
            self.degrade(reason.as_str());
            self.exhausted = true;
        }
    }

    /// The next directory of a pre-order list of `(dir, depth)` to watch. When
    /// the budget runs out the current node is recorded as an unwatched subtree
    /// root and its whole subtree is skipped, which keeps the recorded list to
    /// the frontier rather than every directory below it; then there is none.
    pub fn next_to_watch(&mut self, root: &[u8], dirs: &Vec<(Vec<u8>, usize)>, i: usize) -> (r: usize)
        requires
            i <= dirs@.len(),
        ensures
            if i == dirs@.len() {
                r == i && final(self)@ == old(self)@
            } else if old(self)@.is_full() {
                r == dirs@.len() && final(self)@ == old(self)@.spent().with_frontier(root@, dirs@, i as int)
            } else {
                r == i && final(self)@ == old(self)@
            },
    {
        let n: usize = dirs.len();
        if i == n || !self.full() {
            return i;
        }
        self.spend();
        let ghost target = self@.with_frontier(root@, dirs@, i as int);
        let mut at: usize = i;
        while at < n
            invariant
                n == dirs@.len(),
                at <= n,
                self@.with_frontier(root@, dirs@, at as int) == target,
            decreases n - at,
        {
            let depth: usize = dirs[at].1;
            let mut next: usize = at + 1;
            while next < n && dirs[next].1 > depth
                invariant
                    n == dirs@.len(),
                    at < next <= n,
                    past_subtree(dirs@, next as int, depth) == past_subtree(dirs@, at + 1, depth),
                decreases n - next,
            {
                next += 1;
            }
            self.record_unwatched(root, dirs[at].0.as_slice());
            at = next;
        }
        n
    }

    /// What became of the attempt to watch the directory at `i`; the place from
    /// which registration goes on.
    pub fn note_watched(&mut self, outcome: WatchOutcome, i: usize) -> (r: usize)
        requires
            i < usize::MAX,
        ensures
            final(self)@ == old(self)@.after_attempt(outcome),
            r == (if outcome is OutOfWatches {
                i
            } else {
                (i + 1) as usize
            }),
    {
        match outcome {
            WatchOutcome::Watched => {
                self.watched = self.watched.saturating_add(1);
                i + 1
            },
            WatchOutcome::OutOfWatches(e) => {
                self.degrade(joined("inotify refused more watches: ", e.as_str()).as_str());
                self.exhausted = true;
                i
            },
            WatchOutcome::Failed => i + 1,
        }
    }

    /// Whether a new directory is to be watched; where there is no room for it,
    /// it is recorded.
    pub fn admits(&mut self, p: &[u8]) -> (r: bool)
        ensures
            r == !old(self)@.is_full(),
            final(self)@ == (if r {
                old(self)@
            } else {
                old(self)@.with_unwatched(p@, p@)
            }),
    {
        if self.full() {
            self.record_unwatched(p, p);
            false
        } else {
            true
        }
    }

    /// What became of the attempt to watch a new directory.
    pub fn note_new_dir(&mut self, outcome: WatchOutcome, p: &[u8])
        ensures
            final(self)@ == (if outcome is OutOfWatches {
                old(self)@.after_attempt(outcome).with_unwatched(p@, p@)
            } else {
                old(self)@.after_attempt(outcome)
            }),
    {
        match outcome {
            WatchOutcome::Watched => {
                self.watched = self.watched.saturating_add(1);
            },
            WatchOutcome::OutOfWatches(e) => {
                self.degrade(joined("inotify refused more watches: ", e.as_str()).as_str());
                self.exhausted = true;
                self.record_unwatched(p, p);
            },
            WatchOutcome::Failed => {},
        }
    }

    /// Whether it is time to diff the unwatched subtrees.
    pub fn rescan_due(&self, elapsed_ms: u64) -> (r: bool)
        ensures
            r == (self@.unwatched.len() > 0 && elapsed_ms >= self@.opts.rescan_interval_ms),
    {
        !self.unwatched.is_empty() && elapsed_ms >= self.opts.rescan_interval_ms
    }

    /// One more rescan.
    pub fn note_rescan(&mut self)
        ensures
            final(self)@ == (WorkerView { rescans: raised64(old(self)@.rescans, 1), ..old(self)@ }),
    {
        self.rescans = self.rescans.saturating_add(1);
    }

    /// Something failed: what was done, and why it failed.
    pub fn note_failure(&mut self, what: &str, why: &str)
        ensures
            final(self)@ == (WorkerView { reason: Some(what@ + ": "@ + why@), ..old(self)@ }),
    {
        let head: String = joined(what, ": ");
        self.reason = Some(joined(head.as_str(), why));
    }

    /// What the watcher is doing.
    pub fn status(&self, registering: bool) -> (r: WatchStatus)
        ensures
            r.registering == registering,
            r.watched_dirs == self@.watched,
            r.degraded == (self@.unwatched.len() > 0),
            path::views(r.unwatched_roots@) == self@.unwatched.take(
                if self@.unwatched.len() < STATUS_UNWATCHED_SHOWN {
                    self@.unwatched.len() as int
                } else {
                    STATUS_UNWATCHED_SHOWN as int
                },
            ),
            r.unwatched_total == self@.unwatched_total,
            r.events_applied == self@.events_applied,
            r.batches == self@.batches,
            r.rescans == self@.rescans,
            text_view(r.reason) == self@.reason,
    {
        let n: usize = if self.unwatched.len() < STATUS_UNWATCHED_SHOWN {
            self.unwatched.len()
        } else {
            STATUS_UNWATCHED_SHOWN
        };
        let mut shown: Vec<Vec<u8>> = Vec::new();
        let mut i: usize = 0;
        while i < n
            invariant
                n <= self.unwatched@.len(),
                i <= n,
                shown@.len() == i,
                forall|j: int| 0 <= j < i ==> (#[trigger] shown@[j])@ == self.unwatched@[j]@,
            decreases n - i,
        {
            shown.push(clone_path(&self.unwatched[i]));
            i += 1;
        }
        assert(path::views(shown@) =~= self@.unwatched.take(n as int));
        let reason: Option<String> = match &self.reason {
            Some(r) => Some(r.as_str().to_owned()),
            None => None,
        };
        WatchStatus {
            registering,
            watched_dirs: self.watched,
            degraded: !self.unwatched.is_empty(),
            unwatched_roots: shown,
            unwatched_total: self.unwatched_total,
            events_applied: self.events_applied,
            batches: self.batches,
            rescans: self.rescans,
            reason,
        }
    }

    /// The roots of the unwatched subtrees.
    pub fn unwatched_roots(&self) -> (r: Vec<Vec<u8>>)
        ensures
            path::views(r@) == self@.unwatched,
    {
        clone_paths(&self.unwatched)
    }
}

// ---- applying ---------------------------------------------------------------------

/// Where a batch that starts at `at` ends.
pub open spec fn batch_end(len: nat, at: int) -> int {
    if len - at > MAX_BATCH {
        at + MAX_BATCH
    } else {
        len as int
    }
}

/// The engine and the worker after the events from `at` on were applied, batch by
/// batch; a batch that the index has no room for is passed over, and said so.
pub open spec fn applied(w: WorkerView, e: EngineView, evs: Seq<EventView>, at: int) -> (WorkerView, EngineView)
    decreases evs.len() - at,
{
    if at < 0 || at >= evs.len() {
        (w, e)
    } else {
        let end = batch_end(evs.len(), at);
        let batch = evs.subrange(at, end);
        if events::has_room(e.index, batch) {
            applied(
                w.after_batch(events::batch_of(e.index, batch).outcome),
                e.after_batch(batch),
                evs,
                end,
            )
        } else {
            applied(
                WorkerView { reason: Some("applying events: no room in the index"@), ..w },
                e,
                evs,
                end,
            )
        }
    }
}

impl Worker {
    /// Applies events, batch by batch.
    pub fn apply(&mut self, engine: &mut Engine, evs: &Vec<IndexEvent>)
        requires
            old(engine).wf(),
        ensures
            final(engine).wf(),
            (final(self)@, final(engine)@) == applied(
                old(self)@,
                old(engine)@,
                events::event_views(evs@),
                0,
            ),
    {
        let n: usize = evs.len();
        let ghost all = events::event_views(evs@);
        let ghost target = applied(self@, engine@, all, 0);
        let mut at: usize = 0;
        while at < n
            invariant
                n == evs@.len(),
                at <= n,
                all == events::event_views(evs@),
                engine.wf(),
                applied(self@, engine@, all, at as int) == target,
            decreases n - at,
        {
            let end: usize = if n - at > MAX_BATCH {
                at + MAX_BATCH
            } else {
                n
            };
            let batch: &[IndexEvent] = vstd::slice::slice_subrange(evs.as_slice(), at, end);
            assert(events::event_views(batch@) =~= all.subrange(at as int, end as int));
            if engine.can_apply(batch) {
                let out: EventOutcome = engine.apply_events(batch);
                let sum: usize = out.added.saturating_add(out.updated).saturating_add(out.removed);
                self.events_applied = self.events_applied.saturating_add(sum as u64);
                self.batches = self.batches.saturating_add(1);
            } else {
                self.reason = Some("applying events: no room in the index".to_owned());
            }
            at = end;
        }
    }
}

} // verus!
