//! Incremental filesystem watching.
//!
//! Raw events are coalesced into a set of *touched paths* over a debounce window
//! and each path is then re-stated once. That single rule covers every case the
//! kernel throws at us — create, modify, delete, and both halves of a rename,
//! whether or not the other half is inside a watched root — because the state on
//! disk at the end of the window is the state the index should converge to.
//!
//! Watches are a finite resource, so registration runs against a budget and never
//! fails hard: subtrees that could not be watched are recorded in
//! [`WatchStatus::unwatched_roots`] and picked up by a periodic diff instead.

use vstd::prelude::*;

use crate::config::Config;
use crate::outside;
use crate::outside::lossy_text;
use crate::path;
use crate::path::{path_components, starts_with_path};
use crate::query;

pub mod coalesced;
pub mod converge;
pub mod diff;
pub mod laws;
pub mod listed;
pub mod listing;
pub mod order;
pub mod plan;
pub mod reconciled;
pub mod reorder;
pub mod running;
pub mod sorted;
pub mod touched;
pub mod worker;

verus! {

/// How often unwatched subtrees are diffed while degraded, in milliseconds.
pub const RESCAN_INTERVAL_MS: u64 = 300_000;

#[derive(Debug, Clone)]
pub struct WatchOptions {
    pub roots: Vec<Vec<u8>>,
    /// Directory names that are indexed but never watched.
    pub excludes: Vec<String>,
    /// Maximum watches this watcher may hold.
    pub budget: usize,
    pub debounce_ms: u64,
    /// How often unwatched subtrees are diffed while degraded.
    pub rescan_interval_ms: u64,
}

pub(crate) fn clone_paths(paths: &Vec<Vec<u8>>) -> (r: Vec<Vec<u8>>)
    ensures
        path::views(r@) == path::views(paths@),
{
    let n: usize = paths.len();
    let mut out: Vec<Vec<u8>> = Vec::new();
    let mut i: usize = 0;
    while i < n
        invariant
            n == paths@.len(),
            i <= n,
            out@.len() == i,
            forall|j: int| 0 <= j < i ==> (#[trigger] out@[j])@ == paths@[j]@,
        decreases n - i,
    {
        out.push(vstd::slice::slice_to_vec(paths[i].as_slice()));
        i += 1;
    }
    assert(path::views(out@) =~= path::views(paths@));
    out
}

fn clone_names(names: &Vec<String>) -> (r: Vec<String>)
    ensures
        query::string_views(r@) == query::string_views(names@),
{
    let n: usize = names.len();
    let mut out: Vec<String> = Vec::new();
    let mut i: usize = 0;
    while i < n
        invariant
            n == names@.len(),
            i <= n,
            out@.len() == i,
            forall|j: int| 0 <= j < i ==> (#[trigger] out@[j])@ == names@[j]@,
        decreases n - i,
    {
        out.push(names[i].as_str().to_owned());
        i += 1;
    }
    assert(query::string_views(out@) =~= query::string_views(names@));
    out
}

/// A name is among the excluded ones.
pub open spec fn is_excluded(excludes: Seq<String>, name: Seq<u8>) -> bool {
    exists|i: int| 0 <= i < excludes.len() && (#[trigger] excludes[i])@ == outside::lossy_text_of(name)
}

/// Whether a name is among the excluded ones.
pub fn excludes_name(excludes: &Vec<String>, name: &[u8]) -> (r: bool)
    ensures
        r == is_excluded(excludes@, name@),
{
    let text: String = lossy_text(name);
    let n: usize = excludes.len();
    let mut i: usize = 0;
    while i < n
        invariant
            n == excludes@.len(),
            i <= n,
            text@ == outside::lossy_text_of(name@),
            forall|j: int| 0 <= j < i ==> (#[trigger] excludes@[j])@ != text@,
        decreases n - i,
    {
        if excludes[i] == text {
            assert(excludes@[i as int]@ == text@);
            return true;
        }
        i += 1;
    }
    false
}

impl WatchOptions {
    pub fn from_config(config: &Config) -> (r: WatchOptions)
        ensures
            path::views(r.roots@) == path::views(config.roots@),
            query::string_views(r.excludes@) == query::string_views(config.watch_excludes@),
            r.budget == config.watch_budget,
            r.debounce_ms == config.watch_debounce_ms,
            r.rescan_interval_ms == RESCAN_INTERVAL_MS,
    {
        WatchOptions {
            roots: clone_paths(&config.roots),
            excludes: clone_names(&config.watch_excludes),
            budget: config.watch_budget,
            debounce_ms: config.watch_debounce_ms,
            rescan_interval_ms: RESCAN_INTERVAL_MS,
        }
    }

    /// The path lies in one of the roots.
    pub open spec fn covers(self, p: Seq<u8>) -> bool {
        exists|i: int| 0 <= i < self.roots@.len() && path::path_starts_with(p, (#[trigger] self.roots@[i])@)
    }

    pub fn under_roots(&self, p: &[u8]) -> (r: bool)
        ensures
            r == self.covers(p@),
    {
        self.first_root(p).is_some()
    }

    fn first_root(&self, p: &[u8]) -> (r: Option<usize>)
        ensures
            match r {
                Some(i) => {
                    &&& i < self.roots@.len()
                    &&& path::path_starts_with(p@, self.roots@[i as int]@)
                    &&& forall|j: int| 0 <= j < i ==> !path::path_starts_with(p@, (#[trigger] self.roots@[j])@)
                },
                None => !self.covers(p@),
            },
    {
        let n: usize = self.roots.len();
        let mut i: usize = 0;
        while i < n
            invariant
                n == self.roots@.len(),
                i <= n,
                forall|j: int| 0 <= j < i ==> !path::path_starts_with(p@, (#[trigger] self.roots@[j])@),
            decreases n - i,
        {
            if starts_with_path(p, self.roots[i].as_slice()) {
                return Some(i);
            }
            i += 1;
        }
        None
    }

    /// The components of a path below the first of the roots from `from` on that
    /// it lies in, or all of them.
    pub open spec fn below_root(self, p: Seq<u8>, from: int) -> Seq<Seq<u8>>
        decreases self.roots@.len() - from,
    {
        if from >= self.roots@.len() {
            path::components(p)
        } else if path::path_starts_with(p, self.roots@[from]@) {
            path::components(p).skip(path::components(self.roots@[from]@).len() as int)
        } else {
            self.below_root(p, from + 1)
        }
    }

    /// A component as it is written: the root is a slash.
    pub open spec fn written(c: Seq<u8>) -> Seq<u8> {
        if c.len() == 0 {
            seq![path::SLASH]
        } else {
            c
        }
    }

    /// No component below the root is excluded.
    pub open spec fn may_watch(self, p: Seq<u8>) -> bool {
        let below = self.below_root(p, 0);
        forall|i: int|
            0 <= i < below.len() ==> !is_excluded(self.excludes@, WatchOptions::written(#[trigger] below[i]))
    }

    proof fn lemma_below_root(self, p: Seq<u8>, from: int, at: int)
        requires
            0 <= from <= at <= self.roots@.len(),
            forall|j: int| from <= j < at ==> !path::path_starts_with(p, (#[trigger] self.roots@[j])@),
        ensures
            self.below_root(p, from) == self.below_root(p, at),
        decreases at - from,
    {
        if from < at {
            assert(!path::path_starts_with(p, self.roots@[from]@));
            self.lemma_below_root(p, from + 1, at);
        }
    }

    /// Excludes are matched only below the root, so a root that happens to sit
    /// inside a directory called `target` still gets watched.
    pub fn watchable(&self, p: &[u8]) -> (r: bool)
        ensures
            r == self.may_watch(p@),
    {
        let all: Vec<Vec<u8>> = path_components(p);
        let skip: usize = match self.first_root(p) {
            Some(i) => {
                proof {
                    self.lemma_below_root(p@, 0, i as int);
                }
                let root: Vec<Vec<u8>> = path_components(self.roots[i].as_slice());
                assert(path::views(root@).len() == root@.len());
                root.len()
            },
            None => {
                proof {
                    self.lemma_below_root(p@, 0, self.roots@.len() as int);
                }
                0
            },
        };
        let ghost below = self.below_root(p@, 0);
        let n: usize = all.len();
        assert(path::views(all@).len() == n);
        assert(path::views(all@).skip(skip as int) =~= below);
        let mut i: usize = skip;
        while i < n
            invariant
                n == all@.len(),
                skip <= i <= n,
                below == self.below_root(p@, 0),
                path::views(all@).skip(skip as int) == below,
                forall|j: int|
                    0 <= j < i - skip ==> !is_excluded(self.excludes@, WatchOptions::written(#[trigger] below[j])),
            decreases n - i,
        {
            let ghost c = below[i - skip];
            assert(c == all@[i as int]@);
            let out: bool = if all[i].is_empty() {
                let slash: [u8; 1] = [path::SLASH];
                assert(slash@ =~= WatchOptions::written(c));
                excludes_name(&self.excludes, slash.as_slice())
            } else {
                excludes_name(&self.excludes, all[i].as_slice())
            };
            if out {
                return false;
            }
            i += 1;
        }
        true
    }
}

} // verus!
