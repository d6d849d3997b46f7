//! Facade tying the index, the pending database writes and the matcher together.

use vstd::prelude::*;

use crate::config::Config;
use crate::db;
use crate::db::{load_rows, plan_writes, snapshot_rows, DbOp, DirRow, EntryRow, OpView, Writes};
use crate::events;
use crate::events::batch::{apply_batch, batch_fits};
use crate::events::{EventOutcome, IndexEvent};
use crate::index;
use crate::index::{Index, Room};
use crate::model::SearchResults;
use crate::path;
use crate::query;
use crate::query::Query;
use crate::search;
use crate::search::{needs_paths, search, search_collect, search_within};
use crate::tree;
use crate::tree::IndexView;

pub mod laws;

verus! {

/// The numbers of an engine that do not depend on where its tables are kept.
#[derive(Debug, Clone, Copy)]
pub struct EngineStats {
    pub entries: usize,
    pub live_entries: usize,
    pub dead_entries: usize,
    pub dirs: usize,
    pub name_bytes: usize,
    pub memory_bytes: usize,
    pub pending_writes: usize,
}

#[derive(Debug)]
struct SearchCache {
    query: Query,
    ids: Vec<u32>,
    generation: u64,
}

/// The remembered matches of a query.
pub struct CacheView {
    pub query: Query,
    pub ids: Seq<u32>,
    pub generation: u64,
}

/// What an engine holds.
pub struct EngineView {
    pub config: Config,
    pub index: IndexView,
    pub pending: Seq<OpView>,
    pub cache: Option<CacheView>,
    pub generation: u64,
}

impl EngineView {
    /// The remembered matches may stand for all entries: they are the matches of
    /// a query that this one narrows, and the index has not changed since.
    pub open spec fn reuses(self, q: Query) -> bool {
        self.cache matches Some(c) && c.generation == self.generation && q.narrows(c.query)
    }

    /// The number of entries that a search looks at.
    pub open spec fn looked_at(self, q: Query) -> nat {
        if search::is_void(q) {
            0
        } else if self.reuses(q) {
            self.cache->0.ids.len()
        } else {
            (self.index.slots.len() - tree::dead_count(self.index.slots)) as nat
        }
    }

    /// What is remembered of a search: its matches, unless they are too many.
    pub open spec fn remembered(self, q: Query) -> Option<CacheView> {
        let ids = search::matching(self.index, q, search::all_ids(self.index));
        if search::is_void(q) || ids.len() > search::COLLECT_CAP {
            None
        } else {
            Some(CacheView { query: q, ids, generation: self.generation })
        }
    }

    /// What is remembered is what a search of all entries would find.
    pub open spec fn cache_wf(self) -> bool {
        self.cache matches Some(c) ==> c.generation == self.generation ==> c.ids == search::matching(
            self.index,
            c.query,
            search::all_ids(self.index),
        )
    }

    /// The engine after a change of the index.
    pub open spec fn changed_to(self, index: IndexView, pending: Seq<OpView>) -> EngineView {
        EngineView {
            index,
            pending,
            cache: None,
            generation: (if self.generation == u64::MAX {
                0
            } else {
                (self.generation + 1) as u64
            }),
            ..self
        }
    }

    /// What a batch of events does to the engine.
    pub open spec fn after_batch(self, batch: Seq<events::EventView>) -> EngineView {
        if batch.len() == 0 {
            self
        } else {
            let p = events::batch_of(self.index, batch);
            self.changed_to(
                p.index,
                if p.outcome.compacted {
                    p.ops
                } else {
                    self.pending + p.ops
                },
            )
        }
    }
}

/// The query that a text asks, as [`Query::parse`] reads it.
pub open spec fn asks(q: Query, text: Seq<char>) -> bool {
    &&& q.raw@ == text
    &&& q.is_for(query::request_of(text))
    &&& q.wf()
}

pub struct Engine {
    config: Config,
    index: Index,
    pending: Vec<DbOp>,
    cache: Option<SearchCache>,
    generation: u64,
}

impl View for Engine {
    type V = EngineView;

    closed spec fn view(&self) -> EngineView {
        EngineView {
            config: self.config,
            index: self.index@,
            pending: db::op_views(self.pending@),
            cache: match self.cache {
                Some(c) => Some(CacheView { query: c.query, ids: c.ids@, generation: c.generation }),
                None => None,
            },
            generation: self.generation,
        }
    }
}

impl Engine {
    /// The next search has no directory paths to build.
    pub closed spec fn is_warm(&self) -> bool {
        self.index.is_warm()
    }

    /// The bytes of the directory paths that are kept.
    pub closed spec fn path_bytes(&self) -> int {
        self.index.path_bytes()
    }

    pub closed spec fn wf(&self) -> bool {
        &&& self.index.wf()
        &&& self@.cache_wf()
        &&& self.cache matches Some(c) ==> c.generation == self.generation ==> forall|k: int|
            0 <= k < c.ids@.len() ==> (#[trigger] c.ids@[k]) < self.index@.slots.len()
    }

    /// An engine over an index.
    pub fn new(config: Config, index: Index) -> (r: Engine)
        requires
            index.wf(),
        ensures
            r.wf(),
            r.is_warm(),
            r@ == (EngineView {
                config,
                index: index@,
                pending: Seq::empty(),
                cache: None,
                generation: 0,
            }),
    {
        let mut index: Index = index;
        index.warm();
        let r: Engine = Engine { config, index, pending: Vec::new(), cache: None, generation: 0 };
        assert(r@.pending =~= Seq::empty());
        r
    }

    /// An engine over the index that is kept in the two tables.
    pub fn open(config: Config, dirs: &Vec<DirRow>, entries: &Vec<EntryRow>) -> (r: Result<Engine, String>)
        ensures
            match r {
                Ok(e) => {
                    &&& db::loadable(dirs@, entries@) && db::dense(dirs@) && db::ascending(entries@)
                    &&& e.wf()
                    &&& e.is_warm()
                    &&& e@ == (EngineView {
                        config,
                        index: db::loaded_entries(
                            db::loaded_dirs(dirs@, dirs@.len()),
                            entries@,
                            entries@.len(),
                        ),
                        pending: Seq::empty(),
                        cache: None,
                        generation: 0,
                    })
                },
                Err(m) => if !db::dense(dirs@) {
                    m@ == "dirs table is not densely numbered"@
                } else if !db::ascending(entries@) {
                    m@ == "entries table is not densely numbered"@
                } else {
                    !db::loadable(dirs@, entries@) && m@ == "the tables do not fit"@
                },
            },
    {
        match load_rows(dirs, entries) {
            Ok((index, _)) => Ok(Engine::new(config, index)),
            Err(e) => Err(e),
        }
    }

    pub fn config(&self) -> (r: &Config)
        ensures
            *r == self@.config,
    {
        &self.config
    }

    /// Bumped whenever the index changes; a UI can use it to discard stale
    /// results or to know when to re-run the current query.
    pub fn generation(&self) -> (r: u64)
        ensures
            r == self@.generation,
    {
        self.generation
    }

    pub fn is_empty(&self) -> (r: bool)
        requires
            self.wf(),
        ensures
            r == (self@.index.slots.len() == tree::dead_count(self@.index.slots)),
    {
        self.index.live_len() == 0
    }

    /// Runs a query and returns at most `limit` ranked hits.
    ///
    /// Consecutive queries that only narrow the previous one (typing) are
    /// answered by filtering the previous match set instead of rescanning.
    pub fn search(&mut self, query: &str, limit: usize) -> (r: SearchResults)
        requires
            old(self).wf(),
        ensures
            final(self).wf(),
            exists|q: Query| #[trigger]
                asks(q, query@) && search::results_over(
                    old(self)@.index,
                    q,
                    search::all_ids(old(self)@.index),
                    limit as nat,
                    r,
                ) && r.scanned == old(self)@.looked_at(q) && final(self)@ == (EngineView {
                    cache: old(self)@.remembered(q),
                    ..old(self)@
                }) && final(self).is_warm() == (old(self).is_warm() || search::reads_paths(q)),
    {
        let q: Query = Query::parse(query);
        let ghost v = self@.index;
        let ghost asked = q;
        if needs_paths(&q) {
            self.index.warm();
        }
        let generation: u64 = self.generation;
        let reusable: bool = match &self.cache {
            Some(c) => c.generation == generation && q.refines(&c.query),
            None => false,
        };
        let (results, ids): (SearchResults, Option<Vec<u32>>) = match &self.cache {
            Some(c) if reusable => {
                let found: (SearchResults, Option<Vec<u32>>) = search_within(
                    &self.index,
                    &q,
                    c.ids.as_slice(),
                    limit,
                );
                proof {
                    search::laws::law_refined_results(v, q, c.query, limit as nat, found.0);
                    search::laws::law_refinement_matches_full_scan(v, q, c.query, search::all_ids(v));
                }
                found
            },
            _ => search_collect(&self.index, &q, limit),
        };
        proof {
            assert(asks(asked, query@));
            match ids {
                Some(ref out) => {
                    search::laws::law_remembered_ids_are_the_matches(v, asked, *out);
                },
                None => {},
            }
        }
        self.cache = match ids {
            Some(ids) => Some(SearchCache { query: q, ids, generation }),
            None => None,
        };
        results
    }

    /// Search without touching the refinement cache (for background or bench use).
    pub fn search_uncached(&mut self, query: &str, limit: usize) -> (r: SearchResults)
        requires
            old(self).wf(),
        ensures
            final(self).wf(),
            final(self)@ == old(self)@,
            exists|q: Query| #[trigger]
                asks(q, query@) && search::results_over(
                    old(self)@.index,
                    q,
                    search::all_ids(old(self)@.index),
                    limit as nat,
                    r,
                ) && r.scanned == (if search::is_void(q) {
                    0
                } else {
                    old(self)@.index.slots.len() - tree::dead_count(old(self)@.index.slots)
                }) && final(self).is_warm() == (old(self).is_warm() || search::reads_paths(q)),
    {
        let q: Query = Query::parse(query);
        if needs_paths(&q) {
            self.index.warm();
        }
        assert(asks(q, query@));
        search(&self.index, &q, limit)
    }

    /// Registers a new root; says whether it is new.
    pub fn add_root(&mut self, root: &[u8]) -> (added: bool)
        requires
            old(self).wf(),
        ensures
            final(self).wf(),
            added == !old(self)@.config.has_root(root@),
            path::views(final(self)@.config.roots@) == (if added {
                path::views(old(self)@.config.roots@).push(root@)
            } else {
                path::views(old(self)@.config.roots@)
            }),
            final(self)@ == (EngineView { config: final(self)@.config, ..old(self)@ }),
            final(self)@.config.scan_excludes == old(self)@.config.scan_excludes,
            final(self)@.config.exclude_paths == old(self)@.config.exclude_paths,
            final(self)@.config.watch_excludes == old(self)@.config.watch_excludes,
            final(self)@.config.max_results == old(self)@.config.max_results,
            final(self)@.config.watch_budget == old(self)@.config.watch_budget,
            final(self)@.config.watch_debounce_ms == old(self)@.config.watch_debounce_ms,
            final(self)@.config.db_path == old(self)@.config.db_path,
            final(self)@.config.cache_dir == old(self)@.config.cache_dir,
            final(self).is_warm() == old(self).is_warm(),
    {
        self.config.add_root(root)
    }

    /// Takes the index out, to scan into it; [`Engine::reindex`] puts it back.
    pub fn take_index(&mut self) -> (r: Index)
        requires
            old(self).wf(),
        ensures
            r.wf(),
            r@ == old(self)@.index,
            final(self).wf(),
            final(self)@ == (EngineView { index: IndexView::empty(), cache: None, ..old(self)@ }),
    {
        let mut index: Index = Index::new();
        std::mem::swap(&mut index, &mut self.index);
        self.cache = None;
        index
    }

    /// Replaces the index by a newly scanned one; the returned rows replace the
    /// persisted snapshot, and nothing is left pending.
    pub fn reindex(&mut self, fresh: Index) -> (rows: (Vec<DirRow>, Vec<EntryRow>))
        requires
            old(self).wf(),
            fresh.wf(),
        ensures
            final(self).wf(),
            final(self)@ == old(self)@.changed_to(fresh@, Seq::empty()),
            final(self).is_warm(),
            db::are_dir_rows(fresh@, rows.0@),
            db::are_entry_rows(fresh@, rows.1@),
    {
        let mut fresh: Index = fresh;
        fresh.warm();
        let rows: (Vec<DirRow>, Vec<EntryRow>) = snapshot_rows(&fresh);
        self.index = fresh;
        self.pending = Vec::new();
        assert(db::op_views(self.pending@) =~= Seq::empty());
        self.invalidate();
        rows
    }

    /// Whether the index has room for a batch of events.
    pub fn can_apply(&self, batch: &[IndexEvent]) -> (r: bool)
        requires
            self.wf(),
        ensures
            r == events::has_room(self@.index, events::event_views(batch@)),
    {
        batch_fits(&self.index, batch)
    }

    /// Applies a batch of filesystem events to the in-memory index and queues
    /// the matching database writes.
    ///
    /// This is the seam the watcher builds on. Contract:
    ///
    /// * Call it with **batches** (one debounce window's worth). Name lookups
    ///   are resolved in a single pass over the index, so one call with 500
    ///   events costs about the same as one call with a single event.
    /// * Database writes are queued, not committed. Call [`Engine::flush`]
    ///   after the batch (or on a timer) to commit them.
    /// * Ids may be renumbered when a compaction triggers; anything holding
    ///   entry ids across calls must re-check [`Engine::generation`].
    pub fn apply_events(&mut self, batch: &[IndexEvent]) -> (r: EventOutcome)
        requires
            old(self).wf(),
            events::has_room(old(self)@.index, events::event_views(batch@)),
        ensures
            final(self).wf(),
            final(self)@ == old(self)@.after_batch(events::event_views(batch@)),
            batch@.len() == 0 || events::keeps_tree(old(self)@.index, events::event_views(batch@))
                ==> final(self).is_warm() == old(self).is_warm(),
            r == (if batch@.len() == 0 {
                EventOutcome::nothing()
            } else {
                events::batch_of(old(self)@.index, events::event_views(batch@)).outcome
            }),
    {
        if batch.is_empty() {
            return EventOutcome::default();
        }
        let (ops, out) = apply_batch(&mut self.index, batch);
        let ghost before = self.pending@;
        if out.compacted {
            self.pending = ops;
        } else {
            let mut ops: Vec<DbOp> = ops;
            let ghost added = ops@;
            self.pending.append(&mut ops);
            assert(db::op_views(before + added) =~= db::op_views(before) + db::op_views(added));
        }
        self.invalidate();
        out
    }

    /// Takes the queued writes, planned for the tables; nothing is planned where
    /// nothing is queued.
    pub fn flush(&mut self) -> (r: Option<Writes>)
        requires
            old(self).wf(),
        ensures
            final(self).wf(),
            final(self)@ == (EngineView { pending: Seq::empty(), ..old(self)@ }),
            final(self).is_warm() == old(self).is_warm(),
            match r {
                None => old(self)@.pending.len() == 0,
                Some(Writes::All(dirs, entries)) => {
                    &&& db::wants_resave(old(self)@.pending)
                    &&& db::are_dir_rows(old(self)@.index, dirs@)
                    &&& db::are_entry_rows(old(self)@.index, entries@)
                },
                Some(Writes::Each(writes)) => {
                    &&& !db::wants_resave(old(self)@.pending)
                    &&& writes@.len() == old(self)@.pending.len()
                    &&& writes@.len() > 0
                    &&& forall|i: int|
                        0 <= i < writes@.len() ==> db::asks_for(old(self)@.pending[i], #[trigger] writes@[i])
                },
            },
    {
        let mut ops: Vec<DbOp> = Vec::new();
        std::mem::swap(&mut ops, &mut self.pending);
        assert(db::op_views(self.pending@) =~= Seq::empty());
        if ops.is_empty() {
            return None;
        }
        Some(plan_writes(&self.index, &ops))
    }

    pub fn stats(&self) -> (r: EngineStats)
        requires
            self.wf(),
        ensures
            r.entries == self@.index.slots.len(),
            r.live_entries == self@.index.slots.len() - tree::dead_count(self@.index.slots),
            r.dead_entries == tree::dead_count(self@.index.slots),
            r.dirs == self@.index.dirs.len(),
            r.name_bytes == self@.index.name_bytes,
            exists|room: Room| #[trigger]
                room.covers(self@.index) && r.memory_bytes == index::capped(
                    index::room_bytes(room, self.path_bytes()),
                ),
            r.pending_writes == self@.pending.len(),
    {
        EngineStats {
            entries: self.index.len(),
            live_entries: self.index.live_len(),
            dead_entries: self.index.dead_len(),
            dirs: self.index.dir_count(),
            name_bytes: self.index.name_bytes(),
            memory_bytes: self.index.memory_bytes(),
            pending_writes: self.pending.len(),
        }
    }

    /// Read access to the index for callers that need raw entries (the UI reads
    /// paths and metadata straight from hits, so this is rarely needed).
    pub fn with_index<R, F: FnOnce(&Index) -> R>(&self, f: F) -> (r: R)
        requires
            self.wf(),
            forall|index: &Index| index.wf() && index@ == self@.index ==> call_requires(f, (index,)),
        ensures
            exists|index: &Index|
                index.wf() && index@ == self@.index && #[trigger] call_ensures(f, (index,), r),
    {
        f(&self.index)
    }

    fn invalidate(&mut self)
        requires
            old(self).index.wf(),
        ensures
            final(self).wf(),
            final(self)@ == old(self)@.changed_to(old(self).index@, old(self)@.pending),
            final(self).is_warm() == old(self).is_warm(),
    {
        self.generation = self.generation.wrapping_add(1);
        self.cache = None;
    }
}

} // verus!
