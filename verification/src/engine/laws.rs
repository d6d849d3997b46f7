//! What holds of an engine across several calls.

use vstd::prelude::*;

use crate::db;
use crate::db::laws::Tables;
use crate::db::OpView;
use crate::engine;
use crate::engine::EngineView;
use crate::events;
use crate::events::EventView;
use crate::model::SearchResults;
use crate::query;
use crate::query::Query;
use crate::search;
use crate::search::agree;
use crate::tree;
use crate::tree::compaction;
use crate::tree::IndexView;

verus! {

/// The tables once everything that is pending is written.
pub open spec fn settled(t: Tables, e: EngineView) -> Tables {
    if db::wants_resave(e.pending) {
        db::laws::tables_of(e.index)
    } else {
        t.written_all(e.pending)
    }
}

/// The pending writes lead from the tables to the snapshot of the index, and
/// still do after a steady batch of events.
pub proof fn law_pending_writes_lead_to_the_index(t: Tables, e: EngineView, batch: Seq<EventView>)
    requires
        e.index.wf(),
        events::has_room(e.index, batch),
        events::laws::is_steady(e.index, batch),
        settled(t, e) == db::laws::tables_of(e.index),
    ensures
        settled(t, e.after_batch(batch)) == db::laws::tables_of(e.after_batch(batch).index),
{
    if batch.len() > 0 {
        let p = events::batch_of(e.index, batch);
        let after = e.after_batch(batch);
        if events::is_littered(events::progress_of(e.index, batch, batch.len()).index) {
            assert(after.pending[0] is FullResave);
        } else if !db::wants_resave(after.pending) {
            events::laws::lemma_never_compacted(e.index, batch, batch.len());
            if db::wants_resave(e.pending) {
                let i = choose|i: int| 0 <= i < e.pending.len() && #[trigger] e.pending[i] is FullResave;
                assert(after.pending[i] is FullResave);
            }
            events::laws::law_batch_is_written(e.index, batch, batch.len() as int);
            db::laws::lemma_written_concat(t, e.pending, p.ops);
        }
    }
}

/// With nothing pending the tables hold the snapshot of the index, if they were
/// led to it.
pub proof fn law_flushed_tables_hold_the_index(t: Tables, e: EngineView)
    requires
        e.pending.len() == 0,
        settled(t, e) == db::laws::tables_of(e.index),
    ensures
        t == db::laws::tables_of(e.index),
{
}

/// A change of the index is seen: the generation moves, and nothing is remembered
/// of earlier searches.
pub proof fn law_changes_are_seen(e: EngineView, batch: Seq<EventView>)
    requires
        batch.len() > 0,
    ensures
        e.after_batch(batch).generation != e.generation,
        e.after_batch(batch).cache is None,
{
}

/// A batch is one step. An empty one changes nothing; any other moves the
/// generation by one, around at its end, forgets earlier searches and leaves the
/// configuration alone. Its writes are queued behind those that wait, unless it
/// compacts the index: then one resave takes the place of them all, and no
/// tombstone is left.
pub proof fn law_batch_is_one_step(e: EngineView, batch: Seq<EventView>)
    requires
        e.index.wf(),
        events::has_room(e.index, batch),
    ensures
        batch.len() == 0 ==> e.after_batch(batch) == e,
        batch.len() > 0 ==> {
            let p = events::batch_of(e.index, batch);
            let after = e.after_batch(batch);
            &&& after.index == p.index
            &&& after.index.wf()
            &&& after.config == e.config
            &&& after.cache is None
            &&& after.generation == (e.generation + 1) % 0x1_0000_0000_0000_0000
            &&& p.outcome.compacted <==> events::is_littered(
                events::progress_of(e.index, batch, batch.len()).index,
            )
            &&& p.outcome.compacted ==> after.pending == seq![OpView::FullResave] && tree::dead_count(
                after.index.slots,
            ) == 0
            &&& !p.outcome.compacted ==> after.pending == e.pending + p.ops
        },
{
    if batch.len() > 0 {
        let all = events::progress_of(e.index, batch, batch.len());
        events::lemma_progress(e.index, batch, batch.len() as int);
        events::laws::lemma_never_compacted(e.index, batch, batch.len());
        if events::is_littered(all.index) {
            compaction::lemma_replay_slots(all.index, all.index.slots.len() as int);
        }
    }
}

/// What a search finds does not depend on what was searched for before: whether
/// the remembered matches were used or all entries were looked at, the same
/// matches are counted, and the same keys come out in the same order.
pub proof fn law_search_ignores_the_past(
    v: IndexView,
    text: Seq<char>,
    limit: nat,
    a: Query,
    b: Query,
    r: SearchResults,
    s: SearchResults,
)
    requires
        engine::asks(a, text),
        engine::asks(b, text),
        search::results_over(v, a, search::all_ids(v), limit, r),
        search::results_over(v, b, search::all_ids(v), limit, s),
    ensures
        agree::agree(v, a, r, s),
{
    assert(a.is_for(query::request_of(text)));
    agree::law_one_request_one_answer(v, a, b, search::all_ids(v), limit, r, s);
}

} // verus!
