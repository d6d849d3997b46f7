//! What is persisted: the rows of a snapshot, the incremental writes between two
//! snapshots, and how rows become an index again.
//!
//! The tables only store the tree so a cold start does not have to walk the
//! filesystem: boot reads the directories and the entries once, in the order of
//! their ids.

use vstd::prelude::*;

use crate::arena;
use crate::index::{kept_len, DirNode, Index, NO_DIR};
use crate::model;
use crate::model::{flags, Entry};
use crate::text;
use crate::text::{chars_of, is_word, number_text};
use crate::tree;
use crate::tree::keeps;
use crate::tree::IndexView;

pub mod laws;
pub mod writes;

verus! {

pub const SCHEMA_VERSION: i64 = 1;

/// What is done to a database on opening it.
#[derive(Debug, Clone, Copy, PartialEq, Eq, Structural)]
pub enum SchemaStep {
    /// It is of this version: it is read as it is.
    Keep,
    /// It is new: the version is written down.
    Stamp,
    /// It is of another version: it is emptied, and the version written down.
    Reset,
}

/// What is done to a database, by the version that it tells.
pub fn schema_step(stored: Option<&str>) -> (r: SchemaStep)
    ensures
        r == (match stored {
            None => SchemaStep::Stamp,
            Some(v) => if v@ == text::decimal_text(SCHEMA_VERSION as nat) {
                SchemaStep::Keep
            } else {
                SchemaStep::Reset
            },
        }),
{
    match stored {
        None => SchemaStep::Stamp,
        Some(v) => {
            let current: String = number_text(SCHEMA_VERSION as u64);
            if is_word(chars_of(v).as_slice(), current.as_str()) {
                SchemaStep::Keep
            } else {
                SchemaStep::Reset
            }
        },
    }
}

/// A pending write produced by an index mutation (see
/// `Engine::apply_events`).
#[derive(Debug, Clone)]
pub enum DbOp {
    Upsert { id: u32, dir: u32, name: Vec<u8>, size: u64, mtime: i64, flags: u8 },
    Delete { id: u32 },
    AddDir { id: u32, parent: u32, name: Vec<u8> },
    /// Ids were renumbered (compaction): the whole snapshot must be rewritten.
    FullResave,
}

/// A pending write, as a mathematical value.
pub enum OpView {
    Upsert { id: u32, dir: u32, name: Seq<u8>, size: u64, mtime: i64, flags: u8 },
    Delete { id: u32 },
    AddDir { id: u32, parent: u32, name: Seq<u8> },
    FullResave,
}

impl View for DbOp {
    type V = OpView;

    open spec fn view(&self) -> OpView {
        match self {
            DbOp::Upsert { id, dir, name, size, mtime, flags } => OpView::Upsert {
                id: *id,
                dir: *dir,
                name: name@,
                size: *size,
                mtime: *mtime,
                flags: *flags,
            },
            DbOp::Delete { id } => OpView::Delete { id: *id },
            DbOp::AddDir { id, parent, name } => OpView::AddDir { id: *id, parent: *parent, name: name@ },
            DbOp::FullResave => OpView::FullResave,
        }
    }
}

pub open spec fn op_views(ops: Seq<DbOp>) -> Seq<OpView> {
    Seq::new(ops.len(), |i: int| ops[i]@)
}

/// A row of the table of directories; a root's parent is negative.
#[derive(Debug, Clone)]
pub struct DirRow {
    pub id: i64,
    pub parent: i64,
    pub name: Vec<u8>,
}

/// A row of the table of entries.
#[derive(Debug, Clone)]
pub struct EntryRow {
    pub id: i64,
    pub dir: i64,
    pub name: Vec<u8>,
    pub size: i64,
    pub mtime: i64,
    pub flags: i64,
}

/// A directory, as a row without its id.
pub struct DirRecord {
    pub parent: i64,
    pub name: Seq<u8>,
}

/// An entry, as a row without its id.
pub struct EntryRecord {
    pub dir: i64,
    pub name: Seq<u8>,
    pub size: i64,
    pub mtime: i64,
    pub flags: i64,
}

pub open spec fn dir_record(r: DirRow) -> DirRecord {
    DirRecord { parent: r.parent, name: r.name@ }
}

pub open spec fn entry_record(r: EntryRow) -> EntryRecord {
    EntryRecord { dir: r.dir, name: r.name@, size: r.size, mtime: r.mtime, flags: r.flags }
}

/// How a parent is stored.
pub open spec fn stored_parent(p: u32) -> i64 {
    if p == NO_DIR {
        -1i64
    } else {
        p as i64
    }
}

/// How a parent is read back.
pub open spec fn read_parent(p: i64) -> u32 {
    if p < 0 {
        NO_DIR
    } else {
        p as u32
    }
}

/// The record of a directory.
pub open spec fn record_of_dir(v: IndexView, d: int) -> DirRecord {
    DirRecord { parent: stored_parent(v.dirs[d].parent), name: v.dirs[d].name }
}

/// The record of a slot.
pub open spec fn record_of_slot(v: IndexView, i: int) -> EntryRecord {
    let s = v.slots[i];
    EntryRecord {
        dir: s.dir as i64,
        name: s.name,
        size: s.size as i64,
        mtime: s.mtime,
        flags: s.flags as i64,
    }
}

/// The ids of the live slots below `n`.
pub open spec fn live_ids(v: IndexView, n: int) -> Seq<u32>
    decreases n,
{
    if n <= 0 {
        Seq::empty()
    } else if v.is_live(n - 1) {
        live_ids(v, n - 1).push((n - 1) as u32)
    } else {
        live_ids(v, n - 1)
    }
}

/// The rows of all directories.
pub open spec fn are_dir_rows(v: IndexView, rows: Seq<DirRow>) -> bool {
    &&& rows.len() == v.dirs.len()
    &&& forall|d: int|
        0 <= d < rows.len() ==> (#[trigger] rows[d]).id == d && dir_record(rows[d]) == record_of_dir(v, d)
}

/// The rows of all live entries, in the order of their ids.
pub open spec fn are_entry_rows(v: IndexView, rows: Seq<EntryRow>) -> bool {
    let ids = live_ids(v, v.slots.len() as int);
    &&& rows.len() == ids.len()
    &&& forall|k: int|
        0 <= k < rows.len() ==> (#[trigger] rows[k]).id == ids[k] && entry_record(rows[k]) == record_of_slot(
            v,
            ids[k] as int,
        )
}

/// The rows of a full snapshot: every directory, and every entry that is not
/// tombstoned.
pub fn snapshot_rows(index: &Index) -> (r: (Vec<DirRow>, Vec<EntryRow>))
    requires
        index.wf(),
    ensures
        are_dir_rows(index@, r.0@),
        are_entry_rows(index@, r.1@),
{
    let ghost v = index@;
    let mut dirs: Vec<DirRow> = Vec::new();
    let n: usize = index.dir_count();
    let mut d: usize = 0;
    while d < n
        invariant
            index.wf(),
            v == index@,
            n == v.dirs.len(),
            d <= n,
            dirs@.len() == d,
            forall|k: int|
                0 <= k < d ==> (#[trigger] dirs@[k]).id == k && dir_record(dirs@[k]) == record_of_dir(v, k),
        decreases n - d,
    {
        let node: DirNode = index.dir_node(d as u32);
        let parent: i64 = if node.parent == NO_DIR {
            -1
        } else {
            node.parent as i64
        };
        dirs.push(DirRow { id: d as i64, parent, name: vstd::slice::slice_to_vec(index.dir_name(d as u32)) });
        d += 1;
    }
    let mut entries: Vec<EntryRow> = Vec::new();
    let m: usize = index.len();
    let mut i: usize = 0;
    while i < m
        invariant
            index.wf(),
            v == index@,
            m == v.slots.len(),
            i <= m,
            entries@.len() == live_ids(v, i as int).len(),
            forall|k: int|
                0 <= k < entries@.len() ==> (#[trigger] entries@[k]).id == live_ids(v, i as int)[k]
                    && entry_record(entries@[k]) == record_of_slot(v, live_ids(v, i as int)[k] as int),
        decreases m - i,
    {
        let ghost before = entries@;
        let e: Entry = index.entry(i as u32);
        if !e.is_dead() {
            let row: EntryRow = EntryRow {
                id: i as i64,
                dir: e.dir as i64,
                name: vstd::slice::slice_to_vec(index.name(i as u32)),
                size: e.size as i64,
                mtime: e.mtime,
                flags: e.flags as i64,
            };
            entries.push(row);
            assert(live_ids(v, i + 1) == live_ids(v, i as int).push(i as u32));
            assert forall|k: int| 0 <= k < entries@.len() implies (#[trigger] entries@[k]).id == live_ids(
                v,
                i + 1,
            )[k] && entry_record(entries@[k]) == record_of_slot(v, live_ids(v, i + 1)[k] as int) by {
                if k < before.len() {
                    assert(entries@[k] == before[k]);
                }
            }
        }
        i += 1;
    }
    (dirs, entries)
}

// ---- loading ------------------------------------------------------------------

/// The index after the first `k` rows of directories.
pub open spec fn loaded_dirs(rows: Seq<DirRow>, k: nat) -> IndexView
    decreases k,
{
    if k == 0 {
        IndexView::empty()
    } else {
        loaded_dirs(rows, (k - 1) as nat).add_dir(read_parent(rows[k - 1].parent), rows[k - 1].name@)
    }
}

/// As many holes appended as bring the index to `n` slots.
pub open spec fn with_holes(v: IndexView, n: int) -> IndexView
    decreases n - v.slots.len(),
{
    if v.slots.len() >= n {
        v
    } else {
        with_holes(v.push_hole(), n)
    }
}

/// The flags that a row gives an entry: the tombstone bit is never stored.
pub open spec fn read_flags(f: i64) -> u8 {
    (f as u8) & !flags::DEAD
}

/// The index after the first `k` rows of entries. Deletes leave gaps in the ids;
/// holes keep the ids aligned.
pub open spec fn loaded_entries(base: IndexView, rows: Seq<EntryRow>, k: nat) -> IndexView
    decreases k,
{
    if k == 0 {
        base
    } else {
        let r = rows[k - 1];
        with_holes(loaded_entries(base, rows, (k - 1) as nat), r.id as int).push_entry(
            r.dir as u32,
            r.name@,
            read_flags(r.flags),
            r.size as u64,
            r.mtime,
        )
    }
}

/// The directories are numbered from 0 on without gaps.
pub open spec fn dense(rows: Seq<DirRow>) -> bool {
    forall|k: int| 0 <= k < rows.len() ==> (#[trigger] rows[k]).id == k
}

/// The entries' ids ascend, from 0 or more on.
pub open spec fn ascending(rows: Seq<EntryRow>) -> bool {
    &&& forall|k: int| 0 <= k < rows.len() ==> 0 <= (#[trigger] rows[k]).id
    &&& forall|i: int, j: int| 0 <= i < j < rows.len() ==> (#[trigger] rows[i]).id < (#[trigger] rows[j]).id
}

/// The bytes that the names of directories are kept in.
pub open spec fn dir_row_bytes(rows: Seq<DirRow>) -> nat
    decreases rows.len(),
{
    if rows.len() == 0 {
        0
    } else {
        dir_row_bytes(rows.drop_last()) + arena::kept_name(rows.last().name@).len()
    }
}

/// The bytes that the names of entries are kept in.
pub open spec fn entry_row_bytes(rows: Seq<EntryRow>) -> nat
    decreases rows.len(),
{
    if rows.len() == 0 {
        0
    } else {
        entry_row_bytes(rows.drop_last()) + arena::kept_name(rows.last().name@).len()
    }
}

/// Rows that an index can be made of: each parent comes before its children, and
/// everything fits.
pub open spec fn loadable(dirs: Seq<DirRow>, entries: Seq<EntryRow>) -> bool {
    &&& dirs.len() <= u32::MAX
    &&& entries.len() <= u32::MAX
    &&& dir_row_bytes(dirs) <= u32::MAX
    &&& entry_row_bytes(entries) <= u32::MAX
    &&& forall|k: int|
        0 <= k < dirs.len() ==> read_parent((#[trigger] dirs[k]).parent) == NO_DIR || read_parent(dirs[k].parent)
            < k
    &&& forall|k: int|
        0 <= k < entries.len() ==> (#[trigger] entries[k]).id < u32::MAX
}

proof fn lemma_dir_row_bytes_prefix(rows: Seq<DirRow>, k: int)
    requires
        0 <= k <= rows.len(),
    ensures
        dir_row_bytes(rows.subrange(0, k)) <= dir_row_bytes(rows),
    decreases rows.len(),
{
    if k == rows.len() {
        assert(rows.subrange(0, k) =~= rows);
    } else {
        assert(rows.drop_last().subrange(0, k) =~= rows.subrange(0, k));
        lemma_dir_row_bytes_prefix(rows.drop_last(), k);
    }
}

proof fn lemma_entry_row_bytes_prefix(rows: Seq<EntryRow>, k: int)
    requires
        0 <= k <= rows.len(),
    ensures
        entry_row_bytes(rows.subrange(0, k)) <= entry_row_bytes(rows),
    decreases rows.len(),
{
    if k == rows.len() {
        assert(rows.subrange(0, k) =~= rows);
    } else {
        assert(rows.drop_last().subrange(0, k) =~= rows.subrange(0, k));
        lemma_entry_row_bytes_prefix(rows.drop_last(), k);
    }
}

/// Whether rows can be made into an index: each parent comes before its
/// children, and everything fits.
pub fn rows_fit(dirs: &Vec<DirRow>, entries: &Vec<EntryRow>) -> (r: bool)
    ensures
        r == loadable(dirs@, entries@),
{
    if dirs.len() > 0xFFFF_FFFF || entries.len() > 0xFFFF_FFFF {
        return false;
    }
    let n: usize = dirs.len();
    let mut bytes: u64 = 0;
    let mut k: usize = 0;
    assert(dirs@.subrange(0, 0).len() == 0);
    while k < n
        invariant
            n == dirs@.len(),
            k <= n,
            bytes <= u32::MAX,
            bytes == dir_row_bytes(dirs@.subrange(0, k as int)),
            forall|j: int|
                0 <= j < k ==> read_parent((#[trigger] dirs@[j]).parent) == NO_DIR || read_parent(dirs@[j].parent)
                    < j,
        decreases n - k,
    {
        proof {
            let next = dirs@.subrange(0, k + 1);
            assert(next.drop_last() =~= dirs@.subrange(0, k as int));
            assert(next.last() == dirs@[k as int]);
            lemma_dir_row_bytes_prefix(dirs@, k + 1);
        }
        let row: &DirRow = &dirs[k];
        let parent: u32 = if row.parent < 0 {
            NO_DIR
        } else {
            row.parent as u32
        };
        if parent != NO_DIR && parent as usize >= k {
            assert(read_parent(dirs@[k as int].parent) == parent);
            return false;
        }
        let kept: u64 = kept_len(row.name.as_slice());
        if bytes + kept > 0xFFFF_FFFF {
            return false;
        }
        bytes = bytes + kept;
        k += 1;
    }
    assert(dirs@.subrange(0, n as int) =~= dirs@);
    let m: usize = entries.len();
    let mut bytes: u64 = 0;
    let mut k: usize = 0;
    assert(entries@.subrange(0, 0).len() == 0);
    while k < m
        invariant
            n == dirs@.len(),
            m == entries@.len(),
            k <= m,
            bytes <= u32::MAX,
            bytes == entry_row_bytes(entries@.subrange(0, k as int)),
            forall|j: int|
                0 <= j < k ==> (#[trigger] entries@[j]).id < u32::MAX,
        decreases m - k,
    {
        proof {
            let next = entries@.subrange(0, k + 1);
            assert(next.drop_last() =~= entries@.subrange(0, k as int));
            assert(next.last() == entries@[k as int]);
            lemma_entry_row_bytes_prefix(entries@, k + 1);
        }
        let row: &EntryRow = &entries[k];
        if row.id >= 0xFFFF_FFFF {
            assert(entries@[k as int].id >= u32::MAX);
            return false;
        }
        let kept: u64 = kept_len(row.name.as_slice());
        if bytes + kept > 0xFFFF_FFFF {
            return false;
        }
        bytes = bytes + kept;
        k += 1;
    }
    assert(entries@.subrange(0, m as int) =~= entries@);
    true
}

proof fn lemma_loaded_dirs(rows: Seq<DirRow>, k: int)
    requires
        0 <= k <= rows.len() <= u32::MAX,
        forall|j: int|
            0 <= j < rows.len() ==> read_parent((#[trigger] rows[j]).parent) == NO_DIR || read_parent(
                rows[j].parent,
            ) < j,
    ensures
        ({
            let w = loaded_dirs(rows, k as nat);
            &&& w.wf()
            &&& w.dirs.len() == k
            &&& w.slots.len() == 0
            &&& w.free.len() == 0
            &&& w.name_bytes == 0
            &&& w.dir_name_bytes <= dir_row_bytes(rows.subrange(0, k))
        }),
    decreases k,
{
    if k > 0 {
        lemma_loaded_dirs(rows, k - 1);
        let b = loaded_dirs(rows, (k - 1) as nat);
        assert(rows[k - 1].parent == rows[k - 1].parent);
        keeps::law_add_dir_keeps_wf(b, read_parent(rows[k - 1].parent), rows[k - 1].name@);
        assert(rows.subrange(0, k).drop_last() =~= rows.subrange(0, k - 1));
    } else {
        assert(rows.subrange(0, 0).len() == 0);
        assert(IndexView::empty().wf());
    }
}

/// Whether the directories are numbered from 0 on without gaps.
fn are_dense(dirs: &Vec<DirRow>) -> (r: bool)
    ensures
        r == dense(dirs@),
{
    let n: usize = dirs.len();
    let mut k: usize = 0;
    while k < n
        invariant
            n == dirs@.len(),
            k <= n,
            forall|j: int| 0 <= j < k ==> (#[trigger] dirs@[j]).id == j,
        decreases n - k,
    {
        let id: i64 = dirs[k].id;
        if id < 0 || id as u64 != k as u64 {
            assert(dirs@[k as int].id != k);
            return false;
        }
        k += 1;
    }
    true
}

/// Whether the ids of the entries ascend, from 0 or more on.
fn do_ascend(entries: &Vec<EntryRow>) -> (r: bool)
    ensures
        r == ascending(entries@),
{
    let n: usize = entries.len();
    let mut k: usize = 0;
    while k < n
        invariant
            n == entries@.len(),
            k <= n,
            forall|j: int| 0 <= j < k ==> 0 <= (#[trigger] entries@[j]).id,
            forall|i: int, j: int| 0 <= i < j < k ==> (#[trigger] entries@[i]).id < (#[trigger] entries@[j]).id,
        decreases n - k,
    {
        if entries[k].id < 0 {
            assert(entries@[k as int].id < 0);
            return false;
        }
        if k > 0 && entries[k - 1].id >= entries[k].id {
            assert(entries@[k - 1].id >= entries@[k as int].id);
            return false;
        }
        proof {
            assert forall|i: int, j: int| 0 <= i < j < k + 1 implies (#[trigger] entries@[i]).id < (
            #[trigger] entries@[j]).id by {
                if j == k && i < k - 1 {
                    assert(entries@[i].id < entries@[k - 1].id);
                }
            }
        }
        k += 1;
    }
    true
}

/// Makes an index of the rows of the two tables, read in the order of their ids.
/// Returns it with the number of entries. Otherwise says which table is not numbered
/// as it should be, or that no index can be made of the rows.
pub fn load_rows(dirs: &Vec<DirRow>, entries: &Vec<EntryRow>) -> (r: Result<(Index, usize), String>)
    ensures
        match r {
            Ok((index, n)) => {
                &&& dense(dirs@) && ascending(entries@) && loadable(dirs@, entries@)
                &&& n == entries@.len()
                &&& index.wf()
                &&& index@ == loaded_entries(loaded_dirs(dirs@, dirs@.len()), entries@, entries@.len())
            },
            Err(e) => if !dense(dirs@) {
                e@ == "dirs table is not densely numbered"@
            } else if !ascending(entries@) {
                e@ == "entries table is not densely numbered"@
            } else {
                !loadable(dirs@, entries@) && e@ == "the tables do not fit"@
            },
        },
{
    if !are_dense(dirs) {
        return Err("dirs table is not densely numbered".to_owned());
    }
    if !do_ascend(entries) {
        return Err("entries table is not densely numbered".to_owned());
    }
    if !rows_fit(dirs, entries) {
        return Err("the tables do not fit".to_owned());
    }
    let mut index: Index = Index::new();
    let n: usize = dirs.len();
    let mut k: usize = 0;
    assert(IndexView::empty() == loaded_dirs(dirs@, 0));
    while k < n
        invariant
            loadable(dirs@, entries@),
            n == dirs@.len(),
            k <= n,
            index.wf(),
            index@ == loaded_dirs(dirs@, k as nat),
        decreases n - k,
    {
        proof {
            lemma_loaded_dirs(dirs@, k as int);
            lemma_dir_row_bytes_prefix(dirs@, k as int);
        }
        let row: &DirRow = &dirs[k];
        let parent: u32 = if row.parent < 0 {
            NO_DIR
        } else {
            row.parent as u32
        };
        assert(parent == read_parent(dirs@[k as int].parent));
        let _ = index.add_dir(parent, row.name.as_slice());
        k += 1;
    }
    let ghost base = index@;
    let m: usize = entries.len();
    let mut k: usize = 0;
    proof {
        lemma_loaded_dirs(dirs@, n as int);
    }
    assert(entries@.subrange(0, 0).len() == 0);
    while k < m
        invariant
            loadable(dirs@, entries@),
            ascending(entries@),
            m == entries@.len(),
            k <= m,
            base == loaded_dirs(dirs@, dirs@.len()),
            base.dirs.len() == dirs@.len(),
            index.wf(),
            index@ == loaded_entries(base, entries@, k as nat),
            index@.dirs == base.dirs,
            index@.free.len() == 0,
            index@.name_bytes <= entry_row_bytes(entries@.subrange(0, k as int)),
            index@.slots.len() == (if k == 0 {
                0
            } else {
                entries@[k - 1].id + 1
            }),
        decreases m - k,
    {
        let row: &EntryRow = &entries[k];
        let ghost before = index@;
        proof {
            assert(0 <= entries@[k as int].id < u32::MAX);
            if k > 0 {
                assert(entries@[k - 1].id < entries@[k as int].id);
            }
            lemma_entry_row_bytes_prefix(entries@, k as int);
            let next = entries@.subrange(0, k + 1);
            assert(next.drop_last() =~= entries@.subrange(0, k as int));
            assert(next.last() == entries@[k as int]);
        }
        // Deletes leave gaps; keep ids aligned with tombstones.
        while (index.len() as i64) < row.id
            invariant
                index.wf(),
                row.id < u32::MAX,
                index@.dirs == base.dirs,
                index@.free.len() == 0,
                index@.name_bytes == before.name_bytes,
                before.slots.len() <= index@.slots.len(),
                index@.slots.len() <= (if before.slots.len() > row.id {
                    before.slots.len() as int
                } else {
                    row.id as int
                }),
                with_holes(index@, row.id as int) == with_holes(before, row.id as int),
            decreases row.id - index@.slots.len(),
        {
            let _ = index.push_hole();
        }
        proof {
            lemma_read_flags(row.flags);
        }
        let _ = index.push_entry(
            row.dir as u32,
            row.name.as_slice(),
            (row.flags as u8) & !flags::DEAD,
            row.size as u64,
            row.mtime,
        );
        k += 1;
    }
    Ok((index, m))
}

/// A row never sets the tombstone bit.
pub(crate) proof fn lemma_read_flags(f: i64)
    ensures
        !model::has_dead_bit(read_flags(f)),
{
    let b = f as u8;
    assert((b & !4u8) & 4u8 == 0) by (bit_vector);
}

// ---- writing --------------------------------------------------------------------

/// One write to the tables.
#[derive(Debug, Clone)]
pub enum Write {
    /// Inserts or replaces an entry.
    PutEntry(EntryRow),
    /// Deletes an entry.
    DropEntry(i64),
    /// Inserts or replaces a directory.
    PutDir(DirRow),
}

/// What a batch of pending writes asks of the tables.
#[derive(Debug)]
pub enum Writes {
    /// Replace everything by these rows.
    All(Vec<DirRow>, Vec<EntryRow>),
    /// Make these writes, one after the other.
    Each(Vec<Write>),
}

/// The write that a pending operation asks for.
pub open spec fn asks_for(op: OpView, w: Write) -> bool {
    match (op, w) {
        (OpView::Upsert { id, dir, name, size, mtime, flags }, Write::PutEntry(r)) => {
            &&& r.id == id
            &&& entry_record(r) == EntryRecord {
                dir: dir as i64,
                name,
                size: size as i64,
                mtime,
                flags: flags as i64,
            }
        },
        (OpView::Delete { id }, Write::DropEntry(i)) => i == id,
        (OpView::AddDir { id, parent, name }, Write::PutDir(r)) => {
            &&& r.id == id
            &&& dir_record(r) == DirRecord { parent: stored_parent(parent), name }
        },
        _ => false,
    }
}

/// A full rewrite is asked for.
pub open spec fn wants_resave(ops: Seq<OpView>) -> bool {
    exists|i: int| 0 <= i < ops.len() && #[trigger] ops[i] is FullResave
}

/// What a batch of pending operations asks of the tables: everything anew where
/// one of them says so, else one write for each.
pub fn plan_writes(index: &Index, ops: &Vec<DbOp>) -> (r: Writes)
    requires
        index.wf(),
    ensures
        match r {
            Writes::All(dirs, entries) => {
                &&& wants_resave(op_views(ops@))
                &&& are_dir_rows(index@, dirs@)
                &&& are_entry_rows(index@, entries@)
            },
            Writes::Each(writes) => {
                &&& !wants_resave(op_views(ops@))
                &&& writes@.len() == ops@.len()
                &&& forall|i: int| 0 <= i < ops@.len() ==> asks_for(ops@[i]@, #[trigger] writes@[i])
            },
        },
{
    let n: usize = ops.len();
    let mut writes: Vec<Write> = Vec::new();
    let mut i: usize = 0;
    while i < n
        invariant
            index.wf(),
            n == ops@.len(),
            i <= n,
            writes@.len() == i,
            forall|j: int| 0 <= j < i ==> asks_for(ops@[j]@, #[trigger] writes@[j]),
            forall|j: int| 0 <= j < i ==> !(#[trigger] op_views(ops@)[j] is FullResave),
        decreases n - i,
    {
        assert(op_views(ops@)[i as int] == ops@[i as int]@);
        let w: Write = match &ops[i] {
            DbOp::Upsert { id, dir, name, size, mtime, flags } => Write::PutEntry(
                EntryRow {
                    id: *id as i64,
                    dir: *dir as i64,
                    name: vstd::slice::slice_to_vec(name.as_slice()),
                    size: *size as i64,
                    mtime: *mtime,
                    flags: *flags as i64,
                },
            ),
            DbOp::Delete { id } => Write::DropEntry(*id as i64),
            DbOp::AddDir { id, parent, name } => Write::PutDir(
                DirRow {
                    id: *id as i64,
                    parent: if *parent == NO_DIR {
                        -1
                    } else {
                        *parent as i64
                    },
                    name: vstd::slice::slice_to_vec(name.as_slice()),
                },
            ),
            DbOp::FullResave => {
                let (dirs, entries) = snapshot_rows(index);
                return Writes::All(dirs, entries);
            },
        };
        writes.push(w);
        i += 1;
    }
    Writes::Each(writes)
}

} // verus!
