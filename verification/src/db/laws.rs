//! What survives the tables.

use vstd::prelude::*;

use crate::arena;
use crate::db;
use crate::db::{DirRow, EntryRow, OpView};
use crate::index::NO_DIR;
use crate::model;
use crate::tree;
use crate::tree::calls;
use crate::tree::keeps;
use crate::tree::paths;
use crate::tree::IndexView;

verus! {

/// The live ids: ascending, live, and all of them.
pub(crate) proof fn lemma_live_ids(v: IndexView, n: int)
    requires
        0 <= n <= v.slots.len() <= u32::MAX,
    ensures
        ({
            let ids = db::live_ids(v, n);
            &&& forall|k: int| 0 <= k < ids.len() ==> (#[trigger] ids[k]) < n && v.is_live(ids[k] as int)
            &&& forall|i: int, j: int| 0 <= i < j < ids.len() ==> ids[i] < ids[j]
            &&& forall|i: int|
                0 <= i < n && #[trigger] v.is_live(i) ==> exists|k: int| 0 <= k < ids.len() && ids[k] == i
        }),
    decreases n,
{
    if n > 0 {
        lemma_live_ids(v, n - 1);
        let before = db::live_ids(v, n - 1);
        let ids = db::live_ids(v, n);
        assert forall|k: int| 0 <= k < ids.len() implies (#[trigger] ids[k]) < n && v.is_live(ids[k] as int) by {
            if k < before.len() {
                assert(ids[k] == before[k]);
            }
        }
        assert forall|i: int, j: int| 0 <= i < j < ids.len() implies ids[i] < ids[j] by {
            assert(ids[i] == before[i]);
            if j < before.len() {
                assert(ids[j] == before[j]);
            }
        }
        assert forall|i: int| 0 <= i < n && #[trigger] v.is_live(i) implies exists|k: int|
            0 <= k < ids.len() && ids[k] == i by {
            if i < n - 1 {
                let k = choose|k: int| 0 <= k < before.len() && before[k] == i;
                assert(ids[k] == i);
            } else {
                assert(ids[ids.len() - 1] == i);
            }
        }
    }
}

proof fn lemma_loaded_dir_rows(v: IndexView, rows: Seq<DirRow>, k: int)
    requires
        v.wf(),
        db::are_dir_rows(v, rows),
        0 <= k <= rows.len(),
    ensures
        ({
            let w = db::loaded_dirs(rows, k as nat);
            &&& w.wf()
            &&& w.dirs.len() == k
            &&& w.slots.len() == 0
            &&& w.free.len() == 0
            &&& w.name_bytes == 0
            &&& forall|d: int|
                0 <= d < k ==> (#[trigger] w.dirs[d]).name == v.dirs[d].name && w.dirs[d].parent
                    == v.dirs[d].parent
        }),
    decreases k,
{
    let w = db::loaded_dirs(rows, k as nat);
    if k > 0 {
        lemma_loaded_dir_rows(v, rows, k - 1);
        let b = db::loaded_dirs(rows, (k - 1) as nat);
        assert(v.dir_wf(k - 1));
        assert(rows[k - 1].id == k - 1 && db::dir_record(rows[k - 1]) == db::record_of_dir(v, k - 1));
        lemma_parent_round_trip(v.dirs[k - 1].parent);
        keeps::law_add_dir_keeps_wf(b, v.dirs[k - 1].parent, rows[k - 1].name@);
        assert forall|d: int| 0 <= d < k implies (#[trigger] w.dirs[d]).name == v.dirs[d].name && w.dirs[d].parent
            == v.dirs[d].parent by {
            if d < k - 1 {
                assert(b.dirs[d].name == w.dirs[d].name);
            }
        }
    } else {
        assert(IndexView::empty().wf());
    }
}

/// A parent is read back as it was stored.
pub proof fn lemma_parent_round_trip(p: u32)
    ensures
        db::read_parent(db::stored_parent(p)) == p,
{
}

/// A size is read back as it was stored.
pub proof fn lemma_size_round_trip(size: u64)
    ensures
        (size as i64) as u64 == size,
{
    assert((size as i64) as u64 == size) by (bit_vector);
}

/// Flags without the tombstone bit are read back as they were stored.
pub proof fn lemma_flags_round_trip(f: u8)
    requires
        !model::has_dead_bit(f),
    ensures
        db::read_flags(f as i64) == f,
{
    assert(f & 4u8 == 0 ==> f & !4u8 == f) by (bit_vector);
}

/// Holes are tombstones behind the slots that there are.
proof fn lemma_with_holes(v: IndexView, n: int)
    requires
        v.wf(),
        n <= u32::MAX,
    ensures
        ({
            let w = db::with_holes(v, n);
            &&& w.wf()
            &&& w.dirs == v.dirs
            &&& w.roots == v.roots
            &&& w.free == v.free
            &&& w.name_bytes == v.name_bytes
            &&& w.dir_name_bytes == v.dir_name_bytes
            &&& w.slots.len() == (if v.slots.len() >= n {
                v.slots.len() as int
            } else {
                n
            })
            &&& forall|i: int| 0 <= i < v.slots.len() ==> #[trigger] w.slots[i] == v.slots[i]
            &&& forall|i: int| v.slots.len() <= i < w.slots.len() ==> #[trigger] w.is_dead(i)
        }),
    decreases n - v.slots.len(),
{
    if v.slots.len() < n {
        let u = v.push_hole();
        keeps::law_push_hole_keeps_wf(v);
        lemma_with_holes(u, n);
        let w = db::with_holes(v, n);
        assert(model::has_dead_bit(model::flags::DEAD)) by {
            assert(4u8 & 4u8 != 0) by (bit_vector);
        }
        assert forall|i: int| 0 <= i < v.slots.len() implies #[trigger] w.slots[i] == v.slots[i] by {
            assert(w.slots[i] == u.slots[i]);
        }
        assert forall|i: int| v.slots.len() <= i < w.slots.len() implies #[trigger] w.is_dead(i) by {
            if i == v.slots.len() {
                assert(w.slots[i] == u.slots[i]);
            }
        }
    }
}

/// `w` holds, in its slots, what `v` holds live there.
pub open spec fn same_entries(v: IndexView, w: IndexView) -> bool {
    forall|i: int|
        0 <= i < w.slots.len() ==> {
            &&& #[trigger] w.is_live(i) == v.is_live(i)
            &&& w.is_live(i) ==> {
                let (a, b) = (v.slots[i], w.slots[i]);
                &&& b.dir == a.dir
                &&& b.name == a.name
                &&& b.flags == a.flags
                &&& b.size == a.size
                &&& b.mtime == a.mtime
            }
        }
}

proof fn lemma_loaded_entry_rows(v: IndexView, dirs: Seq<DirRow>, rows: Seq<EntryRow>, k: int)
    requires
        v.wf(),
        db::are_dir_rows(v, dirs),
        db::are_entry_rows(v, rows),
        0 <= k <= rows.len(),
    ensures
        ({
            let base = db::loaded_dirs(dirs, dirs.len());
            let w = db::loaded_entries(base, rows, k as nat);
            let ids = db::live_ids(v, v.slots.len() as int);
            &&& w.wf()
            &&& w.dirs == base.dirs
            &&& w.free.len() == 0
            &&& w.slots.len() == (if k == 0 {
                0
            } else {
                ids[k - 1] + 1
            })
            &&& same_entries(v, w)
        }),
    decreases k,
{
    let base = db::loaded_dirs(dirs, dirs.len());
    let w = db::loaded_entries(base, rows, k as nat);
    let ids = db::live_ids(v, v.slots.len() as int);
    lemma_live_ids(v, v.slots.len() as int);
    lemma_loaded_dir_rows(v, dirs, dirs.len() as int);
    if k > 0 {
        lemma_loaded_entry_rows(v, dirs, rows, k - 1);
        let b = db::loaded_entries(base, rows, (k - 1) as nat);
        let r = rows[k - 1];
        let id = ids[k - 1] as int;
        assert(r.id == id && db::entry_record(r) == db::record_of_slot(v, id));
        let s = v.slots[id];
        assert(v.slot_wf(id));
        lemma_size_round_trip(s.size);
        lemma_flags_round_trip(s.flags);
        db::lemma_read_flags(r.flags);
        if k > 1 {
            assert(ids[k - 2] < ids[k - 1]);
        }
        let h = db::with_holes(b, id);
        lemma_with_holes(b, id);
        keeps::law_push_entry_keeps_wf(h, s.dir, s.name, s.flags, s.size, s.mtime);
        assert(w == h.push_entry(s.dir, s.name, s.flags, s.size, s.mtime));
        assert forall|i: int| 0 <= i < w.slots.len() implies {
            &&& #[trigger] w.is_live(i) == v.is_live(i)
            &&& w.is_live(i) ==> {
                let (x, y) = (v.slots[i], w.slots[i]);
                &&& y.dir == x.dir
                &&& y.name == x.name
                &&& y.flags == x.flags
                &&& y.size == x.size
                &&& y.mtime == x.mtime
            }
        } by {
            if i < b.slots.len() {
                assert(w.slots[i] == h.slots[i]);
                assert(h.slots[i] == b.slots[i]);
                assert(b.is_live(i) == v.is_live(i));
            } else if i < id {
                assert(h.is_dead(i));
                if v.is_live(i) {
                    let j = choose|j: int| 0 <= j < ids.len() && ids[j] == i;
                    if j > k - 1 {
                        assert(ids[k - 1] < ids[j]);
                    } else if j < k - 2 {
                        assert(ids[j] < ids[k - 2]);
                    }
                }
            }
        }
    }
}

/// Reading back the snapshot of an index gives an index with the same directories
/// and, under the same ids, the same live entries, at the same paths.
pub proof fn law_snapshot_restores_the_index(v: IndexView, dirs: Seq<DirRow>, entries: Seq<EntryRow>)
    requires
        v.wf(),
        db::are_dir_rows(v, dirs),
        db::are_entry_rows(v, entries),
    ensures
        db::dense(dirs),
        db::ascending(entries),
        ({
            let w = db::loaded_entries(db::loaded_dirs(dirs, dirs.len()), entries, entries.len());
            &&& w.wf()
            &&& w.dirs.len() == v.dirs.len()
            &&& forall|d: int|
                0 <= d < v.dirs.len() ==> (#[trigger] w.dirs[d]).name == v.dirs[d].name && w.dirs[d].parent
                    == v.dirs[d].parent
            &&& same_entries(v, w)
            &&& forall|i: int|
                #[trigger] v.is_live(i) ==> i < w.slots.len() && w.entry_path(i) == v.entry_path(i)
        }),
{
    let base = db::loaded_dirs(dirs, dirs.len());
    let w = db::loaded_entries(base, entries, entries.len());
    let ids = db::live_ids(v, v.slots.len() as int);
    lemma_live_ids(v, v.slots.len() as int);
    lemma_loaded_dir_rows(v, dirs, dirs.len() as int);
    lemma_loaded_entry_rows(v, dirs, entries, entries.len() as int);
    assert forall|i: int, j: int| 0 <= i < j < entries.len() implies (#[trigger] entries[i]).id < (
    #[trigger] entries[j]).id by {
        assert(ids[i] < ids[j]);
    }
    assert forall|i: int| #[trigger] v.is_live(i) implies i < w.slots.len() && w.entry_path(i) == v.entry_path(i) by {
        let j = choose|j: int| 0 <= j < ids.len() && ids[j] == i;
        if j < ids.len() - 1 {
            assert(ids[j] < ids[ids.len() - 1]);
        }
        assert(w.is_live(i) == v.is_live(i));
        assert(v.slot_wf(i));
        lemma_same_path(v, w, v.slots[i].dir);
    }
}

proof fn lemma_dir_bytes_of_rows(dirs: Seq<tree::DirView>, rows: Seq<DirRow>)
    requires
        rows.len() == dirs.len(),
        forall|d: int| 0 <= d < rows.len() ==> (#[trigger] rows[d]).name@ == dirs[d].name,
    ensures
        db::dir_row_bytes(rows) <= tree::dir_bytes(dirs),
    decreases rows.len(),
{
    if rows.len() > 0 {
        assert(rows[rows.len() - 1].name@ == dirs[rows.len() - 1].name);
        lemma_dir_bytes_of_rows(dirs.drop_last(), rows.drop_last());
    }
}

proof fn lemma_entry_bytes_of_rows(v: IndexView, rows: Seq<EntryRow>, n: int)
    requires
        0 <= n <= v.slots.len() <= u32::MAX,
        rows.len() == db::live_ids(v, n).len(),
        forall|k: int|
            0 <= k < rows.len() ==> (#[trigger] rows[k]).name@ == v.slots[db::live_ids(v, n)[k] as int].name,
    ensures
        db::entry_row_bytes(rows) <= tree::slot_bytes(v.slots.take(n)),
    decreases n,
{
    if n > 0 {
        let some = v.slots.take(n);
        assert(some.drop_last() =~= v.slots.take(n - 1));
        assert(some.last() == v.slots[n - 1]);
        let before = db::live_ids(v, n - 1);
        if v.is_live(n - 1) {
            let ids = db::live_ids(v, n);
            assert(ids == before.push((n - 1) as u32));
            let front = rows.drop_last();
            assert forall|k: int| 0 <= k < front.len() implies (#[trigger] front[k]).name@
                == v.slots[before[k] as int].name by {
                assert(rows[k].name@ == v.slots[ids[k] as int].name);
                assert(ids[k] == before[k]);
            }
            assert(rows[rows.len() - 1].name@ == v.slots[ids[rows.len() - 1] as int].name);
            lemma_entry_bytes_of_rows(v, front, n - 1);
        } else {
            lemma_entry_bytes_of_rows(v, rows, n - 1);
        }
    }
}

/// The snapshot of an index whose ids and offsets are within their limits can be
/// read back.
pub proof fn law_snapshot_can_be_loaded(v: IndexView, dirs: Seq<DirRow>, entries: Seq<EntryRow>)
    requires
        v.wf(),
        v.name_bytes <= u32::MAX,
        v.dir_name_bytes <= u32::MAX,
        db::are_dir_rows(v, dirs),
        db::are_entry_rows(v, entries),
    ensures
        db::loadable(dirs, entries),
{
    let n = v.slots.len() as int;
    let ids = db::live_ids(v, n);
    lemma_live_ids(v, n);
    assert forall|d: int| 0 <= d < dirs.len() implies (#[trigger] dirs[d]).name@ == v.dirs[d].name by {
        assert(db::dir_record(dirs[d]) == db::record_of_dir(v, d));
    }
    lemma_dir_bytes_of_rows(v.dirs, dirs);
    assert forall|k: int| 0 <= k < entries.len() implies (#[trigger] entries[k]).name@ == v.slots[ids[k] as int].name by {
        assert(db::entry_record(entries[k]) == db::record_of_slot(v, ids[k] as int));
    }
    lemma_entry_bytes_of_rows(v, entries, n);
    assert(v.slots.take(n) =~= v.slots);
    lemma_live_ids_count(v, n);
    assert forall|k: int| 0 <= k < dirs.len() implies db::read_parent((#[trigger] dirs[k]).parent) == NO_DIR
        || db::read_parent(dirs[k].parent) < k by {
        assert(db::dir_record(dirs[k]) == db::record_of_dir(v, k));
        assert(v.dir_wf(k));
    }
    assert forall|k: int| 0 <= k < entries.len() implies (#[trigger] entries[k]).id < u32::MAX by {
        assert(ids[k] < n);
    }
}

proof fn lemma_live_ids_count(v: IndexView, n: int)
    requires
        0 <= n <= v.slots.len(),
    ensures
        db::live_ids(v, n).len() == n - tree::dead_count(v.slots.take(n)),
    decreases n,
{
    if n > 0 {
        lemma_live_ids_count(v, n - 1);
        assert(v.slots.take(n).drop_last() =~= v.slots.take(n - 1));
        assert(v.slots.take(n).last() == v.slots[n - 1]);
    }
}

proof fn lemma_live_ids_alike(v: IndexView, w: IndexView, n: int)
    requires
        forall|i: int| 0 <= i < n ==> #[trigger] w.is_live(i) == v.is_live(i),
    ensures
        db::live_ids(w, n) == db::live_ids(v, n),
    decreases n,
{
    if n > 0 {
        lemma_live_ids_alike(v, w, n - 1);
        assert(w.is_live(n - 1) == v.is_live(n - 1));
    }
}

proof fn lemma_live_ids_end(v: IndexView, m: int, n: int)
    requires
        0 <= m <= n,
        forall|i: int| m <= i < n ==> !#[trigger] v.is_live(i),
    ensures
        db::live_ids(v, n) == db::live_ids(v, m),
    decreases n,
{
    if n > m {
        lemma_live_ids_end(v, m, n - 1);
        assert(!v.is_live(n - 1));
    }
}

/// A snapshot has as many rows as there are directories and live entries, and the
/// index that is read back has as many live entries. Where there were no
/// tombstones it has as many slots too, and the same entry in each.
pub proof fn law_snapshot_counts(v: IndexView, dirs: Seq<DirRow>, entries: Seq<EntryRow>)
    requires
        v.wf(),
        db::are_dir_rows(v, dirs),
        db::are_entry_rows(v, entries),
    ensures
        dirs.len() == v.dirs.len(),
        entries.len() == calls::live_count(v),
        ({
            let w = db::loaded_entries(db::loaded_dirs(dirs, dirs.len()), entries, entries.len());
            &&& w.dirs.len() == v.dirs.len()
            &&& w.slots.len() <= v.slots.len()
            &&& calls::live_count(w) == calls::live_count(v)
            &&& tree::dead_count(v.slots) == 0 ==> {
                &&& w.slots.len() == v.slots.len()
                &&& tree::dead_count(w.slots) == 0
                &&& forall|i: int|
                    0 <= i < v.slots.len() ==> (#[trigger] w.slots[i]).name == v.slots[i].name && w.slots[i].dir
                        == v.slots[i].dir && w.slots[i].flags == v.slots[i].flags && w.slots[i].size
                        == v.slots[i].size && w.slots[i].mtime == v.slots[i].mtime && w.entry_path(i)
                        == v.entry_path(i)
            }
        }),
{
    let w = db::loaded_entries(db::loaded_dirs(dirs, dirs.len()), entries, entries.len());
    let (m, n) = (w.slots.len() as int, v.slots.len() as int);
    let ids = db::live_ids(v, n);
    law_snapshot_restores_the_index(v, dirs, entries);
    lemma_loaded_entry_rows(v, dirs, entries, entries.len() as int);
    lemma_live_ids(v, n);
    lemma_live_ids_count(v, n);
    assert(v.slots.take(n) =~= v.slots);
    assert(m <= n);
    assert forall|i: int| m <= i < n implies !#[trigger] v.is_live(i) by {
        if v.is_live(i) {
            let k = choose|k: int| 0 <= k < ids.len() && ids[k] == i;
            if k < ids.len() - 1 {
                assert(ids[k] < ids[ids.len() - 1]);
            }
        }
    }
    lemma_live_ids_end(v, m, n);
    lemma_live_ids_alike(v, w, m);
    lemma_live_ids_count(w, m);
    assert(w.slots.take(m) =~= w.slots);
    if tree::dead_count(v.slots) == 0 {
        assert(ids.len() == n);
        lemma_live_ids_count(v, m);
        assert(m == n);
        assert(tree::dead_count(w.slots) == 0);
        assert forall|i: int| 0 <= i < n implies (#[trigger] w.slots[i]).name == v.slots[i].name && w.slots[i].dir
            == v.slots[i].dir && w.slots[i].flags == v.slots[i].flags && w.slots[i].size == v.slots[i].size
            && w.slots[i].mtime == v.slots[i].mtime && w.entry_path(i) == v.entry_path(i) by {
            keeps::lemma_dead_count_bounds(v.slots);
            assert(!model::has_dead_bit(v.slots[i].flags));
            assert(v.is_live(i));
            assert(w.is_live(i));
        }
    }
}

/// Directories with the same names and parents have the same paths.
proof fn lemma_same_path(v: IndexView, w: IndexView, d: u32)
    requires
        v.dirs_wf(),
        w.dirs.len() == v.dirs.len(),
        forall|x: int|
            0 <= x < v.dirs.len() ==> (#[trigger] w.dirs[x]).name == v.dirs[x].name && w.dirs[x].parent
                == v.dirs[x].parent,
    ensures
        w.dir_path(d) == v.dir_path(d),
    decreases d,
{
    if d < v.dirs.len() {
        assert(v.dir_wf(d as int));
        assert(w.dirs[d as int].name == v.dirs[d as int].name);
        let p = v.dirs[d as int].parent;
        if p < d {
            lemma_same_path(v, w, p);
        }
    }
}

// ---- incremental writes -----------------------------------------------------------

/// The contents of the two tables.
#[verifier::ext_equal]
pub struct Tables {
    pub dirs: Map<int, db::DirRecord>,
    pub entries: Map<int, db::EntryRecord>,
}

/// The tables that hold the snapshot of an index.
pub open spec fn tables_of(v: IndexView) -> Tables {
    Tables {
        dirs: Map::new(|d: int| 0 <= d < v.dirs.len(), |d: int| db::record_of_dir(v, d)),
        entries: Map::new(|i: int| v.is_live(i), |i: int| db::record_of_slot(v, i)),
    }
}

impl Tables {
    /// The tables after a pending operation was written.
    pub open spec fn written(self, op: OpView) -> Tables {
        match op {
            OpView::Upsert { id, dir, name, size, mtime, flags } => Tables {
                entries: self.entries.insert(
                    id as int,
                    db::EntryRecord {
                        dir: dir as i64,
                        name,
                        size: size as i64,
                        mtime,
                        flags: flags as i64,
                    },
                ),
                ..self
            },
            OpView::Delete { id } => Tables { entries: self.entries.remove(id as int), ..self },
            OpView::AddDir { id, parent, name } => Tables {
                dirs: self.dirs.insert(
                    id as int,
                    db::DirRecord { parent: db::stored_parent(parent), name },
                ),
                ..self
            },
            OpView::FullResave => self,
        }
    }

    /// The tables after some pending operations were written.
    pub open spec fn written_all(self, ops: Seq<OpView>) -> Tables
        decreases ops.len(),
    {
        if ops.len() == 0 {
            self
        } else {
            self.written_all(ops.drop_last()).written(ops.last())
        }
    }
}

pub proof fn lemma_written_concat(t: Tables, a: Seq<OpView>, b: Seq<OpView>)
    ensures
        t.written_all(a + b) == t.written_all(a).written_all(b),
    decreases b.len(),
{
    if b.len() == 0 {
        assert(a + b =~= a);
    } else {
        assert((a + b).drop_last() =~= a + b.drop_last());
        lemma_written_concat(t, a, b.drop_last());
    }
}

/// Writing an added directory keeps the tables a snapshot of the index.
pub proof fn law_added_dir_is_written(v: IndexView, parent: u32, name: Seq<u8>)
    requires
        v.wf(),
        v.dirs.len() < u32::MAX,
        paths::is_place(v, parent),
    ensures
        tables_of(v).written(
            OpView::AddDir { id: v.dirs.len() as u32, parent, name: arena::kept_name(name) },
        ) == tables_of(v.add_dir(parent, name)),
{
    let w = v.add_dir(parent, name);
    let t = tables_of(v).written(
        OpView::AddDir { id: v.dirs.len() as u32, parent, name: arena::kept_name(name) },
    );
    assert forall|i: int| #[trigger] w.is_live(i) == v.is_live(i) by {}
    assert(t.entries =~= tables_of(w).entries);
    assert(t.dirs =~= tables_of(w).dirs);
}

/// Writing an inserted entry keeps the tables a snapshot of the index.
pub proof fn law_inserted_entry_is_written(
    v: IndexView,
    dir: u32,
    name: Seq<u8>,
    flags: u8,
    size: u64,
    mtime: i64,
)
    requires
        v.wf(),
        !model::has_dead_bit(flags),
        v.free.len() > 0 || v.slots.len() < u32::MAX,
    ensures
        tables_of(v).written(
            OpView::Upsert { id: v.next_slot(), dir, name: arena::kept_name(name), size, mtime, flags },
        ) == tables_of(v.push_entry(dir, name, flags, size, mtime)),
{
    let w = v.push_entry(dir, name, flags, size, mtime);
    let at = v.next_slot() as int;
    if v.free.len() > 0 {
        assert(v.free[v.free.len() - 1] < v.slots.len());
    }
    let t = tables_of(v).written(
        OpView::Upsert { id: v.next_slot(), dir, name: arena::kept_name(name), size, mtime, flags },
    );
    assert forall|i: int| #[trigger] w.is_live(i) == (i == at || v.is_live(i)) by {
        if 0 <= i < v.slots.len() && i != at {
            assert(w.slots[i] == v.slots[i]);
        }
    }
    assert(t.entries =~= tables_of(w).entries) by {
        assert forall|i: int| #[trigger] tables_of(w).entries.contains_key(i) implies t.entries[i]
            == tables_of(w).entries[i] by {
            if i != at {
                assert(w.slots[i] == v.slots[i]);
            }
        }
    }
    assert(t.dirs =~= tables_of(w).dirs);
}

/// Writing a changed entry keeps the tables a snapshot of the index.
pub proof fn law_updated_entry_is_written(v: IndexView, id: u32, size: u64, mtime: i64)
    requires
        v.wf(),
        v.is_live(id as int),
    ensures
        ({
            let s = v.slots[id as int];
            tables_of(v).written(
                OpView::Upsert { id, dir: s.dir, name: s.name, size, mtime, flags: s.flags },
            ) == tables_of(v.update_entry(id, size, mtime))
        }),
{
    let w = v.update_entry(id, size, mtime);
    let s = v.slots[id as int];
    let t = tables_of(v).written(OpView::Upsert { id, dir: s.dir, name: s.name, size, mtime, flags: s.flags });
    assert forall|i: int| #[trigger] w.is_live(i) == v.is_live(i) by {}
    assert(t.entries =~= tables_of(w).entries);
    assert(t.dirs =~= tables_of(w).dirs);
}

/// Writing a removed entry keeps the tables a snapshot of the index.
pub proof fn law_removed_entry_is_written(v: IndexView, id: u32)
    requires
        v.wf(),
        id < v.slots.len(),
    ensures
        tables_of(v).written(OpView::Delete { id }) == tables_of(v.remove_entry(id)),
{
    let w = v.remove_entry(id);
    keeps::lemma_set_dead(v.slots[id as int].flags);
    let t = tables_of(v).written(OpView::Delete { id });
    assert forall|i: int| #[trigger] w.is_live(i) == (i != id && v.is_live(i)) by {}
    assert(t.entries =~= tables_of(w).entries);
    assert(t.dirs =~= tables_of(w).dirs);
}

/// The deletes of some entries.
pub open spec fn deletes(ids: Seq<u32>) -> Seq<OpView> {
    Seq::new(ids.len(), |i: int| OpView::Delete { id: ids[i] })
}

proof fn lemma_removed_all_written(v: IndexView, ids: Seq<u32>)
    requires
        v.wf(),
        forall|k: int| 0 <= k < ids.len() ==> (#[trigger] ids[k]) < v.slots.len(),
    ensures
        tables_of(v).written_all(deletes(ids)) == tables_of(v.remove_all(ids)),
    decreases ids.len(),
{
    if ids.len() > 0 {
        let rest = ids.drop_last();
        assert forall|k: int| 0 <= k < rest.len() implies (#[trigger] rest[k]) < v.slots.len() by {
            assert(rest[k] == ids[k]);
        }
        lemma_removed_all_written(v, rest);
        keeps::lemma_remove_all_keeps_wf(v, rest);
        assert(deletes(ids).drop_last() =~= deletes(rest));
        assert(ids[ids.len() - 1] < v.slots.len());
        law_removed_entry_is_written(v.remove_all(rest), ids.last());
    }
}

/// Writing the deletes of a removed subtree keeps the tables a snapshot of the
/// index.
pub proof fn law_removed_subtree_is_written(v: IndexView, top: u32)
    requires
        v.wf(),
        v.is_dir(top),
    ensures
        tables_of(v).written_all(deletes(v.subtree_entries(top))) == tables_of(v.remove_subtree(top)),
{
    let base = v.detach(top);
    keeps::law_detach_keeps_wf(v, top);
    keeps::lemma_live_in(v, v.subtree(top), v.slots.len() as int);
    assert(v.dir_wf(top as int));
    assert forall|i: int| #[trigger] base.is_live(i) == v.is_live(i) by {}
    assert(tables_of(base).entries =~= tables_of(v).entries);
    assert(tables_of(base).dirs =~= tables_of(v).dirs) by {
        assert forall|d: int| 0 <= d < v.dirs.len() implies db::record_of_dir(base, d) == db::record_of_dir(v, d) by {}
    }
    assert(tables_of(base) == tables_of(v));
    lemma_removed_all_written(base, v.subtree_entries(top));
}

} // verus!
