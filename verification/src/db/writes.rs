//! What planned writes do to the tables.

use vstd::prelude::*;

use crate::db;
use crate::db::laws;
use crate::db::laws::Tables;
use crate::db::{OpView, Write};
use crate::index::NO_DIR;
use crate::model::flags;

verus! {

/// The tables after a write: a row put under its id replaces what was there, and a
/// dropped one is gone.
pub open spec fn made(t: Tables, w: Write) -> Tables {
    match w {
        Write::PutEntry(r) => Tables {
            entries: t.entries.insert(
                r.id as int,
                db::EntryRecord { dir: r.dir, name: r.name@, size: r.size, mtime: r.mtime, flags: r.flags },
            ),
            ..t
        },
        Write::DropEntry(id) => Tables { entries: t.entries.remove(id as int), ..t },
        Write::PutDir(r) => Tables {
            dirs: t.dirs.insert(r.id as int, db::DirRecord { parent: r.parent, name: r.name@ }),
            ..t
        },
    }
}

/// A planned write does to the tables what the pending operation asks of them.
pub proof fn law_planned_writes_do_what_is_pending(t: Tables, op: OpView, w: Write)
    requires
        db::asks_for(op, w),
    ensures
        made(t, w) == t.written(op),
{
    assert(made(t, w) =~= t.written(op));
}

/// What a write puts down of an entry is read back as it was: its directory, name, size,
/// time and flags.
pub proof fn law_written_entries_read_back(op: OpView, w: Write)
    requires
        db::asks_for(op, w),
        op matches OpView::Upsert { flags, .. } ==> flags & flags::DEAD == 0,
    ensures
        op matches OpView::Upsert { id, dir, name, size, mtime, flags } ==> (w matches Write::PutEntry(r) && r.id == id
            && r.dir as u32 == dir && r.name@ == name && r.size as u64 == size && r.mtime == mtime && db::read_flags(
            r.flags,
        ) == flags),
        op matches OpView::AddDir { id, parent, name } ==> (w matches Write::PutDir(r) && r.id == id && db::read_parent(
            r.parent,
        ) == parent && (parent == NO_DIR <==> r.parent < 0) && r.name@ == name),
        op matches OpView::Delete { id } ==> (w matches Write::DropEntry(i) && i == id),
{
    match op {
        OpView::Upsert { id, dir, name, size, mtime, flags } => {
            laws::lemma_size_round_trip(size);
            crate::model::bits::law_stored_values_read_back(flags, 0);
        },
        OpView::AddDir { id, parent, name } => {
            laws::lemma_parent_round_trip(parent);
        },
        _ => {},
    }
}

} // verus!
