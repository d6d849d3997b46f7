//! The index as a mathematical value: a forest of directories and a row of entry
//! slots, the operations on it, and what those operations keep.

use vstd::prelude::*;

use crate::arena;
use crate::model;

pub mod calls;
pub mod chains;
pub mod compaction;
pub mod keeps;
pub mod order;
pub mod paths;
pub mod removal;
pub mod spelled;

verus! {

/// The parent of a root directory.
pub const NO_DIR: u32 = u32::MAX;

/// A directory of the forest.
#[verifier::ext_equal]
pub struct DirView {
    pub parent: u32,
    pub off: u32,
    pub name: Seq<u8>,
    pub depth: u16,
    pub children: Seq<u32>,
}

/// An entry slot, live or tombstoned.
#[verifier::ext_equal]
pub struct SlotView {
    pub dir: u32,
    pub off: u32,
    pub name: Seq<u8>,
    pub flags: u8,
    pub size: u64,
    pub mtime: i64,
}

/// The whole index. `free` holds the tombstoned slots that the next insertions
/// take, the last one first; the two byte counts are what the name arenas hold.
#[verifier::ext_equal]
pub struct IndexView {
    pub dirs: Seq<DirView>,
    pub roots: Seq<u32>,
    pub slots: Seq<SlotView>,
    pub free: Seq<u32>,
    pub name_bytes: nat,
    pub dir_name_bytes: nat,
}

/// The depth of a child of a directory at depth `d`.
pub open spec fn child_depth(d: u16) -> u16 {
    if d == u16::MAX {
        d
    } else {
        (d + 1) as u16
    }
}

/// How many of the slots are tombstoned.
pub open spec fn dead_count(slots: Seq<SlotView>) -> nat
    decreases slots.len(),
{
    if slots.len() == 0 {
        0
    } else {
        dead_count(slots.drop_last()) + if model::has_dead_bit(slots.last().flags) {
            1nat
        } else {
            0nat
        }
    }
}

/// The bytes of all slots' names.
pub open spec fn slot_bytes(slots: Seq<SlotView>) -> nat
    decreases slots.len(),
{
    if slots.len() == 0 {
        0
    } else {
        slot_bytes(slots.drop_last()) + slots.last().name.len()
    }
}

/// The bytes of all directories' names.
pub open spec fn dir_bytes(dirs: Seq<DirView>) -> nat
    decreases dirs.len(),
{
    if dirs.len() == 0 {
        0
    } else {
        dir_bytes(dirs.drop_last()) + dirs.last().name.len()
    }
}

/// One more path component: the root is `/`, and every other name follows a
/// slash.
pub open spec fn push_component(out: Seq<u8>, name: Seq<u8>) -> Seq<u8> {
    if name.len() == 0 {
        if out.len() == 0 {
            seq![47u8]
        } else {
            out
        }
    } else {
        with_slash(out) + name
    }
}

/// The path, ending in a slash.
pub open spec fn with_slash(out: Seq<u8>) -> Seq<u8> {
    if out.len() > 0 && out.last() == 47 {
        out
    } else {
        out.push(47)
    }
}

/// The list without `d`.
pub open spec fn without(list: Seq<u32>, d: u32) -> Seq<u32> {
    list.filter(|c: u32| c != d)
}

/// The slot's name and attributes, at the path that it has.
pub struct Record {
    pub path: Seq<u8>,
    pub flags: u8,
    pub size: u64,
    pub mtime: i64,
}

impl IndexView {
    /// The index that holds nothing.
    pub open spec fn empty() -> IndexView {
        IndexView {
            dirs: Seq::empty(),
            roots: Seq::empty(),
            slots: Seq::empty(),
            free: Seq::empty(),
            name_bytes: 0,
            dir_name_bytes: 0,
        }
    }

    pub open spec fn is_dir(self, d: u32) -> bool {
        d < self.dirs.len()
    }

    pub open spec fn is_dead(self, i: int) -> bool {
        model::has_dead_bit(self.slots[i].flags)
    }

    pub open spec fn is_live(self, i: int) -> bool {
        0 <= i < self.slots.len() && !self.is_dead(i)
    }

    /// The depth of a directory; 0 where there is none.
    pub open spec fn depth_of(self, d: u32) -> int {
        if self.is_dir(d) {
            self.dirs[d as int].depth as int
        } else {
            0
        }
    }

    /// The children of a directory, or the roots.
    pub open spec fn children(self, parent: u32) -> Seq<u32> {
        if parent == NO_DIR {
            self.roots
        } else {
            self.dirs[parent as int].children
        }
    }

    /// A list of siblings: ascending ids of directories with this parent.
    pub open spec fn siblings(self, list: Seq<u32>, parent: u32) -> bool {
        &&& forall|i: int, j: int| 0 <= i < j < list.len() ==> list[i] < list[j]
        &&& forall|i: int|
            0 <= i < list.len() ==> (#[trigger] list[i]) < self.dirs.len()
                && self.dirs[list[i] as int].parent == parent
    }

    pub open spec fn dir_wf(self, d: int) -> bool {
        let node = self.dirs[d];
        &&& node.name.len() <= arena::MAX_NAME_LEN
        &&& node.parent == NO_DIR ==> node.depth == 0
        &&& node.parent != NO_DIR ==> node.parent < d && node.depth == child_depth(
            self.dirs[node.parent as int].depth,
        )
        &&& self.siblings(node.children, d as u32)
    }

    pub open spec fn slot_wf(self, i: int) -> bool {
        self.slots[i].name.len() <= arena::MAX_NAME_LEN
    }

    /// What holds of the directories.
    pub open spec fn dirs_wf(self) -> bool {
        &&& self.dirs.len() <= u32::MAX
        &&& forall|d: int| 0 <= d < self.dirs.len() ==> #[trigger] self.dir_wf(d)
        &&& self.siblings(self.roots, NO_DIR)
        &&& dir_bytes(self.dirs) == self.dir_name_bytes
    }

    /// What holds of the free list.
    pub open spec fn free_wf(self) -> bool {
        &&& self.free.no_duplicates()
        &&& forall|k: int|
            0 <= k < self.free.len() ==> (#[trigger] self.free[k]) < self.slots.len() && self.is_dead(
                self.free[k] as int,
            )
    }

    /// What holds of the entry slots.
    pub open spec fn slots_wf(self) -> bool {
        &&& self.slots.len() <= u32::MAX
        &&& forall|i: int| 0 <= i < self.slots.len() ==> #[trigger] self.slot_wf(i)
        &&& self.free_wf()
        &&& slot_bytes(self.slots) <= self.name_bytes
    }

    pub open spec fn wf(self) -> bool {
        self.dirs_wf() && self.slots_wf()
    }

    /// A directory added under `parent`, with the next id.
    pub open spec fn add_dir(self, parent: u32, name: Seq<u8>) -> IndexView {
        let id = self.dirs.len() as u32;
        let kept = arena::kept_name(name);
        let node = DirView {
            parent,
            off: self.dir_name_bytes as u32,
            name: kept,
            depth: if parent == NO_DIR {
                0
            } else {
                child_depth(self.dirs[parent as int].depth)
            },
            children: Seq::empty(),
        };
        if parent == NO_DIR {
            IndexView {
                dirs: self.dirs.push(node),
                roots: self.roots.push(id),
                dir_name_bytes: self.dir_name_bytes + kept.len(),
                ..self
            }
        } else {
            let above = self.dirs[parent as int];
            IndexView {
                dirs: self.dirs.update(
                    parent as int,
                    DirView { children: above.children.push(id), ..above },
                ).push(node),
                dir_name_bytes: self.dir_name_bytes + kept.len(),
                ..self
            }
        }
    }

    /// The slot that the next insertion takes.
    pub open spec fn next_slot(self) -> u32 {
        if self.free.len() > 0 {
            self.free.last()
        } else {
            self.slots.len() as u32
        }
    }

    /// There is room for one more entry with this name: for its id and for the name.
    pub open spec fn fits_entry(self, name: Seq<u8>) -> bool {
        &&& self.free.len() > 0 || self.slots.len() < u32::MAX
        &&& self.name_bytes + arena::kept_name(name).len() <= u32::MAX
    }

    /// There is room for one more directory with this name.
    pub open spec fn fits_dir(self, name: Seq<u8>) -> bool {
        &&& self.dirs.len() < u32::MAX
        &&& self.dir_name_bytes + arena::kept_name(name).len() <= u32::MAX
    }

    /// An entry put into the next slot.
    pub open spec fn push_entry(self, dir: u32, name: Seq<u8>, flags: u8, size: u64, mtime: i64) -> IndexView {
        let kept = arena::kept_name(name);
        let slot = SlotView { dir, off: self.name_bytes as u32, name: kept, flags, size, mtime };
        if self.free.len() > 0 {
            IndexView {
                slots: self.slots.update(self.free.last() as int, slot),
                free: self.free.drop_last(),
                name_bytes: self.name_bytes + kept.len(),
                ..self
            }
        } else {
            IndexView {
                slots: self.slots.push(slot),
                name_bytes: self.name_bytes + kept.len(),
                ..self
            }
        }
    }

    /// A tombstoned slot appended; no insertion takes it.
    pub open spec fn push_hole(self) -> IndexView {
        IndexView {
            slots: self.slots.push(
                SlotView {
                    dir: 0,
                    off: 0,
                    name: Seq::empty(),
                    flags: model::flags::DEAD,
                    size: 0,
                    mtime: 0,
                },
            ),
            ..self
        }
    }

    /// The size and time of a slot set.
    pub open spec fn update_entry(self, id: u32, size: u64, mtime: i64) -> IndexView {
        IndexView {
            slots: self.slots.update(id as int, SlotView { size, mtime, ..self.slots[id as int] }),
            ..self
        }
    }

    /// A live entry tombstoned, its slot on the free list.
    pub open spec fn remove_entry(self, id: u32) -> IndexView {
        let s = self.slots[id as int];
        if model::has_dead_bit(s.flags) {
            self
        } else {
            IndexView {
                slots: self.slots.update(
                    id as int,
                    SlotView { flags: s.flags | model::flags::DEAD, ..s },
                ),
                free: self.free.push(id),
                ..self
            }
        }
    }

    /// `x` is `top`, or is reached from it through the lists of children.
    pub open spec fn in_subtree(self, x: u32, top: u32) -> bool
        decreases x,
    {
        x == top || {
            let p = self.dirs[x as int].parent;
            x < self.dirs.len() && p < x && self.dirs[p as int].children.contains(x) && self.in_subtree(
                p,
                top,
            )
        }
    }

    /// `x` is reached from a root through the lists of children.
    pub open spec fn attached(self, x: u32) -> bool
        decreases x,
    {
        x < self.dirs.len() && {
            let p = self.dirs[x as int].parent;
            if p == NO_DIR {
                self.roots.contains(x)
            } else {
                p < x && self.dirs[p as int].children.contains(x) && self.attached(p)
            }
        }
    }

    /// The directory taken out of its parent's list of children.
    pub open spec fn detach(self, d: u32) -> IndexView {
        let p = self.dirs[d as int].parent;
        if p == NO_DIR {
            IndexView { roots: without(self.roots, d), ..self }
        } else {
            let above = self.dirs[p as int];
            IndexView {
                dirs: self.dirs.update(
                    p as int,
                    DirView { children: without(above.children, d), ..above },
                ),
                ..self
            }
        }
    }

    /// The ids of the live entries, below `n`, of the directories in `set`.
    pub open spec fn live_in(self, set: Set<u32>, n: int) -> Seq<u32>
        decreases n,
    {
        if n <= 0 {
            Seq::empty()
        } else if self.is_live(n - 1) && set.contains(self.slots[n - 1].dir) {
            self.live_in(set, n - 1).push((n - 1) as u32)
        } else {
            self.live_in(set, n - 1)
        }
    }

    /// Entries tombstoned one after the other.
    pub open spec fn remove_all(self, ids: Seq<u32>) -> IndexView
        decreases ids.len(),
    {
        if ids.len() == 0 {
            self
        } else {
            self.remove_all(ids.drop_last()).remove_entry(ids.last())
        }
    }

    /// The directories below `top`, itself among them.
    pub open spec fn subtree(self, top: u32) -> Set<u32> {
        Set::new(|x: u32| self.in_subtree(x, top))
    }

    /// The ids of the live entries below `top`, ascending.
    pub open spec fn subtree_entries(self, top: u32) -> Seq<u32> {
        self.live_in(self.subtree(top), self.slots.len() as int)
    }

    /// The subtree of `top` without its entries, and out of the tree.
    pub open spec fn remove_subtree(self, top: u32) -> IndexView {
        self.detach(top).remove_all(self.subtree_entries(top))
    }

    /// The path of a directory, appended to what `out` already holds.
    pub open spec fn append_dir_path(self, d: u32, out: Seq<u8>) -> Seq<u8>
        decreases d,
    {
        if d >= self.dirs.len() {
            out
        } else {
            let p = self.dirs[d as int].parent;
            push_component(
                if p < d {
                    self.append_dir_path(p, out)
                } else {
                    out
                },
                self.dirs[d as int].name,
            )
        }
    }

    /// The path of a directory.
    pub open spec fn dir_path(self, d: u32) -> Seq<u8> {
        self.append_dir_path(d, Seq::empty())
    }

    /// The path of a slot's entry.
    pub open spec fn entry_path(self, i: int) -> Seq<u8> {
        with_slash(self.dir_path(self.slots[i].dir)) + self.slots[i].name
    }

    /// The path of a directory with a slash behind each name, as path terms are
    /// matched against it.
    pub open spec fn dir_prefix(self, d: u32) -> Seq<u8>
        decreases d,
    {
        if d >= self.dirs.len() {
            Seq::empty()
        } else {
            let p = self.dirs[d as int].parent;
            let above = if p < d {
                self.dir_prefix(p)
            } else {
                Seq::empty()
            };
            let name = self.dirs[d as int].name;
            if name.len() > 0 {
                (above + name).push(47)
            } else if above.len() == 0 {
                seq![47u8]
            } else {
                above
            }
        }
    }

    /// The first of the directories in `list` with this name.
    pub open spec fn first_named(self, list: Seq<u32>, name: Seq<u8>) -> Option<u32>
        decreases list.len(),
    {
        if list.len() == 0 {
            None
        } else if self.dirs[list[0] as int].name == name {
            Some(list[0])
        } else {
            self.first_named(list.skip(1), name)
        }
    }

    /// The child of `parent` with this name.
    pub open spec fn child_dir(self, parent: u32, name: Seq<u8>) -> Option<u32> {
        self.first_named(self.children(parent), name)
    }

    /// The directory that a chain of names leads to from `cur`.
    pub open spec fn lookup(self, cur: u32, names: Seq<Seq<u8>>) -> Option<u32>
        decreases names.len(),
    {
        if names.len() == 0 {
            if cur == NO_DIR {
                None
            } else {
                Some(cur)
            }
        } else {
            match self.child_dir(cur, names[0]) {
                Some(c) => self.lookup(c, names.skip(1)),
                None => None,
            }
        }
    }

    /// The chain of names made to exist below `cur`, and where it leads.
    pub open spec fn ensure(self, cur: u32, names: Seq<Seq<u8>>) -> (IndexView, u32)
        decreases names.len(),
    {
        if names.len() == 0 {
            (self, cur)
        } else {
            match self.child_dir(cur, names[0]) {
                Some(c) => self.ensure(c, names.skip(1)),
                None => self.add_dir(cur, names[0]).ensure(self.dirs.len() as u32, names.skip(1)),
            }
        }
    }

    /// The first live entry, of those from `from` on, with this directory and
    /// name.
    pub open spec fn find_from(self, from: int, dir: u32, name: Seq<u8>) -> Option<u32>
        decreases self.slots.len() - from,
    {
        if from < 0 || from >= self.slots.len() {
            None
        } else if !self.is_dead(from) && self.slots[from].dir == dir && self.slots[from].name == name {
            Some(from as u32)
        } else {
            self.find_from(from + 1, dir, name)
        }
    }

    /// The first live entry with this directory and name; there is none where the
    /// directory does not exist.
    pub open spec fn find(self, dir: u32, name: Seq<u8>) -> Option<u32> {
        if self.is_dir(dir) {
            self.find_from(0, dir, name)
        } else {
            None
        }
    }

    /// The subtree of `d`: the directory itself, then its children's subtrees.
    pub open spec fn preorder(self, d: u32) -> Seq<u32>
        decreases self.dirs.len() - d, self.dirs[d as int].children.len() + 1,
    {
        if d >= self.dirs.len() {
            Seq::empty()
        } else {
            seq![d] + self.preorder_all(d as int, self.dirs[d as int].children)
        }
    }

    /// The subtrees of a list of directories with ids above `above`, one after
    /// the other.
    pub open spec fn preorder_all(self, above: int, list: Seq<u32>) -> Seq<u32>
        decreases self.dirs.len() - above, list.len(),
    {
        if list.len() == 0 {
            Seq::empty()
        } else {
            (if above < list[0] < self.dirs.len() {
                self.preorder(list[0])
            } else {
                Seq::empty()
            }) + self.preorder_all(above, list.skip(1))
        }
    }

    /// The attached directories, each before its children.
    pub open spec fn forest(self) -> Seq<u32> {
        self.preorder_all(-1, self.roots)
    }

    /// The attached directories, replayed in order up to the `k`-th.
    pub open spec fn replay_dirs(self, order: Seq<u32>, k: nat) -> IndexView
        decreases k,
    {
        if k == 0 {
            IndexView::empty()
        } else {
            let d = self.dirs[order[k - 1] as int];
            self.replay_dirs(order, (k - 1) as nat).add_dir(moved(order, d.parent), d.name)
        }
    }

    /// The live entries of attached directories, replayed in order up to the
    /// `k`-th slot.
    pub open spec fn replay_slots(self, order: Seq<u32>, k: nat) -> IndexView
        decreases k,
    {
        if k == 0 {
            self.replay_dirs(order, order.len())
        } else {
            let s = self.slots[k - 1];
            let before = self.replay_slots(order, (k - 1) as nat);
            if model::has_dead_bit(s.flags) || moved(order, s.dir) == NO_DIR {
                before
            } else {
                before.push_entry(moved(order, s.dir), s.name, s.flags, s.size, s.mtime)
            }
        }
    }

    /// The index without tombstones and detached directories, renumbered: the
    /// directories in the order of the forest, the entries in their old order.
    pub open spec fn compacted(self) -> IndexView {
        self.replay_slots(self.forest(), self.slots.len())
    }

    /// The record of a slot.
    pub open spec fn record(self, i: int) -> Record {
        Record {
            path: self.entry_path(i),
            flags: self.slots[i].flags,
            size: self.slots[i].size,
            mtime: self.slots[i].mtime,
        }
    }

    /// The records of the live entries of attached directories, of the first `k`
    /// slots.
    pub open spec fn records(self, k: nat) -> Seq<Record>
        decreases k,
    {
        if k == 0 {
            Seq::empty()
        } else {
            let before = self.records((k - 1) as nat);
            if self.is_dead(k - 1) || !self.attached(self.slots[k - 1].dir) {
                before
            } else {
                before.push(self.record(k - 1))
            }
        }
    }
}

/// The new id of a directory: its place in the order, or `NO_DIR`.
pub open spec fn moved(order: Seq<u32>, d: u32) -> u32 {
    if d != NO_DIR && order.contains(d) {
        order.index_of(d) as u32
    } else {
        NO_DIR
    }
}

} // verus!
