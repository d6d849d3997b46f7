//! In-memory index: a directory tree plus columnar entry storage.
//!
//! Entries are stored as parallel arrays instead of an array of structs. The
//! search hot loop only reads the 8-byte signature column, and only touches the
//! name arena for the entries that survive the prefilter.

use std::sync::Arc;

use vstd::prelude::*;

use crate::arena;
use crate::arena::{Arena, MAX_NAME_LEN};
use crate::bytestr::eq_bytes;
use crate::model;
use crate::model::{flags, signature, signature2, Entry};
use crate::outside::{share, vec_capacity};
use crate::path;
use crate::path::named_path_components;
use crate::tree;
use crate::tree::compaction;
use crate::tree::keeps;
use crate::tree::order;
use crate::tree::paths;
use crate::tree::{DirView, IndexView, SlotView};

pub use crate::tree::NO_DIR;

verus! {

/// Materialized directory paths, each ending with `/`.
///
/// Built once per index generation and reused by every path query, so matching
/// `src/main` costs one pass over the directory paths instead of rebuilding a
/// path for each of the millions of entries.
#[derive(Debug)]
pub struct DirPaths {
    arena: Vec<u8>,
    /// Where each path ends; the next one begins there.
    ends: Vec<u64>,
}

impl View for DirPaths {
    type V = Seq<Seq<u8>>;

    closed spec fn view(&self) -> Seq<Seq<u8>> {
        Seq::new(self.ends@.len(), |d: int| self.arena@.subrange(self.start(d), self.ends@[d] as int))
    }
}

impl Default for DirPaths {
    fn default() -> (r: Self)
        ensures
            r.wf(),
            r@.len() == 0,
    {
        DirPaths { arena: Vec::new(), ends: Vec::new() }
    }
}

impl DirPaths {
    /// Where a path begins.
    spec fn start(&self, d: int) -> int {
        if d <= 0 {
            0
        } else {
            self.ends@[d - 1] as int
        }
    }

    /// The paths lie in the arena, one behind the other.
    pub closed spec fn wf(&self) -> bool {
        &&& forall|d: int|
            0 <= d < self.ends@.len() ==> self.start(d) <= (#[trigger] self.ends@[d]) <= self.arena@.len()
        &&& self.start(self.ends@.len() as int) == self.arena@.len()
        &&& self.arena@.len() == total_bytes(self@)
    }

    pub fn get(&self, dir: u32) -> (r: &[u8])
        requires
            self.wf(),
            dir < self@.len(),
        ensures
            r@ == self@[dir as int],
    {
        let i: usize = dir as usize;
        let total: usize = self.arena.len();
        assert(self.start(i as int) <= self.ends@[i as int] <= total);
        let from: usize = if i == 0 {
            0
        } else {
            self.ends[i - 1] as usize
        };
        vstd::slice::slice_subrange(self.arena.as_slice(), from, self.ends[i] as usize)
    }

    pub fn len(&self) -> (r: usize)
        ensures
            r == self@.len(),
    {
        self.ends.len()
    }

    pub fn is_empty(&self) -> (r: bool)
        ensures
            r == (self@.len() == 0),
    {
        self.ends.is_empty()
    }

    /// Bytes held: the paths themselves and eight more for each of them, or
    /// `usize::MAX` where that does not fit.
    pub fn bytes(&self) -> (r: usize)
        requires
            self.wf(),
        ensures
            r == capped((total_bytes(self@) + self@.len() * 8) as int),
    {
        self.arena.len().saturating_add(capped_product(self.ends.len(), 8))
    }

    /// Appends the path of the next directory: its parent's, its name and a
    /// slash.
    #[verifier::rlimit(40)]
    #[verifier::spinoff_prover]
    fn push(&mut self, parent: Option<usize>, name: &[u8])
        requires
            old(self).wf(),
            old(self)@.len() < u32::MAX,
            parent matches Some(p) ==> p < old(self)@.len(),
        ensures
            final(self).wf(),
            final(self)@ == old(self)@.push(
                extended_prefix(
                    match parent {
                        Some(p) => old(self)@[p as int],
                        None => Seq::empty(),
                    },
                    name@,
                ),
            ),
    {
        let ghost before = self.arena@;
        let ghost above = match parent {
            Some(p) => old(self)@[p as int],
            None => Seq::<u8>::empty(),
        };
        let mut path: Vec<u8> = match parent {
            Some(p) => vstd::slice::slice_to_vec(self.get(p as u32)),
            None => Vec::new(),
        };
        assert(path@ =~= above);
        if name.is_empty() {
            if path.is_empty() {
                path.push(path::SLASH);
                assert(path@ =~= seq![47u8]);
            }
        } else {
            path.extend_from_slice(name);
            assert(path@ =~= above + name@);
            path.push(path::SLASH);
        }
        assert(path@ == extended_prefix(above, name@));
        let ghost added = path@;
        self.arena.append(&mut path);
        let end: usize = self.arena.len();
        self.ends.push(end as u64);
        assert(self.arena@ =~= before + added);
        assert forall|d: int| 0 <= d < self.ends@.len() implies self.start(d) <= (#[trigger] self.ends@[d])
            <= self.arena@.len() by {
            if d < self.ends@.len() - 1 {
                assert(old(self).start(d) <= old(self).ends@[d] <= before.len());
            }
        }
        assert forall|d: int| 0 <= d < self@.len() implies self@[d] == old(self)@.push(
            extended_prefix(above, name@),
        )[d] by {
            if d < old(self)@.len() {
                assert(old(self).start(d) <= old(self).ends@[d] <= before.len());
                assert(self.start(d) == old(self).start(d));
                assert(self@[d] =~= old(self)@[d]);
            } else {
                assert(self.start(d) == before.len());
                assert(self@[d] =~= added);
            }
        }
        assert(self@ =~= old(self)@.push(extended_prefix(above, name@)));
        assert(self@.drop_last() =~= old(self)@);
    }
}

/// The bytes of all byte strings together.
pub open spec fn total_bytes(s: Seq<Seq<u8>>) -> nat
    decreases s.len(),
{
    if s.len() == 0 {
        0
    } else {
        total_bytes(s.drop_last()) + s.last().len()
    }
}

/// The number, or the greatest `usize` where it does not fit.
pub open spec fn capped(n: int) -> int {
    if n > usize::MAX {
        usize::MAX as int
    } else {
        n
    }
}

fn capped_product(a: usize, b: usize) -> (r: usize)
    ensures
        r == capped(a * b),
{
    assert(0 <= a * b <= 0xFFFF_FFFF_FFFF_FFFF * 0xFFFF_FFFF_FFFF_FFFF) by (nonlinear_arith)
        requires
            0 <= a <= 0xFFFF_FFFF_FFFF_FFFF,
            0 <= b <= 0xFFFF_FFFF_FFFF_FFFF,
    ;
    let p: u128 = a as u128 * b as u128;
    if p > usize::MAX as u128 {
        usize::MAX
    } else {
        p as usize
    }
}

/// A directory's prefix, from that of its parent and its name.
pub open spec fn extended_prefix(above: Seq<u8>, name: Seq<u8>) -> Seq<u8> {
    if name.len() > 0 {
        (above + name).push(47)
    } else if above.len() == 0 {
        seq![47u8]
    } else {
        above
    }
}

#[derive(Debug, Clone, Copy)]
pub struct DirNode {
    pub parent: u32,
    pub name_off: u32,
    pub name_len: u16,
    pub depth: u16,
}

#[derive(Debug)]
pub struct Index {
    names: Arena,
    dir_names: Arena,
    dirs: Vec<DirNode>,
    dir_children: Vec<Vec<u32>>,
    dir_paths: Option<Arc<DirPaths>>,
    sig: Vec<u64>,
    sig2: Vec<u32>,
    off: Vec<u32>,
    len: Vec<u16>,
    /// Folded first byte of each name, so single-letter queries can be ranked
    /// without touching the name arena at all.
    first: Vec<u8>,
    eflags: Vec<u8>,
    edir: Vec<u32>,
    size: Vec<u64>,
    mtime: Vec<i64>,
    free: Vec<u32>,
    dead: usize,
    roots: Vec<u32>,
}

/// The folded first byte of a name, or 0.
pub open spec fn first_byte_of(name: Seq<u8>) -> u8 {
    if name.len() == 0 {
        0
    } else {
        model::fold(name[0])
    }
}

impl View for Index {
    type V = IndexView;

    closed spec fn view(&self) -> IndexView {
        IndexView {
            dirs: Seq::new(self.dirs@.len(), |d: int| self.dir_view(d)),
            roots: self.roots@,
            slots: Seq::new(self.sig@.len(), |i: int| self.slot_view(i)),
            free: self.free@,
            name_bytes: self.names@.len(),
            dir_name_bytes: self.dir_names@.len(),
        }
    }
}

impl Default for Index {
    fn default() -> (r: Self)
        ensures
            r.wf(),
            r@ == IndexView::empty(),
    {
        Index::new()
    }
}

impl Index {
    spec fn dir_view(&self, d: int) -> DirView {
        let n = self.dirs@[d];
        DirView {
            parent: n.parent,
            off: n.name_off,
            name: self.dir_names@.subrange(n.name_off as int, n.name_off + n.name_len),
            depth: n.depth,
            children: self.dir_children@[d]@,
        }
    }

    spec fn slot_view(&self, i: int) -> SlotView {
        SlotView {
            dir: self.edir@[i],
            off: self.off@[i],
            name: self.names@.subrange(self.off@[i] as int, self.off@[i] + self.len@[i]),
            flags: self.eflags@[i],
            size: self.size@[i],
            mtime: self.mtime@[i],
        }
    }

    spec fn columns_inv(&self) -> bool {
        let n = self.sig@.len();
        &&& self.sig2@.len() == n
        &&& self.off@.len() == n
        &&& self.len@.len() == n
        &&& self.first@.len() == n
        &&& self.eflags@.len() == n
        &&& self.edir@.len() == n
        &&& self.size@.len() == n
        &&& self.mtime@.len() == n
        &&& forall|i: int| 0 <= i < n ==> (#[trigger] self.off@[i]) + self.len@[i] <= self.names@.len()
    }

    spec fn prefilter_inv(&self) -> bool {
        forall|i: int|
            0 <= i < self.sig@.len() && !model::has_dead_bit(self.eflags@[i]) ==> {
                let name = self.slot_view(i).name;
                &&& #[trigger] self.sig@[i] == model::signature_of(name)
                &&& self.sig2@[i] == model::signature2_of(name)
                &&& self.first@[i] == first_byte_of(name)
            }
    }

    spec fn dirs_inv(&self) -> bool {
        &&& self.dir_children@.len() == self.dirs@.len()
        &&& forall|d: int|
            0 <= d < self.dirs@.len() ==> (#[trigger] self.dirs@[d]).name_off + self.dirs@[d].name_len
                <= self.dir_names@.len()
    }

    spec fn paths_inv(&self) -> bool {
        self.dir_paths matches Some(dp) ==> paths_for(&*dp, self@)
    }

    /// The columns fit together, and what was computed from the entries and
    /// directories is what it should be.
    pub closed spec fn inv(&self) -> bool {
        &&& self.columns_inv()
        &&& self.prefilter_inv()
        &&& self.dirs_inv()
        &&& self.paths_inv()
        &&& self.dead == tree::dead_count(self@.slots)
    }

    pub open spec fn wf(&self) -> bool {
        self.inv() && self@.wf()
    }

    pub fn new() -> (r: Self)
        ensures
            r.wf(),
            r@ == IndexView::empty(),
            !r.is_warm(),
    {
        let r = Index {
            names: Arena::new(),
            dir_names: Arena::new(),
            dirs: Vec::new(),
            dir_children: Vec::new(),
            dir_paths: None,
            sig: Vec::new(),
            sig2: Vec::new(),
            off: Vec::new(),
            len: Vec::new(),
            first: Vec::new(),
            eflags: Vec::new(),
            edir: Vec::new(),
            size: Vec::new(),
            mtime: Vec::new(),
            free: Vec::new(),
            dead: 0,
            roots: Vec::new(),
        };
        assert(r@ =~= IndexView::empty());
        assert(r@.wf());
        r
    }
}

/// A slot of a byte string is the same slot of a longer one.
proof fn lemma_slot_kept(a: Seq<u8>, b: Seq<u8>, from: int, to: int)
    requires
        0 <= from <= to <= a.len(),
    ensures
        (a + b).subrange(from, to) == a.subrange(from, to),
{
    assert((a + b).subrange(from, to) =~= a.subrange(from, to));
}

/// The prefix of a directory depends on the directories alone.
proof fn lemma_prefix_same(v: IndexView, w: IndexView, d: u32)
    requires
        v.dirs == w.dirs,
    ensures
        v.dir_prefix(d) == w.dir_prefix(d),
    decreases d,
{
    if d < v.dirs.len() && v.dirs[d as int].parent < d {
        lemma_prefix_same(v, w, v.dirs[d as int].parent);
    }
}

proof fn lemma_paths_same(dp: &DirPaths, v: IndexView, w: IndexView)
    requires
        v.dirs == w.dirs,
        paths_for(dp, v),
    ensures
        paths_for(dp, w),
{
    assert forall|d: int| 0 <= d < w.dirs.len() implies #[trigger] dp@[d] == w.dir_prefix(d as u32) by {
        lemma_prefix_same(v, w, d as u32);
    }
}

// ---- directories -----------------------------------------------------

impl Index {
    /// Makes room for entries to come, and changes nothing else: how much room there
    /// is, is the allocator's. The name arena is allocated anew, so no name may be in
    /// it yet.
    pub fn reserve(&mut self, entries: usize, name_bytes: usize)
        requires
            old(self).wf(),
            old(self)@.name_bytes == 0,
        ensures
            final(self).wf(),
            final(self)@ == old(self)@,
            final(self).kept_paths() == old(self).kept_paths(),
    {
        self.sig.reserve(entries);
        self.sig2.reserve(entries);
        self.off.reserve(entries);
        self.len.reserve(entries);
        self.first.reserve(entries);
        self.eflags.reserve(entries);
        self.edir.reserve(entries);
        self.size.reserve(entries);
        self.mtime.reserve(entries);
        self.names = Arena::with_capacity(name_bytes);
        assert(self.names@ =~= old(self).names@);
        assert(self@ =~= old(self)@);
    }

    /// Another index that holds the same.
    pub(crate) fn copy(&self) -> (r: Index)
        requires
            self.wf(),
        ensures
            r.wf(),
            r@ == self@,
    {
        let n: usize = self.dir_children.len();
        let mut dir_children: Vec<Vec<u32>> = Vec::new();
        let mut d: usize = 0;
        while d < n
            invariant
                n == self.dir_children@.len(),
                d <= n,
                dir_children@.len() == d,
                forall|k: int| 0 <= k < d ==> (#[trigger] dir_children@[k])@ == self.dir_children@[k]@,
            decreases n - d,
        {
            dir_children.push(vstd::slice::slice_to_vec(self.dir_children[d].as_slice()));
            d += 1;
        }
        let dir_paths: Option<Arc<DirPaths>> = match &self.dir_paths {
            Some(dp) => Some(share(dp)),
            None => None,
        };
        let r = Index {
            names: self.names.copy(),
            dir_names: self.dir_names.copy(),
            dirs: vstd::slice::slice_to_vec(self.dirs.as_slice()),
            dir_children,
            dir_paths,
            sig: vstd::slice::slice_to_vec(self.sig.as_slice()),
            sig2: vstd::slice::slice_to_vec(self.sig2.as_slice()),
            off: vstd::slice::slice_to_vec(self.off.as_slice()),
            len: vstd::slice::slice_to_vec(self.len.as_slice()),
            first: vstd::slice::slice_to_vec(self.first.as_slice()),
            eflags: vstd::slice::slice_to_vec(self.eflags.as_slice()),
            edir: vstd::slice::slice_to_vec(self.edir.as_slice()),
            size: vstd::slice::slice_to_vec(self.size.as_slice()),
            mtime: vstd::slice::slice_to_vec(self.mtime.as_slice()),
            free: vstd::slice::slice_to_vec(self.free.as_slice()),
            dead: self.dead,
            roots: vstd::slice::slice_to_vec(self.roots.as_slice()),
        };
        proof {
            assert forall|i: int| 0 <= i < self.sig@.len() implies #[trigger] r.slot_view(i) == self.slot_view(i) by {}
            assert forall|k: int| 0 <= k < self.dirs@.len() implies #[trigger] r.dir_view(k) == self.dir_view(k) by {
                assert(r.dir_children@[k]@ == self.dir_children@[k]@);
            }
            assert(r@.dirs =~= self@.dirs);
            assert(r@.slots =~= self@.slots);
            assert(r@ == self@);
        }
        r
    }

    pub fn dir_count(&self) -> (r: usize)
        ensures
            r == self@.dirs.len(),
    {
        self.dirs.len()
    }

    pub fn roots(&self) -> (r: &[u32])
        ensures
            r@ == self@.roots,
    {
        self.roots.as_slice()
    }

    pub fn dir_node(&self, dir: u32) -> (r: DirNode)
        requires
            self.wf(),
            self@.is_dir(dir),
        ensures
            ({
                let d = self@.dirs[dir as int];
                &&& r.parent == d.parent
                &&& r.name_off == d.off
                &&& r.name_len == d.name.len()
                &&& r.depth == d.depth
            }),
    {
        self.dirs[dir as usize]
    }

    pub fn dir_name(&self, dir: u32) -> (r: &[u8])
        requires
            self.wf(),
            self@.is_dir(dir),
        ensures
            r@ == self@.dirs[dir as int].name,
    {
        let n: DirNode = self.dirs[dir as usize];
        self.dir_names.get(n.name_off, n.name_len)
    }

    pub fn dir_children(&self, dir: u32) -> (r: &[u32])
        requires
            self.wf(),
            self@.is_dir(dir),
        ensures
            r@ == self@.dirs[dir as int].children,
    {
        self.dir_children[dir as usize].as_slice()
    }

    /// Directory paths, built on first use and kept until the tree changes.
    pub fn dir_paths(&mut self) -> (r: Arc<DirPaths>)
        requires
            old(self).wf(),
        ensures
            final(self).wf(),
            final(self)@ == old(self)@,
            paths_for(&*r, old(self)@),
            final(self).kept_paths() == Some(r),
            old(self).is_warm() ==> final(self).kept_paths() == old(self).kept_paths(),
    {
        self.warm();
        self.current_paths()
    }

    /// The kept directory paths, or newly built ones where none are kept.
    pub(crate) fn current_paths(&self) -> (r: Arc<DirPaths>)
        requires
            self.wf(),
        ensures
            paths_for(&*r, self@),
            self.kept_paths() matches Some(dp) ==> r == dp,
    {
        match &self.dir_paths {
            Some(dp) => share(dp),
            None => Arc::new(self.build_dir_paths()),
        }
    }

    /// The directory paths that are kept until the tree changes.
    pub closed spec fn kept_paths(&self) -> Option<Arc<DirPaths>> {
        self.dir_paths
    }

    /// What a search needs is there: it has no directory paths to build.
    pub open spec fn is_warm(&self) -> bool {
        self.kept_paths() is Some
    }

    /// Precomputes everything a search needs, so the first query after a scan is
    /// not the one that pays for it. Paths that are kept already stay.
    pub fn warm(&mut self)
        requires
            old(self).wf(),
        ensures
            final(self).wf(),
            final(self)@ == old(self)@,
            final(self).is_warm(),
            final(self).kept_paths() matches Some(dp) ==> paths_for(&*dp, final(self)@),
            old(self).is_warm() ==> final(self).kept_paths() == old(self).kept_paths(),
    {
        if self.dir_paths.is_none() {
            let dp: DirPaths = self.build_dir_paths();
            self.dir_paths = Some(Arc::new(dp));
            assert(self@ =~= old(self)@);
        }
    }

    fn build_dir_paths(&self) -> (dp: DirPaths)
        requires
            self.wf(),
        ensures
            paths_for(&dp, self@),
    {
        let n: usize = self.dirs.len();
        let mut dp: DirPaths = DirPaths::default();
        let mut d: usize = 0;
        while d < n
            invariant
                self.wf(),
                n == self@.dirs.len(),
                d <= n,
                dp.wf(),
                dp@.len() == d,
                forall|k: int| 0 <= k < d ==> #[trigger] dp@[k] == self@.dir_prefix(k as u32),
            decreases n - d,
        {
            assert(self@.dir_wf(d as int));
            let node: DirNode = self.dirs[d];
            let name: &[u8] = self.dir_names.get(node.name_off, node.name_len);
            assert(name@ == self@.dirs[d as int].name);
            // Parents always have a lower id than their children, so the parent
            // path is already materialized.
            let parent: Option<usize> = if node.parent != NO_DIR {
                Some(node.parent as usize)
            } else {
                None
            };
            let ghost before = dp@;
            dp.push(parent, name);
            assert forall|k: int| 0 <= k < d + 1 implies #[trigger] dp@[k] == self@.dir_prefix(k as u32) by {
                if k < d {
                    assert(dp@[k] == before[k]);
                }
            }
            d += 1;
        }
        dp
    }

    /// Adds a child directory. The caller must guarantee it does not exist yet;
    /// use [`Index::child_dir`] first when unsure.
    pub fn add_dir(&mut self, parent: u32, name: &[u8]) -> (id: u32)
        requires
            old(self).wf(),
            paths::is_place(old(self)@, parent),
            old(self)@.dirs.len() < u32::MAX,
            old(self)@.dir_name_bytes <= u32::MAX,
        ensures
            final(self).wf(),
            final(self)@ == old(self)@.add_dir(parent, name@),
            id == old(self)@.dirs.len(),
            !final(self).is_warm(),
    {
        let ghost v = self@;
        let ghost w = v.add_dir(parent, name@);
        let ghost arena_before = self.dir_names@;
        let ghost kept = arena::kept_name(name@);
        self.dir_paths = None;
        let (name_off, name_len) = self.dir_names.push(name);
        let depth: u16 = if parent == NO_DIR {
            0
        } else {
            self.dirs[parent as usize].depth.saturating_add(1)
        };
        let id: u32 = self.dirs.len() as u32;
        self.dirs.push(DirNode { parent, name_off, name_len, depth });
        self.dir_children.push(Vec::new());
        if parent == NO_DIR {
            self.roots.push(id);
        } else {
            self.dir_children[parent as usize].push(id);
        }
        proof {
            keeps::law_add_dir_keeps_wf(v, parent, name@);
            assert forall|d: int| 0 <= d < self.dirs@.len() implies #[trigger] self.dirs@[d].name_off
                + self.dirs@[d].name_len <= self.dir_names@.len() by {
                if d < v.dirs.len() {
                    assert(old(self).dirs@[d].name_off + old(self).dirs@[d].name_len <= arena_before.len());
                }
            }
            assert forall|d: int| 0 <= d < w.dirs.len() implies self@.dirs[d] == w.dirs[d] by {
                if d < v.dirs.len() {
                    let n = old(self).dirs@[d];
                    assert(n.name_off + n.name_len <= arena_before.len());
                    lemma_slot_kept(arena_before, kept, n.name_off as int, n.name_off + n.name_len);
                    assert(self@.dirs[d] == w.dirs[d]);
                } else {
                    arena::law_push_keeps_slots(arena_before, name@, 0, 0);
                    assert(self.dir_children@[d]@ =~= Seq::empty());
                    assert(self@.dirs[d] == w.dirs[d]);
                }
            }
            assert(self@.dirs =~= w.dirs);
            assert(self@.slots =~= v.slots);
            assert(self@ == w);
        }
        id
    }

    pub fn child_dir(&self, parent: u32, name: &[u8]) -> (r: Option<u32>)
        requires
            self.wf(),
            paths::is_place(self@, parent),
        ensures
            r == self@.child_dir(parent, name@),
    {
        let children: &[u32] = if parent == NO_DIR {
            self.roots.as_slice()
        } else {
            assert(self@.dir_wf(parent as int));
            self.dir_children[parent as usize].as_slice()
        };
        assert(children@ == self@.children(parent));
        assert(self@.siblings(children@, parent));
        let n: usize = children.len();
        let mut i: usize = 0;
        assert(children@.skip(0) =~= children@);
        while i < n
            invariant
                self.wf(),
                n == children@.len(),
                i <= n,
                self@.siblings(children@, parent),
                children@ == self@.children(parent),
                self@.first_named(children@, name@) == self@.first_named(children@.skip(i as int), name@),
            decreases n - i,
        {
            let c: u32 = children[i];
            assert(children@.skip(i as int)[0] == c);
            assert(children@.skip(i as int).skip(1) =~= children@.skip(i + 1));
            if eq_bytes(self.dir_name(c), name) {
                return Some(c);
            }
            i += 1;
        }
        assert(children@.skip(n as int).len() == 0);
        None
    }

    /// Resolves (creating as needed) the directory node chain for `path`.
    pub fn ensure_dir_path(&mut self, path: &[u8]) -> (id: u32)
        requires
            old(self).wf(),
            paths::fits_chain(old(self)@, NO_DIR, path::named_components(path@)),
        ensures
            final(self).wf(),
            (final(self)@, id) == old(self)@.ensure(NO_DIR, path::named_components(path@)),
            final(self).kept_paths() == (if final(self)@.dirs.len() == old(self)@.dirs.len() {
                old(self).kept_paths()
            } else {
                None
            }),
    {
        let names: Vec<Vec<u8>> = named_path_components(path);
        self.ensure_chain(&names)
    }

    /// Resolves (creating as needed) a chain of directory names.
    pub fn ensure_chain(&mut self, names: &Vec<Vec<u8>>) -> (id: u32)
        requires
            old(self).wf(),
            paths::fits_chain(old(self)@, NO_DIR, path::views(names@)),
        ensures
            final(self).wf(),
            (final(self)@, id) == old(self)@.ensure(NO_DIR, path::views(names@)),
            final(self).kept_paths() == (if final(self)@.dirs.len() == old(self)@.dirs.len() {
                old(self).kept_paths()
            } else {
                None
            }),
    {
        match self.try_ensure_chain(names) {
            Some(id) => id,
            None => NO_DIR,
        }
    }

    /// Resolves (creating as needed) a chain of directory names, as far as there is
    /// room for it. Where the room does not suffice, some of the directories may have
    /// been made.
    pub(crate) fn try_ensure_chain(&mut self, names: &Vec<Vec<u8>>) -> (r: Option<u32>)
        requires
            old(self).wf(),
        ensures
            final(self).wf(),
            r is Some == paths::fits_chain(old(self)@, NO_DIR, path::views(names@)),
            r matches Some(id) ==> (final(self)@, id) == old(self)@.ensure(NO_DIR, path::views(names@)),
            final(self).kept_paths() == (if final(self)@.dirs.len() == old(self)@.dirs.len() {
                old(self).kept_paths()
            } else {
                None
            }),
    {
        let ghost all = path::views(names@);
        let ghost v = self@;
        let n: usize = names.len();
        let mut cur: u32 = NO_DIR;
        let mut i: usize = 0;
        assert(all.skip(0) =~= all);
        while i < n
            invariant
                self.wf(),
                v == old(self)@,
                n == names@.len(),
                all == path::views(names@),
                i <= n,
                paths::is_place(self@, cur),
                paths::fits_chain(self@, cur, all.skip(i as int)) == paths::fits_chain(v, NO_DIR, all),
                self@.ensure(cur, all.skip(i as int)) == v.ensure(NO_DIR, all),
                v.dirs.len() <= self@.dirs.len(),
                self.kept_paths() == (if self@.dirs.len() == v.dirs.len() {
                    old(self).kept_paths()
                } else {
                    None
                }),
            decreases n - i,
        {
            let ghost rest = all.skip(i as int);
            let ghost before = self@;
            assert(rest[0] == names@[i as int]@);
            assert(rest.skip(1) =~= all.skip(i + 1));
            let name: &[u8] = names[i].as_slice();
            proof {
                paths::lemma_child_dir(self@, cur, name@);
            }
            cur = match self.child_dir(cur, name) {
                Some(id) => id,
                None => {
                    if !self.fits_dir(name) {
                        return None;
                    }
                    proof {
                        paths::lemma_missing_below_new(before, cur, name@, rest.skip(1));
                    }
                    self.add_dir(cur, name)
                },
            };
            i += 1;
        }
        proof {
            assert(all.skip(n as int).len() == 0);
        }
        if self.dir_names.len() > 0xFFFF_FFFF || self.dirs.len() > 0xFFFF_FFFF {
            return None;
        }
        Some(cur)
    }

    /// There is room for one more directory with this name.
    pub(crate) fn fits_dir(&self, name: &[u8]) -> (r: bool)
        requires
            self.wf(),
        ensures
            r == self@.fits_dir(name@),
    {
        self.dirs.len() < 0xFFFF_FFFF && self.dir_names.len() as u128 + kept_len(name) as u128 <= 0xFFFF_FFFF
    }

    /// There is room for one more entry with this name.
    pub(crate) fn fits_entry(&self, name: &[u8]) -> (r: bool)
        requires
            self.wf(),
        ensures
            r == self@.fits_entry(name@),
    {
        (self.free.len() > 0 || self.sig.len() < 0xFFFF_FFFF) && self.names.len() as u128 + kept_len(name) as u128
            <= 0xFFFF_FFFF
    }

    /// There is room for the directories of a chain that do not exist yet.
    pub fn chain_fits(&self, names: &Vec<Vec<u8>>) -> (r: bool)
        requires
            self.wf(),
        ensures
            r == paths::fits_chain(self@, NO_DIR, path::views(names@)),
    {
        let ghost all = path::views(names@);
        let n: usize = names.len();
        let mut cur: u32 = NO_DIR;
        let mut i: usize = 0;
        let mut more: bool = true;
        assert(all.skip(0) =~= all);
        while more && i < n
            invariant
                self.wf(),
                n == names@.len(),
                all == path::views(names@),
                i <= n,
                paths::is_place(self@, cur),
                paths::missing(self@, NO_DIR, all) == paths::missing(self@, cur, all.skip(i as int)),
                !more ==> paths::missing(self@, NO_DIR, all) == all.skip(i as int),
            decreases n - i, (if more { 1int } else { 0int }),
        {
            let ghost rest = all.skip(i as int);
            assert(rest[0] == names@[i as int]@);
            assert(rest.skip(1) =~= all.skip(i + 1));
            proof {
                paths::lemma_child_dir(self@, cur, names@[i as int]@);
            }
            match self.child_dir(cur, names[i].as_slice()) {
                Some(id) => {
                    cur = id;
                    i += 1;
                },
                None => {
                    more = false;
                },
            }
        }
        let from: usize = i;
        let mut bytes: u128 = 0;
        let mut k: usize = n;
        assert(all.skip(n as int).len() == 0);
        while k > from
            invariant
                n == names@.len(),
                from <= k <= n,
                all == path::views(names@),
                bytes == paths::chain_bytes(all.skip(k as int)),
                bytes <= (n - k) * 0x1_0000,
            decreases k,
        {
            k -= 1;
            assert(all.skip(k as int)[0] == names@[k as int]@);
            assert(all.skip(k as int).skip(1) =~= all.skip(k + 1));
            bytes = bytes + kept_len(names[k].as_slice()) as u128;
        }
        let limit: u128 = 0xFFFF_FFFF;
        self.dirs.len() as u128 + (n - from) as u128 <= limit && self.dir_names.len() as u128 + bytes <= limit
    }

    pub fn dir_by_path(&self, path: &[u8]) -> (r: Option<u32>)
        requires
            self.wf(),
        ensures
            r == self@.lookup(NO_DIR, path::named_components(path@)),
    {
        let names: Vec<Vec<u8>> = named_path_components(path);
        self.dir_by_chain(&names)
    }

    /// The directory that a chain of names leads to.
    pub fn dir_by_chain(&self, names: &Vec<Vec<u8>>) -> (r: Option<u32>)
        requires
            self.wf(),
        ensures
            r == self@.lookup(NO_DIR, path::views(names@)),
    {
        let ghost all = path::views(names@);
        let n: usize = names.len();
        let mut cur: u32 = NO_DIR;
        let mut i: usize = 0;
        assert(all.skip(0) =~= all);
        while i < n
            invariant
                self.wf(),
                n == names@.len(),
                all == path::views(names@),
                i <= n,
                paths::is_place(self@, cur),
                self@.lookup(cur, all.skip(i as int)) == self@.lookup(NO_DIR, all),
            decreases n - i,
        {
            let ghost rest = all.skip(i as int);
            assert(rest[0] == names@[i as int]@);
            assert(rest.skip(1) =~= all.skip(i + 1));
            let name: &[u8] = names[i].as_slice();
            proof {
                paths::lemma_child_dir(self@, cur, name@);
            }
            match self.child_dir(cur, name) {
                Some(id) => {
                    cur = id;
                },
                None => {
                    return None;
                },
            }
            i += 1;
        }
        assert(all.skip(n as int).len() == 0);
        if cur == NO_DIR {
            None
        } else {
            Some(cur)
        }
    }
}

// ---- entries ---------------------------------------------------------

impl Index {
    pub fn len(&self) -> (r: usize)
        ensures
            r == self@.slots.len(),
    {
        self.sig.len()
    }

    pub fn is_empty(&self) -> (r: bool)
        ensures
            r == (self@.slots.len() == 0),
    {
        self.sig.is_empty()
    }

    pub fn live_len(&self) -> (r: usize)
        requires
            self.wf(),
        ensures
            r == self@.slots.len() - tree::dead_count(self@.slots),
    {
        proof {
            keeps::lemma_dead_count_bounds(self@.slots);
        }
        self.sig.len() - self.dead
    }

    pub fn dead_len(&self) -> (r: usize)
        requires
            self.wf(),
        ensures
            r == tree::dead_count(self@.slots),
    {
        self.dead
    }

    pub fn name_bytes(&self) -> (r: usize)
        ensures
            r == self@.name_bytes,
    {
        self.names.len()
    }

    /// The bytes that the directories' names take.
    pub fn dir_name_bytes(&self) -> (r: usize)
        ensures
            r == self@.dir_name_bytes,
    {
        self.dir_names.len()
    }

    pub fn name(&self, id: u32) -> (r: &[u8])
        requires
            self.wf(),
            id < self@.slots.len(),
        ensures
            r@ == self@.slots[id as int].name,
    {
        self.names.get(self.off[id as usize], self.len[id as usize])
    }

    /// The two signatures of a live entry's name.
    pub fn signatures(&self, id: u32) -> (r: (u64, u32))
        requires
            self.wf(),
            id < self@.slots.len(),
        ensures
            self@.is_live(id as int) ==> r.0 == model::signature_of(self@.slots[id as int].name) && r.1
                == model::signature2_of(self@.slots[id as int].name),
    {
        (self.sig[id as usize], self.sig2[id as usize])
    }

    /// The folded first byte of a live entry's name.
    pub fn first_byte(&self, id: u32) -> (r: u8)
        requires
            self.wf(),
            id < self@.slots.len(),
        ensures
            self@.is_live(id as int) ==> r == first_byte_of(self@.slots[id as int].name),
    {
        proof {
            assert(self@.is_live(id as int) ==> self.sig@[id as int] == model::signature_of(
                self.slot_view(id as int).name,
            ));
        }
        self.first[id as usize]
    }

    pub fn entry(&self, id: u32) -> (r: Entry)
        requires
            self.wf(),
            id < self@.slots.len(),
        ensures
            ({
                let s = self@.slots[id as int];
                &&& r.dir == s.dir
                &&& r.name_off == s.off
                &&& r.name_len == s.name.len()
                &&& r.flags == s.flags
                &&& r.size == s.size
                &&& r.mtime == s.mtime
            }),
    {
        let i: usize = id as usize;
        Entry {
            dir: self.edir[i],
            name_off: self.off[i],
            name_len: self.len[i],
            flags: self.eflags[i],
            size: self.size[i],
            mtime: self.mtime[i],
        }
    }

    /// Puts an entry into a removed slot, or into a new one.
    pub fn push_entry(&mut self, dir: u32, name: &[u8], flags: u8, size: u64, mtime: i64) -> (id: u32)
        requires
            old(self).wf(),
            !model::has_dead_bit(flags),
            old(self)@.free.len() > 0 || old(self)@.slots.len() < u32::MAX,
            old(self)@.name_bytes <= u32::MAX,
        ensures
            final(self).wf(),
            final(self)@ == old(self)@.push_entry(dir, name@, flags, size, mtime),
            id == old(self)@.next_slot(),
            final(self).kept_paths() == old(self).kept_paths(),
    {
        let ghost v = self@;
        let ghost w = v.push_entry(dir, name@, flags, size, mtime);
        let ghost arena_before = self.names@;
        let ghost kept = arena::kept_name(name@);
        let (off, len) = self.names.push(name);
        let kept_bytes: &[u8] = vstd::slice::slice_subrange(name, 0, len as usize);
        assert(kept_bytes@ =~= kept);
        let sig: u64 = signature(kept_bytes);
        let sig2: u32 = signature2(kept_bytes);
        let first: u8 = if kept_bytes.is_empty() {
            0
        } else {
            kept_bytes[0] | 0x20
        };
        proof {
            keeps::law_push_entry_keeps_wf(v, dir, name@, flags, size, mtime);
            arena::law_push_keeps_slots(arena_before, name@, 0, 0);
        }
        let id: u32 = match self.free.pop() {
            Some(slot) => {
                proof {
                    keeps::lemma_dead_count_bounds(v.slots);
                    assert(v.free[v.free.len() - 1] == slot);
                    assert(v.is_dead(slot as int));
                    assert(model::has_dead_bit(v.slots[slot as int].flags));
                    keeps::lemma_dead_count_update(v.slots, slot as int, w.slots[slot as int]);
                }
                let i: usize = slot as usize;
                self.sig[i] = sig;
                self.sig2[i] = sig2;
                self.off[i] = off;
                self.len[i] = len;
                self.first[i] = first;
                self.eflags[i] = flags;
                self.edir[i] = dir;
                self.size[i] = size;
                self.mtime[i] = mtime;
                self.dead = self.dead - 1;
                slot
            },
            None => {
                proof {
                    keeps::lemma_dead_count_push(v.slots, w.slots.last());
                }
                self.sig.push(sig);
                self.sig2.push(sig2);
                self.off.push(off);
                self.len.push(len);
                self.first.push(first);
                self.eflags.push(flags);
                self.edir.push(dir);
                self.size.push(size);
                self.mtime.push(mtime);
                (self.sig.len() - 1) as u32
            },
        };
        proof {
            self.lemma_after_slot_change(*old(self), id as int, kept, w);
        }
        id
    }

    /// After the slot at `at` was written, the other slots being as they were and
    /// the name arena having grown by `added`, the index is `w`.
    #[verifier::spinoff_prover]
    proof fn lemma_after_slot_change(&self, before: Index, at: int, added: Seq<u8>, w: IndexView)
        requires
            before.wf(),
            self.dirs == before.dirs,
            self.dir_names == before.dir_names,
            self.dir_children == before.dir_children,
            self.dir_paths == before.dir_paths,
            self.roots == before.roots,
            self.names@ == before.names@ + added,
            self.free@ == w.free,
            w.wf(),
            w.dirs == before@.dirs,
            w.roots == before@.roots,
            w.dir_name_bytes == before@.dir_name_bytes,
            w.name_bytes == before@.name_bytes + added.len(),
            0 <= at < self.sig@.len(),
            w.slots.len() == self.sig@.len(),
            before.sig@.len() == self.sig@.len() || before.sig@.len() == at == self.sig@.len() - 1,
            self.sig2@.len() == self.sig@.len(),
            self.off@.len() == self.sig@.len(),
            self.len@.len() == self.sig@.len(),
            self.first@.len() == self.sig@.len(),
            self.eflags@.len() == self.sig@.len(),
            self.edir@.len() == self.sig@.len(),
            self.size@.len() == self.sig@.len(),
            self.mtime@.len() == self.sig@.len(),
            forall|i: int|
                0 <= i < self.sig@.len() && i != at ==> {
                    &&& #[trigger] self.sig@[i] == before.sig@[i]
                    &&& self.sig2@[i] == before.sig2@[i]
                    &&& self.off@[i] == before.off@[i]
                    &&& self.len@[i] == before.len@[i]
                    &&& self.first@[i] == before.first@[i]
                    &&& self.eflags@[i] == before.eflags@[i]
                    &&& self.edir@[i] == before.edir@[i]
                    &&& self.size@[i] == before.size@[i]
                    &&& self.mtime@[i] == before.mtime@[i]
                    &&& w.slots[i] == before@.slots[i]
                },
            self.off@[at] + self.len@[at] <= self.names@.len(),
            w.slots[at] == self.slot_view(at),
            !model::has_dead_bit(self.eflags@[at]) ==> self.sig@[at] == model::signature_of(w.slots[at].name)
                && self.sig2@[at] == model::signature2_of(w.slots[at].name) && self.first@[at] == first_byte_of(
                w.slots[at].name,
            ),
            self.dead == tree::dead_count(w.slots),
        ensures
            self.wf(),
            self@ == w,
    {
        assert forall|i: int| 0 <= i < self.sig@.len() implies (#[trigger] self.off@[i]) + self.len@[i]
            <= self.names@.len() by {
            if i != at {
                assert(self.sig@[i] == before.sig@[i]);
                assert(before.off@[i] + before.len@[i] <= before.names@.len());
            }
        }
        assert forall|i: int| 0 <= i < self.sig@.len() implies self@.slots[i] == w.slots[i] by {
            if i != at {
                assert(self.sig@[i] == before.sig@[i]);
                assert(before.off@[i] + before.len@[i] <= before.names@.len());
                lemma_slot_kept(
                    before.names@,
                    added,
                    before.off@[i] as int,
                    before.off@[i] + before.len@[i],
                );
                assert(before@.slots[i] == before.slot_view(i));
            }
        }
        assert(self@.slots =~= w.slots);
        assert(self@.dirs =~= w.dirs) by {
            assert forall|d: int| 0 <= d < w.dirs.len() implies self@.dirs[d] == w.dirs[d] by {
                assert(before@.dirs[d] == before.dir_view(d));
            }
        }
        assert(self@ == w);
        assert forall|i: int| 0 <= i < self.sig@.len() && !model::has_dead_bit(self.eflags@[i]) implies {
            let name = self.slot_view(i).name;
            &&& #[trigger] self.sig@[i] == model::signature_of(name)
            &&& self.sig2@[i] == model::signature2_of(name)
            &&& self.first@[i] == first_byte_of(name)
        } by {
            assert(self@.slots[i] == self.slot_view(i));
            if i != at {
                assert(self.sig@[i] == before.sig@[i]);
                assert(before@.slots[i] == before.slot_view(i));
                assert(w.slots[i] == before@.slots[i]);
            }
        }
        assert(self.prefilter_inv());
        assert(self.columns_inv());
        assert(self.dirs_inv()) by {
            assert(before.dirs_inv());
        }
        assert(self.paths_inv()) by {
            if let Some(dp) = self.dir_paths {
                lemma_paths_same(&*dp, before@, w);
            }
        }
    }

    /// Appends a tombstoned slot that is *not* added to the free list, used to
    /// keep ids aligned when loading a snapshot with holes. The slot is
    /// reclaimed by the next [`Index::compact`].
    pub fn push_hole(&mut self) -> (id: u32)
        requires
            old(self).wf(),
            old(self)@.slots.len() < u32::MAX,
        ensures
            final(self).wf(),
            final(self)@ == old(self)@.push_hole(),
            id == old(self)@.slots.len(),
            final(self).kept_paths() == old(self).kept_paths(),
    {
        let ghost v = self@;
        let ghost w = v.push_hole();
        self.sig.push(0);
        self.sig2.push(0);
        self.off.push(0);
        self.len.push(0);
        self.first.push(0);
        self.eflags.push(flags::DEAD);
        self.edir.push(0);
        self.size.push(0);
        self.mtime.push(0);
        proof {
            keeps::law_push_hole_keeps_wf(v);
            keeps::lemma_set_dead(0);
            assert(0u8 | flags::DEAD == flags::DEAD) by {
                assert(0u8 | 4u8 == 4u8) by (bit_vector);
            }
            keeps::lemma_dead_count_push(v.slots, w.slots.last());
            keeps::lemma_dead_count_bounds(v.slots);
        }
        self.dead = self.dead + 1;
        let id: u32 = (self.sig.len() - 1) as u32;
        proof {
            assert(self.names@ =~= old(self).names@ + Seq::<u8>::empty());
            assert(self.slot_view(id as int).name =~= Seq::<u8>::empty());
            self.lemma_after_slot_change(*old(self), id as int, Seq::empty(), w);
        }
        id
    }

    pub fn update_entry(&mut self, id: u32, size: u64, mtime: i64)
        requires
            old(self).wf(),
            id < old(self)@.slots.len(),
        ensures
            final(self).wf(),
            final(self)@ == old(self)@.update_entry(id, size, mtime),
            final(self).kept_paths() == old(self).kept_paths(),
    {
        let ghost v = self@;
        let ghost w = v.update_entry(id, size, mtime);
        let i: usize = id as usize;
        self.size[i] = size;
        self.mtime[i] = mtime;
        proof {
            keeps::law_update_entry_keeps_wf(v, id, size, mtime);
            keeps::lemma_dead_count_update(v.slots, id as int, w.slots[id as int]);
            assert(self.names@ =~= old(self).names@ + Seq::<u8>::empty());
            assert(old(self).off@[id as int] + old(self).len@[id as int] <= old(self).names@.len());
            assert(old(self)@.slots[id as int] == old(self).slot_view(id as int));
            assert(!model::has_dead_bit(old(self).eflags@[id as int]) ==> old(self).sig@[id as int]
                == model::signature_of(old(self).slot_view(id as int).name));
            self.lemma_after_slot_change(*old(self), id as int, Seq::empty(), w);
        }
    }

    /// Tombstones an entry. The slot is reused by the next `push_entry`; the
    /// name bytes stay in the arena until [`Index::compact`].
    pub fn remove_entry(&mut self, id: u32)
        requires
            old(self).wf(),
            id < old(self)@.slots.len(),
        ensures
            final(self).wf(),
            final(self)@ == old(self)@.remove_entry(id),
            final(self).kept_paths() == old(self).kept_paths(),
    {
        let i: usize = id as usize;
        if self.eflags[i] & flags::DEAD != 0 {
            return;
        }
        let ghost v = self@;
        let ghost w = v.remove_entry(id);
        let dead_flags: u8 = self.eflags[i] | flags::DEAD;
        self.eflags[i] = dead_flags;
        self.sig[i] = 0;
        self.sig2[i] = 0;
        self.free.push(id);
        proof {
            keeps::law_remove_entry_keeps_wf(v, id);
            keeps::lemma_set_dead(v.slots[id as int].flags);
            keeps::lemma_dead_count_update(v.slots, id as int, w.slots[id as int]);
            keeps::lemma_dead_count_bounds(w.slots);
        }
        self.dead = self.dead + 1;
        proof {
            assert(self.names@ =~= old(self).names@ + Seq::<u8>::empty());
            assert(old(self).off@[id as int] + old(self).len@[id as int] <= old(self).names@.len());
            assert(old(self)@.slots[id as int] == old(self).slot_view(id as int));
            self.lemma_after_slot_change(*old(self), id as int, Seq::empty(), w);
        }
    }
}

/// How many bytes of a name are kept.
pub(crate) fn kept_len(name: &[u8]) -> (r: u64)
    ensures
        r == arena::kept_name(name@).len(),
        r <= MAX_NAME_LEN,
{
    if name.len() < MAX_NAME_LEN {
        name.len() as u64
    } else {
        MAX_NAME_LEN as u64
    }
}

/// What is known of a lookup after the slots below `i` were seen.
spec fn found_so_far(v: IndexView, want: (u32, Vec<u8>), got: Option<u32>, i: int) -> bool {
    match got {
        Some(id) => v.find(want.0, want.1@) == Some(id),
        None => v.is_dir(want.0) ==> v.find(want.0, want.1@) == v.find_from(i, want.0, want.1@),
    }
}

/// The ids of a list but for `d`.
fn without_id(list: &Vec<u32>, d: u32) -> (r: Vec<u32>)
    ensures
        r@ == tree::without(list@, d),
{
    let n: usize = list.len();
    let mut out: Vec<u32> = Vec::new();
    let mut i: usize = 0;
    assert(tree::without(list@.subrange(0, 0), d) =~= Seq::empty()) by {
        reveal(Seq::filter);
    }
    while i < n
        invariant
            n == list@.len(),
            i <= n,
            out@ == tree::without(list@.subrange(0, i as int), d),
        decreases n - i,
    {
        let c: u32 = list[i];
        proof {
            let next = list@.subrange(0, i + 1);
            reveal(Seq::filter);
            assert(next.drop_last() =~= list@.subrange(0, i as int));
            assert(next.last() == c);
        }
        if c != d {
            out.push(c);
        }
        i += 1;
    }
    assert(list@.subrange(0, n as int) =~= list@);
    out
}

impl Index {
    /// Single pass resolving several `(dir, name)` lookups at once. Watcher
    /// batches should use this instead of calling it per event: the index has
    /// no per-directory entry map, by design, to keep memory down.
    pub fn find_batch(&self, wanted: &[(u32, Vec<u8>)]) -> (out: Vec<Option<u32>>)
        requires
            self.wf(),
        ensures
            out@.len() == wanted@.len(),
            forall|s: int|
                0 <= s < wanted@.len() ==> #[trigger] out@[s] == self@.find(wanted@[s].0, wanted@[s].1@),
    {
        let count: usize = wanted.len();
        let mut out: Vec<Option<u32>> = Vec::new();
        let mut s: usize = 0;
        // The lookups of each touched directory: a group number for every
        // directory rejects almost every entry with a single indexed load, so
        // only the handful of entries living in a touched directory pay for a
        // name comparison.
        let mut group_of: Vec<Option<usize>> = Vec::new();
        let dirs: usize = self.dirs.len();
        let mut d: usize = 0;
        while d < dirs
            invariant
                d <= dirs,
                group_of@.len() == d,
                forall|k: int| 0 <= k < d ==> #[trigger] group_of@[k] is None,
            decreases dirs - d,
        {
            group_of.push(None);
            d += 1;
        }
        let mut groups: Vec<Vec<usize>> = Vec::new();
        while s < count
            invariant
                self.wf(),
                count == wanted@.len(),
                dirs == self@.dirs.len(),
                s <= count,
                out@.len() == s,
                forall|k: int| 0 <= k < s ==> #[trigger] out@[k] is None,
                group_of@.len() == dirs,
                forall|k: int| 0 <= k < dirs ==> (#[trigger] group_of@[k] matches Some(g) ==> g < groups@.len()),
                forall|k: int, m: int|
                    0 <= k < groups@.len() && 0 <= m < groups@[k]@.len() ==> (#[trigger] groups@[k]@[m]) < s,
                forall|k: int|
                    0 <= k < s && wanted@[k].0 < dirs ==> {
                        let g = #[trigger] group_of@[wanted@[k].0 as int];
                        g matches Some(n) && groups@[n as int]@.contains(k as usize)
                    },
            decreases count - s,
        {
            out.push(None);
            let dir: usize = wanted[s].0 as usize;
            let ghost groups_before = groups@;
            let ghost group_of_before = group_of@;
            if dir < dirs {
                match group_of[dir] {
                    Some(g) => {
                        groups[g].push(s);
                        assert(groups@[g as int]@.last() == s);
                        assert(groups@[g as int]@.contains(s));
                    },
                    None => {
                        let mut fresh: Vec<usize> = Vec::new();
                        fresh.push(s);
                        assert(fresh@[0] == s);
                        let g: usize = groups.len();
                        groups.push(fresh);
                        group_of[dir] = Some(g);
                        assert(groups@[g as int]@.contains(s));
                    },
                }
            }
            assert forall|k: int| 0 <= k < s + 1 && wanted@[k].0 < dirs implies {
                let g = #[trigger] group_of@[wanted@[k].0 as int];
                g matches Some(n) && groups@[n as int]@.contains(k as usize)
            } by {
                if k < s {
                    let n = group_of_before[wanted@[k].0 as int]->0;
                    assert(groups_before[n as int]@.contains(k as usize));
                    let m = choose|m: int|
                        0 <= m < groups_before[n as int]@.len() && groups_before[n as int]@[m] == k as usize;
                    assert(group_of@[wanted@[k].0 as int] == Some(n));
                    assert(groups@[n as int]@[m] == k as usize);
                }
            }
            assert forall|k: int, m: int| 0 <= k < groups@.len() && 0 <= m < groups@[k]@.len() implies (
            #[trigger] groups@[k]@[m]) < s + 1 by {
                if k < groups_before.len() && m < groups_before[k]@.len() {
                    assert(groups@[k]@[m] == groups_before[k]@[m]);
                }
            }
            s += 1;
        }
        let n: usize = self.sig.len();
        let mut i: usize = 0;
        while i < n
            invariant
                self.wf(),
                n == self@.slots.len(),
                i <= n,
                dirs == self@.dirs.len(),
                count == wanted@.len(),
                out@.len() == count,
                group_of@.len() == dirs,
                forall|k: int| 0 <= k < dirs ==> (#[trigger] group_of@[k] matches Some(g) ==> g < groups@.len()),
                forall|k: int, m: int|
                    0 <= k < groups@.len() && 0 <= m < groups@[k]@.len() ==> (#[trigger] groups@[k]@[m]) < count,
                forall|k: int|
                    0 <= k < count && wanted@[k].0 < dirs ==> {
                        let g = #[trigger] group_of@[wanted@[k].0 as int];
                        g matches Some(n) && groups@[n as int]@.contains(k as usize)
                    },
                forall|k: int|
                    0 <= k < count ==> found_so_far(self@, wanted@[k], #[trigger] out@[k], i as int),
            decreases n - i,
        {
            let ghost slot = self@.slots[i as int];
            assert(self@.slot_wf(i as int));
            assert(slot == self.slot_view(i as int));
            if self.eflags[i] & flags::DEAD == 0 {
                let dir: usize = self.edir[i] as usize;
                let group: Option<usize> = if dir < dirs {
                    group_of[dir]
                } else {
                    None
                };
                match group {
                    None => {},
                    Some(g) => {
                        let name: &[u8] = self.names.get(self.off[i], self.len[i]);
                        assert(name@ == slot.name);
                        let members: usize = groups[g].len();
                        let mut j: usize = 0;
                        while j < members
                            invariant
                                self.wf(),
                                n == self@.slots.len(),
                                i < n,
                                slot == self@.slots[i as int],
                                !self@.is_dead(i as int),
                                self@.is_dir(slot.dir),
                                name@ == slot.name,
                                g < groups@.len(),
                                members == groups@[g as int]@.len(),
                                j <= members,
                                count == wanted@.len(),
                                out@.len() == count,
                                forall|k: int, m: int|
                                    0 <= k < groups@.len() && 0 <= m < groups@[k]@.len() ==> (
                                    #[trigger] groups@[k]@[m]) < count,
                                forall|k: int|
                                    0 <= k < count ==> found_so_far(
                                        self@,
                                        wanted@[k],
                                        #[trigger] out@[k],
                                        i as int,
                                    ),
                                forall|m: int|
                                    0 <= m < j ==> found_so_far(
                                        self@,
                                        wanted@[(#[trigger] groups@[g as int]@[m]) as int],
                                        out@[groups@[g as int]@[m] as int],
                                        i + 1,
                                    ),
                            decreases members - j,
                        {
                            let at: usize = groups[g][j];
                            assert(groups@[g as int]@[j as int] < count);
                            assert(found_so_far(self@, wanted@[at as int], out@[at as int], i as int));
                            let ghost out_before = out@;
                            if out[at].is_none() && wanted[at].0 == self.edir[i] && eq_bytes(
                                wanted[at].1.as_slice(),
                                name,
                            ) {
                                out[at] = Some(i as u32);
                            }
                            assert(found_so_far(self@, wanted@[at as int], out@[at as int], i + 1));
                            assert forall|m: int| 0 <= m < j implies found_so_far(
                                self@,
                                wanted@[(#[trigger] groups@[g as int]@[m]) as int],
                                out@[groups@[g as int]@[m] as int],
                                i + 1,
                            ) by {
                                let t = groups@[g as int]@[m] as int;
                                if t != at {
                                    assert(out@[t] == out_before[t]);
                                }
                            }
                            j += 1;
                        }
                    },
                }
                assert forall|k: int| 0 <= k < count implies found_so_far(
                    self@,
                    wanted@[k],
                    #[trigger] out@[k],
                    i + 1,
                ) by {
                    if wanted@[k].0 == slot.dir && slot.dir < dirs {
                        let g = group_of@[wanted@[k].0 as int]->0;
                        assert(groups@[g as int]@.contains(k as usize));
                        let m = choose|m: int|
                            0 <= m < groups@[g as int]@.len() && groups@[g as int]@[m] == k as usize;
                        assert(found_so_far(
                            self@,
                            wanted@[groups@[g as int]@[m] as int],
                            out@[groups@[g as int]@[m] as int],
                            i + 1,
                        ));
                    } else {
                        assert(found_so_far(self@, wanted@[k], out@[k], i as int));
                    }
                }
            } else {
                assert forall|k: int| 0 <= k < count implies found_so_far(
                    self@,
                    wanted@[k],
                    #[trigger] out@[k],
                    i + 1,
                ) by {
                    assert(found_so_far(self@, wanted@[k], out@[k], i as int));
                }
            }
            i += 1;
        }
        assert forall|k: int| 0 <= k < wanted@.len() implies #[trigger] out@[k] == self@.find(
            wanted@[k].0,
            wanted@[k].1@,
        ) by {
            assert(found_so_far(self@, wanted@[k], out@[k], n as int));
        }
        out
    }

    /// The first live entry of a directory with this name.
    pub fn find_in_dir(&self, dir: u32, name: &[u8]) -> (r: Option<u32>)
        requires
            self.wf(),
        ensures
            r == self@.find(dir, name@),
    {
        let mut wanted: Vec<(u32, Vec<u8>)> = Vec::new();
        wanted.push((dir, vstd::slice::slice_to_vec(name)));
        let got: Vec<Option<u32>> = self.find_batch(wanted.as_slice());
        assert(got@[0] == self@.find(wanted@[0].0, wanted@[0].1@));
        got[0]
    }
}

impl Index {
    /// The directories below `dir`, itself among them, as a mark for each
    /// directory.
    pub(crate) fn mark_subtree(&self, dir: u32) -> (marks: Vec<bool>)
        requires
            self.wf(),
            self@.is_dir(dir),
        ensures
            marks@.len() == self@.dirs.len(),
            forall|x: int| 0 <= x < marks@.len() ==> #[trigger] marks@[x] == self@.in_subtree(x as u32, dir),
    {
        let n: usize = self.dirs.len();
        let mut marks: Vec<bool> = Vec::new();
        let mut k: usize = 0;
        while k < n
            invariant
                k <= n,
                marks@.len() == k,
                forall|x: int| 0 <= x < k ==> !(#[trigger] marks@[x]),
            decreases n - k,
        {
            marks.push(false);
            k += 1;
        }
        let ghost walk = self@.preorder(dir);
        let ghost mut done: Seq<u32> = Seq::empty();
        let mut stack: Vec<u32> = Vec::new();
        stack.push(dir);
        assert(stack@.drop_last().len() == 0);
        assert(order::pending(self@, stack@.drop_last()).len() == 0);
        assert(done + order::pending(self@, stack@) =~= walk);
        while stack.len() > 0
            invariant
                self.wf(),
                self@.is_dir(dir),
                n == self@.dirs.len(),
                marks@.len() == n,
                walk == self@.preorder(dir),
                done + order::pending(self@, stack@) == walk,
                forall|x: int| 0 <= x < n ==> #[trigger] marks@[x] == done.contains(x as u32),
                forall|i: int| 0 <= i < stack@.len() ==> (#[trigger] stack@[i]) < n,
            decreases order::pending(self@, stack@).len(),
        {
            let ghost before = stack@;
            let ghost done_before = done;
            let d: u32 = match stack.pop() {
                Some(d) => d,
                None => dir,
            };
            let ghost rest = stack@;
            let ghost list = self@.dirs[d as int].children;
            assert(before[before.len() - 1] == d);
            proof {
                assert(before.last() == d);
                assert(before.drop_last() =~= rest);
                order::lemma_children_walkable(self@, d);
                done = done.push(d);
                order::lemma_pending_stacked(self@, rest, d as int, list, d);
                assert(done + order::pending(self@, order::stacked(rest, list)) =~= done_before
                    + order::pending(self@, before));
            }
            let ghost marks_before = marks@;
            marks[d as usize] = true;
            assert forall|x: int| 0 <= x < n implies #[trigger] marks@[x] == done.contains(x as u32) by {
                assert(marks_before[x] == done_before.contains(x as u32));
                if x == d {
                    assert(done[done.len() - 1] == x as u32);
                } else {
                    if done_before.contains(x as u32) {
                        let m = choose|m: int| 0 <= m < done_before.len() && done_before[m] == x as u32;
                        assert(done[m] == x as u32);
                    }
                    if done.contains(x as u32) {
                        let m = choose|m: int| 0 <= m < done.len() && done[m] == x as u32;
                        assert(done_before[m] == x as u32);
                    }
                }
            }
            let mut j: usize = self.dir_children[d as usize].len();
            assert(list.skip(j as int) =~= Seq::empty());
            assert(order::stacked(rest, list.skip(j as int)) =~= rest);
            while j > 0
                invariant
                    self.wf(),
                    d < n,
                    n == self@.dirs.len(),
                    list == self@.dirs[d as int].children,
                    list == self.dir_children@[d as int]@,
                    j <= list.len(),
                    stack@ == order::stacked(rest, list.skip(j as int)),
                    self@.siblings(list, d),
                decreases j,
            {
                j -= 1;
                stack.push(self.dir_children[d as usize][j]);
                assert(list.skip(j as int)[0] == list[j as int]);
                assert(list.skip(j as int).skip(1) =~= list.skip(j + 1));
                assert(stack@ =~= order::stacked(rest, list.skip(j as int)));
            }
            assert(list.skip(0) =~= list);
            assert forall|i: int| 0 <= i < stack@.len() implies (#[trigger] stack@[i]) < n by {
                if i < rest.len() {
                    assert(stack@[i] == before[i]);
                } else {
                    assert(list.reverse()[i - rest.len()] == stack@[i]);
                    assert(list[list.len() - 1 - (i - rest.len())] == stack@[i]);
                }
            }
        }
        assert(done =~= walk);
        assert forall|x: int| 0 <= x < marks@.len() implies #[trigger] marks@[x] == self@.in_subtree(
            x as u32,
            dir,
        ) by {
            if walk.contains(x as u32) {
                order::lemma_walk_in_subtree(self@, dir, x as u32);
            }
            if self@.in_subtree(x as u32, dir) {
                order::lemma_subtree_in_walk(self@, dir, x as u32);
            }
        }
        marks
    }

    /// Takes a directory out of its parent's list.
    #[verifier::spinoff_prover]
    fn detach(&mut self, dir: u32)
        requires
            old(self).wf(),
            old(self)@.is_dir(dir),
        ensures
            final(self).wf(),
            final(self)@ == old(self)@.detach(dir),
            !final(self).is_warm(),
    {
        let ghost v = self@;
        let ghost w = v.detach(dir);
        proof {
            assert(v.dir_wf(dir as int));
            keeps::law_detach_keeps_wf(v, dir);
        }
        self.dir_paths = None;
        let parent: u32 = self.dirs[dir as usize].parent;
        if parent == NO_DIR {
            self.roots = without_id(&self.roots, dir);
        } else {
            let kept: Vec<u32> = without_id(&self.dir_children[parent as usize], dir);
            self.dir_children[parent as usize] = kept;
        }
        proof {
            assert forall|d: int| 0 <= d < w.dirs.len() implies self@.dirs[d] == w.dirs[d] by {
                assert(v.dirs[d] == old(self).dir_view(d));
            }
            assert(self@.dirs =~= w.dirs);
            assert(self@.slots =~= w.slots);
            assert(self@ == w);
            assert forall|i: int| 0 <= i < self.sig@.len() && !model::has_dead_bit(self.eflags@[i]) implies {
                let name = self.slot_view(i).name;
                &&& #[trigger] self.sig@[i] == model::signature_of(name)
                &&& self.sig2@[i] == model::signature2_of(name)
                &&& self.first@[i] == first_byte_of(name)
            } by {
                assert(old(self).sig@[i] == model::signature_of(old(self).slot_view(i).name));
            }
        }
    }

    /// Tombstones every entry under `dir` (inclusive) and detaches the subtree
    /// from its parent. Returns the removed entry ids so the caller can queue
    /// the matching database deletes.
    pub fn remove_dir_subtree(&mut self, dir: u32) -> (removed: Vec<u32>)
        requires
            old(self).wf(),
            old(self)@.is_dir(dir),
        ensures
            final(self).wf(),
            final(self)@ == old(self)@.remove_subtree(dir),
            removed@ == old(self)@.subtree_entries(dir),
            !final(self).is_warm(),
    {
        let ghost v = self@;
        let ghost set = v.subtree(dir);
        let marks: Vec<bool> = self.mark_subtree(dir);
        self.detach(dir);
        let ghost base = self@;
        let n: usize = self.sig.len();
        let mut removed: Vec<u32> = Vec::new();
        let mut i: usize = 0;
        assert(removed@ =~= v.live_in(set, 0));
        while i < n
            invariant
                self.wf(),
                v.wf(),
                v.is_dir(dir),
                base.wf(),
                base == v.detach(dir),
                set == v.subtree(dir),
                n == v.slots.len(),
                n == self@.slots.len(),
                i <= n,
                marks@.len() == v.dirs.len(),
                forall|x: int| 0 <= x < marks@.len() ==> #[trigger] marks@[x] == v.in_subtree(x as u32, dir),
                removed@ == v.live_in(set, i as int),
                self@ == base.remove_all(removed@),
                !self.is_warm(),
            decreases n - i,
        {
            proof {
                keeps::lemma_live_in(v, set, i as int);
                keeps::lemma_remove_all_others(base, removed@, i as int);
                assert(v.slot_wf(i as int));
                assert(self@.slots[i as int] == self.slot_view(i as int));
            }
            let ghost before = removed@;
            let dir_at: usize = self.edir[i] as usize;
            assert(set.contains(v.slots[i as int].dir) == (dir_at < marks@.len() && marks@[dir_at as int]));
            if self.eflags[i] & flags::DEAD == 0 && dir_at < marks.len() && marks[dir_at] {
                self.remove_entry(i as u32);
                removed.push(i as u32);
                assert(removed@.drop_last() =~= before);
            }
            i += 1;
        }
        removed
    }
}

// ---- paths -----------------------------------------------------------

/// A path with the names of a chain of directories appended, the last directory
/// of the chain first.
spec fn apply_chain(v: IndexView, base: Seq<u8>, chain: Seq<u32>) -> Seq<u8>
    decreases chain.len(),
{
    if chain.len() == 0 {
        base
    } else {
        apply_chain(
            v,
            tree::push_component(base, v.dirs[chain.last() as int].name),
            chain.drop_last(),
        )
    }
}

impl Index {
    /// Appends the path of a directory to `out`; nothing where there is no such
    /// directory.
    pub fn dir_path_into(&self, dir: u32, out: &mut Vec<u8>)
        requires
            self.wf(),
        ensures
            final(out)@ == self@.append_dir_path(dir, old(out)@),
    {
        if dir as usize >= self.dirs.len() {
            return;
        }
        let ghost start = out@;
        let mut chain: Vec<u32> = Vec::new();
        let mut cur: u32 = dir;
        while cur != NO_DIR
            invariant
                self.wf(),
                paths::is_place(self@, cur),
                forall|i: int| 0 <= i < chain@.len() ==> (#[trigger] chain@[i]) < self@.dirs.len(),
                apply_chain(self@, self@.append_dir_path(cur, start), chain@) == self@.append_dir_path(
                    dir,
                    start,
                ),
            decreases (if cur == NO_DIR { 0int } else { cur + 1 }),
        {
            let ghost before = chain@;
            assert(self@.dir_wf(cur as int));
            chain.push(cur);
            assert(chain@.drop_last() =~= before);
            cur = self.dirs[cur as usize].parent;
        }
        while chain.len() > 0
            invariant
                self.wf(),
                forall|i: int| 0 <= i < chain@.len() ==> (#[trigger] chain@[i]) < self@.dirs.len(),
                apply_chain(self@, out@, chain@) == self@.append_dir_path(dir, start),
            decreases chain@.len(),
        {
            let ghost before = chain@;
            match chain.pop() {
                Some(d) => {
                    assert(before[before.len() - 1] == d);
                    assert(before.drop_last() =~= chain@);
                    self.push_component(d, out);
                },
                None => {},
            }
        }
    }

    fn push_component(&self, dir: u32, out: &mut Vec<u8>)
        requires
            self.wf(),
            self@.is_dir(dir),
        ensures
            final(out)@ == tree::push_component(old(out)@, self@.dirs[dir as int].name),
    {
        let name: &[u8] = self.dir_name(dir);
        if name.is_empty() {
            if out.is_empty() {
                out.push(path::SLASH);
                assert(out@ =~= seq![47u8]);
            }
            return;
        }
        push_slash(out);
        let ghost before = out@;
        out.extend_from_slice(name);
        assert(out@ =~= before + name@);
    }

    /// The path of an entry, in place of what `out` held.
    pub fn path_into(&self, id: u32, out: &mut Vec<u8>)
        requires
            self.wf(),
            id < self@.slots.len(),
        ensures
            final(out)@ == self@.entry_path(id as int),
    {
        assert(self@.slots[id as int] == self.slot_view(id as int));
        out.clear();
        self.dir_path_into(self.edir[id as usize], out);
        push_slash(out);
        let ghost before = out@;
        let name: &[u8] = self.name(id);
        out.extend_from_slice(name);
        assert(out@ =~= before + name@);
    }

    pub fn path_of(&self, id: u32) -> (r: Vec<u8>)
        requires
            self.wf(),
            id < self@.slots.len(),
        ensures
            r@ == self@.entry_path(id as int),
    {
        let mut buf: Vec<u8> = Vec::with_capacity(128);
        self.path_into(id, &mut buf);
        buf
    }

    pub fn dir_path_of(&self, dir: u32) -> (r: Vec<u8>)
        requires
            self.wf(),
        ensures
            r@ == self@.dir_path(dir),
    {
        let mut buf: Vec<u8> = Vec::with_capacity(128);
        self.dir_path_into(dir, &mut buf);
        buf
    }
}

/// Appends a slash where the path does not end in one.
fn push_slash(out: &mut Vec<u8>)
    ensures
        final(out)@ == tree::with_slash(old(out)@),
{
    let n: usize = out.len();
    if n == 0 || out[n - 1] != path::SLASH {
        out.push(path::SLASH);
    }
}

// ---- maintenance -----------------------------------------------------

/// The directories of a stack of directories and their new parents.
spec fn stack_ids(stack: Seq<(u32, u32)>) -> Seq<u32> {
    Seq::new(stack.len(), |i: int| stack[i].0)
}

/// Each directory on the stack comes with the new id of its parent.
spec fn stack_fits(v: IndexView, stack: Seq<(u32, u32)>, walked: int) -> bool {
    forall|i: int|
        0 <= i < stack.len() ==> {
            let (d, p) = #[trigger] stack[i];
            &&& d < v.dirs.len()
            &&& p == tree::moved(v.forest(), v.dirs[d as int].parent)
            &&& p == NO_DIR || p < walked
        }
}

/// The new ids of the first `walked` directories of the forest; `NO_DIR` for all
/// others.
spec fn map_fits(v: IndexView, map: Seq<u32>, walked: int) -> bool {
    &&& map.len() == v.dirs.len()
    &&& forall|x: int| #![trigger map[x]]
        0 <= x < map.len() ==> map[x] == NO_DIR || map[x] < walked && v.forest()[map[x] as int] == x
    &&& forall|j: int| 0 <= j < walked ==> map[(#[trigger] v.forest()[j]) as int] == j
}

impl Index {
    /// The share of tombstoned slots, as a numerator and a denominator; zero for
    /// an empty index.
    pub fn garbage_ratio(&self) -> (r: (usize, usize))
        requires
            self.wf(),
        ensures
            r.0 == tree::dead_count(self@.slots),
            r.1 == (if self@.slots.len() == 0 {
                1
            } else {
                self@.slots.len()
            }),
    {
        proof {
            keeps::lemma_dead_count_bounds(self@.slots);
        }
        if self.sig.is_empty() {
            (0, 1)
        } else {
            (self.dead, self.sig.len())
        }
    }

    /// The attached directories, added to an empty index in the order of the
    /// forest, and the new id of each.
    fn replay_dirs(&self) -> (r: (Index, Vec<u32>))
        requires
            self.wf(),
            self@.dir_name_bytes <= u32::MAX,
        ensures
            r.0.wf(),
            r.0@ == self@.replay_dirs(self@.forest(), self@.forest().len()),
            map_fits(self@, r.1@, self@.forest().len() as int),
            !r.0.is_warm(),
    {
        let ghost v = self@;
        let ghost walk = v.forest();
        let n: usize = self.dirs.len();
        let mut new: Index = Index::new();
        let mut dir_map: Vec<u32> = Vec::new();
        let mut k: usize = 0;
        while k < n
            invariant
                k <= n,
                dir_map@.len() == k,
                forall|x: int| 0 <= x < k ==> #[trigger] dir_map@[x] == NO_DIR,
            decreases n - k,
        {
            dir_map.push(NO_DIR);
            k += 1;
        }
        proof {
            order::law_forest_order(v);
            assert(order::walkable(v, -1, v.roots, NO_DIR));
        }
        let mut stack: Vec<(u32, u32)> = Vec::new();
        let mut j: usize = self.roots.len();
        assert(v.roots.skip(j as int) =~= Seq::empty());
        assert(stack_ids(stack@) =~= order::stacked(Seq::empty(), v.roots.skip(j as int)));
        while j > 0
            invariant
                self.wf(),
                v == self@,
                j <= v.roots.len(),
                v.roots == self.roots@,
                stack_ids(stack@) == order::stacked(Seq::empty(), v.roots.skip(j as int)),
                stack_fits(v, stack@, 0),
            decreases j,
        {
            j -= 1;
            let ghost before = stack@;
            stack.push((self.roots[j], NO_DIR));
            proof {
                assert(v.roots[j as int] < v.dirs.len() && v.dirs[v.roots[j as int] as int].parent == NO_DIR);
                assert(v.roots.skip(j as int)[0] == v.roots[j as int]);
                assert(v.roots.skip(j as int).skip(1) =~= v.roots.skip(j + 1));
                assert(stack_ids(stack@) =~= stack_ids(before).push(v.roots[j as int]));
                assert(stack_ids(stack@) =~= order::stacked(Seq::empty(), v.roots.skip(j as int)));
                assert(stack_fits(v, stack@, 0)) by {
                    assert forall|i: int| 0 <= i < stack@.len() implies {
                        let (d, p) = #[trigger] stack@[i];
                        &&& d < v.dirs.len()
                        &&& p == tree::moved(v.forest(), v.dirs[d as int].parent)
                        &&& p == NO_DIR || p < 0
                    } by {
                        if i < before.len() {
                            assert(stack@[i] == before[i]);
                        }
                    }
                }
            }
        }
        proof {
            assert(v.roots.skip(0) =~= v.roots);
            order::lemma_pending_stacked(v, Seq::empty(), -1, v.roots, NO_DIR);
            assert(order::pending(v, stack_ids(stack@)) =~= walk);
            assert(new@ == v.replay_dirs(walk, 0));
            assert(walk.subrange(0, 0) + order::pending(v, stack_ids(stack@)) =~= walk);
        }
        while stack.len() > 0
            invariant
                self.wf(),
                v == self@,
                walk == v.forest(),
                n == v.dirs.len(),
                v.dir_name_bytes <= u32::MAX,
                new.wf(),
                !new.is_warm(),
                new@.dirs.len() <= walk.len(),
                new@ == v.replay_dirs(walk, new@.dirs.len()),
                walk.subrange(0, new@.dirs.len() as int) + order::pending(v, stack_ids(stack@)) == walk,
                stack_fits(v, stack@, new@.dirs.len() as int),
                map_fits(v, dir_map@, new@.dirs.len() as int),
            decreases order::pending(v, stack_ids(stack@)).len(),
        {
            let ghost before = stack@;
            let ghost walked = new@.dirs.len() as int;
            let ghost map_before = dir_map@;
            proof {
                assert(stack_ids(before).last() == before[before.len() - 1].0);
            }
            let (old_id, new_parent) = match stack.pop() {
                Some(top) => top,
                None => (0, NO_DIR),
            };
            let ghost rest = stack@;
            let ghost list = v.dirs[old_id as int].children;
            proof {
                order::law_forest_order(v);
                assert(before[before.len() - 1] == (old_id, new_parent));
                assert(stack_ids(before).drop_last() =~= stack_ids(rest));
                assert(order::pending(v, stack_ids(before)) == v.preorder(old_id) + order::pending(
                    v,
                    stack_ids(rest),
                ));
                assert(v.preorder(old_id)[0] == old_id);
                assert(walk[walked] == (walk.subrange(0, walked) + order::pending(v, stack_ids(before)))[walked]);
                assert(walk[walked] == old_id);
                compaction::lemma_replay_dirs(v, walked);
                order::lemma_children_walkable(v, old_id);
                compaction::lemma_moved(walk, walked);
                assert(v.dir_wf(old_id as int));
            }
            let name: Vec<u8> = vstd::slice::slice_to_vec(self.dir_name(old_id));
            let id: u32 = new.add_dir(new_parent, name.as_slice());
            dir_map[old_id as usize] = id;
            proof {
                assert(map_fits(v, dir_map@, walked + 1)) by {
                    assert forall|x: int| #![trigger dir_map@[x]] 0 <= x < dir_map@.len() implies dir_map@[x]
                        == NO_DIR || dir_map@[x] < walked + 1 && walk[dir_map@[x] as int] == x by {
                        if x != old_id {
                            assert(dir_map@[x] == map_before[x]);
                        }
                    }
                    assert forall|m: int| 0 <= m < walked + 1 implies dir_map@[(#[trigger] walk[m]) as int] == m by {
                        if m < walked {
                            assert(walk[m] != walk[walked]);
                            assert(map_before[walk[m] as int] == m);
                        }
                    }
                }
            }
            let mut j: usize = self.dir_children[old_id as usize].len();
            assert(list.skip(j as int) =~= Seq::empty());
            assert(stack_ids(stack@) =~= order::stacked(stack_ids(rest), list.skip(j as int)));
            assert(stack_fits(v, stack@, walked + 1)) by {
                assert forall|i: int| 0 <= i < stack@.len() implies {
                    let (d, p) = #[trigger] stack@[i];
                    &&& d < v.dirs.len()
                    &&& p == tree::moved(v.forest(), v.dirs[d as int].parent)
                    &&& p == NO_DIR || p < walked + 1
                } by {
                    assert(stack@[i] == before[i]);
                }
            }
            while j > 0
                invariant
                    self.wf(),
                    v == self@,
                    walk == v.forest(),
                    old_id < v.dirs.len(),
                    list == v.dirs[old_id as int].children,
                    list == self.dir_children@[old_id as int]@,
                    j <= list.len(),
                    v.siblings(list, old_id),
                    id == walked,
                    id != NO_DIR,
                    tree::moved(walk, old_id) == id,
                    stack_ids(stack@) == order::stacked(stack_ids(rest), list.skip(j as int)),
                    stack_fits(v, stack@, walked + 1),
                decreases j,
            {
                j -= 1;
                let ghost before = stack@;
                stack.push((self.dir_children[old_id as usize][j], id));
                proof {
                    assert(list[j as int] < v.dirs.len() && v.dirs[list[j as int] as int].parent == old_id);
                    assert(list.skip(j as int)[0] == list[j as int]);
                    assert(list.skip(j as int).skip(1) =~= list.skip(j + 1));
                    assert(stack_ids(stack@) =~= stack_ids(before).push(list[j as int]));
                    assert(stack_ids(stack@) =~= order::stacked(stack_ids(rest), list.skip(j as int)));
                    assert(stack_fits(v, stack@, walked + 1)) by {
                        assert forall|i: int| 0 <= i < stack@.len() implies {
                            let (d, p) = #[trigger] stack@[i];
                            &&& d < v.dirs.len()
                            &&& p == tree::moved(v.forest(), v.dirs[d as int].parent)
                            &&& p == NO_DIR || p < walked + 1
                        } by {
                            if i < before.len() {
                                assert(stack@[i] == before[i]);
                            }
                        }
                    }
                }
            }
            proof {
                assert(list.skip(0) =~= list);
                order::lemma_pending_stacked(v, stack_ids(rest), old_id as int, list, old_id);
                assert(walk.subrange(0, walked + 1) =~= walk.subrange(0, walked).push(old_id));
                assert(walk.subrange(0, walked + 1) + order::pending(v, stack_ids(stack@)) =~= walk.subrange(
                    0,
                    walked,
                ) + order::pending(v, stack_ids(before)));
            }
        }
        proof {
            assert(order::pending(v, stack_ids(stack@)).len() == 0);
            assert(walk.subrange(0, new@.dirs.len() as int) =~= walk);
        }
        (new, dir_map)
    }

    /// Rebuilds the arena and columns, dropping tombstones and unreachable
    /// directories. **Entry and directory ids are renumbered.**
    pub fn compact(&mut self)
        requires
            old(self).wf(),
            old(self)@.name_bytes <= u32::MAX,
            old(self)@.dir_name_bytes <= u32::MAX,
        ensures
            final(self).wf(),
            final(self)@ == old(self)@.compacted(),
            !final(self).is_warm(),
    {
        let ghost v = self@;
        let ghost walk = v.forest();
        let (mut new, dir_map) = self.replay_dirs();
        proof {
            order::law_forest_order(v);
            compaction::lemma_replay_slots(v, 0);
        }
        let n: usize = self.sig.len();
        let mut i: usize = 0;
        while i < n
            invariant
                self.wf(),
                v == self@,
                v.name_bytes <= u32::MAX,
                walk == v.forest(),
                n == v.slots.len(),
                i <= n,
                new.wf(),
                new@ == v.replay_slots(walk, i as nat),
                !new.is_warm(),
                map_fits(v, dir_map@, walk.len() as int),
            decreases n - i,
        {
            proof {
                order::law_forest_order(v);
                compaction::lemma_replay_slots(v, i as int);
                assert(v.slot_wf(i as int));
                assert(v.slots[i as int] == self.slot_view(i as int));
                lemma_slot_bytes_prefix(v.slots, i as int);
            }
            if self.eflags[i] & flags::DEAD == 0 {
                let old: usize = self.edir[i] as usize;
                let nd: u32 = if old < dir_map.len() {
                    dir_map[old]
                } else {
                    NO_DIR
                };
                proof {
                    let d = v.slots[i as int].dir;
                    if walk.contains(d) {
                        let at = walk.index_of(d);
                        assert(0 <= at < walk.len() && walk[at] == d);
                        compaction::lemma_moved(walk, at);
                        assert(dir_map@[walk[at] as int] == at);
                    } else if nd != NO_DIR {
                        assert(walk[nd as int] == d);
                    }
                    assert(nd == tree::moved(walk, d));
                    compaction::lemma_replay_dirs(v, walk.len() as int);
                }
                if nd != NO_DIR {
                    let name: Vec<u8> = vstd::slice::slice_to_vec(self.names.get(self.off[i], self.len[i]));
                    new.push_entry(nd, name.as_slice(), self.eflags[i], self.size[i], self.mtime[i]);
                }
            }
            i += 1;
        }
        *self = new;
    }

    /// Compacts when the share of tombstones exceeds `num / den`, and says
    /// whether it did.
    pub fn compact_if_needed(&mut self, num: usize, den: usize) -> (r: bool)
        requires
            old(self).wf(),
            old(self)@.name_bytes <= u32::MAX,
            old(self)@.dir_name_bytes <= u32::MAX,
        ensures
            final(self).wf(),
            r == (tree::dead_count(old(self)@.slots) * den > num * old(self)@.slots.len()),
            final(self)@ == (if r {
                old(self)@.compacted()
            } else {
                old(self)@
            }),
            final(self).kept_paths() == (if r {
                None
            } else {
                old(self).kept_paths()
            }),
    {
        let (dead, total) = self.garbage_ratio();
        proof {
            assert(0 <= dead * den <= 0xFFFF_FFFF_FFFF_FFFF * 0xFFFF_FFFF_FFFF_FFFF) by (nonlinear_arith)
                requires
                    0 <= dead <= 0xFFFF_FFFF_FFFF_FFFF,
                    0 <= den <= 0xFFFF_FFFF_FFFF_FFFF,
            ;
            let len = self.sig@.len();
            assert(0 <= num * len <= 0xFFFF_FFFF_FFFF_FFFF * 0xFFFF_FFFF_FFFF_FFFF) by (nonlinear_arith)
                requires
                    0 <= num <= 0xFFFF_FFFF_FFFF_FFFF,
                    0 <= len <= 0xFFFF_FFFF_FFFF_FFFF,
            ;
        }
        if dead as u128 * den as u128 > num as u128 * self.sig.len() as u128 {
            self.compact();
            true
        } else {
            false
        }
    }

    /// The bytes of the directory paths that are kept.
    pub open spec fn path_bytes(&self) -> int {
        match self.kept_paths() {
            Some(dp) => (total_bytes(dp@) + dp@.len() * 8) as int,
            None => 0,
        }
    }

    /// The room that the index was given.
    fn room(&self) -> (r: Room)
        requires
            self.wf(),
        ensures
            r.covers(self@),
    {
        let ghost v = self@;
        let n: usize = self.dir_children.len();
        let mut links: Vec<usize> = Vec::new();
        let mut i: usize = 0;
        while i < n
            invariant
                v == self@,
                n == self.dir_children@.len(),
                n == v.dirs.len(),
                i <= n,
                links@.len() == i,
                forall|d: int| 0 <= d < i ==> #[trigger] links@[d] >= v.dirs[d].children.len(),
            decreases n - i,
        {
            assert(v.dirs[i as int].children == self.dir_children@[i as int]@);
            links.push(vec_capacity(&self.dir_children[i]));
            i += 1;
        }
        Room {
            names: self.names.capacity(),
            dir_names: self.dir_names.capacity(),
            slots: vec_capacity(&self.sig),
            dirs: vec_capacity(&self.dirs),
            lists: vec_capacity(&self.dir_children),
            links,
        }
    }

    /// Approximate resident size of the index in bytes: what the room that it was
    /// given takes, and the directory paths that are kept. How much room there is
    /// beyond the contents is up to the allocator.
    pub fn memory_bytes(&self) -> (r: usize)
        requires
            self.wf(),
        ensures
            exists|room: Room| #[trigger]
                room.covers(self@) && r == capped(room_bytes(room, self.path_bytes())),
    {
        let room: Room = self.room();
        let paths: usize = match &self.dir_paths {
            Some(dp) => dp.bytes(),
            None => 0,
        };
        assert(paths == capped(self.path_bytes()));
        resident_bytes(&room, paths)
    }
}

/// The columns of an entry, in bytes.
pub const ENTRY_BYTES: usize = 40;

/// How many items the parts of an index have room for: the bytes of the names of
/// entries and of directories, the slots of entries, the directories, their lists of
/// children, and the children in each list.
#[derive(Debug, Clone)]
pub struct Room {
    pub names: usize,
    pub dir_names: usize,
    pub slots: usize,
    pub dirs: usize,
    pub lists: usize,
    pub links: Vec<usize>,
}

impl Room {
    /// There is room for all that an index holds.
    pub open spec fn covers(self, v: IndexView) -> bool {
        &&& self.names >= v.name_bytes
        &&& self.dir_names >= v.dir_name_bytes
        &&& self.slots >= v.slots.len()
        &&& self.dirs >= v.dirs.len()
        &&& self.lists >= v.dirs.len()
        &&& self.links@.len() == v.dirs.len()
        &&& forall|d: int| 0 <= d < v.dirs.len() ==> #[trigger] self.links@[d] >= v.dirs[d].children.len()
    }
}

/// The sum of some numbers.
pub open spec fn sum_of(s: Seq<usize>) -> nat
    decreases s.len(),
{
    if s.len() == 0 {
        0
    } else {
        sum_of(s.drop_last()) + s.last() as nat
    }
}

/// What the room takes, in bytes, and the kept paths besides.
pub open spec fn room_bytes(room: Room, paths: int) -> int {
    room.names + room.dir_names + room.slots * ENTRY_BYTES + room.dirs * vstd::layout::size_of::<DirNode>() + paths + 4
        * sum_of(room.links@) + room.lists * vstd::layout::size_of::<Vec<u32>>()
}

/// What the room takes, in bytes, and the kept paths besides; `usize::MAX` where
/// that does not fit.
pub fn resident_bytes(room: &Room, paths: usize) -> (r: usize)
    ensures
        r == capped(room_bytes(*room, paths as int)),
{
    let ghost node = vstd::layout::size_of::<DirNode>() as int;
    let mut total: usize = room.names.saturating_add(room.dir_names);
    total = total.saturating_add(capped_product(room.slots, ENTRY_BYTES));
    total = total.saturating_add(capped_product(room.dirs, core::mem::size_of::<DirNode>()));
    total = total.saturating_add(paths);
    let n: usize = room.links.len();
    let mut i: usize = 0;
    assert(room.links@.subrange(0, 0).len() == 0);
    while i < n
        invariant
            n == room.links@.len(),
            i <= n,
            total == capped(
                room.names + room.dir_names + room.slots * ENTRY_BYTES + room.dirs * node + paths + 4 * sum_of(
                    room.links@.subrange(0, i as int),
                ),
            ),
            0 <= room.dirs * node,
        decreases n - i,
    {
        assert(room.links@.subrange(0, i + 1).drop_last() =~= room.links@.subrange(0, i as int));
        total = total.saturating_add(capped_product(room.links[i], 4));
        i += 1;
    }
    assert(room.links@.subrange(0, n as int) =~= room.links@);
    total.saturating_add(capped_product(room.lists, core::mem::size_of::<Vec<u32>>()))
}

/// The names of some first slots are no longer than those of all.
proof fn lemma_slot_bytes_prefix(slots: Seq<SlotView>, k: int)
    requires
        0 <= k <= slots.len(),
    ensures
        tree::slot_bytes(slots.subrange(0, k)) <= tree::slot_bytes(slots),
    decreases slots.len(),
{
    if k == slots.len() {
        assert(slots.subrange(0, k) =~= slots);
    } else {
        assert(slots.drop_last().subrange(0, k) =~= slots.subrange(0, k));
        lemma_slot_bytes_prefix(slots.drop_last(), k);
    }
}

/// The materialized paths of the directories of `v`.
pub open spec fn paths_for(dp: &DirPaths, v: IndexView) -> bool {
    &&& dp.wf()
    &&& dp@.len() == v.dirs.len()
    &&& forall|d: int| 0 <= d < v.dirs.len() ==> #[trigger] dp@[d] == v.dir_prefix(d as u32)
}

} // verus!
