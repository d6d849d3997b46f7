//! Folding a walk of the filesystem into the index.

use vstd::prelude::*;

use crate::arena;
use crate::config::Config;
use crate::index::{Index, NO_DIR};
use crate::model;
use crate::model::flags;
use crate::outside;
use crate::outside::lossy_text;
use crate::path;
use crate::path::{eq_path, named_path_components};
use crate::tree;
use crate::tree::keeps;
use crate::tree::paths;
use crate::tree::IndexView;

pub mod skips;
pub mod ways;

verus! {

#[derive(Debug, Clone, Copy)]
pub struct ScanStats {
    pub dirs: usize,
    pub files: usize,
    pub errors: usize,
}

impl Default for ScanStats {
    fn default() -> (r: Self)
        ensures
            r.dirs == 0,
            r.files == 0,
            r.errors == 0,
    {
        ScanStats { dirs: 0, files: 0, errors: 0 }
    }
}

impl ScanStats {
    pub fn total(&self) -> (r: usize)
        requires
            self.dirs + self.files <= usize::MAX,
        ensures
            r == self.dirs + self.files,
    {
        self.dirs + self.files
    }
}

/// One result of a walk, which visits a directory before what lies in it, and
/// all that lies in it before what comes after it.
#[derive(Debug, Clone)]
pub enum WalkItem {
    /// Something could not be read.
    Failed,
    /// An entry, `depth` steps below the root of the walk.
    Found { depth: usize, name: Vec<u8>, is_dir: bool, flags: u8, size: u64, mtime: i64 },
}

/// A directory is skipped: its name or its path is excluded.
pub open spec fn is_skipped(config: Config, name: Seq<u8>, place: Seq<u8>) -> bool {
    ||| exists|i: int|
        0 <= i < config.scan_excludes@.len() && (#[trigger] config.scan_excludes@[i])@ == outside::lossy_text_of(
            name,
        )
    ||| exists|i: int|
        0 <= i < config.exclude_paths@.len() && path::same_path((#[trigger] config.exclude_paths@[i])@, place)
}

/// Whether a walk takes an entry: everything but excluded directories.
pub fn takes_child(config: &Config, is_dir: bool, name: &[u8], place: &[u8]) -> (r: bool)
    ensures
        r == (!is_dir || !is_skipped(*config, name@, place@)),
{
    if !is_dir {
        return true;
    }
    let text: String = lossy_text(name);
    let n: usize = config.scan_excludes.len();
    let mut i: usize = 0;
    while i < n
        invariant
            n == config.scan_excludes@.len(),
            i <= n,
            is_dir,
            text@ == outside::lossy_text_of(name@),
            forall|j: int| 0 <= j < i ==> (#[trigger] config.scan_excludes@[j])@ != text@,
        decreases n - i,
    {
        if config.scan_excludes[i] == text {
            assert(config.scan_excludes@[i as int]@ == text@);
            return false;
        }
        i += 1;
    }
    let m: usize = config.exclude_paths.len();
    let mut i: usize = 0;
    while i < m
        invariant
            m == config.exclude_paths@.len(),
            i <= m,
            is_dir,
            forall|j: int|
                0 <= j < i ==> !path::same_path((#[trigger] config.exclude_paths@[j])@, place@),
        decreases m - i,
    {
        if eq_path(config.exclude_paths[i].as_slice(), place) {
            assert(path::same_path(config.exclude_paths@[i as int]@, place@));
            return false;
        }
        i += 1;
    }
    true
}

/// The flags of a walked entry.
pub open spec fn walked_flags(is_symlink: bool, is_dir: bool, name: Seq<u8>) -> u8 {
    let link = if is_symlink {
        flags::SYMLINK
    } else {
        0u8
    };
    let dir = if is_dir {
        link | flags::DIR
    } else {
        link
    };
    if name.len() > 0 && name[0] == 46 {
        dir | flags::HIDDEN
    } else {
        dir
    }
}

/// The flags of a walked entry: link, directory, hidden.
pub fn entry_flags(is_symlink: bool, is_dir: bool, name: &[u8]) -> (r: u8)
    ensures
        r == walked_flags(is_symlink, is_dir, name@),
        !model::has_dead_bit(r),
{
    let mut f: u8 = 0;
    if is_symlink {
        f = flags::SYMLINK;
    }
    if is_dir {
        f = f | flags::DIR;
    }
    if name.len() > 0 && name[0] == 46 {
        f = f | flags::HIDDEN;
    }
    proof {
        assert(0u8 & 4 == 0 && 2u8 & 4 == 0 && (0u8 | 1) & 4 == 0 && (2u8 | 1) & 4 == 0 && (0u8 | 8) & 4 == 0 && (
        2u8 | 8) & 4 == 0 && ((0u8 | 1) | 8) & 4 == 0 && ((2u8 | 1) | 8) & 4 == 0) by (bit_vector);
    }
    f
}

/// Where a walk stands: the directories from the root down, and the counts.
pub struct WalkState {
    pub index: IndexView,
    pub open: Seq<u32>,
    pub dirs: nat,
    pub files: nat,
    pub errors: nat,
}

impl WalkState {
    /// One more result of the walk. The root itself is passed over; an entry
    /// whose directory is not open counts as an error.
    pub open spec fn with_item(self, item: WalkItem) -> WalkState {
        match item {
            WalkItem::Failed => WalkState { errors: self.errors + 1, ..self },
            WalkItem::Found { depth, name, is_dir, flags, size, mtime } => if depth == 0 {
                self
            } else if depth > self.open.len() {
                WalkState { errors: self.errors + 1, ..self }
            } else {
                let parent = self.open[depth - 1];
                let w = self.index.push_entry(parent, name@, flags, size, mtime);
                if is_dir {
                    WalkState {
                        index: w.add_dir(parent, name@),
                        open: self.open.subrange(0, depth as int).push(w.dirs.len() as u32),
                        dirs: self.dirs + 1,
                        ..self
                    }
                } else {
                    WalkState { index: w, files: self.files + 1, ..self }
                }
            },
        }
    }

    /// The first `k` results of the walk.
    pub open spec fn with_items(self, items: Seq<WalkItem>, k: nat) -> WalkState
        decreases k,
    {
        if k == 0 {
            self
        } else {
            self.with_items(items, (k - 1) as nat).with_item(items[k - 1])
        }
    }
}

/// The item's flags do not hold the tombstone bit.
pub open spec fn is_plain(item: WalkItem) -> bool {
    item matches WalkItem::Found { flags, .. } ==> !model::has_dead_bit(flags)
}

/// There is room for the directories that lead to a root.
pub open spec fn root_fits(v: IndexView, root: Seq<u8>) -> bool {
    paths::fits_chain(v, NO_DIR, path::named_components(root))
}

/// Folds the results of a walk into an index, one after the other.
#[derive(Debug)]
pub struct Scanner {
    open: Vec<u32>,
    stats: ScanStats,
}

impl Scanner {
    /// The directories from the root down that are open.
    pub closed spec fn open_dirs(&self) -> Seq<u32> {
        self.open@
    }

    pub closed spec fn counts(&self) -> ScanStats {
        self.stats
    }

    /// Where the walk stands on an index.
    pub open spec fn state(&self, v: IndexView) -> WalkState {
        WalkState {
            index: v,
            open: self.open_dirs(),
            dirs: self.counts().dirs as nat,
            files: self.counts().files as nat,
            errors: self.counts().errors as nat,
        }
    }

    /// The open directories are directories of the index; a root whose path names none
    /// stands for what has no directory.
    pub open spec fn fits(&self, v: IndexView) -> bool {
        forall|i: int| 0 <= i < self.open_dirs().len() ==> paths::is_place(v, #[trigger] self.open_dirs()[i])
    }

    /// A walk of the tree below a directory, its counts going on from `stats`.
    pub fn new(root: u32, stats: ScanStats) -> (r: Scanner)
        ensures
            r.open_dirs() == seq![root],
            r.counts() == stats,
    {
        let mut open: Vec<u32> = Vec::new();
        open.push(root);
        assert(open@ =~= seq![root]);
        Scanner { open, stats }
    }

    /// Starts the walk of a root: the directories that lead to it are made to
    /// exist. There is no walk where they do not fit.
    pub fn begin(index: &mut Index, root: &[u8], stats: ScanStats) -> (r: Option<Scanner>)
        requires
            old(index).wf(),
        ensures
            final(index).wf(),
            match r {
                Some(s) => {
                    let (w, id) = old(index)@.ensure(NO_DIR, path::named_components(root@));
                    &&& root_fits(old(index)@, root@)
                    &&& final(index)@ == w
                    &&& s.open_dirs() == seq![id]
                    &&& s.counts() == stats
                    &&& s.fits(w)
                },
                None => !root_fits(old(index)@, root@) && final(index)@ == old(index)@,
            },
    {
        let names: Vec<Vec<u8>> = named_path_components(root);
        if !index.chain_fits(&names) {
            return None;
        }
        proof {
            paths::law_ensure_keeps(index@, NO_DIR, path::named_components(root@));
        }
        let id: u32 = index.ensure_chain(&names);
        Some(Scanner::new(id, stats))
    }

    pub fn stats(&self) -> (r: ScanStats)
        ensures
            r == self.counts(),
    {
        self.stats
    }

    /// The item can be taken: its flags are plain, and the index and the counts
    /// have room for it.
    pub open spec fn takes(&self, v: IndexView, item: WalkItem) -> bool {
        &&& is_plain(item)
        &&& match item {
            WalkItem::Failed => true,
            WalkItem::Found { depth, name, is_dir, .. } => depth == 0 || depth > self.open_dirs().len()
                || v.fits_entry(name@) && (is_dir ==> v.fits_dir(name@)),
        }
        &&& self.counts().dirs < usize::MAX
        &&& self.counts().files < usize::MAX
        &&& self.counts().errors < usize::MAX
    }

    /// Whether the item can be taken.
    pub fn can_take(&self, index: &Index, item: &WalkItem) -> (r: bool)
        requires
            index.wf(),
        ensures
            r == self.takes(index@, *item),
    {
        let fits: bool = match item {
            WalkItem::Failed => true,
            WalkItem::Found { depth, name, is_dir, flags, .. } => *flags & flags::DEAD == 0 && (*depth == 0 || *depth
                > self.open.len() || index.fits_entry(name.as_slice()) && (!*is_dir || index.fits_dir(
                name.as_slice(),
            ))),
        };
        fits && self.stats.dirs < usize::MAX && self.stats.files < usize::MAX && self.stats.errors < usize::MAX
    }

    /// Takes one more result of the walk.
    pub fn take(&mut self, index: &mut Index, item: &WalkItem)
        requires
            old(index).wf(),
            old(self).fits(old(index)@),
            old(self).takes(old(index)@, *item),
        ensures
            final(index).wf(),
            final(self).fits(final(index)@),
            final(self).state(final(index)@) == old(self).state(old(index)@).with_item(*item),
            paths::extends(old(index)@, final(index)@),
    {
        let ghost v = index@;
        proof {
            lemma_extends_self(v);
        }
        match item {
            WalkItem::Failed => {
                self.stats.errors = self.stats.errors + 1;
            },
            WalkItem::Found { depth, name, is_dir, flags, size, mtime } => {
                if *depth == 0 {
                    return;
                }
                if *depth > self.open.len() {
                    self.stats.errors = self.stats.errors + 1;
                    assert(self.open_dirs() == old(self).open_dirs());
                    return;
                }
                let parent: u32 = self.open[*depth - 1];
                assert(self.open_dirs()[depth - 1] == parent);
                let _ = index.push_entry(parent, name.as_slice(), *flags, *size, *mtime);
                let ghost w = index@;
                assert(paths::extends(v, w)) by {
                    lemma_extends_same_dirs(v, w);
                }
                if *is_dir {
                    let id: u32 = index.add_dir(parent, name.as_slice());
                    proof {
                        paths::law_add_dir_is_found(w, parent, name@);
                        paths::lemma_extends_trans(v, w, index@);
                    }
                    self.open.truncate(*depth);
                    self.open.push(id);
                    self.stats.dirs = self.stats.dirs + 1;
                    assert(self.open@ =~= old(self).open@.subrange(0, *depth as int).push(id));
                    assert forall|i: int| 0 <= i < self.open_dirs().len() implies paths::is_place(
                        index@,
                        #[trigger] self.open_dirs()[i],
                    ) by {
                        if i < *depth {
                            assert(self.open_dirs()[i] == old(self).open_dirs()[i]);
                        }
                    }
                } else {
                    self.stats.files = self.stats.files + 1;
                    assert(self.open@ =~= old(self).open@);
                }
            },
        }
    }
}

proof fn lemma_extends_self(v: IndexView)
    ensures
        paths::extends(v, v),
{
}

proof fn lemma_extends_same_dirs(v: IndexView, w: IndexView)
    requires
        v.dirs == w.dirs,
        v.roots == w.roots,
    ensures
        paths::extends(v, w),
{
    assert forall|p: u32, name: Seq<u8>| paths::is_place(v, p) && v.child_dir(p, name) is Some implies #[trigger] w.child_dir(
        p,
        name,
    ) == v.child_dir(p, name) by {
        lemma_first_named_same(v, w, v.children(p), name);
    }
}

proof fn lemma_first_named_same(v: IndexView, w: IndexView, list: Seq<u32>, name: Seq<u8>)
    requires
        v.dirs == w.dirs,
    ensures
        w.first_named(list, name) == v.first_named(list, name),
    decreases list.len(),
{
    if list.len() > 0 {
        lemma_first_named_same(v, w, list.skip(1), name);
    }
}

/// The results of a walk that are about its root itself.
pub open spec fn root_items(items: Seq<WalkItem>, k: nat) -> nat
    decreases k,
{
    if k == 0 {
        0
    } else {
        root_items(items, (k - 1) as nat) + (if items[k - 1] matches WalkItem::Found { depth, .. } && depth == 0 {
            1nat
        } else {
            0nat
        })
    }
}

/// Every result of a walk is accounted for: as a directory, a file or an error,
/// or as the root; and there are as many new live entries as directories and
/// files.
pub proof fn law_walk_is_accounted_for(s: WalkState, items: Seq<WalkItem>, k: nat)
    requires
        k <= items.len(),
        s.index.wf(),
        forall|i: int| 0 <= i < s.open.len() ==> paths::is_place(s.index, #[trigger] s.open[i]),
        forall|i: int| 0 <= i < items.len() ==> is_plain(#[trigger] items[i]),
        s.index.dirs.len() + k < u32::MAX,
        s.index.slots.len() + k < u32::MAX,
    ensures
        ({
            let w = s.with_items(items, k);
            &&& w.index.wf()
            &&& w.dirs + w.files + w.errors + root_items(items, k) == s.dirs + s.files + s.errors + k
            &&& w.index.slots.len() - tree::dead_count(w.index.slots) == s.index.slots.len() - tree::dead_count(
                s.index.slots,
            ) + (w.dirs + w.files) - (s.dirs + s.files)
            &&& forall|i: int| 0 <= i < w.open.len() ==> paths::is_place(w.index, #[trigger] w.open[i])
            &&& w.index.dirs.len() <= s.index.dirs.len() + k
            &&& w.index.slots.len() <= s.index.slots.len() + k
        }),
    decreases k,
{
    if k > 0 {
        law_walk_is_accounted_for(s, items, (k - 1) as nat);
        let b = s.with_items(items, (k - 1) as nat);
        let item = items[k - 1];
        assert(is_plain(item));
        match item {
            WalkItem::Failed => {},
            WalkItem::Found { depth, name, is_dir, flags, size, mtime } => {
                if 0 < depth <= b.open.len() {
                    let parent = b.open[depth - 1];
                    let w = b.index.push_entry(parent, name@, flags, size, mtime);
                    keeps::law_push_entry_keeps_wf(b.index, parent, name@, flags, size, mtime);
                    keeps::law_add_dir_keeps_wf(w, parent, name@);
                    keeps::lemma_dead_count_push(b.index.slots, w.slots.last());
                    if b.index.free.len() > 0 {
                        let at = b.index.free.last() as int;
                        assert(b.index.is_dead(at));
                        keeps::lemma_dead_count_update(b.index.slots, at, w.slots[at]);
                    }
                }
            },
        }
    }
}

/// An entry that a walk has found is in the index, under its directory, with its
/// name, size and time.
pub proof fn law_walked_entry_is_recorded(
    s: WalkState,
    depth: usize,
    name: Vec<u8>,
    is_dir: bool,
    flags: u8,
    size: u64,
    mtime: i64,
)
    requires
        s.index.wf(),
        0 < depth <= s.open.len(),
        !model::has_dead_bit(flags),
    ensures
        ({
            let w = s.with_item(WalkItem::Found { depth, name, is_dir, flags, size, mtime });
            let slot = w.index.slots[s.index.next_slot() as int];
            &&& w.index.is_live(s.index.next_slot() as int)
            &&& slot.dir == s.open[depth - 1]
            &&& slot.name == arena::kept_name(name@)
            &&& slot.size == size
            &&& slot.mtime == mtime
            &&& slot.flags == flags
        }),
{
}

} // verus!
