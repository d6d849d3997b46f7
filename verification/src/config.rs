//! What the search is configured to do.

use vstd::prelude::*;

use crate::outside;
use crate::outside::lossy_text;
use crate::path;
use crate::path::{eq_path, join};
use crate::query;
use crate::text::joined;

pub mod laws;

verus! {

/// Directories that are excluded from the *watcher* by default: they are still
/// indexed, but they burn watches for churn nobody searches for.
pub const DEFAULT_WATCH_EXCLUDES: [&'static str; 6] = [
    "node_modules",
    ".git",
    "target",
    ".cache",
    ".venv",
    "__pycache__",
];

#[derive(Debug, Clone)]
pub struct Config {
    /// Roots to index. Defaults to the home directory.
    pub roots: Vec<Vec<u8>>,
    /// Directory *names* skipped by the scanner. Empty by default: the index is
    /// meant to be complete.
    pub scan_excludes: Vec<String>,
    /// Absolute paths skipped by the scanner.
    pub exclude_paths: Vec<Vec<u8>>,
    /// Directory names the watcher will not watch (still indexed).
    pub watch_excludes: Vec<String>,
    /// Maximum hits returned to the UI.
    pub max_results: usize,
    /// Upper bound on watches the watcher may take.
    pub watch_budget: usize,
    /// Debounce window for filesystem events, in milliseconds.
    pub watch_debounce_ms: u64,
    pub db_path: Vec<u8>,
    pub cache_dir: Vec<u8>,
}

impl Config {
    /// The defaults, for a home directory and the places where the index and the
    /// cache are kept.
    pub fn with_defaults(home: Vec<u8>, db_path: Vec<u8>, cache_dir: Vec<u8>) -> (r: Config)
        ensures
            path::views(r.roots@) == seq![home@],
            r.scan_excludes@.len() == 0,
            r.exclude_paths@.len() == 0,
            query::string_views(r.watch_excludes@) == Seq::new(
                6,
                |i: int| DEFAULT_WATCH_EXCLUDES[i]@,
            ),
            r.max_results == 500,
            r.watch_budget == 400_000,
            r.watch_debounce_ms == 200,
            r.db_path == db_path,
            r.cache_dir == cache_dir,
    {
        let mut watch_excludes: Vec<String> = Vec::new();
        let mut i: usize = 0;
        while i < 6
            invariant
                i <= 6,
                watch_excludes@.len() == i,
                forall|j: int| 0 <= j < i ==> (#[trigger] watch_excludes@[j])@ == DEFAULT_WATCH_EXCLUDES[j]@,
            decreases 6 - i,
        {
            watch_excludes.push(DEFAULT_WATCH_EXCLUDES[i].to_owned());
            i += 1;
        }
        let mut roots: Vec<Vec<u8>> = Vec::new();
        let ghost place = home@;
        roots.push(home);
        assert(path::views(roots@) =~= seq![place]);
        assert(query::string_views(watch_excludes@) =~= Seq::new(6, |i: int| DEFAULT_WATCH_EXCLUDES[i]@));
        Config {
            roots,
            scan_excludes: Vec::new(),
            exclude_paths: Vec::new(),
            watch_excludes,
            max_results: 500,
            watch_budget: 400_000,
            watch_debounce_ms: 200,
            db_path,
            cache_dir,
        }
    }
}

/// The bytes of a text.
pub open spec fn bytes_of(s: &str) -> Seq<u8> {
    vstd::utf8::encode_utf8(s@)
}

/// An older place of the config file, under the home directory.
pub open spec fn older_config(home: Seq<u8>, app: &str) -> Seq<u8> {
    path::joined_path(
        path::joined_path(path::joined_path(home, bytes_of(".config")), bytes_of(app)),
        bytes_of("config.toml"),
    )
}

fn older_config_path(home: &[u8], app: &str) -> (r: Vec<u8>)
    ensures
        r@ == older_config(home@, app),
{
    let dir: Vec<u8> = join(home, ".config".as_bytes());
    let own: Vec<u8> = join(dir.as_slice(), app.as_bytes());
    join(own.as_slice(), "config.toml".as_bytes())
}

impl Config {
    /// Ordered candidate paths for the config file: the canonical one first, then
    /// the older ones under the home directory.
    pub fn fallback_chain(home: &[u8], canonical: Vec<u8>) -> (r: Vec<Vec<u8>>)
        ensures
            path::views(r@) == seq![
                canonical@,
                older_config(home@, "optionsearch"),
                older_config(home@, "needle"),
            ],
    {
        let ghost first = canonical@;
        let mut out: Vec<Vec<u8>> = Vec::new();
        out.push(canonical);
        out.push(older_config_path(home, "optionsearch"));
        out.push(older_config_path(home, "needle"));
        assert(path::views(out@) =~= seq![
            first,
            older_config(home@, "optionsearch"),
            older_config(home@, "needle"),
        ]);
        out
    }

    /// The place of the first candidate that exists.
    pub fn first_existing(exists: &[bool]) -> (r: Option<usize>)
        ensures
            match r {
                Some(i) => i < exists@.len() && exists@[i as int] && forall|j: int|
                    0 <= j < i ==> !exists@[j],
                None => forall|j: int| 0 <= j < exists@.len() ==> !exists@[j],
            },
    {
        let n: usize = exists.len();
        let mut i: usize = 0;
        while i < n
            invariant
                n == exists@.len(),
                i <= n,
                forall|j: int| 0 <= j < i ==> !exists@[j],
            decreases n - i,
        {
            if exists[i] {
                return Some(i);
            }
            i += 1;
        }
        None
    }

    /// A root is configured, component by component.
    pub open spec fn has_root(self, root: Seq<u8>) -> bool {
        exists|i: int| 0 <= i < self.roots@.len() && path::same_path((#[trigger] self.roots@[i])@, root)
    }

    /// Adds a root, unless it is configured already; says whether it was added.
    pub fn add_root(&mut self, root: &[u8]) -> (added: bool)
        ensures
            added == !old(self).has_root(root@),
            path::views(final(self).roots@) == (if added {
                path::views(old(self).roots@).push(root@)
            } else {
                path::views(old(self).roots@)
            }),
            final(self).scan_excludes == old(self).scan_excludes,
            final(self).exclude_paths == old(self).exclude_paths,
            final(self).watch_excludes == old(self).watch_excludes,
            final(self).max_results == old(self).max_results,
            final(self).watch_budget == old(self).watch_budget,
            final(self).watch_debounce_ms == old(self).watch_debounce_ms,
            final(self).db_path == old(self).db_path,
            final(self).cache_dir == old(self).cache_dir,
    {
        let n: usize = self.roots.len();
        let mut i: usize = 0;
        while i < n
            invariant
                *self == *old(self),
                n == self.roots@.len(),
                i <= n,
                forall|j: int| 0 <= j < i ==> !path::same_path((#[trigger] self.roots@[j])@, root@),
            decreases n - i,
        {
            if eq_path(self.roots[i].as_slice(), root) {
                assert(path::same_path(self.roots@[i as int]@, root@));
                return false;
            }
            i += 1;
        }
        let ghost before = path::views(self.roots@);
        self.roots.push(vstd::slice::slice_to_vec(root));
        assert(path::views(self.roots@) =~= before.push(root@));
        true
    }

    /// The roots as one line: each as text, with colons between them.
    pub open spec fn roots_text(roots: Seq<Vec<u8>>) -> Seq<char>
        decreases roots.len(),
    {
        if roots.len() == 0 {
            Seq::empty()
        } else if roots.len() == 1 {
            outside::lossy_text_of(roots[0]@)
        } else {
            Config::roots_text(roots.drop_last()) + ":"@ + outside::lossy_text_of(roots.last()@)
        }
    }

    /// The roots as one line, as it is kept with the index.
    pub fn roots_line(&self) -> (r: String)
        ensures
            r@ == Config::roots_text(self.roots@),
    {
        let n: usize = self.roots.len();
        if n == 0 {
            return String::new();
        }
        let mut out: String = lossy_text(self.roots[0].as_slice());
        let mut i: usize = 1;
        assert(self.roots@.subrange(0, 1)[0] == self.roots@[0]);
        while i < n
            invariant
                n == self.roots@.len(),
                1 <= i <= n,
                out@ == Config::roots_text(self.roots@.subrange(0, i as int)),
            decreases n - i,
        {
            proof {
                let next = self.roots@.subrange(0, i + 1);
                assert(next.drop_last() =~= self.roots@.subrange(0, i as int));
                assert(next.last() == self.roots@[i as int]);
            }
            let with_colon: String = joined(out.as_str(), ":");
            out = joined(with_colon.as_str(), lossy_text(self.roots[i].as_slice()).as_str());
            i += 1;
        }
        assert(self.roots@.subrange(0, n as int) =~= self.roots@);
        out
    }
}

} // verus!
