//! The engine, the tables, the scan and the configuration.

use std::collections::BTreeMap;

use optionsearch::config::{Config, DEFAULT_WATCH_EXCLUDES};
use optionsearch::db::{
    load_rows, plan_writes, rows_fit, snapshot_rows, DbOp, DirRow, EntryRow, Write, Writes,
};
use optionsearch::engine::Engine;
use optionsearch::events::{event_path, IndexEvent};
use optionsearch::index::{Index, NO_DIR};
use optionsearch::model::flags;
use optionsearch::query::Query;
use optionsearch::scan::{entry_flags, takes_child, ScanStats, Scanner, WalkItem};
use optionsearch::search::search;

/// The two tables, as they are kept on disk.
#[derive(Default)]
struct Tables {
    dirs: BTreeMap<i64, DirRow>,
    entries: BTreeMap<i64, EntryRow>,
}

impl Tables {
    fn replace(&mut self, dirs: Vec<DirRow>, entries: Vec<EntryRow>) {
        self.dirs = dirs.into_iter().map(|d| (d.id, d)).collect();
        self.entries = entries.into_iter().map(|e| (e.id, e)).collect();
    }

    fn write(&mut self, writes: Writes) {
        match writes {
            Writes::All(dirs, entries) => self.replace(dirs, entries),
            Writes::Each(list) => {
                for w in list {
                    match w {
                        Write::PutEntry(e) => {
                            self.entries.insert(e.id, e);
                        }
                        Write::DropEntry(id) => {
                            self.entries.remove(&id);
                        }
                        Write::PutDir(d) => {
                            self.dirs.insert(d.id, d);
                        }
                    }
                }
            }
        }
    }

    fn rows(&self) -> (Vec<DirRow>, Vec<EntryRow>) {
        (self.dirs.values().cloned().collect(), self.entries.values().cloned().collect())
    }

    fn load(&self) -> (Index, usize) {
        let (dirs, entries) = self.rows();
        assert!(rows_fit(&dirs, &entries));
        load_rows(&dirs, &entries).unwrap()
    }

    fn open(&self, config: Config) -> Engine {
        let (dirs, entries) = self.rows();
        Engine::open(config, &dirs, &entries).unwrap()
    }
}

fn config(root: &str) -> Config {
    Config::with_defaults(root.as_bytes().to_vec(), b"/db/index.db".to_vec(), b"/db/cache".to_vec())
}

fn found(depth: usize, name: &str, is_dir: bool, size: u64) -> WalkItem {
    WalkItem::Found {
        depth,
        name: name.as_bytes().to_vec(),
        is_dir,
        flags: entry_flags(false, is_dir, name.as_bytes()),
        size,
        mtime: 1,
    }
}

/// Scans a walk of a root into a fresh index.
fn scan(root: &str, items: &[WalkItem]) -> (Index, ScanStats) {
    let mut index = Index::new();
    let mut scanner = Scanner::begin(&mut index, root.as_bytes(), ScanStats::default()).unwrap();
    for item in items {
        assert!(scanner.can_take(&index, item));
        scanner.take(&mut index, item);
    }
    (index, scanner.stats())
}

fn upsert(path: &str, size: u64, mtime: i64, is_dir: bool) -> IndexEvent {
    IndexEvent::Upsert { path: path.as_bytes().to_vec(), size, mtime, is_dir }
}

fn sample_index() -> Index {
    let mut idx = Index::new();
    let d = idx.ensure_dir_path(b"/home/u/docs");
    idx.push_entry(d, b"a.txt", 0, 10, 100);
    idx.push_entry(d, b"b.txt", flags::DIR, 20, 200);
    idx.push_entry(d, &[b'w', 0xff, b'x'], 0, 30, 300);
    idx
}

#[test]
fn save_and_load_roundtrip() {
    let idx = sample_index();
    let mut tables = Tables::default();
    let (dirs, entries) = snapshot_rows(&idx);
    tables.replace(dirs, entries);
    let (loaded, n) = tables.load();
    assert_eq!(n, 3);
    assert_eq!(loaded.dir_count(), idx.dir_count());
    assert_eq!(loaded.path_of(0), idx.path_of(0));
    assert_eq!(loaded.name(2), &[b'w', 0xff, b'x']);
    assert_eq!(loaded.entry(1).flags, flags::DIR);
    assert_eq!(loaded.entry(2).size, 30);
}

#[test]
fn incremental_ops_apply() {
    let mut idx = sample_index();
    let mut tables = Tables::default();
    let (dirs, entries) = snapshot_rows(&idx);
    tables.replace(dirs, entries);

    idx.remove_entry(1);
    idx.update_entry(0, 99, 999);
    let dir = idx.entry(0).dir;
    tables.write(plan_writes(
        &idx,
        &vec![
            DbOp::Delete { id: 1 },
            DbOp::Upsert {
                id: 0,
                dir,
                name: b"a.txt".to_vec(),
                size: 99,
                mtime: 999,
                flags: 0,
            },
        ],
    ));

    // Ids are now sparse; load keeps them aligned with tombstones.
    let (mut loaded, n) = tables.load();
    assert_eq!(n, 2);
    assert_eq!(loaded.len(), 3);
    assert_eq!(loaded.live_len(), 2);
    assert_eq!(loaded.entry(0).size, 99);
    assert_eq!(loaded.path_of(2), idx.path_of(2));

    loaded.compact();
    let (dirs, entries) = snapshot_rows(&loaded);
    tables.replace(dirs, entries);
    let (again, n) = tables.load();
    assert_eq!(n, 2);
    assert_eq!(again.len(), 2);
}

#[test]
fn a_full_resave_writes_every_row() {
    let idx = sample_index();
    match plan_writes(&idx, &vec![DbOp::Delete { id: 0 }, DbOp::FullResave]) {
        Writes::All(dirs, entries) => {
            assert_eq!(dirs.len(), 4);
            assert_eq!(dirs[0].parent, -1);
            assert_eq!(entries.len(), 3);
        }
        Writes::Each(_) => panic!("expected everything"),
    }
}

#[test]
fn tables_that_are_not_numbered_in_order_are_refused() {
    let (mut dirs, mut entries) = snapshot_rows(&sample_index());
    dirs[1].id = 7;
    assert_eq!(
        Engine::open(config("/"), &dirs, &entries).err().unwrap(),
        "dirs table is not densely numbered"
    );
    dirs[1].id = 1;
    entries[1].id = 0;
    assert_eq!(
        Engine::open(config("/"), &dirs, &entries).err().unwrap(),
        "entries table is not densely numbered"
    );
    entries[1].id = 1;
    dirs[1].parent = 7;
    assert_eq!(Engine::open(config("/"), &dirs, &entries).err().unwrap(), "the tables do not fit");
}

#[test]
fn engine_is_send_and_sync() {
    fn assert<T: Send + Sync>() {}
    assert::<Engine>();
}

#[test]
fn index_search_persist_and_reload() {
    let (index, stats) = scan(
        "/t/root",
        &[
            found(0, "root", true, 0),
            found(1, "sub", true, 0),
            found(2, "alpha.txt", false, 1),
            found(1, "beta.md", false, 2),
        ],
    );
    let mut engine = Engine::new(config("/t/root"), Index::new());
    assert!(engine.is_empty());
    let mut tables = Tables::default();
    let (dirs, entries) = engine.reindex(index);
    tables.replace(dirs, entries);
    assert_eq!(stats.files, 2);
    assert_eq!(engine.search("alpha", 10).hits.len(), 1);
    assert_eq!(engine.stats().live_entries, 3);

    let mut reopened = tables.open(config("/t/root"));
    let hits = reopened.search("alpha", 10);
    assert_eq!(hits.hits[0].path, b"/t/root/sub/alpha.txt");
}

#[test]
fn events_add_update_and_remove() {
    let mut tables = Tables::default();
    let (index, _) = scan("/t/root", &[]);
    let mut engine = Engine::new(config("/t/root"), Index::new());
    let (dirs, entries) = engine.reindex(index);
    tables.replace(dirs, entries);

    let gen0 = engine.generation();
    engine.apply_events(&[upsert("/t/root/new/deep.log", 7, 11, false)]);
    assert!(engine.generation() > gen0);
    let hits = engine.search("deep.log", 10);
    assert_eq!(hits.hits.len(), 1);
    assert_eq!(hits.hits[0].size, 7);

    engine.apply_events(&[upsert("/t/root/new/deep.log", 9, 12, false)]);
    assert_eq!(engine.search("deep.log", 10).hits[0].size, 9);

    tables.write(engine.flush().unwrap());
    let out = engine.apply_events(&[IndexEvent::Remove {
        path: b"/t/root/new/deep.log".to_vec(),
    }]);
    assert_eq!(out.removed, 1);
    assert!(engine.search("deep.log", 10).hits.is_empty());
    tables.write(engine.flush().unwrap());

    let mut reopened = tables.open(config("/t/root"));
    assert!(reopened.search("deep.log", 10).hits.is_empty());
}

#[test]
fn removing_a_directory_drops_the_subtree() {
    let (index, _) = scan(
        "/t/root",
        &[
            found(1, "junk", true, 0),
            found(2, "inner", true, 0),
            found(3, "x.bin", false, 1),
            found(1, "keep.bin", false, 1),
        ],
    );
    let mut engine = Engine::new(config("/t/root"), Index::new());
    let mut tables = Tables::default();
    let (dirs, entries) = engine.reindex(index);
    tables.replace(dirs, entries);

    assert_eq!(engine.search("x.bin", 10).hits.len(), 1);
    engine.apply_events(&[IndexEvent::RemoveDir {
        path: b"/t/root/junk".to_vec(),
    }]);
    assert!(engine.search("x.bin", 10).hits.is_empty());
    assert!(engine.search("junk", 10).hits.is_empty());
    assert_eq!(engine.search("keep.bin", 10).hits.len(), 1);
    tables.write(engine.flush().unwrap());

    let mut reopened = tables.open(config("/t/root"));
    assert!(reopened.search("x.bin", 10).hits.is_empty());
    assert_eq!(reopened.search("keep.bin", 10).hits.len(), 1);
}

#[test]
fn refinement_cache_matches_a_cold_search() {
    let items: Vec<WalkItem> =
        (0..50).map(|i| found(1, &format!("report_{i}.txt"), false, 1)).collect();
    let (index, _) = scan("/t/root", &items);
    let mut engine = Engine::new(config("/t/root"), index);

    let _ = engine.search("rep", 10);
    let warm = engine.search("report_4", 10);
    let cold = engine.search_uncached("report_4", 10);
    assert_eq!(warm.total, cold.total);
    assert_eq!(warm.hits[0].path, cold.hits[0].path);
}

#[test]
fn a_narrower_query_looks_only_at_the_remembered_matches() {
    let (index, _) = scan(
        "/t",
        &[found(1, "report_a", false, 1), found(1, "report_b", false, 1), found(1, "other", false, 1)],
    );
    let mut engine = Engine::new(config("/t"), index);
    assert_eq!(engine.search("rep", 10).scanned, 3);
    assert_eq!(engine.search("report_b", 10).scanned, 2);
    engine.apply_events(&[upsert("/t/report_bb", 1, 1, false)]);
    let r = engine.search("report_bb", 10);
    assert_eq!((r.scanned, r.total), (4, 1));
}

#[test]
fn an_empty_batch_changes_nothing() {
    let mut engine = Engine::new(config("/t"), sample_index());
    let before = engine.generation();
    let out = engine.apply_events(&[]);
    assert_eq!((out.added, out.updated, out.removed, out.compacted), (0, 0, 0, false));
    assert_eq!(engine.generation(), before);
    assert!(engine.flush().is_none());
}

#[test]
fn a_littered_index_is_compacted_and_saved_whole() {
    let mut engine = Engine::new(config("/home/u"), sample_index());
    let out = engine.apply_events(&[IndexEvent::Remove { path: b"/home/u/docs/a.txt".to_vec() }]);
    assert!(out.compacted);
    assert_eq!(engine.stats().entries, 2);
    assert_eq!(engine.stats().pending_writes, 1);
    assert!(matches!(engine.flush(), Some(Writes::All(_, entries)) if entries.len() == 2));
    assert_eq!(engine.stats().pending_writes, 0);
}

#[test]
fn an_upsert_of_a_lone_name_has_no_directory() {
    let mut engine = Engine::new(config("/t"), Index::new());
    let batch = [upsert("foo", 1, 1, false), upsert("/a/c", 1, 1, false), upsert("/a/..", 1, 1, true)];
    assert!(engine.can_apply(&batch));
    let out = engine.apply_events(&batch);
    assert_eq!((out.added, out.updated, out.removed), (2, 0, 0));
    assert_eq!(engine.with_index(|i| i.entry(0).dir), NO_DIR);
    assert_eq!(engine.with_index(|i| i.path_of(0)), b"/foo");
    assert_eq!(engine.with_index(|i| i.path_of(1)), b"/a/c");
    // It is not found again, and a second upsert adds another.
    assert_eq!(engine.with_index(|i| i.find_in_dir(NO_DIR, b"foo")), None);
    let again = engine.apply_events(&[upsert("foo", 2, 2, true)]);
    assert_eq!((again.added, again.updated), (1, 0));
    assert_eq!(engine.with_index(|i| i.dir_by_path(b"foo")).is_some(), true);
    let hits = engine.search("foo", 10);
    assert_eq!(hits.total, 2);
    assert_eq!(hits.hits[0].path, b"/foo");
    assert!(engine.search("a/foo", 10).hits.is_empty());
    assert_eq!(event_path(&upsert("/a/b", 1, 1, false)), b"/a/b");
}

#[test]
fn entries_without_a_directory_survive_a_restart_but_no_compaction() {
    let mut idx = sample_index();
    idx.push_entry(NO_DIR, b"lone", 0, 1, 1);
    let (dirs, mut entries) = snapshot_rows(&idx);
    assert_eq!(entries[3].dir, 4_294_967_295);
    entries[1].dir = 99;
    assert!(rows_fit(&dirs, &entries));
    let mut engine = Engine::open(config("/"), &dirs, &entries).unwrap();
    assert_eq!(engine.with_index(|i| i.entry(1).dir), 99);
    assert_eq!(engine.with_index(|i| i.path_of(1)), b"/b.txt");
    assert_eq!(engine.search("b.txt", 10).total, 1);
    assert!(engine.search("docs/b.txt", 10).hits.is_empty());
    assert_eq!(engine.search("docs/a.txt", 10).total, 1);
    let mut loaded = load_rows(&dirs, &entries).unwrap().0;
    let docs = loaded.dir_by_path(b"/home/u/docs").unwrap();
    assert_eq!(loaded.remove_dir_subtree(docs).len(), 2);
    loaded.compact();
    assert_eq!(loaded.live_len(), 0);
}

#[test]
fn removals_need_no_room() {
    let long = "x".repeat(70_000);
    let engine = Engine::new(config("/t"), Index::new());
    assert!(engine.can_apply(&[
        IndexEvent::Remove { path: format!("/{long}").into_bytes() },
        upsert(&format!("/t/{long}"), 1, 1, false),
    ]));
}

#[test]
fn a_batch_is_one_step() {
    let mut index = Index::new();
    let d = index.ensure_dir_path(b"/t");
    for i in 0..9 {
        index.push_entry(d, format!("f{i}").as_bytes(), 0, 1, 1);
    }
    let mut engine = Engine::new(config("/t"), index);
    let start = engine.generation();
    let one = engine.apply_events(&[upsert("/t/new", 1, 1, false)]);
    assert!(!one.compacted);
    assert_eq!((engine.generation(), engine.stats().pending_writes), (start + 1, 1));
    let two = engine.apply_events(&[IndexEvent::Remove { path: b"/t/f0".to_vec() }]);
    assert!(!two.compacted);
    assert_eq!((engine.generation(), engine.stats().pending_writes), (start + 2, 2));
    assert_eq!(engine.stats().dead_entries, 1);
    let three = engine.apply_events(&[
        IndexEvent::Remove { path: b"/t/f1".to_vec() },
        IndexEvent::Remove { path: b"/t/f2".to_vec() },
    ]);
    assert!(three.compacted);
    let stats = engine.stats();
    assert_eq!((engine.generation(), stats.pending_writes, stats.dead_entries), (start + 3, 1, 0));
    assert_eq!(stats.live_entries, 7);
}

#[test]
fn remembered_matches_and_a_full_look_give_the_same_keys() {
    let items: Vec<WalkItem> =
        (0..40).map(|i| found(1, &format!("note_{}_{i}.md", i % 3), false, 1)).collect();
    let (index, _) = scan("/t", &items);
    let mut engine = Engine::new(config("/t"), index);
    for text in ["n", "no", "note", "note_1", "note_1_1", "zzz"] {
        let warm = engine.search(text, 5);
        let cold = engine.search_uncached(text, 5);
        assert_eq!((warm.total, warm.truncated), (cold.total, cold.truncated));
        let keys = |r: &optionsearch::model::SearchResults| -> Vec<(u32, usize, i64)> {
            r.hits.iter().map(|h| (h.score, h.path.len(), h.mtime)).collect()
        };
        assert_eq!(keys(&warm), keys(&cold));
    }
}

#[test]
fn a_snapshot_of_a_compact_index_restores_every_slot() {
    let mut idx = sample_index();
    idx.remove_entry(0);
    idx.compact();
    let (dirs, entries) = snapshot_rows(&idx);
    assert_eq!((dirs.len(), entries.len()), (idx.dir_count(), idx.live_len()));
    let (loaded, n) = load_rows(&dirs, &entries).unwrap();
    assert_eq!(n, 2);
    assert_eq!((loaded.len(), loaded.live_len()), (idx.len(), idx.live_len()));
    for id in 0..2 {
        assert_eq!(loaded.path_of(id), idx.path_of(id));
        assert_eq!(loaded.entry(id).size, idx.entry(id).size);
    }
}

#[test]
fn numbering_is_tested_before_the_fit() {
    let (mut dirs, mut entries) = snapshot_rows(&sample_index());
    dirs[2].parent = 9;
    dirs[1].id = 7;
    assert_eq!(load_rows(&dirs, &entries).err().unwrap(), "dirs table is not densely numbered");
    dirs[1].id = 1;
    entries[1].id = 0;
    assert_eq!(load_rows(&dirs, &entries).err().unwrap(), "entries table is not densely numbered");
    entries[1].id = 1;
    assert!(!rows_fit(&dirs, &entries));
    assert_eq!(load_rows(&dirs, &entries).err().unwrap(), "the tables do not fit");
}

#[test]
fn what_a_walk_finds_lies_below_its_root() {
    let (index, stats) = scan(
        "/r/s",
        &[
            found(0, "s", true, 0),
            found(1, "a", true, 0),
            found(2, "b", true, 0),
            found(3, "deep", false, 1),
            found(2, "c", true, 0),
            found(3, "side", false, 1),
            found(1, "top", false, 1),
        ],
    );
    assert_eq!((stats.dirs, stats.files, stats.errors), (3, 3, 0));
    let paths: Vec<Vec<u8>> = (0..6).map(|id| index.path_of(id)).collect();
    assert_eq!(
        paths,
        vec![
            b"/r/s/a".to_vec(),
            b"/r/s/a/b".to_vec(),
            b"/r/s/a/b/deep".to_vec(),
            b"/r/s/a/c".to_vec(),
            b"/r/s/a/c/side".to_vec(),
            b"/r/s/top".to_vec(),
        ]
    );
}

#[test]
fn roots_are_added_once() {
    let mut engine = Engine::new(config("/t"), Index::new());
    assert!(engine.add_root(b"/music"));
    assert!(!engine.add_root(b"/music/"));
    assert!(!engine.add_root(b"/t"));
    assert_eq!(engine.config().roots_line(), "/t:/music");
    let taken = engine.take_index();
    assert!(taken.is_empty());
    assert_eq!(engine.with_index(|i| i.len()), 0);
}

#[test]
fn scans_tree_and_finds_entries() {
    let mut config = config("/r");
    config.scan_excludes = vec!["skipme".to_string()];
    assert!(!takes_child(&config, true, b"skipme", b"/r/a/skipme"));
    assert!(takes_child(&config, false, b"skipme", b"/r/a/skipme"));
    assert!(takes_child(&config, true, b"b", b"/r/a/b"));
    let (index, stats) = scan(
        "/r",
        &[
            found(1, "a", true, 0),
            found(2, "b", true, 0),
            found(3, "hello.txt", false, 2),
            found(1, ".hidden", false, 0),
        ],
    );
    assert_eq!(stats.errors, 0);
    assert!(stats.dirs >= 2, "dirs: {}", stats.dirs);

    let hits = search(&index, &Query::parse("hello.txt"), 10);
    assert_eq!(hits.hits.len(), 1);
    assert_eq!(hits.hits[0].path, b"/r/a/b/hello.txt");
    assert_eq!(hits.hits[0].size, 2);

    assert!(search(&index, &Query::parse("junk.bin"), 10).hits.is_empty());
    assert_eq!(search(&index, &Query::parse(".hidden"), 10).hits.len(), 1);
    assert!(search(&index, &Query::parse("dir: b"), 10).hits.len() == 1);
}

#[test]
fn excluded_paths_are_skipped_by_their_components() {
    let mut config = config("/r");
    config.exclude_paths = vec![b"/r/proc/".to_vec()];
    assert!(!takes_child(&config, true, b"proc", b"/r/proc"));
    assert!(takes_child(&config, true, b"proc", b"/r/x/proc"));
}

#[test]
fn walk_errors_and_orphans_are_counted() {
    let (index, stats) =
        scan("/r", &[WalkItem::Failed, found(5, "orphan", false, 0), found(1, "f", false, 0)]);
    assert_eq!((stats.dirs, stats.files, stats.errors), (0, 1, 2));
    assert_eq!(stats.total(), 1);
    assert_eq!(index.live_len(), 1);
}

#[test]
fn entry_flags_tell_links_directories_and_hidden_names() {
    assert_eq!(entry_flags(false, false, b"a"), 0);
    assert_eq!(entry_flags(true, false, b"a"), flags::SYMLINK);
    assert_eq!(entry_flags(false, true, b".git"), flags::DIR | flags::HIDDEN);
}

#[test]
fn a_walk_of_a_root_without_names_finds_entries_without_a_directory() {
    let (index, stats) = scan("", &[found(1, "a", true, 0), found(2, "b", false, 1)]);
    assert_eq!((stats.dirs, stats.files, stats.errors), (1, 1, 0));
    assert_eq!(index.entry(0).dir, NO_DIR);
    assert_eq!(index.path_of(1), b"/a/b");
    let mut index = Index::new();
    assert!(Scanner::begin(&mut index, b"/", ScanStats::default()).is_some());
}

#[test]
fn adding_a_root_leaves_the_other_settings() {
    let mut engine = Engine::new(config("/t"), Index::new());
    assert!(engine.add_root(b"/music"));
    let c = config("/t");
    assert_eq!(engine.config().max_results, c.max_results);
    assert_eq!(engine.config().watch_excludes, c.watch_excludes);
    assert_eq!(engine.config().db_path, c.db_path);
}

#[test]
fn a_search_of_paths_keeps_them() {
    let mut engine = Engine::new(config("/home/u"), sample_index());
    engine.apply_events(&[upsert("/home/u/new/x.txt", 1, 1, false)]);
    let cold = engine.stats().memory_bytes;
    engine.search("x.txt", 10);
    assert_eq!(engine.stats().memory_bytes, cold);
    assert_eq!(engine.search("new/x", 10).total, 1);
    let warm = engine.stats().memory_bytes;
    assert!(warm > cold);
    engine.search_uncached("docs/a", 10);
    assert_eq!(engine.stats().memory_bytes, warm);
    // An update leaves the tree alone, a new directory does not.
    engine.apply_events(&[upsert("/home/u/new/x.txt", 2, 2, false)]);
    assert_eq!(engine.stats().memory_bytes, warm);
    engine.apply_events(&[upsert("/home/u/new/y/z.txt", 2, 2, false)]);
    assert_eq!(engine.search("y/z", 10).total, 1);
    assert!(engine.stats().memory_bytes > warm);
}

#[test]
fn defaults_are_those_of_a_fresh_install() {
    let c = config("/home/u");
    assert_eq!(c.roots, vec![b"/home/u".to_vec()]);
    assert_eq!(c.max_results, 500);
    assert_eq!(c.watch_budget, 400_000);
    assert_eq!(c.watch_debounce_ms, 200);
    assert_eq!(c.watch_excludes, DEFAULT_WATCH_EXCLUDES.to_vec());
    assert!(c.scan_excludes.is_empty() && c.exclude_paths.is_empty());
    assert_eq!(c.db_path, b"/db/index.db");
}

#[test]
fn fallback_chain_ordering() {
    let chain = Config::fallback_chain(b"/home/u", b"/home/u/.option/search/config.toml".to_vec());
    assert_eq!(chain.len(), 3);
    assert_eq!(chain[0], b"/home/u/.option/search/config.toml");
    assert!(chain[1].ends_with(b".config/optionsearch/config.toml"));
    assert!(chain[2].ends_with(b".config/needle/config.toml"));
}

#[test]
fn chain_prefers_first_existing() {
    assert_eq!(Config::first_existing(&[false, true, true]), Some(1));
    assert_eq!(Config::first_existing(&[true]), Some(0));
}

#[test]
fn chain_falls_back_to_defaults_when_nothing_exists() {
    assert_eq!(Config::first_existing(&[false]), None);
    assert_eq!(Config::first_existing(&[]), None);
}
