//! Coalescing, diffing and the watch budget.

use optionsearch::config::Config;
use optionsearch::engine::Engine;
use optionsearch::events::IndexEvent;
use optionsearch::index::Index;
use optionsearch::watch::diff::{diff_subtrees, index_snapshot, recheck, resolve, Stat, Walked};
use optionsearch::watch::listing::{dirs_from_index, path_from_bytes};
use optionsearch::watch::order::{comes_before, sorted_places};
use optionsearch::watch::plan::{coalesce, Change, ChangeKind, Plan, Touch};
use optionsearch::watch::worker::{
    is_budget_error, WatchOutcome, WatchStatus, Worker, MAX_UNWATCHED_TRACKED,
};
use optionsearch::watch::{excludes_name, WatchOptions};

fn ev(kind: ChangeKind, paths: &[&str]) -> Change {
    Change {
        kind,
        paths: paths.iter().map(|p| p.as_bytes().to_vec()).collect(),
        tracker: None,
        needs_rescan: false,
    }
}

fn renamed(kind: ChangeKind, tracker: usize, paths: &[&str]) -> Change {
    Change { tracker: Some(tracker), ..ev(kind, paths) }
}

fn touch(plan: &Plan, path: &str) -> Touch {
    plan.touches.iter().find(|t| t.path == path.as_bytes()).unwrap().touch
}

fn options(root: &str) -> WatchOptions {
    WatchOptions {
        roots: vec![root.as_bytes().to_vec()],
        excludes: vec!["node_modules".to_string()],
        budget: 10_000,
        debounce_ms: 50,
        rescan_interval_ms: 150,
    }
}

fn tree(dirs: &[&str], files: &[&str]) -> Index {
    let mut index = Index::new();
    for d in dirs {
        let at = d.rfind('/').unwrap();
        let parent = index.ensure_dir_path(d[..at].as_bytes());
        index.ensure_dir_path(d.as_bytes());
        index.push_entry(parent, d[at + 1..].as_bytes(), 1, 0, 1);
    }
    for f in files {
        let at = f.rfind('/').unwrap();
        let parent = index.ensure_dir_path(f[..at].as_bytes());
        index.push_entry(parent, f[at + 1..].as_bytes(), 0, 1, 1);
    }
    index
}

#[test]
fn creates_win_over_modifies_for_the_same_path() {
    let plan = coalesce(&[
        ev(ChangeKind::Modify, &["/r/a"]),
        ev(ChangeKind::Create, &["/r/a"]),
        ev(ChangeKind::Modify, &["/r/a"]),
    ]);
    assert_eq!(plan.touches.len(), 1);
    assert_eq!(touch(&plan, "/r/a"), Touch::Rescan);
}

#[test]
fn a_window_of_events_collapses_to_one_touch_per_path() {
    let mut events = Vec::new();
    for _ in 0..500 {
        events.push(ev(ChangeKind::Modify, &["/r/log.txt"]));
    }
    events.push(ev(ChangeKind::Create, &["/r/other"]));
    let plan = coalesce(&events);
    assert_eq!(plan.touches.len(), 2);
    assert_eq!(touch(&plan, "/r/log.txt"), Touch::Check);
}

#[test]
fn rename_pairs_are_correlated_by_tracker() {
    let plan = coalesce(&[
        renamed(ChangeKind::RenameFrom, 7, &["/r/old"]),
        renamed(ChangeKind::RenameTo, 7, &["/r/new"]),
        renamed(ChangeKind::RenameBoth, 7, &["/r/old", "/r/new"]),
    ]);
    assert_eq!(plan.pairs, 1);
    assert_eq!(plan.halves, 0);
    assert_eq!(touch(&plan, "/r/old"), Touch::Check);
    assert_eq!(touch(&plan, "/r/new"), Touch::Rescan);
}

#[test]
fn a_half_rename_still_touches_its_side() {
    let out = coalesce(&[renamed(ChangeKind::RenameFrom, 9, &["/r/gone"])]);
    assert_eq!((out.pairs, out.halves), (0, 1));
    assert_eq!(touch(&out, "/r/gone"), Touch::Check);

    let into = coalesce(&[renamed(ChangeKind::RenameTo, 11, &["/r/arrived"])]);
    assert_eq!((into.pairs, into.halves), (0, 1));
    assert_eq!(touch(&into, "/r/arrived"), Touch::Rescan);
}

#[test]
fn removals_and_access_events() {
    let plan = coalesce(&[ev(ChangeKind::Remove, &["/r/x"]), ev(ChangeKind::Access, &["/r/y"])]);
    assert_eq!(plan.touches.len(), 1);
    assert_eq!(touch(&plan, "/r/x"), Touch::Check);
}

#[test]
fn queue_overflow_is_detected() {
    let mut e = ev(ChangeKind::Create, &["/r/a"]);
    e.needs_rescan = true;
    assert!(coalesce(&[e]).overflow);
}

#[test]
fn path_bytes_round_trip() {
    assert_eq!(path_from_bytes(b"/"), b"/");
    assert_eq!(path_from_bytes(b"/home/x/"), b"/home/x");
}

#[test]
fn touches_come_in_the_order_of_paths() {
    let plan = coalesce(&[
        ev(ChangeKind::Create, &["/r/b", "/r/a!", "/r/a/z"]),
        ev(ChangeKind::Rename, &["/r/a", "/r/a/"]),
        ev(ChangeKind::Any, &["/r"]),
    ]);
    let paths: Vec<&[u8]> = plan.touches.iter().map(|t| t.path.as_slice()).collect();
    assert_eq!(paths, [&b"/r"[..], b"/r/a", b"/r/a/z", b"/r/a!", b"/r/b"]);
}

#[test]
fn components_decide_the_order() {
    let key = |p: &str| p.split('/').map(|c| c.as_bytes().to_vec()).collect::<Vec<_>>();
    assert!(comes_before(&key("a/b"), &key("a!")));
    assert!(comes_before(&key("a"), &key("a/b")));
    assert!(comes_before(&key(".."), &key("!")));
    assert_eq!(sorted_places(&vec![key("b"), key("a"), key("b"), key("a/x")]), vec![1, 3, 0, 2]);
}

#[test]
fn what_is_on_disk_decides_the_events() {
    let opts = options("/r");
    let plan = coalesce(&[
        ev(ChangeKind::Create, &["/r/dir", "/r/node_modules", "/outside"]),
        ev(ChangeKind::Modify, &["/r/file"]),
        ev(ChangeKind::Remove, &["/r/gone", "/r/locked"]),
    ]);
    let stats: Vec<Stat> = plan
        .touches
        .iter()
        .map(|t| match t.path.as_slice() {
            b"/r/gone" => Stat::Gone,
            b"/r/locked" => Stat::Unreadable,
            b"/r/file" => Stat::Present { size: 5, mtime: 6, is_dir: false },
            _ => Stat::Present { size: 0, mtime: 1, is_dir: true },
        })
        .collect();
    let r = resolve(&opts, &plan.touches, &stats);
    assert_eq!(r.events.len(), 4);
    assert!(matches!(&r.events[1], IndexEvent::Upsert { path, size: 5, mtime: 6, is_dir: false } if path == b"/r/file"));
    assert!(matches!(&r.events[2], IndexEvent::RemoveDir { path } if path == b"/r/gone"));
    assert_eq!(r.rescan, vec![b"/r/dir".to_vec(), b"/r/node_modules".to_vec()]);
    assert_eq!(r.new_dirs, vec![b"/r/dir".to_vec()]);
}

#[test]
fn subtrees_are_reconciled_with_what_was_walked() {
    let index = tree(&["/r/sub"], &["/r/sub/same", "/r/sub/changed", "/r/sub/gone", "/r/top"]);
    let roots = vec![b"/r/sub".to_vec()];
    let known = index_snapshot(&index, &roots);
    assert_eq!(known.as_ref().unwrap().len(), 3);
    let walked = vec![
        Walked { path: b"/r/sub/same".to_vec(), size: 1, mtime: 1, is_dir: false },
        Walked { path: b"/r/sub/changed".to_vec(), size: 2, mtime: 1, is_dir: false },
        Walked { path: b"/r/sub/new".to_vec(), size: 0, mtime: 1, is_dir: true },
    ];
    let (mut dirs, mut events) = (Vec::new(), Vec::new());
    diff_subtrees(&options("/r"), &known, &walked, &mut dirs, &mut events);
    assert_eq!(dirs, vec![b"/r/sub/new".to_vec()]);
    assert_eq!(events.len(), 3);
    assert!(matches!(&events[0], IndexEvent::Upsert { path, size: 2, .. } if path == b"/r/sub/changed"));
    assert!(matches!(&events[1], IndexEvent::Upsert { path, is_dir: true, .. } if path == b"/r/sub/new"));
    assert!(matches!(&events[2], IndexEvent::Remove { path } if path == b"/r/sub/gone"));
}

#[test]
fn an_unknown_subtree_is_taken_as_it_is() {
    let index = tree(&[], &["/r/top"]);
    assert!(index_snapshot(&index, &vec![b"/r/new".to_vec()]).is_none());
    let walked = vec![Walked { path: b"/r/new/f".to_vec(), size: 1, mtime: 1, is_dir: false }];
    let (mut dirs, mut events) = (Vec::new(), Vec::new());
    diff_subtrees(&options("/r"), &None, &walked, &mut dirs, &mut events);
    assert_eq!(events.len(), 1);
    assert!(dirs.is_empty());
}

#[test]
fn vanished_directories_are_removed_as_such() {
    let index = tree(&["/r/sub", "/r/sub/d"], &[]);
    let known = index_snapshot(&index, &vec![b"/r/sub".to_vec()]);
    let mut events = Vec::new();
    diff_subtrees(&options("/r"), &known, &vec![], &mut Vec::new(), &mut events);
    assert!(matches!(&events[0], IndexEvent::RemoveDir { path } if path == b"/r/sub/d"));
}

#[test]
fn a_moved_in_subtree_is_indexed_and_a_deleted_one_is_dropped() {
    let mut engine = Engine::new(
        Config::with_defaults(b"/r".to_vec(), b"/db".to_vec(), b"/cache".to_vec()),
        tree(&[], &["/r/top"]),
    );
    let mut worker = Worker::new(options("/r"));
    let plan = coalesce(&[renamed(ChangeKind::RenameTo, 1, &["/r/pkg"])]);
    let mut r = resolve(&worker.opts, &plan.touches, &vec![Stat::Present { size: 0, mtime: 1, is_dir: true }]);
    let known = engine.with_index(|i| index_snapshot(i, &r.rescan));
    let walked = vec![
        Walked { path: b"/r/pkg/src".to_vec(), size: 0, mtime: 1, is_dir: true },
        Walked { path: b"/r/pkg/src/buried.rs".to_vec(), size: 3, mtime: 1, is_dir: false },
    ];
    diff_subtrees(&worker.opts, &known, &walked, &mut r.new_dirs, &mut r.events);
    worker.apply(&mut engine, &r.events);
    assert_eq!(engine.search_uncached("buried.rs", 10).hits[0].path, b"/r/pkg/src/buried.rs");
    assert_eq!(r.new_dirs.len(), 2);
    assert_eq!((worker.events_applied, worker.batches), (3, 1));

    let plan = coalesce(&[ev(ChangeKind::Remove, &["/r/pkg"])]);
    let r = resolve(&worker.opts, &plan.touches, &vec![Stat::Gone]);
    worker.apply(&mut engine, &r.events);
    assert!(engine.search_uncached("buried.rs", 10).hits.is_empty());
    assert!(engine.search_uncached("pkg", 10).hits.is_empty());
    assert_eq!(engine.search_uncached("top", 10).hits.len(), 1);
}

#[test]
fn excluded_directories_are_indexed_but_not_watched() {
    let index = tree(&["/r/node_modules", "/r/node_modules/left-pad", "/r/src"], &[]);
    let opts = options("/r");
    let dirs = dirs_from_index(&index, b"/r", &opts.excludes).unwrap();
    let mut worker = Worker::new(opts);
    let mut i = worker.next_to_watch(b"/r", &dirs, 0);
    while i < dirs.len() {
        i = worker.note_watched(WatchOutcome::Watched, i);
        i = worker.next_to_watch(b"/r", &dirs, i);
    }
    // root + src, but neither node_modules nor anything below it.
    let status = worker.status(false);
    assert_eq!(status.watched_dirs, 2);
    assert!(!status.degraded);
    assert!(dirs_from_index(&index, b"/nowhere", &vec![]).is_none());
}

#[test]
fn an_exhausted_budget_degrades_to_periodic_rescan() {
    let index = tree(&["/r/far", "/r/far/away"], &[]);
    let mut worker = Worker::new(WatchOptions { budget: 1, ..options("/r") });
    let dirs = dirs_from_index(&index, b"/r", &worker.opts.excludes).unwrap();
    let i = worker.next_to_watch(b"/r", &dirs, 0);
    assert_eq!(i, 0);
    let i = worker.note_watched(WatchOutcome::Watched, i);
    assert_eq!(worker.next_to_watch(b"/r", &dirs, i), dirs.len());
    let status = worker.status(false);
    assert!(status.degraded);
    assert_eq!(status.watched_dirs, 1);
    assert_eq!(status.unwatched_roots, vec![b"/r/far".to_vec()]);
    assert_eq!(status.reason.as_deref(), Some("watch budget of 1 directories exhausted"));
    assert!(!worker.rescan_due(149));
    assert!(worker.rescan_due(150));

    let (events, alive) =
        recheck(&worker.unwatched_roots(), &vec![Stat::Present { size: 4, mtime: 5, is_dir: true }]);
    assert_eq!(events.len(), 1);
    assert_eq!(alive, vec![b"/r/far".to_vec()]);
    worker.note_rescan();
    assert!(worker.status(false).rescans > 0);
}

#[test]
fn refused_watches_are_recorded_once_and_explained() {
    let mut worker = Worker::new(options("/r"));
    assert!(worker.admits(b"/r/a"));
    worker.note_new_dir(WatchOutcome::OutOfWatches("no space".to_string()), b"/r/a");
    assert!(!worker.admits(b"/r/a/b"));
    assert!(!worker.admits(b"/r/c"));
    let s = worker.status(false);
    assert_eq!(s.unwatched_roots, vec![b"/r/a".to_vec(), b"/r/c".to_vec()]);
    assert_eq!(s.unwatched_total, 3);
    assert_eq!(s.reason.as_deref(), Some("inotify refused more watches: no space"));
    worker.start_over();
    assert!(!worker.status(true).degraded);
    assert!(worker.status(true).registering);
}

#[test]
fn too_many_fragments_fall_back_to_the_root() {
    let mut worker = Worker::new(options("/r"));
    for i in 0..MAX_UNWATCHED_TRACKED {
        worker.record_unwatched(b"/r", format!("/r/d{i}").as_bytes());
    }
    assert_eq!(worker.unwatched.len(), MAX_UNWATCHED_TRACKED);
    assert_eq!(worker.status(false).unwatched_roots.len(), 32);
    worker.record_unwatched(b"/r", b"/r/one/more");
    assert_eq!(worker.unwatched_roots(), vec![b"/r".to_vec()]);
}

#[test]
fn failures_are_told() {
    let mut worker = Worker::new(options("/r"));
    worker.degrade("first");
    worker.degrade("second");
    assert_eq!(worker.reason.as_deref(), Some("first"));
    worker.note_failure("flushing the database", "disk full");
    assert_eq!(worker.reason.as_deref(), Some("flushing the database: disk full"));
}

#[test]
fn limits_are_told_by_kind_or_by_code() {
    assert!(is_budget_error(true, None));
    assert!(is_budget_error(false, Some(28)));
    assert!(!is_budget_error(false, Some(13)));
    assert!(!is_budget_error(false, None));
}

#[test]
fn excludes_hold_below_the_root_only() {
    let opts = options("/srv/node_modules/app");
    assert!(opts.watchable(b"/srv/node_modules/app/src"));
    assert!(!opts.watchable(b"/srv/node_modules/app/node_modules/x"));
    assert!(!opts.watchable(b"/elsewhere/node_modules"));
    assert!(opts.under_roots(b"/srv/node_modules/app/src"));
    assert!(!opts.under_roots(b"/srv/node_modules/apple"));
    assert!(excludes_name(&opts.excludes, b"node_modules"));
    assert!(!excludes_name(&opts.excludes, b"node"));
}

#[test]
fn options_come_from_the_configuration() {
    let c = Config::with_defaults(b"/home/u".to_vec(), b"/db".to_vec(), b"/cache".to_vec());
    let o = WatchOptions::from_config(&c);
    assert_eq!(o.roots, c.roots);
    assert_eq!(o.excludes, c.watch_excludes);
    assert_eq!((o.budget, o.debounce_ms, o.rescan_interval_ms), (400_000, 200, 300_000));
}

#[test]
fn a_watched_tree_follows_creates_writes_renames_and_deletes() {
    let mut engine = Engine::new(
        Config::with_defaults(b"/r".to_vec(), b"/db".to_vec(), b"/cache".to_vec()),
        tree(&[], &["/r/x"]),
    );
    let mut worker = Worker::new(options("/r"));
    let mut step = |engine: &mut Engine, changes: &[Change], stats: Vec<Stat>| {
        let plan = coalesce(changes);
        let r = resolve(&worker.opts, &plan.touches, &stats);
        worker.apply(engine, &r.events);
    };
    let file = |size: u64| Stat::Present { size, mtime: 1, is_dir: false };
    step(&mut engine, &[ev(ChangeKind::Create, &["/r/alpha.txt"])], vec![file(5)]);
    assert_eq!(engine.search_uncached("alpha.txt", 10).hits[0].size, 5);
    step(&mut engine, &[ev(ChangeKind::Modify, &["/r/alpha.txt"])], vec![file(18)]);
    assert_eq!(engine.search_uncached("alpha.txt", 10).hits[0].size, 18);
    step(
        &mut engine,
        &[renamed(ChangeKind::RenameBoth, 3, &["/r/alpha.txt", "/r/beta.txt"])],
        vec![Stat::Gone, file(18)],
    );
    assert!(engine.search_uncached("alpha.txt", 10).hits.is_empty());
    assert_eq!(engine.search_uncached("beta.txt", 10).hits.len(), 1);
    step(&mut engine, &[ev(ChangeKind::Remove, &["/r/beta.txt"])], vec![Stat::Gone]);
    assert!(engine.search_uncached("beta.txt", 10).hits.is_empty());
}

#[test]
fn the_index_converges_to_what_was_walked() {
    let mut engine = Engine::new(
        Config::with_defaults(b"/r".to_vec(), b"/db".to_vec(), b"/cache".to_vec()),
        tree(
            &["/r/sub", "/r/sub/old", "/r/sub/old/deep"],
            &["/r/sub/same", "/r/sub/changed", "/r/sub/old/f", "/r/sub/old/deep/g", "/r/top"],
        ),
    );
    let roots = vec![b"/r/sub".to_vec()];
    let known = engine.with_index(|i| index_snapshot(i, &roots));
    let walked = vec![
        Walked { path: b"/r/sub/same".to_vec(), size: 1, mtime: 1, is_dir: false },
        Walked { path: b"/r/sub/changed".to_vec(), size: 9, mtime: 8, is_dir: false },
        Walked { path: b"/r/sub/new".to_vec(), size: 0, mtime: 2, is_dir: true },
        Walked { path: b"/r/sub/new/h".to_vec(), size: 4, mtime: 2, is_dir: false },
    ];
    let mut events = Vec::new();
    diff_subtrees(&options("/r"), &known, &walked, &mut Vec::new(), &mut events);
    assert!(engine.can_apply(&events));
    engine.apply_events(&events);

    let again = engine.with_index(|i| index_snapshot(i, &roots)).unwrap();
    let mut found: Vec<(Vec<u8>, u64, i64, bool)> =
        again.iter().map(|k| (k.path.clone(), k.size, k.mtime, k.is_dir)).collect();
    let mut wanted: Vec<(Vec<u8>, u64, i64, bool)> =
        walked.iter().map(|w| (w.path.clone(), w.size, w.mtime, w.is_dir)).collect();
    found.sort();
    wanted.sort();
    assert_eq!(found, wanted);
    assert_eq!(engine.search_uncached("top", 10).total, 1);

    // A second diff has nothing left to do.
    let mut nothing = Vec::new();
    diff_subtrees(&options("/r"), &Some(again), &walked, &mut Vec::new(), &mut nothing);
    assert!(nothing.is_empty());
}

#[test]
fn the_order_of_events_does_not_matter() {
    let events = [
        renamed(ChangeKind::RenameFrom, 7, &["/r/old"]),
        ev(ChangeKind::Modify, &["/r/a"]),
        renamed(ChangeKind::RenameTo, 7, &["/r/new"]),
        ev(ChangeKind::Create, &["/r/a", "/r/b"]),
        renamed(ChangeKind::RenameFrom, 8, &["/r/gone"]),
        Change { needs_rescan: true, ..ev(ChangeKind::Other, &[]) },
        ev(ChangeKind::Modify, &["/r/c"]),
    ];
    let told = |p: &Plan| -> (Vec<(Vec<u8>, Touch)>, bool, usize, usize) {
        let touches = p.touches.iter().map(|t| (t.path.clone(), t.touch)).collect();
        (touches, p.overflow, p.pairs, p.halves)
    };
    let first = told(&coalesce(&events));
    assert_eq!((first.1, first.2, first.3), (true, 1, 1));
    assert_eq!(first.0.len(), 6);
    for turn in 1..events.len() {
        let mut other = events.to_vec();
        other.rotate_left(turn);
        assert_eq!(told(&coalesce(&other)), first);
        other.reverse();
        other.push(events[turn].clone());
        assert_eq!(told(&coalesce(&other)), first);
    }
}

#[test]
fn a_fresh_status_is_idle() {
    let status = WatchStatus::default();
    assert!(!status.registering && !status.degraded);
    assert_eq!((status.watched_dirs, status.unwatched_total), (0, 0));
    assert_eq!((status.events_applied, status.batches, status.rescans), (0, 0, 0));
    assert!(status.unwatched_roots.is_empty());
}
