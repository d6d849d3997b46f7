//! What the window does.

use optionsearch::db::{schema_step, SchemaStep};
use optionsearch::display::window::{
    audio_tick, job_start, job_step, key_action, pane_of, pane_with, row_for_menu, row_of, row_to_open, sidebar_of,
    title, wants_daemon, Job, Key, KeyAction, Mail, Page, Sidebar, Start,
};
use optionsearch::preview::{FileMeta, Preview};

#[test]
fn keys_lead_to_actions() {
    assert_eq!(key_action(Key::F, true, false, false), KeyAction::FocusSearch);
    assert_eq!(key_action(Key::F, false, false, false), KeyAction::Pass);
    assert_eq!(key_action(Key::Enter, true, false, true), KeyAction::OpenSelected);
    assert_eq!(key_action(Key::Enter, false, false, true), KeyAction::Pass);
    assert_eq!(key_action(Key::F10, false, true, false), KeyAction::ShowMenu);
    assert_eq!(key_action(Key::F10, false, false, false), KeyAction::Pass);
    assert_eq!(key_action(Key::Menu, false, false, false), KeyAction::ShowMenu);
    assert_eq!(key_action(Key::Escape, false, false, true), KeyAction::ClearSearch);
    assert_eq!(key_action(Key::Escape, false, false, false), KeyAction::ShowList);
    assert_eq!(key_action(Key::Other, true, true, true), KeyAction::Pass);
}

#[test]
fn rows_are_picked() {
    assert_eq!(row_to_open(Some(2), 3), Some(2));
    assert_eq!(row_to_open(Some(3), 3), None);
    assert_eq!(row_to_open(None, 3), Some(0));
    assert_eq!(row_to_open(None, 0), None);
    assert_eq!(row_for_menu(Some(2), 3), Some(2));
    assert_eq!(row_for_menu(Some(3), 3), Some(0));
    assert_eq!(row_for_menu(None, 0), None);
    let rows = vec![b"/a".to_vec(), b"/b".to_vec(), b"/b/".to_vec()];
    assert_eq!(row_of(&rows, b"/b"), 1);
    assert_eq!(row_of(&rows, b"/c"), 0);
}

#[test]
fn the_sidebar_tells_what_was_found() {
    assert!(matches!(sidebar_of(1, false), Sidebar::Results(s) if s == "1 result"));
    assert!(matches!(sidebar_of(12, true), Sidebar::Results(s) if s == "12 results"));
    assert!(matches!(sidebar_of(0, true), Sidebar::Empty("Start searching", _)));
    assert!(matches!(
        sidebar_of(0, false),
        Sidebar::Empty("No matches", "Try a different term or build the index again.")
    ));
}

#[test]
fn titles_are_names() {
    assert_eq!(title(b"/home/u/notes.md"), "notes.md");
    assert_eq!(title(b"/"), "/");
    assert_eq!(title(b"/home/\xff"), "/");
}

#[test]
fn panes_show_previews() {
    let image = Preview::Image { path: b"/p/a.png".to_vec(), width: 4, height: 3 };
    let pane = pane_of(b"/p/a.png", &image);
    assert_eq!(pane.page, Page::Image);
    assert_eq!(pane.line, "/p/a.png · 4×3");
    assert_eq!(pane.body, "");

    let unsized_svg = Preview::Image { path: b"/p/a.svg".to_vec(), width: 0, height: 3 };
    assert_eq!(pane_of(b"/p/a.svg", &unsized_svg).line, "/p/a.svg");

    let audio = Preview::Audio { path: b"/p/a.flac".to_vec() };
    assert_eq!(pane_with(b"/p/a", &audio, &None).line, "application/octet-stream · /p/a");
    assert_eq!(pane_of(b"/p/song.mp3", &audio).line, "audio/mpeg · /p/song.mp3");
    assert_eq!(pane_of(b"/p/song.mp3", &audio).page, Page::Audio);

    let text = Preview::Text { content: "hi".to_string(), truncated: false, lines: 1 };
    let pane = pane_of(b"/p/a.txt", &text);
    assert_eq!((pane.page, pane.line.as_str(), pane.body.as_str()), (Page::Text, "/p/a.txt", "hi"));
    assert!(pane.notice.is_none());

    let error = Preview::Error("gone".to_string());
    let pane = pane_of(b"/p/a.txt", &error);
    assert_eq!(pane.body, "Preview unavailable\ngone");
    assert_eq!(pane.notice.as_deref(), Some("Preview unavailable: gone"));

    let card = Preview::Meta(FileMeta {
        path: b"/p".to_vec(),
        size: 7,
        mtime: 0,
        mode: 0o100644,
        owner: "u".to_string(),
        kind: "elf".to_string(),
        is_dir: false,
    });
    assert_eq!(pane_of(b"/p", &card).body, "elf\n\n7 bytes · mode 644 · owner u\n/p");
}

#[test]
fn controls_follow_the_stream() {
    let t = audio_tick(61_000_000, 5_000_000, false, true);
    assert_eq!((t.length, t.position), (Some(61_000_000), Some(5_000_000)));
    assert_eq!(t.time.as_deref(), Some("0:05 / 1:01"));
    assert_eq!(t.icon, "media-playback-pause-symbolic");
    let dragged = audio_tick(61_000_000, 5_000_000, true, false);
    assert_eq!((dragged.length, dragged.position), (Some(61_000_000), None));
    assert_eq!(dragged.icon, "media-playback-start-symbolic");
    let unknown = audio_tick(0, 5, false, false);
    assert!(unknown.length.is_none() && unknown.position.is_none() && unknown.time.is_none());
}

#[test]
fn one_job_at_a_time() {
    assert!(matches!(job_start(Job::Reindex, false), Start::Begin("Indexing…")));
    assert!(matches!(job_start(Job::AddFolder, false), Start::Begin("Adding folder…")));
    assert!(matches!(job_start(Job::Reindex, true), Start::Refuse(None)));
    assert!(matches!(
        job_start(Job::AddFolder, true),
        Start::Refuse(Some("Already indexing — wait for it to finish"))
    ));
}

#[test]
fn jobs_end_with_a_notice() {
    let s = job_step(Job::Reindex, &Mail::Done(42));
    assert!(s.refresh && s.finished);
    assert_eq!(s.notice.as_deref(), Some("Index ready — 42 files"));
    assert_eq!(job_step(Job::AddFolder, &Mail::Done(42)).notice.as_deref(), Some("Folder added to the index"));
    let s = job_step(Job::AddFolder, &Mail::Failed("no".to_string()));
    assert!(!s.refresh && s.finished);
    assert_eq!(s.notice.as_deref(), Some("Could not add folder: no"));
    let s = job_step(Job::Reindex, &Mail::Failed("no".to_string()));
    assert_eq!(s.notice.as_deref(), Some("Index failed: no"));
    let s = job_step(Job::Reindex, &Mail::Waiting);
    assert!(!s.refresh && !s.finished && s.notice.is_none());
    let s = job_step(Job::Reindex, &Mail::Lost);
    assert!(!s.refresh && s.finished && s.notice.is_none());
}

#[test]
fn the_daemon_is_asked_for() {
    let args = |list: &[&str]| -> Vec<Vec<u8>> { list.iter().map(|a| a.as_bytes().to_vec()).collect() };
    assert!(wants_daemon(&args(&["optionsearch-gtk", "--daemon"])));
    assert!(wants_daemon(&args(&["optionsearch-gtk", "x", "daemon"])));
    assert!(!wants_daemon(&args(&["daemon", "watch"])));
    assert!(!wants_daemon(&args(&[])));
}

#[test]
fn another_schema_is_reset() {
    assert_eq!(schema_step(None), SchemaStep::Stamp);
    assert_eq!(schema_step(Some("1")), SchemaStep::Keep);
    assert_eq!(schema_step(Some("2")), SchemaStep::Reset);
    assert_eq!(schema_step(Some("")), SchemaStep::Reset);
}
