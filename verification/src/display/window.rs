//! What the window does about a key, a selected row, a preview, a stream and a
//! finished piece of work.

use vstd::prelude::*;

use crate::bytestr::eq_bytes;
use crate::display;
use crate::display::{clock, count_text, preview_body};
use crate::outside;
use crate::outside::{lossy_text, str_from_utf8};
use crate::path;
use crate::path::{eq_path, file_name};
use crate::preview;
use crate::preview::{media_type_of_path, Preview};
use crate::text;
use crate::text::{joined, number_text};

verus! {

// ---- keys -----------------------------------------------------------------------

/// The keys that the window listens for.
#[derive(Debug, Clone, Copy, PartialEq, Eq, Structural)]
pub enum Key {
    F,
    Enter,
    F10,
    Menu,
    Escape,
    Other,
}

#[derive(Debug, Clone, Copy, PartialEq, Eq, Structural)]
pub enum KeyAction {
    FocusSearch,
    OpenSelected,
    ShowMenu,
    ClearSearch,
    ShowList,
    /// The key is left to whatever has the focus.
    Pass,
}

/// Ctrl+F focuses search, Esc clears it (then goes back to the list), Ctrl+Enter
/// opens the selected file, Shift+F10 / Menu shows its menu.
pub fn key_action(key: Key, ctrl: bool, shift: bool, searching: bool) -> (r: KeyAction)
    ensures
        r == KeyAction::FocusSearch <==> key == Key::F && ctrl,
        r == KeyAction::OpenSelected <==> key == Key::Enter && ctrl,
        r == KeyAction::ShowMenu <==> key == Key::Menu || (key == Key::F10 && shift),
        r == KeyAction::ClearSearch <==> key == Key::Escape && searching,
        r == KeyAction::ShowList <==> key == Key::Escape && !searching,
{
    match key {
        Key::F if ctrl => KeyAction::FocusSearch,
        Key::Enter if ctrl => KeyAction::OpenSelected,
        Key::F10 if shift => KeyAction::ShowMenu,
        Key::Menu => KeyAction::ShowMenu,
        Key::Escape => if searching {
            KeyAction::ClearSearch
        } else {
            KeyAction::ShowList
        },
        _ => KeyAction::Pass,
    }
}

// ---- rows -----------------------------------------------------------------------

/// The row to open: the selected one, else the first, where there is such a row.
pub fn row_to_open(selected: Option<usize>, rows: usize) -> (r: Option<usize>)
    ensures
        r == (match selected {
            Some(i) => if i < rows {
                Some(i)
            } else {
                None
            },
            None => if rows > 0 {
                Some(0usize)
            } else {
                None
            },
        }),
{
    let row: usize = match selected {
        Some(i) => i,
        None => 0,
    };
    if row < rows {
        Some(row)
    } else {
        None
    }
}

/// The row whose menu is asked for: the selected one where it is a row, else the
/// first.
pub fn row_for_menu(selected: Option<usize>, rows: usize) -> (r: Option<usize>)
    ensures
        r is None <==> rows == 0,
        r matches Some(i) ==> i < rows,
        selected matches Some(i) ==> i < rows ==> r == Some(i),
        (selected is None || selected->0 >= rows) && rows > 0 ==> r == Some(0usize),
{
    match selected {
        Some(i) if i < rows => Some(i),
        _ => if rows > 0 {
            Some(0)
        } else {
            None
        },
    }
}

/// The first row that shows a path; the first of all where none does.
pub fn row_of(rows: &Vec<Vec<u8>>, p: &[u8]) -> (r: usize)
    ensures
        ({
            ||| {
                &&& r < rows@.len()
                &&& path::same_path(rows@[r as int]@, p@)
                &&& forall|i: int| 0 <= i < r ==> !path::same_path(#[trigger] rows@[i]@, p@)
            }
            ||| {
                &&& r == 0
                &&& forall|i: int| 0 <= i < rows@.len() ==> !path::same_path(#[trigger] rows@[i]@, p@)
            }
        }),
{
    let n: usize = rows.len();
    let mut i: usize = 0;
    while i < n
        invariant
            n == rows@.len(),
            i <= n,
            forall|j: int| 0 <= j < i ==> !path::same_path(#[trigger] rows@[j]@, p@),
        decreases n - i,
    {
        if eq_path(rows[i].as_slice(), p) {
            return i;
        }
        i += 1;
    }
    0
}

/// What the sidebar shows: how many results there are, or a title and a
/// description where there is none.
#[derive(Debug)]
pub enum Sidebar {
    Results(String),
    Empty(&'static str, &'static str),
}

pub fn sidebar_of(found: usize, nothing_asked: bool) -> (r: Sidebar)
    ensures
        match r {
            Sidebar::Results(count) => found > 0 && count@ == text::decimal_text(found as nat) + (if found == 1 {
                " result"@
            } else {
                " results"@
            }),
            Sidebar::Empty(title, description) => {
                &&& found == 0
                &&& nothing_asked ==> title@ == "Start searching"@ && description@
                    == "Type above to search every indexed file. Everything stays on this machine."@
                &&& !nothing_asked ==> title@ == "No matches"@ && description@
                    == "Try a different term or build the index again."@
            },
        },
{
    if found > 0 {
        Sidebar::Results(count_text(found))
    } else if nothing_asked {
        Sidebar::Empty(
            "Start searching",
            "Type above to search every indexed file. Everything stays on this machine.",
        )
    } else {
        Sidebar::Empty("No matches", "Try a different term or build the index again.")
    }
}

// ---- the preview pane -----------------------------------------------------------

/// The title of a path: its name, where that is text.
pub open spec fn title_of(p: Seq<u8>) -> Seq<char> {
    match path::file_name_of(p) {
        Some(name) => if vstd::utf8::valid_utf8(name) {
            vstd::utf8::decode_utf8(name)
        } else {
            "/"@
        },
        None => "/"@,
    }
}

/// The title of a path: its name, where that is text.
pub fn title(p: &[u8]) -> (r: String)
    ensures
        r@ == title_of(p@),
{
    match file_name(p) {
        Some(name) => match str_from_utf8(name.as_slice()) {
            Ok(s) => s.to_owned(),
            Err(_) => "/".to_owned(),
        },
        None => "/".to_owned(),
    }
}

/// The pages of the preview pane.
#[derive(Debug, Clone, Copy, PartialEq, Eq, Structural)]
pub enum Page {
    Text,
    Image,
    Audio,
}

/// What the preview pane shows.
#[derive(Debug)]
pub struct Pane {
    pub page: Page,
    /// The line below the title.
    pub line: String,
    pub body: String,
    /// What is told besides.
    pub notice: Option<String>,
}

pub open spec fn page_of(p: Preview) -> Page {
    match p {
        Preview::Image { .. } => Page::Image,
        Preview::Audio { .. } => Page::Audio,
        _ => Page::Text,
    }
}

/// The essence of a media type; any bytes where it is not known.
pub open spec fn essence_of(media: Option<(Seq<char>, Seq<char>, Seq<char>)>) -> Seq<char> {
    match media {
        Some(m) => m.2,
        None => "application/octet-stream"@,
    }
}

/// The line below the title: where the file is, the size of an image that
/// declares one, and the media type of a stream.
pub open spec fn line_of(
    place: Seq<u8>,
    p: Preview,
    media: Option<(Seq<char>, Seq<char>, Seq<char>)>,
) -> Seq<char> {
    match p {
        Preview::Image { path, width, height } => if width > 0 && height > 0 {
            outside::lossy_text_of(path@) + " · "@ + text::decimal_text(width as nat) + "×"@ + text::decimal_text(
                height as nat,
            )
        } else {
            outside::lossy_text_of(path@)
        },
        Preview::Audio { .. } => essence_of(media) + " · "@ + outside::lossy_text_of(place),
        _ => outside::lossy_text_of(place),
    }
}

pub open spec fn notice_of(p: Preview) -> Option<Seq<char>> {
    match p {
        Preview::Error(e) => Some("Preview unavailable: "@ + e@),
        _ => None,
    }
}

pub open spec fn notice_view(n: Option<String>) -> Option<Seq<char>> {
    match n {
        Some(s) => Some(s@),
        None => None,
    }
}

/// What the preview pane shows of a preview, given the media type of the path.
pub fn pane_with(place: &[u8], p: &Preview, media: &Option<(String, String, String)>) -> (r: Pane)
    ensures
        r.page == page_of(*p),
        r.line@ == line_of(place@, *p, preview::media_view(*media)),
        r.body@ == display::body_text(*p),
        notice_view(r.notice) == notice_of(*p),
{
    let body: String = preview_body(p);
    match p {
        Preview::Image { path, width, height } => {
            let file: String = lossy_text(path.as_slice());
            let line: String = if *width > 0 && *height > 0 {
                let head: String = joined(file.as_str(), " · ");
                let head: String = joined(head.as_str(), number_text(*width as u64).as_str());
                let head: String = joined(head.as_str(), "×");
                joined(head.as_str(), number_text(*height as u64).as_str())
            } else {
                file
            };
            Pane { page: Page::Image, line, body, notice: None }
        },
        Preview::Audio { .. } => {
            let essence: &str = match media {
                Some(m) => m.2.as_str(),
                None => "application/octet-stream",
            };
            let head: String = joined(essence, " · ");
            let line: String = joined(head.as_str(), lossy_text(place).as_str());
            Pane { page: Page::Audio, line, body, notice: None }
        },
        Preview::Error(e) => Pane {
            page: Page::Text,
            line: lossy_text(place),
            body,
            notice: Some(joined("Preview unavailable: ", e.as_str())),
        },
        _ => Pane { page: Page::Text, line: lossy_text(place), body, notice: None },
    }
}

/// What the preview pane shows of the preview of a path.
pub fn pane_of(place: &[u8], p: &Preview) -> (r: Pane)
    ensures
        r.page == page_of(*p),
        r.line@ == line_of(place@, *p, preview::path_media_type(place@)),
        r.body@ == display::body_text(*p),
        notice_view(r.notice) == notice_of(*p),
{
    pane_with(place, p, &media_type_of_path(place))
}

// ---- the audio stream -----------------------------------------------------------

/// How the controls follow a stream. Nothing moves while the length of the stream
/// is not known, and the scale stays where it is while it is being dragged.
#[derive(Debug)]
pub struct Tick {
    pub length: Option<i64>,
    pub position: Option<i64>,
    pub time: Option<String>,
    pub icon: &'static str,
}

pub fn audio_tick(duration: i64, timestamp: i64, dragging: bool, playing: bool) -> (r: Tick)
    ensures
        r.length == (if duration > 0 {
            Some(duration)
        } else {
            None
        }),
        r.position == (if duration > 0 && !dragging {
            Some(timestamp)
        } else {
            None
        }),
        notice_view(r.time) == (if duration > 0 {
            Some(display::clock_text(timestamp) + " / "@ + display::clock_text(duration))
        } else {
            None
        }),
        r.icon@ == (if playing {
            "media-playback-pause-symbolic"@
        } else {
            "media-playback-start-symbolic"@
        }),
{
    let icon: &'static str = if playing {
        "media-playback-pause-symbolic"
    } else {
        "media-playback-start-symbolic"
    };
    if duration <= 0 {
        return Tick { length: None, position: None, time: None, icon };
    }
    let head: String = joined(clock(timestamp).as_str(), " / ");
    let time: String = joined(head.as_str(), clock(duration).as_str());
    let position: Option<i64> = if dragging {
        None
    } else {
        Some(timestamp)
    };
    Tick { length: Some(duration), position, time: Some(time), icon }
}

// ---- work on the index ----------------------------------------------------------

/// The work that runs behind the window, one piece at a time.
#[derive(Debug, Clone, Copy, PartialEq, Eq, Structural)]
pub enum Job {
    Reindex,
    AddFolder,
}

/// What comes of asking for a piece of work.
#[derive(Debug)]
pub enum Start {
    /// It begins; this is its name.
    Begin(&'static str),
    /// Another piece is under way.
    Refuse(Option<&'static str>),
}

pub fn job_start(job: Job, busy: bool) -> (r: Start)
    ensures
        match r {
            Start::Begin(phase) => !busy && phase@ == (match job {
                Job::Reindex => "Indexing…"@,
                Job::AddFolder => "Adding folder…"@,
            }),
            Start::Refuse(why) => busy && match (job, why) {
                (Job::Reindex, None) => true,
                (Job::AddFolder, Some(w)) => w@ == "Already indexing — wait for it to finish"@,
                _ => false,
            },
        },
{
    match job {
        Job::Reindex => if busy {
            Start::Refuse(None)
        } else {
            Start::Begin("Indexing…")
        },
        Job::AddFolder => if busy {
            Start::Refuse(Some("Already indexing — wait for it to finish"))
        } else {
            Start::Begin("Adding folder…")
        },
    }
}

/// What the mailbox of a piece of work holds.
#[derive(Debug)]
pub enum Mail {
    /// It is done, and this many files were seen.
    Done(usize),
    Failed(String),
    /// Nothing yet.
    Waiting,
    /// The worker is gone without a word.
    Lost,
}

/// What the window does about the mailbox.
#[derive(Debug)]
pub struct JobStep {
    pub refresh: bool,
    pub notice: Option<String>,
    pub finished: bool,
}

/// What is told when a piece of work has ended.
pub open spec fn job_notice(job: Job, mail: Mail) -> Option<Seq<char>> {
    match (job, mail) {
        (Job::Reindex, Mail::Done(files)) => Some("Index ready — "@ + text::decimal_text(files as nat) + " files"@),
        (Job::AddFolder, Mail::Done(_)) => Some("Folder added to the index"@),
        (Job::Reindex, Mail::Failed(e)) => Some("Index failed: "@ + e@),
        (Job::AddFolder, Mail::Failed(e)) => Some("Could not add folder: "@ + e@),
        _ => None,
    }
}

pub fn job_step(job: Job, mail: &Mail) -> (r: JobStep)
    ensures
        r.refresh <==> *mail is Done,
        r.finished <==> !(*mail is Waiting),
        notice_view(r.notice) == job_notice(job, *mail),
{
    match mail {
        Mail::Done(files) => {
            let notice: String = match job {
                Job::Reindex => {
                    let head: String = joined("Index ready — ", number_text(*files as u64).as_str());
                    joined(head.as_str(), " files")
                },
                Job::AddFolder => "Folder added to the index".to_owned(),
            };
            JobStep { refresh: true, notice: Some(notice), finished: true }
        },
        Mail::Failed(e) => {
            let notice: String = match job {
                Job::Reindex => joined("Index failed: ", e.as_str()),
                Job::AddFolder => joined("Could not add folder: ", e.as_str()),
            };
            JobStep { refresh: false, notice: Some(notice), finished: true }
        },
        Mail::Waiting => JobStep { refresh: false, notice: None, finished: false },
        Mail::Lost => JobStep { refresh: false, notice: None, finished: true },
    }
}

// ---- arguments ------------------------------------------------------------------

/// An argument that asks for the watcher without a window.
pub open spec fn asks_for_daemon(arg: Seq<u8>) -> bool {
    arg == daemon_flag() || arg == daemon_flag().skip(2)
}

/// `--daemon`
pub open spec fn daemon_flag() -> Seq<u8> {
    seq![45, 45, 100, 97, 101, 109, 111, 110]
}

/// One of the arguments behind the program's name asks for the watcher without a
/// window.
pub fn wants_daemon(args: &Vec<Vec<u8>>) -> (r: bool)
    ensures
        r == exists|i: int| 1 <= i < args@.len() && asks_for_daemon(#[trigger] args@[i]@),
{
    let flag: Vec<u8> = vec![45, 45, 100, 97, 101, 109, 111, 110];
    let word: Vec<u8> = vec![100, 97, 101, 109, 111, 110];
    assert(flag@ =~= daemon_flag());
    assert(word@ =~= daemon_flag().skip(2));
    let n: usize = args.len();
    let mut i: usize = 1;
    while i < n
        invariant
            n == args@.len(),
            1 <= i,
            flag@ == daemon_flag(),
            word@ == daemon_flag().skip(2),
            forall|j: int| 1 <= j < i ==> !asks_for_daemon(#[trigger] args@[j]@),
        decreases n - i,
    {
        let arg: &[u8] = args[i].as_slice();
        if eq_bytes(arg, flag.as_slice()) || eq_bytes(arg, word.as_slice()) {
            assert(asks_for_daemon(args@[i as int]@));
            return true;
        }
        i += 1;
    }
    false
}

} // verus!
