//! What the command line and the window show.

use vstd::prelude::*;

use crate::engine::EngineStats;
use crate::outside;
use crate::outside::{lossy_text, str_lowercase, string_of};
use crate::preview;
use crate::preview::{extension_text, media_type_of_path, FileMeta, Preview};
use crate::text;
use crate::text::lines;
use crate::text::lines::{read_number, split_lines};
use crate::text::{begins_with, chars_of, is_white_space, joined, number_text, part, skip_white};

pub mod laws;
pub mod results;
pub mod shown;
pub mod window;

verus! {

// ---- short texts ----------------------------------------------------------------

/// A text of at most `n` characters; a longer one ends in an ellipsis.
pub open spec fn cut_text(s: Seq<char>, n: nat) -> Seq<char> {
    if s.len() <= n {
        s
    } else {
        s.subrange(0, n - 1) + "…"@
    }
}

/// Cuts a text to at most `n` characters.
pub fn truncate(s: &str, n: usize) -> (r: String)
    requires
        n > 0,
    ensures
        r@ == cut_text(s@, n as nat),
{
    let chars: Vec<char> = chars_of(s);
    if chars.len() <= n {
        s.to_owned()
    } else {
        joined(string_of(part(chars.as_slice(), 0, n - 1).as_slice()).as_str(), "…")
    }
}

/// A number in at least two decimal digits.
pub open spec fn two_digits(n: nat) -> Seq<char> {
    if n < 10 {
        "0"@ + text::decimal_text(n)
    } else {
        text::decimal_text(n)
    }
}

/// A time in microseconds as minutes and seconds; none where it is negative.
pub open spec fn clock_text(micros: i64) -> Seq<char> {
    let seconds = if micros < 0 {
        0nat
    } else {
        (micros / 1_000_000) as nat
    };
    text::decimal_text(seconds / 60) + ":"@ + two_digits(seconds % 60)
}

/// Formats a media timestamp (µs) as `m:ss`.
pub fn clock(micros: i64) -> (r: String)
    ensures
        r@ == clock_text(micros),
{
    let seconds: u64 = if micros < 0 {
        0
    } else {
        micros as u64 / 1_000_000
    };
    let minutes: String = joined(number_text(seconds / 60).as_str(), ":");
    let rest: String = number_text(seconds % 60);
    if seconds % 60 < 10 {
        let padded: String = joined("0", rest.as_str());
        joined(minutes.as_str(), padded.as_str())
    } else {
        joined(minutes.as_str(), rest.as_str())
    }
}

/// The line that tells how much is indexed.
pub open spec fn stats_line(live: nat, dirs: nat) -> Seq<char> {
    if live == 0 {
        "Index is empty — build it to get started"@
    } else {
        text::decimal_text(live) + " files · "@ + text::decimal_text(dirs) + " folders"@
    }
}

/// Tells how much is indexed.
pub fn stats_text(stats: &EngineStats) -> (r: String)
    ensures
        r@ == stats_line(stats.live_entries as nat, stats.dirs as nat),
{
    if stats.live_entries == 0 {
        return "Index is empty — build it to get started".to_owned();
    }
    let files: String = joined(number_text(stats.live_entries as u64).as_str(), " files · ");
    let both: String = joined(files.as_str(), number_text(stats.dirs as u64).as_str());
    joined(both.as_str(), " folders")
}

/// The line that tells how many results there are.
pub fn count_text(n: usize) -> (r: String)
    ensures
        r@ == text::decimal_text(n as nat) + (if n == 1 {
            " result"@
        } else {
            " results"@
        }),
{
    if n == 1 {
        joined(number_text(n as u64).as_str(), " result")
    } else {
        joined(number_text(n as u64).as_str(), " results")
    }
}

/// The first `k` of some lines, with line ends between them.
pub open spec fn with_ends(all: Seq<Seq<char>>, k: nat) -> Seq<char>
    decreases k,
{
    if k == 0 {
        Seq::empty()
    } else if k == 1 {
        all[0]
    } else {
        with_ends(all, (k - 1) as nat) + "\n"@ + all[k - 1]
    }
}

/// The first lines of a text, at most `max` of them.
pub fn first_lines(s: &str, max: usize) -> (r: String)
    ensures
        r@ == with_ends(
            lines::lines_of(s@),
            if lines::lines_of(s@).len() < max {
                lines::lines_of(s@).len()
            } else {
                max as nat
            },
        ),
{
    let all: Vec<Vec<char>> = split_lines(chars_of(s).as_slice());
    let ghost views = lines::char_views(all@);
    let n: usize = if all.len() < max {
        all.len()
    } else {
        max
    };
    let mut out: String = String::new();
    let mut i: usize = 0;
    assert(out@ =~= Seq::<char>::empty());
    while i < n
        invariant
            n <= all@.len(),
            i <= n,
            views == lines::char_views(all@),
            out@ == with_ends(views, i as nat),
        decreases n - i,
    {
        assert(views[i as int] == all@[i as int]@);
        let line: String = string_of(all[i].as_slice());
        if i == 0 {
            out = line;
        } else {
            let head: String = joined(out.as_str(), "\n");
            out = joined(head.as_str(), line.as_str());
        }
        i += 1;
    }
    assert(views.len() == all@.len());
    out
}

// ---- icons ----------------------------------------------------------------------

/// A text is one of some words.
pub open spec fn is_one_of(s: Seq<char>, words: Seq<Seq<char>>) -> bool {
    words.contains(s)
}

pub open spec fn image_exts() -> Seq<Seq<char>> {
    seq!["png"@, "jpg"@, "jpeg"@, "gif"@, "webp"@, "svg"@, "bmp"@, "tiff"@, "ico"@]
}

pub open spec fn audio_exts() -> Seq<Seq<char>> {
    seq!["mp3"@, "ogg"@, "oga"@, "opus"@, "flac"@, "wav"@, "m4a"@, "aac"@, "aiff"@, "aif"@]
}

pub open spec fn video_exts() -> Seq<Seq<char>> {
    seq!["mp4"@, "mkv"@, "webm"@, "avi"@]
}

pub open spec fn archive_exts() -> Seq<Seq<char>> {
    seq!["zip"@, "tar"@, "gz"@, "7z"@, "rar"@]
}

/// The icon for an extension.
pub open spec fn ext_icon(ext: Seq<char>) -> Seq<char> {
    if ext == "pdf"@ {
        "application-pdf-symbolic"@
    } else if is_one_of(ext, image_exts()) {
        "image-x-generic-symbolic"@
    } else if is_one_of(ext, audio_exts()) {
        "audio-x-generic-symbolic"@
    } else if is_one_of(ext, video_exts()) {
        "video-x-generic-symbolic"@
    } else if is_one_of(ext, archive_exts()) {
        "package-x-generic-symbolic"@
    } else {
        "text-x-generic-symbolic"@
    }
}

/// The icon for a media type and an extension: the media type decides where it
/// says enough.
pub open spec fn file_icon(media: Option<(Seq<char>, Seq<char>, Seq<char>)>, ext: Seq<char>) -> Seq<char> {
    match media {
        Some(m) => if m.0 == "image"@ {
            "image-x-generic-symbolic"@
        } else if m.0 == "audio"@ {
            "audio-x-generic-symbolic"@
        } else if m.0 == "video"@ {
            "video-x-generic-symbolic"@
        } else if m.0 == "application"@ && m.1 == "pdf"@ {
            "application-pdf-symbolic"@
        } else if m.0 == "text"@ {
            "text-x-generic-symbolic"@
        } else {
            ext_icon(ext)
        },
        None => ext_icon(ext),
    }
}

fn among(s: &str, words: &[&'static str], Ghost(all): Ghost<Seq<Seq<char>>>) -> (r: bool)
    requires
        words@.len() == all.len(),
        forall|i: int| 0 <= i < all.len() ==> (#[trigger] words@[i])@ == all[i],
    ensures
        r == is_one_of(s@, all),
{
    let chars: Vec<char> = chars_of(s);
    let n: usize = words.len();
    let mut i: usize = 0;
    while i < n
        invariant
            n == words@.len(),
            n == all.len(),
            i <= n,
            chars@ == s@,
            forall|k: int| 0 <= k < all.len() ==> (#[trigger] words@[k])@ == all[k],
            forall|k: int| 0 <= k < i ==> #[trigger] all[k] != s@,
        decreases n - i,
    {
        assert(words@[i as int]@ == all[i as int]);
        if text::is_word(chars.as_slice(), words[i]) {
            assert(all[i as int] == s@);
            return true;
        }
        i += 1;
    }
    false
}

/// The icon for an extension.
pub fn icon_for_extension(ext: &str) -> (r: &'static str)
    ensures
        r@ == ext_icon(ext@),
{
    let images: [&'static str; 9] = ["png", "jpg", "jpeg", "gif", "webp", "svg", "bmp", "tiff", "ico"];
    let sounds: [&'static str; 10] = [
        "mp3",
        "ogg",
        "oga",
        "opus",
        "flac",
        "wav",
        "m4a",
        "aac",
        "aiff",
        "aif",
    ];
    let videos: [&'static str; 4] = ["mp4", "mkv", "webm", "avi"];
    let archives: [&'static str; 5] = ["zip", "tar", "gz", "7z", "rar"];
    if text::is_word(chars_of(ext).as_slice(), "pdf") {
        "application-pdf-symbolic"
    } else if among(ext, images.as_slice(), Ghost(image_exts())) {
        "image-x-generic-symbolic"
    } else if among(ext, sounds.as_slice(), Ghost(audio_exts())) {
        "audio-x-generic-symbolic"
    } else if among(ext, videos.as_slice(), Ghost(video_exts())) {
        "video-x-generic-symbolic"
    } else if among(ext, archives.as_slice(), Ghost(archive_exts())) {
        "package-x-generic-symbolic"
    } else {
        "text-x-generic-symbolic"
    }
}

/// The icon for a media type and an extension.
pub fn icon_for(media: &Option<(String, String, String)>, ext: &str) -> (r: &'static str)
    ensures
        r@ == file_icon(preview::media_view(*media), ext@),
{
    match media {
        Some(m) => {
            let kind: Vec<char> = chars_of(m.0.as_str());
            if text::is_word(kind.as_slice(), "image") {
                return "image-x-generic-symbolic";
            }
            if text::is_word(kind.as_slice(), "audio") {
                return "audio-x-generic-symbolic";
            }
            if text::is_word(kind.as_slice(), "video") {
                return "video-x-generic-symbolic";
            }
            if text::is_word(kind.as_slice(), "application") && text::is_word(
                chars_of(m.1.as_str()).as_slice(),
                "pdf",
            ) {
                return "application-pdf-symbolic";
            }
            if text::is_word(kind.as_slice(), "text") {
                return "text-x-generic-symbolic";
            }
        },
        None => {},
    }
    icon_for_extension(ext)
}

/// The extension of a path in lower case; nothing where it has none that is text.
pub open spec fn lower_ext(p: Seq<u8>) -> Seq<char> {
    match preview::ext_text_of(p) {
        Some(e) => outside::lowercase_of(e),
        None => outside::lowercase_of(Seq::empty()),
    }
}

/// File-type icon from the system icon theme (symbolic names only, so the
/// row follows whatever theme the system uses).
pub fn icon_name_for(p: &[u8], is_dir: bool) -> (r: &'static str)
    ensures
        r@ == (if is_dir {
            "folder-symbolic"@
        } else {
            file_icon(preview::path_media_type(p@), lower_ext(p@))
        }),
{
    if is_dir {
        return "folder-symbolic";
    }
    let media: Option<(String, String, String)> = media_type_of_path(p);
    let ext: String = match extension_text(p) {
        Some(e) => str_lowercase(string_of(e.as_slice()).as_str()),
        None => {
            let nothing: String = String::new();
            assert(nothing@ =~= Seq::<char>::empty());
            str_lowercase(nothing.as_str())
        },
    };
    icon_for(&media, ext.as_str())
}

// ---- previews -------------------------------------------------------------------

/// A number in octal digits.
pub open spec fn octal_text(n: nat) -> Seq<char>
    decreases n,
{
    let last = ((48 + n % 8) as u8) as char;
    if n < 8 {
        seq![last]
    } else {
        octal_text(n / 8).push(last)
    }
}

fn octal_chars(n: u32) -> (r: Vec<char>)
    ensures
        r@ == octal_text(n as nat),
    decreases n,
{
    let last: char = (48 + (n % 8) as u8) as char;
    let mut out: Vec<char> = if n < 8 {
        Vec::new()
    } else {
        octal_chars(n / 8)
    };
    out.push(last);
    assert(n < 8 ==> out@ =~= seq![last]);
    out
}

/// The text of a card.
pub open spec fn card_text(m: FileMeta) -> Seq<char> {
    m.kind@ + "\n\n"@ + text::decimal_text(m.size as nat) + " bytes · mode "@ + octal_text(
        (m.mode & 0o7777) as nat,
    ) + " · owner "@ + m.owner@ + "\n"@ + outside::lossy_text_of(m.path@)
}

/// The text of a preview; nothing where it is shown in another way.
pub open spec fn body_text(p: Preview) -> Seq<char> {
    match p {
        Preview::Text { content, truncated, .. } => if truncated {
            content@ + "\n… preview truncated"@
        } else {
            content@
        },
        Preview::Pdf { text, pages, .. } => "PDF · "@ + text::decimal_text(pages as nat) + " pages\n\n"@ + text@,
        Preview::Meta(m) => card_text(m),
        Preview::Error(e) => "Preview unavailable\n"@ + e@,
        Preview::Image { .. } => Seq::empty(),
        Preview::Audio { .. } => Seq::empty(),
    }
}

fn append(out: String, more: &str) -> (r: String)
    ensures
        r@ == out@ + more@,
{
    joined(out.as_str(), more)
}

/// The text of a preview; nothing where it is shown in another way.
pub fn preview_body(p: &Preview) -> (r: String)
    ensures
        r@ == body_text(*p),
{
    match p {
        Preview::Text { content, truncated, .. } => {
            if *truncated {
                joined(content.as_str(), "\n… preview truncated")
            } else {
                content.as_str().to_owned()
            }
        },
        Preview::Pdf { text, pages, .. } => {
            let head: String = joined("PDF · ", number_text(*pages as u64).as_str());
            append(append(head, " pages\n\n"), text.as_str())
        },
        Preview::Meta(m) => {
            let out: String = joined(m.kind.as_str(), "\n\n");
            let out: String = append(out, number_text(m.size).as_str());
            let out: String = append(out, " bytes · mode ");
            let out: String = append(out, string_of(octal_chars(m.mode & 0o7777).as_slice()).as_str());
            let out: String = append(out, " · owner ");
            let out: String = append(out, m.owner.as_str());
            let out: String = append(out, "\n");
            append(out, lossy_text(m.path.as_slice()).as_str())
        },
        Preview::Error(e) => joined("Preview unavailable\n", e.as_str()),
        _ => {
            let nothing: String = String::new();
            assert(nothing@ =~= Seq::<char>::empty());
            nothing
        },
    }
}

// ---- memory ---------------------------------------------------------------------

/// The second word of a line.
pub open spec fn second_word(s: Seq<char>) -> Option<Seq<char>> {
    let first = text::trim_start(s);
    let rest = text::trim_start(first.skip(word_len(first)));
    if rest.len() == 0 {
        None
    } else {
        Some(rest.subrange(0, word_len(rest)))
    }
}

/// The length of the word that leads a text.
pub open spec fn word_len(s: Seq<char>) -> int
    decreases s.len(),
{
    if s.len() == 0 || text::is_white(s[0]) {
        0
    } else {
        1 + word_len(s.skip(1))
    }
}

/// The peak in the first line that tells it, in bytes; the line tells kibibytes.
pub open spec fn peak_from(all: Seq<Seq<char>>, i: int) -> Option<nat>
    decreases all.len() - i,
{
    if i < 0 || i >= all.len() {
        None
    } else if text::begins(all[i], "VmHWM:"@) {
        match second_word(all[i]) {
            Some(w) => match lines::whole_number(w, (u64::MAX / 1024) as nat) {
                Some(kb) => Some(kb * 1024),
                None => None,
            },
            None => None,
        }
    } else {
        peak_from(all, i + 1)
    }
}

fn skip_word(s: &[char], from: usize) -> (r: usize)
    requires
        from <= s@.len(),
    ensures
        from <= r <= s@.len(),
        r - from == word_len(s@.skip(from as int)),
{
    let n: usize = s.len();
    let mut i: usize = from;
    while i < n && !is_white_space(s[i])
        invariant
            n == s@.len(),
            from <= i <= n,
            i - from + word_len(s@.skip(i as int)) == word_len(s@.skip(from as int)),
        decreases n - i,
    {
        assert(s@.skip(i as int).skip(1) =~= s@.skip(i + 1));
        i += 1;
    }
    i
}

fn read_second_word(s: &[char]) -> (r: Option<Vec<char>>)
    ensures
        match r {
            Some(w) => second_word(s@) == Some(w@),
            None => second_word(s@) is None,
        },
{
    assert(s@.skip(0) =~= s@);
    let a: usize = skip_white(s, 0);
    let b: usize = skip_word(s, a);
    assert(s@.skip(a as int).skip(b - a) =~= s@.skip(b as int));
    let c: usize = skip_white(s, b);
    if c == s.len() {
        return None;
    }
    let d: usize = skip_word(s, c);
    let w: Vec<char> = part(s, c, d);
    assert(w@ =~= s@.skip(c as int).subrange(0, d - c));
    Some(w)
}

pub open spec fn as_nat(r: Option<u64>) -> Option<nat> {
    match r {
        Some(n) => Some(n as nat),
        None => None,
    }
}

/// Peak resident set size of a process, from the text of its status.
pub fn peak_rss(status: &str) -> (r: Option<u64>)
    ensures
        as_nat(r) == peak_from(lines::lines_of(status@), 0),
{
    let all: Vec<Vec<char>> = split_lines(chars_of(status).as_slice());
    let label: Vec<char> = chars_of("VmHWM:");
    let ghost views = lines::char_views(all@);
    let n: usize = all.len();
    let mut i: usize = 0;
    while i < n
        invariant
            n == all@.len(),
            i <= n,
            views == lines::char_views(all@),
            views == lines::lines_of(status@),
            label@ == "VmHWM:"@,
            peak_from(views, i as int) == peak_from(views, 0),
        decreases n - i,
    {
        assert(views[i as int] == all@[i as int]@);
        if begins_with(all[i].as_slice(), label.as_slice()) {
            return match read_second_word(all[i].as_slice()) {
                Some(w) => match read_number(w.as_slice(), u64::MAX / 1024) {
                    Some(kb) => Some(kb * 1024),
                    None => None,
                },
                None => None,
            };
        }
        i += 1;
    }
    None
}

} // verus!
