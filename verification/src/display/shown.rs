//! What holds of icons, titles, panes and notices.

use vstd::prelude::*;

use crate::decimal;
use crate::decimal::exact;
use crate::display;
use crate::display::window;
use crate::display::window::{Job, Mail, Page};
use crate::outside;
use crate::path;
use crate::path::laws as paths;
use crate::preview::told;
use crate::preview::Preview;
use crate::text;

verus! {

/// A media type that says enough decides the icon, whatever the extension; where it says
/// nothing of use, or there is none, the extension decides.
pub proof fn law_media_type_decides_the_icon(
    kind: Seq<char>,
    sub: Seq<char>,
    essence: Seq<char>,
    ext: Seq<char>,
    other: Seq<char>,
)
    ensures
        kind == "image"@ ==> display::file_icon(Some((kind, sub, essence)), ext) == "image-x-generic-symbolic"@,
        kind == "audio"@ ==> display::file_icon(Some((kind, sub, essence)), ext) == "audio-x-generic-symbolic"@,
        kind == "video"@ ==> display::file_icon(Some((kind, sub, essence)), ext) == "video-x-generic-symbolic"@,
        kind == "text"@ ==> display::file_icon(Some((kind, sub, essence)), ext) == "text-x-generic-symbolic"@,
        kind == "application"@ && sub == "pdf"@ ==> display::file_icon(Some((kind, sub, essence)), ext)
            == "application-pdf-symbolic"@,
        kind == "application"@ && sub != "pdf"@ ==> display::file_icon(Some((kind, sub, essence)), ext)
            == display::file_icon(None, ext),
{
    reveal_strlit("image");
    reveal_strlit("audio");
    reveal_strlit("video");
    reveal_strlit("text");
    reveal_strlit("application");
    assert("image"@[0] == 'i' && "audio"@[0] == 'a' && "video"@[0] == 'v' && "text"@[0] == 't');
    assert("application"@[1] == 'p' && "audio"@[1] == 'u');
}

/// The extensions that have an icon of their own, and that no other has it.
pub proof fn law_extension_icons(ext: Seq<char>)
    ensures
        display::ext_icon(ext) == "application-pdf-symbolic"@ <==> ext == "pdf"@,
        display::ext_icon(ext) == "image-x-generic-symbolic"@ <==> (ext == "png"@ || ext == "jpg"@ || ext == "jpeg"@ || ext
            == "gif"@ || ext == "webp"@ || ext == "svg"@ || ext == "bmp"@ || ext == "tiff"@ || ext == "ico"@),
        display::ext_icon(ext) == "audio-x-generic-symbolic"@ <==> (ext == "mp3"@ || ext == "ogg"@ || ext == "oga"@ || ext
            == "opus"@ || ext == "flac"@ || ext == "wav"@ || ext == "m4a"@ || ext == "aac"@ || ext == "aiff"@ || ext
            == "aif"@),
        display::ext_icon(ext) == "video-x-generic-symbolic"@ <==> (ext == "mp4"@ || ext == "mkv"@ || ext == "webm"@ || ext
            == "avi"@),
        display::ext_icon(ext) == "package-x-generic-symbolic"@ <==> (ext == "zip"@ || ext == "tar"@ || ext == "gz"@ || ext
            == "7z"@ || ext == "rar"@),
{
    lemma_icons();
    lemma_lists(ext);
    lemma_exts_apart(ext);
}

proof fn lemma_icons()
    ensures
        "application-pdf-symbolic"@[1] == 'p',
        "image-x-generic-symbolic"@[1] == 'm',
        "audio-x-generic-symbolic"@[1] == 'u',
        "video-x-generic-symbolic"@[1] == 'i',
        "package-x-generic-symbolic"@[1] == 'a',
        "text-x-generic-symbolic"@[1] == 'e',
{
    reveal_strlit("application-pdf-symbolic");
    reveal_strlit("image-x-generic-symbolic");
    reveal_strlit("audio-x-generic-symbolic");
    reveal_strlit("video-x-generic-symbolic");
    reveal_strlit("package-x-generic-symbolic");
    reveal_strlit("text-x-generic-symbolic");
}

proof fn lemma_lists(ext: Seq<char>)
    ensures
        display::is_one_of(ext, display::image_exts()) <==> (ext == "png"@ || ext == "jpg"@ || ext == "jpeg"@ || ext
            == "gif"@ || ext == "webp"@ || ext == "svg"@ || ext == "bmp"@ || ext == "tiff"@ || ext == "ico"@),
        display::is_one_of(ext, display::audio_exts()) <==> (ext == "mp3"@ || ext == "ogg"@ || ext == "oga"@ || ext
            == "opus"@ || ext == "flac"@ || ext == "wav"@ || ext == "m4a"@ || ext == "aac"@ || ext == "aiff"@ || ext
            == "aif"@),
        display::is_one_of(ext, display::video_exts()) <==> (ext == "mp4"@ || ext == "mkv"@ || ext == "webm"@ || ext
            == "avi"@),
        display::is_one_of(ext, display::archive_exts()) <==> (ext == "zip"@ || ext == "tar"@ || ext == "gz"@ || ext
            == "7z"@ || ext == "rar"@),
{
    let i = display::image_exts();
    assert(i[0] == "png"@ && i[1] == "jpg"@ && i[2] == "jpeg"@ && i[3] == "gif"@ && i[4] == "webp"@ && i[5] == "svg"@
        && i[6] == "bmp"@ && i[7] == "tiff"@ && i[8] == "ico"@);
    let a = display::audio_exts();
    assert(a[0] == "mp3"@ && a[1] == "ogg"@ && a[2] == "oga"@ && a[3] == "opus"@ && a[4] == "flac"@ && a[5] == "wav"@
        && a[6] == "m4a"@ && a[7] == "aac"@ && a[8] == "aiff"@ && a[9] == "aif"@);
    let v = display::video_exts();
    assert(v[0] == "mp4"@ && v[1] == "mkv"@ && v[2] == "webm"@ && v[3] == "avi"@);
    let z = display::archive_exts();
    assert(z[0] == "zip"@ && z[1] == "tar"@ && z[2] == "gz"@ && z[3] == "7z"@ && z[4] == "rar"@);
}

proof fn lemma_exts_apart(ext: Seq<char>)
    ensures
        ext == "pdf"@ ==> !display::is_one_of(ext, display::image_exts()),
        display::is_one_of(ext, display::audio_exts()) ==> ext != "pdf"@ && !display::is_one_of(
            ext,
            display::image_exts(),
        ),
        display::is_one_of(ext, display::video_exts()) ==> ext != "pdf"@ && !display::is_one_of(
            ext,
            display::image_exts(),
        ) && !display::is_one_of(ext, display::audio_exts()),
        display::is_one_of(ext, display::archive_exts()) ==> ext != "pdf"@ && !display::is_one_of(
            ext,
            display::image_exts(),
        ) && !display::is_one_of(ext, display::audio_exts()) && !display::is_one_of(ext, display::video_exts()),
{
    lemma_lists(ext);
    reveal_strlit("pdf");
    reveal_strlit("png");
    reveal_strlit("jpg");
    reveal_strlit("jpeg");
    reveal_strlit("gif");
    reveal_strlit("webp");
    reveal_strlit("svg");
    reveal_strlit("bmp");
    reveal_strlit("tiff");
    reveal_strlit("ico");
    reveal_strlit("mp3");
    reveal_strlit("ogg");
    reveal_strlit("oga");
    reveal_strlit("opus");
    reveal_strlit("flac");
    reveal_strlit("wav");
    reveal_strlit("m4a");
    reveal_strlit("aac");
    reveal_strlit("aiff");
    reveal_strlit("aif");
    reveal_strlit("mp4");
    reveal_strlit("mkv");
    reveal_strlit("webm");
    reveal_strlit("avi");
    reveal_strlit("zip");
    reveal_strlit("tar");
    reveal_strlit("gz");
    reveal_strlit("7z");
    reveal_strlit("rar");
    assert("pdf"@[1] == 'd' && "png"@[1] == 'n' && "jpg"@[1] == 'p' && "jpeg"@[1] == 'p' && "gif"@[1] == 'i' && "webp"@[1]
        == 'e' && "svg"@[1] == 'v' && "bmp"@[1] == 'm' && "tiff"@[1] == 'i' && "ico"@[1] == 'c');
    assert("mp3"@[2] == '3' && "ogg"@[0] == 'o' && "oga"@[0] == 'o' && "opus"@[0] == 'o' && "flac"@[0] == 'f' && "wav"@[1]
        == 'a' && "m4a"@[1] == '4' && "aac"@[0] == 'a' && "aiff"@[0] == 'a' && "aif"@[0] == 'a');
    assert("mp3"@[0] == 'm' && "wav"@[0] == 'w' && "m4a"@[0] == 'm');
    assert("aac"@[1] == 'a' && "aiff"@[1] == 'i' && "aif"@[1] == 'i' && "avi"@[1] == 'v');
    assert("pdf"@[0] == 'p' && "png"@[0] == 'p' && "jpg"@[0] == 'j' && "jpeg"@[0] == 'j' && "gif"@[0] == 'g' && "webp"@[0]
        == 'w' && "svg"@[0] == 's' && "bmp"@[0] == 'b' && "tiff"@[0] == 't' && "ico"@[0] == 'i');
    assert("mp4"@[0] == 'm' && "mp4"@[2] == '4' && "mkv"@[0] == 'm' && "mkv"@[1] == 'k' && "webm"@[0] == 'w' && "webm"@[3]
        == 'm' && "webp"@[3] == 'p' && "avi"@[0] == 'a' && "mp4"@[1] == 'p' && "mp3"@[1] == 'p');
    assert("zip"@[0] == 'z' && "tar"@[0] == 't' && "tar"@[1] == 'a' && "gz"@[0] == 'g' && "gz"@[1] == 'z' && "7z"@[0] == '7'
        && "rar"@[0] == 'r');
}

/// The title of a file is its name, where that is text.
pub proof fn law_titles(p: Seq<u8>, name: Seq<u8>)
    requires
        p.len() > 0,
        paths::is_kept(name),
        !(name.len() == 2 && name[0] as char == '.' && name[1] as char == '.'),
        vstd::utf8::valid_utf8(name),
    ensures
        vstd::utf8::encode_utf8(window::title_of(p + seq![path::SLASH] + name)) == name,
{
    paths::law_file_name(p, name);
    vstd::utf8::decode_utf8_encode_utf8(name);
}

/// An image and a sound have pages of their own; all else is shown as text.
pub proof fn law_pages(p: Preview)
    ensures
        window::page_of(p) == Page::Image <==> p is Image,
        window::page_of(p) == Page::Audio <==> p is Audio,
        window::page_of(p) == Page::Text <==> !(p is Image) && !(p is Audio),
{
}

/// The line below the title of an image tells its width and then its height, where it
/// declares both.
pub proof fn law_image_lines(
    place: Seq<u8>,
    file: Vec<u8>,
    width: u32,
    height: u32,
    media: Option<(Seq<char>, Seq<char>, Seq<char>)>,
) -> (parts: (Seq<char>, Seq<char>))
    requires
        width > 0,
        height > 0,
    ensures
        window::line_of(place, Preview::Image { path: file, width, height }, media) == outside::lossy_text_of(file@)
            + " · "@ + parts.0 + "×"@ + parts.1,
        decimal::all_digits(parts.0) && decimal::digits_value(parts.0) == width,
        decimal::all_digits(parts.1) && decimal::digits_value(parts.1) == height,
{
    exact::law_digits_read_back(width as nat);
    exact::law_digits_read_back(height as nat);
    (text::decimal_text(width as nat), text::decimal_text(height as nat))
}

/// An image without a declared size is shown with its path alone; a sound with its media
/// type before its place; all else with its place.
pub proof fn law_other_lines(place: Seq<u8>, p: Preview, media: Option<(Seq<char>, Seq<char>, Seq<char>)>)
    ensures
        match p {
            Preview::Image { path, width, height } => (width == 0 || height == 0) ==> window::line_of(place, p, media)
                == outside::lossy_text_of(path@),
            Preview::Audio { .. } => ({
                let line = window::line_of(place, p, media);
                let shown = outside::lossy_text_of(place);
                &&& line.len() >= shown.len() && line.skip(line.len() - shown.len()) == shown
                &&& media matches Some(m) ==> line.take(m.2.len() as int) == m.2
            }),
            _ => window::line_of(place, p, media) == outside::lossy_text_of(place),
        },
{
    if p is Audio {
        let line = window::line_of(place, p, media);
        let shown = outside::lossy_text_of(place);
        assert(line.skip(line.len() - shown.len()) =~= shown);
        if let Some(m) = media {
            assert(line.take(m.2.len() as int) =~= m.2);
        }
    }
}

/// A notice comes with an error alone, and tells it.
pub proof fn law_notices(p: Preview)
    ensures
        window::notice_of(p) is Some <==> p is Error,
        p matches Preview::Error(e) ==> {
            let told = window::notice_of(p)->0;
            told.len() >= e@.len() && told.skip(told.len() - e@.len()) == e@
        },
{
    if let Preview::Error(e) = p {
        let told = window::notice_of(p)->0;
        assert(told.skip(told.len() - e@.len()) =~= e@);
    }
}

/// What is told of finished work: of a new index how many files it has, of a failure why;
/// nothing while it goes on, nor where no word came.
pub proof fn law_job_notices(job: Job, mail: Mail)
    ensures
        window::job_notice(job, mail) is Some <==> mail is Done || mail is Failed,
        mail matches Mail::Failed(e) ==> {
            let told = window::job_notice(job, mail)->0;
            told.len() >= e@.len() && told.skip(told.len() - e@.len()) == e@
        },
        (mail matches Mail::Done(files) && job == Job::Reindex) ==> {
            let told = window::job_notice(job, mail)->0;
            let (a, b) = ("Index ready — "@.len() as int, " files"@.len() as int);
            &&& told.len() >= a + b
            &&& decimal::all_digits(told.subrange(a, told.len() - b))
            &&& decimal::digits_value(told.subrange(a, told.len() - b)) == mail->Done_0
        },
{
    match mail {
        Mail::Failed(e) => {
            let told = window::job_notice(job, mail)->0;
            assert(told.skip(told.len() - e@.len()) =~= e@);
        },
        Mail::Done(files) => {
            exact::law_digits_read_back(files as nat);
            if job == Job::Reindex {
                let told = window::job_notice(job, mail)->0;
                let digits = text::decimal_text(files as nat);
                let (a, b) = ("Index ready — "@, " files"@);
                assert(told == a + digits + b);
                assert(told.subrange(a.len() as int, told.len() - b.len()) =~= digits);
            }
        },
        _ => {},
    }
}

/// `--daemon` and `daemon` ask for the watcher alone, and nothing else does.
pub proof fn law_daemon_arguments(arg: Seq<u8>)
    ensures
        window::asks_for_daemon(arg) <==> arg == vstd::utf8::encode_utf8("--daemon"@) || arg == vstd::utf8::encode_utf8(
            "daemon"@,
        ),
{
    reveal_strlit("--daemon");
    reveal_strlit("daemon");
    told::lemma_ascii_bytes("--daemon"@, seq![45u8, 45, 100, 97, 101, 109, 111, 110]);
    told::lemma_ascii_bytes("daemon"@, seq![100u8, 97, 101, 109, 111, 110]);
    assert(window::daemon_flag() =~= seq![45u8, 45, 100, 97, 101, 109, 111, 110]);
    assert(window::daemon_flag().skip(2) =~= seq![100u8, 97, 101, 109, 111, 110]);
}

/// An index with entries is told by how many files and folders it has; an empty one is
/// not.
pub proof fn law_stats_lines(live: nat, dirs: nat) -> (parts: (Seq<char>, Seq<char>))
    requires
        live > 0,
    ensures
        display::stats_line(live, dirs) == parts.0 + " files · "@ + parts.1 + " folders"@,
        decimal::all_digits(parts.0) && decimal::digits_value(parts.0) == live,
        decimal::all_digits(parts.1) && decimal::digits_value(parts.1) == dirs,
{
    exact::law_digits_read_back(live);
    exact::law_digits_read_back(dirs);
    (text::decimal_text(live), text::decimal_text(dirs))
}

/// A path without a name, or with one that is no text, is titled like the root.
pub proof fn law_untitled(p: Seq<u8>)
    ensures
        path::file_name_of(p) is None ==> window::title_of(p) == "/"@,
        path::file_name_of(p) is Some && !vstd::utf8::valid_utf8(path::file_name_of(p)->0) ==> window::title_of(p)
            == "/"@,
{
}

/// What is not known is any bytes.
pub proof fn law_essences(media: Option<(Seq<char>, Seq<char>, Seq<char>)>)
    ensures
        media is None ==> window::essence_of(media) == "application/octet-stream"@,
        media matches Some(m) ==> window::essence_of(media) == m.2,
{
}

} // verus!
