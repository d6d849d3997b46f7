//! What is shown.

use optionsearch::display::results::{hit_line, json_line, kind_of, signed_number_text};
use optionsearch::display::{
    clock, count_text, first_lines, icon_for, icon_for_extension, icon_name_for, peak_rss,
    preview_body, stats_text, truncate,
};
use optionsearch::engine::EngineStats;
use optionsearch::model::Hit;
use optionsearch::preview::{FileMeta, Preview};
use optionsearch::text::number_text;

#[test]
fn long_texts_end_in_an_ellipsis() {
    assert_eq!(truncate("short", 5), "short");
    assert_eq!(truncate("longer", 5), "long…");
    assert_eq!(truncate("ação!", 4), "açã…");
}

#[test]
fn times_are_minutes_and_seconds() {
    assert_eq!(clock(0), "0:00");
    assert_eq!(clock(61_999_999), "1:01");
    assert_eq!(clock(3_600_000_000), "60:00");
    assert_eq!(clock(-5), "0:00");
}

#[test]
fn the_index_is_summed_up() {
    let mut s = EngineStats {
        entries: 9,
        live_entries: 0,
        dead_entries: 9,
        dirs: 2,
        name_bytes: 1,
        memory_bytes: 1,
        pending_writes: 0,
    };
    assert_eq!(stats_text(&s), "Index is empty — build it to get started");
    s.live_entries = 7;
    assert_eq!(stats_text(&s), "7 files · 2 folders");
    assert_eq!(count_text(1), "1 result");
    assert_eq!(count_text(12), "12 results");
}

#[test]
fn the_first_lines_of_a_text() {
    assert_eq!(first_lines("a\nb\r\nc\n", 2), "a\nb");
    assert_eq!(first_lines("a\nb", 9), "a\nb");
    assert_eq!(first_lines("a", 0), "");
}

#[test]
fn icons_follow_the_media_type_then_the_extension() {
    assert_eq!(icon_name_for(b"/a", true), "folder-symbolic");
    assert_eq!(icon_name_for(b"/a/x.PNG", false), "image-x-generic-symbolic");
    assert_eq!(icon_name_for(b"/a/x.mp3", false), "audio-x-generic-symbolic");
    assert_eq!(icon_name_for(b"/a/x.pdf", false), "application-pdf-symbolic");
    assert_eq!(icon_name_for(b"/a/x.RAR", false), "package-x-generic-symbolic");
    assert_eq!(icon_name_for(b"/a/none", false), "text-x-generic-symbolic");
    let video = Some(("video".to_string(), "mp4".to_string(), "video/mp4".to_string()));
    assert_eq!(icon_for(&video, "zip"), "video-x-generic-symbolic");
    assert_eq!(icon_for(&None, "zip"), "package-x-generic-symbolic");
    assert_eq!(icon_for_extension("opus"), "audio-x-generic-symbolic");
    assert_eq!(icon_for_extension("mkv"), "video-x-generic-symbolic");
    assert_eq!(icon_for_extension("txt"), "text-x-generic-symbolic");
}

#[test]
fn previews_have_bodies() {
    let m = FileMeta {
        path: b"/a/b".to_vec(),
        size: 12,
        mtime: 0,
        mode: 0o100644,
        owner: "u".to_string(),
        kind: "bin".to_string(),
        is_dir: false,
    };
    assert_eq!(preview_body(&Preview::Meta(m)), "bin\n\n12 bytes · mode 644 · owner u\n/a/b");
    let t = Preview::Text { content: "x".to_string(), truncated: true, lines: 1 };
    assert_eq!(preview_body(&t), "x\n… preview truncated");
    let p = Preview::Pdf { page_png: vec![], text: "t".to_string(), pages: 3 };
    assert_eq!(preview_body(&p), "PDF · 3 pages\n\nt");
    assert_eq!(preview_body(&Preview::Error("no".to_string())), "Preview unavailable\nno");
    assert_eq!(preview_body(&Preview::Audio { path: vec![] }), "");
}

#[test]
fn the_peak_is_read_from_the_status() {
    assert_eq!(peak_rss("Name: x\nVmHWM:\t  1234 kB\n"), Some(1_263_616));
    assert_eq!(peak_rss("VmHWM:\n"), None);
    assert_eq!(peak_rss("Name: x\n"), None);
}

#[test]
fn numbers_are_written_in_decimal() {
    assert_eq!(number_text(0), "0");
    assert_eq!(number_text(10), "10");
    assert_eq!(number_text(u64::MAX), "18446744073709551615");
}

fn hit(path: &[u8], is_dir: bool, mtime: i64) -> Hit {
    Hit {
        id: 0,
        path: path.to_vec(),
        name: String::new(),
        size: 43_110,
        mtime,
        is_dir,
        score: 1,
    }
}

#[test]
fn hits_are_lines_of_json() {
    assert_eq!(
        json_line(&hit(b"/home/u/a \"b\"\\c.pdf", false, 7)),
        "{\"path\":\"/home/u/a \\\"b\\\"\\\\c.pdf\",\"size\":43110,\"modified\":7,\"directory\":false}"
    );
    assert_eq!(
        json_line(&hit(b"/x\n\t\r\x01\x1f\x7f\xff", true, -5)),
        "{\"path\":\"/x\\n\\t\\r\\u0001\\u001f\u{7f}\u{fffd}\",\"size\":43110,\"modified\":-5,\"directory\":true}"
    );
    assert_eq!(signed_number_text(i64::MIN), "-9223372036854775808");
}

#[test]
fn hits_are_lines_of_columns() {
    assert_eq!(
        hit_line(&hit(b"/home/firefly/Documents/invoice.pdf", false, 1_723_400_312), "42.1 KB"),
        "application/pdf    42.1 KB  1723400312  /home/firefly/Documents/invoice.pdf"
    );
    assert_eq!(
        hit_line(&hit(b"/home/u", true, 12), "4 KB"),
        "inode/directory       4 KB          12  /home/u/"
    );
    assert_eq!(kind_of(&hit(b"/home/u/unknown", false, 1)), "application/octet-stream");
}
