//! Previews.

use optionsearch::config::Config;
use optionsearch::preview::card::{
    cache_key, file_meta, kind_from_extension, kind_from_magic, mode_string, owner_name, page_count,
    pdf_page_count, FileStat,
};
use optionsearch::preview::class::{
    classify, classify_as, needs_no_look, preview_of, wanted, Class, Found, Want,
};
use optionsearch::preview::svg::{root_tag, svg_attr_str, svg_dimensions, tag_sizes};
use optionsearch::preview::{
    extension, looks_like_text, media_type_of_path, text_preview, truncate_utf8, FileMeta, Preview,
    PreviewLimits, SNIFF_BYTES,
};

fn limits() -> PreviewLimits {
    PreviewLimits::with_cache(b"/cache".to_vec())
}

fn meta(path: &str, bytes: &[u8]) -> FileMeta {
    let stat = FileStat {
        size: bytes.len() as u64,
        mtime: 1,
        mode: 0o100644,
        uid: 0,
        is_symlink: false,
        is_dir: false,
    };
    let head = &bytes[..bytes.len().min(16)];
    file_meta(path.as_bytes(), stat, Some(head), Some("root:x:0:0:root:/root:/bin/sh\n"))
}

fn pixels(text: &str) -> Option<u32> {
    text.parse::<f64>().ok().map(|v| v as u32)
}

fn svg_size(head: &[u8]) -> (u32, u32) {
    match root_tag(head) {
        Some(tag) => {
            let t = tag_sizes(&tag);
            let view = t.view_box.iter().map(|s| pixels(s)).collect();
            svg_dimensions(
                t.width.as_deref().and_then(pixels),
                t.height.as_deref().and_then(pixels),
                &view,
            )
        }
        None => (0, 0),
    }
}

/// The preview of a file with these bytes.
fn preview(path: &str, bytes: &[u8], limits: &PreviewLimits) -> Preview {
    let meta = meta(path, bytes);
    if needs_no_look(&meta) {
        return Preview::Meta(meta);
    }
    let head = &bytes[..bytes.len().min(SNIFF_BYTES)];
    let class = classify(path.as_bytes(), head);
    let found = match wanted(class, &meta, limits) {
        Want::TextBytes => Found::Bytes(bytes[..bytes.len().min(limits.max_text_bytes + 1)].to_vec()),
        Want::SvgSize => {
            let (width, height) = svg_size(head);
            Found::Size { width, height }
        }
        Want::ImageSize => {
            let reader = image::ImageReader::new(std::io::Cursor::new(bytes));
            match reader.with_guessed_format().unwrap().into_dimensions() {
                Ok((width, height)) => Found::Size { width, height },
                Err(_) => Found::Nothing,
            }
        }
        Want::Page | Want::Nothing => Found::Nothing,
    };
    preview_of(class, path.as_bytes(), meta, limits, found)
}

#[test]
fn meta_preview_for_a_binary_file() {
    match preview("/t/notes.TXT", b"he\0llo", &limits()) {
        Preview::Meta(m) => {
            assert_eq!(m.size, 6);
            assert_eq!(m.kind, "txt");
            assert!(!m.is_dir);
            assert!(!m.owner.is_empty());
        }
        other => panic!("expected Meta, got {other:?}"),
    }
}

#[test]
fn text_preview_counts_lines() {
    match preview("/t/a.rs", b"fn main() {\n    println!(\"oi\");\n}\n", &limits()) {
        Preview::Text {
            content,
            truncated,
            lines,
        } => {
            assert!(content.starts_with("fn main"));
            assert!(!truncated);
            assert_eq!(lines, 3);
        }
        other => panic!("expected Text, got {other:?}"),
    }
}

#[test]
fn text_preview_handles_utf8_and_stops_at_the_limit() {
    // 4 bytes per repetition, so the cut lands mid-character for odd limits.
    let bytes = "áé".repeat(4096).into_bytes();
    let lim = PreviewLimits {
        max_text_bytes: 1001,
        ..limits()
    };
    match preview("/t/acentos.txt", &bytes, &lim) {
        Preview::Text {
            content, truncated, ..
        } => {
            assert!(truncated);
            assert!(content.len() <= 1001);
            assert!(content.chars().all(|c| c == 'á' || c == 'é'));
        }
        other => panic!("expected Text, got {other:?}"),
    }
}

#[test]
fn huge_text_file_is_bounded() {
    let line = "the quick brown fox jumps over the lazy dog\n";
    match preview("/t/big.log", line.repeat(200_000).as_bytes(), &limits()) {
        Preview::Text {
            content, truncated, ..
        } => {
            assert!(truncated);
            assert_eq!(content.len(), 64 * 1024);
        }
        other => panic!("expected Text, got {other:?}"),
    }
}

#[test]
fn empty_file_falls_back_to_meta() {
    assert!(matches!(preview("/t/empty.txt", b"", &limits()), Preview::Meta(_)));
}

#[test]
fn binary_file_is_not_text() {
    let mut bytes = vec![b'a'; 4096];
    bytes[3000] = 0;
    assert!(matches!(preview("/t/blob", &bytes, &limits()), Preview::Meta(_)));
    assert_eq!(kind_from_magic(&[0xde, 0xad, 0, 0xbe]), "binary");
    assert_eq!(kind_from_magic(b"#!/bin/sh\n"), "script");
}

#[test]
fn sniffing_accepts_a_multibyte_char_cut_by_the_window() {
    let mut head = "ação ".repeat(1000).into_bytes();
    head.truncate(SNIFF_BYTES);
    assert!(looks_like_text(&head));
    assert!(!looks_like_text(b"\x89PNG\r\n\x1a\n"));
    assert!(!looks_like_text(b""));
}

#[test]
fn every_cut_of_a_wide_character_is_text() {
    let crab = "🦀".as_bytes();
    for cut in 1..4 {
        let mut head = b"text ".to_vec();
        head.extend_from_slice(&crab[..cut]);
        assert!(looks_like_text(&head), "cut after {cut}");
        head.push(b'x');
        assert!(!looks_like_text(&head), "broken after {cut}");
    }
}

#[test]
fn image_preview_reports_dimensions() {
    let img = image::RgbImage::new(640, 360);
    let mut bytes = std::io::Cursor::new(Vec::new());
    img.write_to(&mut bytes, image::ImageFormat::Png).unwrap();
    let bytes = bytes.into_inner();
    match preview("/t/pic.png", &bytes, &limits()) {
        Preview::Image {
            width,
            height,
            path,
        } => {
            assert_eq!((width, height), (640, 360));
            assert_eq!(path, b"/t/pic.png");
        }
        other => panic!("expected Image, got {other:?}"),
    }

    let lim = PreviewLimits {
        max_image_bytes: 4,
        ..limits()
    };
    assert!(matches!(preview("/t/pic.png", &bytes, &lim), Preview::Meta(_)));
}

#[test]
fn cache_key_tracks_mtime_and_size() {
    let p = b"/tmp/a.pdf";
    assert_eq!(cache_key(p, 1, 2), cache_key(p, 1, 2));
    assert_ne!(cache_key(p, 1, 2), cache_key(p, 2, 2));
    assert_ne!(cache_key(p, 1, 2), cache_key(p, 1, 3));
    assert_ne!(cache_key(p, 1, 2), cache_key(b"/tmp/b.pdf", 1, 2));
}

#[test]
fn cache_keys_are_stable() {
    fn fnv(bytes: &[u8]) -> u64 {
        bytes.iter().fold(0xcbf2_9ce4_8422_2325, |h, b| {
            (h ^ *b as u64).wrapping_mul(0x1000_0000_01b3)
        })
    }
    let mut all = b"/x".to_vec();
    all.extend_from_slice(&(-3i64).to_le_bytes());
    all.extend_from_slice(&77u64.to_le_bytes());
    assert_eq!(cache_key(b"/x", -3, 77), format!("{:016x}", fnv(&all)));
}

#[test]
fn malformed_pdf_degrades_to_meta() {
    assert!(matches!(
        preview("/t/broken.pdf", b"%PDF-1.7\nnot really a pdf", &limits()),
        Preview::Meta(_)
    ));
}

#[test]
fn a_rendered_pdf_shows_its_page() {
    let m = meta("/t/doc.pdf", b"%PDF-1.7");
    let lim = PreviewLimits { max_text_bytes: 3, ..limits() };
    let found = Found::Page { page_png: b"/c/k.png".to_vec(), text: "aáb".to_string(), pages: 3 };
    match preview_of(Class::Pdf, b"/t/doc.pdf", m, &lim, found) {
        Preview::Pdf { page_png, text, pages } => {
            assert_eq!(page_png, b"/c/k.png");
            assert_eq!(text, "aá");
            assert_eq!(pages, 3);
        }
        other => panic!("expected Pdf, got {other:?}"),
    }
}

#[test]
fn directories_report_kind() {
    let stat = FileStat { size: 4096, mtime: 1, mode: 0o40755, uid: 1, is_symlink: false, is_dir: true };
    let m = file_meta(b"/t", stat, None, None);
    assert!(needs_no_look(&m));
    assert!(m.is_dir);
    assert_eq!(m.kind, "directory");
    let link = FileStat { is_symlink: true, is_dir: false, ..stat };
    let m = file_meta(b"/t/l", link, None, None);
    assert!(needs_no_look(&m));
    assert_eq!((m.kind.as_str(), m.owner.as_str()), ("symlink", "1"));
}

#[test]
fn mode_rendering() {
    assert_eq!(mode_string(0o755), "rwxr-xr-x");
    assert_eq!(mode_string(0o644), "rw-r--r--");
}

#[test]
fn svg_previews_as_image_with_dimensions() {
    let bytes = br#"<?xml version="1.0"?><svg xmlns="http://www.w3.org/2000/svg" width="24" height="48"><rect/></svg>"#;
    match preview("/t/icon.svg", bytes, &limits()) {
        Preview::Image { width, height, .. } => assert_eq!((width, height), (24, 48)),
        other => panic!("expected Image, got {other:?}"),
    }
}

#[test]
fn svg_viewbox_supplies_dimensions() {
    let bytes = br#"<svg xmlns="http://www.w3.org/2000/svg" viewBox="0 0 96 48"><path d="M0 0"/></svg>"#;
    match preview("/t/shape.SVG", bytes, &limits()) {
        Preview::Image { width, height, .. } => assert_eq!((width, height), (96, 48)),
        other => panic!("expected Image, got {other:?}"),
    }
}

#[test]
fn svg_without_declared_size_gets_zero_dimensions() {
    match preview("/t/bare.svg", b"<svg><circle r=\"4\"/></svg>", &limits()) {
        Preview::Image { width, height, .. } => assert_eq!((width, height), (0, 0)),
        other => panic!("expected Image, got {other:?}"),
    }
}

#[test]
fn non_svg_name_with_inline_svg_stays_text() {
    assert!(matches!(
        preview("/t/doc.xml", b"<root><svg width=\"9\" height=\"9\"/></root>", &limits()),
        Preview::Text { .. }
    ));
}

#[test]
fn audio_extension_previews_as_audio() {
    assert!(matches!(
        preview("/t/song.mp3", b"ID3\x04\x00\x00\x00\x00\x00\x00pad", &limits()),
        Preview::Audio { .. }
    ));
}

#[test]
fn extensionless_audio_is_sniffed() {
    assert!(matches!(
        preview("/t/track", b"fLaC\x00\x00\x00\x22rest", &limits()),
        Preview::Audio { .. }
    ));
}

#[test]
fn attributes_need_a_boundary_a_sign_and_quotes() {
    let tag: Vec<char> = "<svg stroke-width=\"3\" width = '12px' height=7".chars().collect();
    let get = |name: &str| {
        svg_attr_str(&tag, &name.chars().collect::<Vec<_>>()).map(|v| v.iter().collect::<String>())
    };
    assert_eq!(get("width").as_deref(), Some("12px"));
    assert_eq!(get("height"), None);
    assert_eq!(tag_sizes(&tag).width.as_deref(), Some("12"));
    assert_eq!(svg_dimensions(Some(1), None, &vec![Some(0), None, Some(0), Some(8), Some(9)]), (8, 9));
    assert_eq!(svg_dimensions(Some(1), Some(2), &vec![]), (1, 2));
}

#[test]
fn a_long_tag_is_cut_between_characters() {
    let head = format!("<svg a=\"{}\" width=\"5\"", "é".repeat(2000));
    let tag: String = root_tag(head.as_bytes()).unwrap().iter().collect();
    assert!(tag.len() <= 2048);
    assert!(tag.len() > 2044);
    assert!(root_tag(b"<root>").is_none());
}

#[test]
fn media_types_decide_where_the_bytes_do_not() {
    let audio = Some(("audio".to_string(), "ogg".to_string(), "audio/ogg".to_string()));
    assert_eq!(classify_as(b"/t/a", b"OggS\0", &audio, false), Class::Audio);
    assert_eq!(classify_as(b"/t/a", b"OggS\0", &None, false), Class::Other);
    assert_eq!(classify_as(b"/t/a", b"text", &None, true), Class::Image);
    assert_eq!(classify_as(b"/t/a.svg", b"<svg>", &None, true), Class::Svg);
    assert_eq!(classify_as(b"/t/a", b"RIFF\0\0\0\0WAVE", &None, false), Class::Audio);
    assert_eq!(classify_as(b"/t/a", b"RIFF\0\0\0\0WEBP", &None, false), Class::Other);
    assert_eq!(classify_as(b"/t/a", b"FORM\0\0\0\0AIFC", &None, false), Class::Audio);
    let m = media_type_of_path(b"/t/x.OGA").unwrap();
    assert_eq!(m.0, "audio");
    let m = media_type_of_path(b"/t/x.svgz");
    assert!(m.is_none() || m.unwrap().2.starts_with("image/"));
    assert!(media_type_of_path(b"/t/.svg").is_none());
}

#[test]
fn names_have_extensions_behind_their_last_dot() {
    assert_eq!(extension(b"/a/b.tar.gz").as_deref(), Some(&b"gz"[..]));
    assert_eq!(extension(b"/a/.profile"), None);
    assert_eq!(extension(b"/a/b."), Some(vec![]));
    assert_eq!(extension(b"/a.d/b"), None);
    assert_eq!(kind_from_extension(b"/a/b.", Some(b"OggS")), "ogg");
    assert_eq!(kind_from_extension(b"/a/b", None), "file");
    assert_eq!(kind_from_extension(b"/a/b.JPEG", None), "jpeg");
}

#[test]
fn magic_tells_kinds() {
    assert_eq!(kind_from_magic(b"%PDF-1"), "pdf");
    assert_eq!(kind_from_magic(b"\x7fELF\x02"), "elf");
    assert_eq!(kind_from_magic(b"\x89PNG"), "png");
    assert_eq!(kind_from_magic(b"\xff\xd8\xff\xe0"), "jpeg");
    assert_eq!(kind_from_magic(b"GIF89a"), "gif");
    assert_eq!(kind_from_magic(b"PK\x03\x04"), "zip");
    assert_eq!(kind_from_magic(b"\x1f\x8b\x08"), "gzip");
    assert_eq!(kind_from_magic(b"\x00asm"), "wasm");
    assert_eq!(kind_from_magic(b""), "file");
    assert_eq!(kind_from_magic(b"plain"), "text");
}

#[test]
fn owners_are_looked_up_by_number() {
    let table = "root:x:0:0::/root:/bin/sh\nbroken\nu:x:+1000:1000::/home/u:/bin/sh\r\nv:x:7:7";
    assert_eq!(owner_name(0, Some(table)), "root");
    assert_eq!(owner_name(1000, Some(table)), "u");
    assert_eq!(owner_name(7, Some(table)), "v");
    assert_eq!(owner_name(8, Some(table)), "8");
    assert_eq!(owner_name(8, None), "8");
}

#[test]
fn page_counts_are_read() {
    assert_eq!(pdf_page_count("Title: x\nPages:          12\nPages: 3\n"), Some(12));
    assert_eq!(pdf_page_count("Title: x\n"), None);
    assert_eq!(pdf_page_count("Pages: many"), None);
    assert_eq!(page_count(" 4\n"), Some(4));
    assert_eq!(page_count("-4"), None);
    assert_eq!(page_count("99999999999999999999999"), None);
}

#[test]
fn text_is_cut_between_characters() {
    assert_eq!(truncate_utf8("aéb", 2), "a");
    assert_eq!(truncate_utf8("aéb", 3), "aé");
    assert_eq!(truncate_utf8("aéb", 4), "aéb");
    let (content, truncated, lines) = text_preview(b"one\r\ntwo\xff", 100);
    assert_eq!((content.as_str(), truncated, lines), ("one\r\ntwo", true, 2));
}

#[test]
fn limits_follow_the_configuration() {
    let c = Config::with_defaults(b"/h".to_vec(), b"/db".to_vec(), b"/elsewhere".to_vec());
    let l = PreviewLimits::from_config(&c);
    assert_eq!(l.cache_dir, b"/elsewhere");
    assert_eq!((l.max_text_bytes, l.max_image_bytes), (65536, 67_108_864));
}

#[test]
fn previews_are_equal_when_they_show_the_same() {
    let shown = Preview::Text { content: "a".to_string(), truncated: false, lines: 1 };
    assert_eq!(shown.clone(), shown);
    assert_ne!(shown, Preview::Text { content: "a".to_string(), truncated: true, lines: 1 });
    assert_ne!(shown, Preview::Error("a".to_string()));
}
