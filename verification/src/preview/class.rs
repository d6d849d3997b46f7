//! Which preview a file gets.

use vstd::prelude::*;

use crate::bytestr;
use crate::bytestr::{eq_bytes, eq_ignore_case, find_sub, starts_with};
use crate::outside;
use crate::outside::{has_image_format, str_from_utf8};
use crate::preview;
use crate::preview::card;
use crate::preview::card::has_text;
use crate::preview::{
    extension,
    looks_like_text,
    media_type_of_path,
    text_preview,
    truncate_utf8,
    FileMeta,
    Preview,
    PreviewLimits,
};
use crate::text::lines;

verus! {

/// What a file turned out to be.
#[derive(Debug, Clone, Copy, PartialEq, Eq, Structural)]
pub enum Class {
    Pdf,
    Svg,
    Image,
    Audio,
    Text,
    Other,
}

/// The bytes at `at` are those of a text.
pub open spec fn holds_text(head: Seq<u8>, at: int, s: Seq<char>) -> bool {
    let bytes = vstd::utf8::encode_utf8(s);
    at + bytes.len() <= head.len() && head.subrange(at, at + bytes.len()) == bytes
}

/// SVG needs both sides to agree: a name that says "svg" and an `<svg` tag in
/// the sniff window. That keeps an `.xml`/`.html` file with an inline SVG on
/// the text path, and an SVG-looking blob with a random name off it.
pub open spec fn says_svg(p: Seq<u8>, head: Seq<u8>, media: Option<(Seq<char>, Seq<char>, Seq<char>)>) -> bool {
    &&& bytestr::contains(head, vstd::utf8::encode_utf8("<svg"@))
    &&& {
        ||| (preview::ext_text_of(p) is Some && bytestr::same_ci(
            preview::ext_of(p)->0,
            vstd::utf8::encode_utf8("svg"@),
        ))
        ||| (media matches Some(m) && m.2 == "image/svg+xml"@)
    }
}

/// Magic bytes cover extensionless files; the media type covers the long tail
/// of extensions. OggS is left to the media type so `.ogv` stays video.
pub open spec fn says_audio(head: Seq<u8>, media: Option<(Seq<char>, Seq<char>, Seq<char>)>) -> bool {
    ||| card::begins_text(head, "fLaC"@)
    ||| card::begins_text(head, "ID3"@)
    ||| card::begins(head, seq![0xffu8, 0xfbu8])
    ||| card::begins(head, seq![0xffu8, 0xf3u8])
    ||| card::begins(head, seq![0xffu8, 0xf2u8])
    ||| (head.len() >= 12 && holds_text(head, 0, "RIFF"@) && holds_text(head, 8, "WAVE"@))
    ||| (head.len() >= 12 && holds_text(head, 0, "FORM"@) && (holds_text(head, 8, "AIFF"@) || holds_text(
        head,
        8,
        "AIFC"@,
    )))
    ||| (media matches Some(m) && m.0 == "audio"@)
}

/// What a file is, by its name, its first bytes, the media type of its name and
/// whether its first bytes begin an image. SVG is text, so it is claimed before
/// the raster and text checks.
pub open spec fn class_of(
    p: Seq<u8>,
    head: Seq<u8>,
    media: Option<(Seq<char>, Seq<char>, Seq<char>)>,
    image: bool,
) -> Class {
    if card::begins_text(head, "%PDF-"@) {
        Class::Pdf
    } else if says_svg(p, head, media) {
        Class::Svg
    } else if image {
        Class::Image
    } else if says_audio(head, media) {
        Class::Audio
    } else if preview::is_text(head) {
        Class::Text
    } else {
        Class::Other
    }
}

fn has_text_at(head: &[u8], at: usize, s: &str) -> (r: bool)
    ensures
        r == holds_text(head@, at as int, s@),
{
    let bytes: &[u8] = s.as_bytes();
    let n: usize = head.len();
    let m: usize = bytes.len();
    if at > n || m > n - at {
        return false;
    }
    eq_bytes(vstd::slice::slice_subrange(head, at, at + m), bytes)
}

/// Whether a file is an SVG, by its name, its first bytes and its media type.
pub fn is_svg(p: &[u8], head: &[u8], media: &Option<(String, String, String)>) -> (r: bool)
    ensures
        r == says_svg(p@, head@, preview::media_view(*media)),
{
    match find_sub(head, "<svg".as_bytes()) {
        Some(at) => {
            assert(bytestr::occurs(head@, vstd::utf8::encode_utf8("<svg"@), at as int));
        },
        None => {
            return false;
        },
    }
    match extension(p) {
        Some(e) => {
            if str_from_utf8(e.as_slice()).is_ok() && eq_ignore_case(
                e.as_slice(),
                "svg".as_bytes(),
            ) {
                return true;
            }
        },
        None => {},
    }
    match media {
        Some(m) => m.2 == "image/svg+xml".to_owned(),
        None => false,
    }
}

/// Whether a file is audio, by its first bytes and its media type.
pub fn is_audio(head: &[u8], media: &Option<(String, String, String)>) -> (r: bool)
    ensures
        r == says_audio(head@, preview::media_view(*media)),
{
    let mp3: [u8; 2] = [0xff, 0xfb];
    let mp3_low: [u8; 2] = [0xff, 0xf3];
    let mp3_bare: [u8; 2] = [0xff, 0xf2];
    proof {
        assert(mp3@ =~= seq![0xffu8, 0xfbu8]);
        assert(mp3_low@ =~= seq![0xffu8, 0xf3u8]);
        assert(mp3_bare@ =~= seq![0xffu8, 0xf2u8]);
    }
    if has_text(head, "fLaC") || has_text(head, "ID3") || starts_with(head, mp3.as_slice()) || starts_with(
        head,
        mp3_low.as_slice(),
    ) || starts_with(head, mp3_bare.as_slice()) {
        return true;
    }
    if head.len() >= 12 {
        if has_text_at(head, 0, "RIFF") && has_text_at(head, 8, "WAVE") {
            return true;
        }
        if has_text_at(head, 0, "FORM") && (has_text_at(head, 8, "AIFF") || has_text_at(head, 8, "AIFC")) {
            return true;
        }
    }
    match media {
        Some(m) => m.0 == "audio".to_owned(),
        None => false,
    }
}

/// What a file is, where its media type and whether it begins an image are known.
pub fn classify_as(p: &[u8], head: &[u8], media: &Option<(String, String, String)>, image: bool) -> (r: Class)
    ensures
        r == class_of(p@, head@, preview::media_view(*media), image),
{
    if has_text(head, "%PDF-") {
        Class::Pdf
    } else if is_svg(p, head, media) {
        Class::Svg
    } else if image {
        Class::Image
    } else if is_audio(head, media) {
        Class::Audio
    } else if looks_like_text(head) {
        Class::Text
    } else {
        Class::Other
    }
}

/// What a file is, by its name and its first bytes.
pub fn classify(p: &[u8], head: &[u8]) -> (r: Class)
    ensures
        r == class_of(p@, head@, preview::path_media_type(p@), outside::begins_an_image(head@)),
{
    let media: Option<(String, String, String)> = media_type_of_path(p);
    classify_as(p, head, &media, has_image_format(head))
}

// ---- the preview ---------------------------------------------------------------------

/// Directories, symlinks and empty files have nothing to extract; the card is
/// more informative than an empty pane.
pub open spec fn is_settled(meta: FileMeta) -> bool {
    meta.is_dir || meta.kind@ == "symlink"@ || meta.size == 0
}

/// Whether the card is all there is to show.
pub fn needs_no_look(meta: &FileMeta) -> (r: bool)
    ensures
        r == is_settled(*meta),
{
    meta.is_dir || meta.kind == "symlink".to_owned() || meta.size == 0
}

/// What has to be found out for a preview.
#[derive(Debug, Clone, Copy, PartialEq, Eq, Structural)]
pub enum Want {
    Nothing,
    /// The first page of a PDF, its text and the number of its pages.
    Page,
    /// The size of an SVG, from its first bytes.
    SvgSize,
    /// The size of an image.
    ImageSize,
    /// The first bytes of a text.
    TextBytes,
}

/// What was found out for a preview.
#[derive(Debug)]
pub enum Found {
    Nothing,
    Page { page_png: Vec<u8>, text: String, pages: usize },
    Size { width: u32, height: u32 },
    Bytes(Vec<u8>),
}

/// What has to be found out for a preview. Images that are too large are not
/// looked at.
pub open spec fn want_of(class: Class, meta: FileMeta, limits: PreviewLimits) -> Want {
    match class {
        Class::Pdf => Want::Page,
        Class::Svg => if meta.size > limits.max_image_bytes {
            Want::Nothing
        } else {
            Want::SvgSize
        },
        Class::Image => if meta.size > limits.max_image_bytes {
            Want::Nothing
        } else {
            Want::ImageSize
        },
        Class::Text => Want::TextBytes,
        Class::Audio => Want::Nothing,
        Class::Other => Want::Nothing,
    }
}

/// What has to be found out for a preview.
pub fn wanted(class: Class, meta: &FileMeta, limits: &PreviewLimits) -> (r: Want)
    ensures
        r == want_of(class, *meta, *limits),
{
    match class {
        Class::Pdf => Want::Page,
        Class::Svg => {
            if meta.size > limits.max_image_bytes {
                Want::Nothing
            } else {
                Want::SvgSize
            }
        },
        Class::Image => {
            if meta.size > limits.max_image_bytes {
                Want::Nothing
            } else {
                Want::ImageSize
            }
        },
        Class::Text => Want::TextBytes,
        Class::Audio => Want::Nothing,
        Class::Other => Want::Nothing,
    }
}

/// The preview of a file of a class, with what was found out for it; the card
/// where that is not what was wanted.
pub open spec fn is_preview(
    r: Preview,
    class: Class,
    p: Seq<u8>,
    meta: FileMeta,
    limits: PreviewLimits,
    found: Found,
) -> bool {
    match (class, want_of(class, meta, limits), found) {
        (Class::Audio, _, _) => r matches Preview::Audio { path } && path@ == p,
        (_, Want::Page, Found::Page { page_png, text, pages }) => {
            &&& r matches Preview::Pdf { page_png: png, text: shown, pages: count }
            &&& png == page_png
            &&& count == pages
            &&& exists|k: int| #[trigger]
                lines::fits_exactly(text@, limits.max_text_bytes as nat, k) && shown@ == text@.subrange(0, k)
        },
        (_, Want::SvgSize, Found::Size { width, height }) => r matches Preview::Image { path, width: w, height: h }
            && path@ == p && w == width && h == height,
        (_, Want::ImageSize, Found::Size { width, height }) => r matches Preview::Image { path, width: w, height: h }
            && path@ == p && w == width && h == height,
        (_, Want::TextBytes, Found::Bytes(bytes)) => r matches Preview::Text { content, truncated, lines }
            && preview::shows_text(bytes@, limits.max_text_bytes as nat, content@, truncated, lines as nat),
        _ => r == Preview::Meta(meta),
    }
}

/// Builds the preview of a file of a class, from what was found out for it.
pub fn preview_of(class: Class, p: &[u8], meta: FileMeta, limits: &PreviewLimits, found: Found) -> (r: Preview)
    ensures
        is_preview(r, class, p@, meta, *limits, found),
{
    if class == Class::Audio {
        return Preview::Audio { path: vstd::slice::slice_to_vec(p) };
    }
    match (wanted(class, &meta, limits), found) {
        (Want::Page, Found::Page { page_png, text, pages }) => Preview::Pdf {
            page_png,
            text: truncate_utf8(text.as_str(), limits.max_text_bytes),
            pages,
        },
        (Want::SvgSize, Found::Size { width, height }) => Preview::Image {
            path: vstd::slice::slice_to_vec(p),
            width,
            height,
        },
        (Want::ImageSize, Found::Size { width, height }) => Preview::Image {
            path: vstd::slice::slice_to_vec(p),
            width,
            height,
        },
        (Want::TextBytes, Found::Bytes(bytes)) => {
            let (content, truncated, lines) = text_preview(bytes.as_slice(), limits.max_text_bytes);
            Preview::Text { content, truncated, lines }
        },
        _ => Preview::Meta(meta),
    }
}

} // verus!
