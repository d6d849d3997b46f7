//! Preview extraction.
//!
//! Everything here is bounded: at most 8 KiB decide what a file is, at most
//! `max_text_bytes` of it are ever shown, and images are identified from their
//! header without decoding pixels. Any failure degrades to [`Preview::Meta`].

use vstd::prelude::*;

use crate::bytestr;
use crate::config::Config;
use crate::outside;
use crate::outside::{first_of, last_of, media_type, str_from_utf8, string_of};
use crate::path;
use crate::path::file_name;
use crate::text::lines;
use crate::text::lines::{count_fitting, split_lines};
use crate::text::{chars_of, part};

pub mod card;
pub mod class;
pub mod laws;
pub mod svg;
pub mod told;

verus! {

/// How much of a file is read to classify it.
pub const SNIFF_BYTES: usize = 8192;

#[derive(Debug, Clone, PartialEq, Eq)]
pub enum Preview {
    /// A text file's leading bytes.
    Text { content: String, truncated: bool, lines: usize },
    /// A decodable image, ready to be loaded from `path` by the UI.
    /// SVGs land here too; their `width`/`height` are best-effort (0 when
    /// the root tag declares none).
    Image { path: Vec<u8>, width: u32, height: u32 },
    /// An audio stream, ready to be played from `path` by the UI.
    Audio { path: Vec<u8> },
    /// First page rendered to `page_png` (in the cache dir) plus extracted text.
    Pdf { page_png: Vec<u8>, text: String, pages: usize },
    /// Fallback card, always available.
    Meta(FileMeta),
    Error(String),
}

#[derive(Debug, Clone, PartialEq, Eq)]
pub struct FileMeta {
    pub path: Vec<u8>,
    pub size: u64,
    pub mtime: i64,
    pub mode: u32,
    pub owner: String,
    /// Human-readable type, e.g. `"directory"`, `"pdf"`, `"symlink"`.
    pub kind: String,
    pub is_dir: bool,
}

#[derive(Debug, Clone)]
pub struct PreviewLimits {
    pub max_text_bytes: usize,
    pub max_image_bytes: u64,
    pub cache_dir: Vec<u8>,
}

impl PreviewLimits {
    /// The default limits, with a place for rendered pages.
    pub fn with_cache(cache_dir: Vec<u8>) -> (r: PreviewLimits)
        ensures
            r.max_text_bytes == 64 * 1024,
            r.max_image_bytes == 64 * 1024 * 1024,
            r.cache_dir == cache_dir,
    {
        PreviewLimits { max_text_bytes: 64 * 1024, max_image_bytes: 64 * 1024 * 1024, cache_dir }
    }

    pub fn from_config(config: &Config) -> (r: PreviewLimits)
        ensures
            r.max_text_bytes == 64 * 1024,
            r.max_image_bytes == 64 * 1024 * 1024,
            r.cache_dir@ == config.cache_dir@,
    {
        PreviewLimits::with_cache(vstd::slice::slice_to_vec(config.cache_dir.as_slice()))
    }
}

// ---- names ------------------------------------------------------------------------

/// The place of the last dot.
pub open spec fn last_dot(name: Seq<u8>) -> Option<int>
    decreases name.len(),
{
    if name.len() == 0 {
        None
    } else if name.last() == path::DOT {
        Some(name.len() - 1)
    } else {
        last_dot(name.drop_last())
    }
}

/// What is behind the last dot of a path's name, unless the dot leads the name.
pub open spec fn ext_of(p: Seq<u8>) -> Option<Seq<u8>> {
    match path::file_name_of(p) {
        Some(name) => match last_dot(name) {
            Some(d) => if d > 0 {
                Some(name.skip(d + 1))
            } else {
                None
            },
            None => None,
        },
        None => None,
    }
}

/// The extension of a path, where it is text.
pub open spec fn ext_text_of(p: Seq<u8>) -> Option<Seq<char>> {
    match ext_of(p) {
        Some(e) => if vstd::utf8::valid_utf8(e) {
            Some(vstd::utf8::decode_utf8(e))
        } else {
            None
        },
        None => None,
    }
}

pub(crate) proof fn lemma_last_dot(name: Seq<u8>, at: Option<int>)
    requires
        bytestr::is_last_of(name, path::DOT, at),
    ensures
        last_dot(name) == at,
    decreases name.len(),
{
    if name.len() > 0 && name.last() != path::DOT {
        match at {
            Some(i) => {
                assert(i < name.len() - 1);
                assert(name.drop_last()[i] == path::DOT);
            },
            None => {},
        }
        lemma_last_dot(name.drop_last(), at);
    } else if name.len() > 0 {
        match at {
            Some(i) => {
                if i < name.len() - 1 {
                    assert(name[name.len() - 1] != path::DOT);
                }
            },
            None => {
                assert(name[name.len() - 1] != path::DOT);
            },
        }
    }
}

/// What is behind the last dot of a path's name, unless the dot leads the name.
pub fn extension(p: &[u8]) -> (r: Option<Vec<u8>>)
    ensures
        match r {
            Some(e) => ext_of(p@) == Some(e@),
            None => ext_of(p@) is None,
        },
{
    let name: Vec<u8> = match file_name(p) {
        Some(name) => name,
        None => {
            return None;
        },
    };
    match last_of(path::DOT, name.as_slice()) {
        Some(d) => {
            proof {
                lemma_last_dot(name@, Some(d as int));
            }
            if d == 0 {
                return None;
            }
            let end: usize = name.len();
            let e: &[u8] = vstd::slice::slice_subrange(name.as_slice(), d + 1, end);
            assert(e@ =~= name@.skip(d + 1));
            Some(vstd::slice::slice_to_vec(e))
        },
        None => {
            proof {
                lemma_last_dot(name@, None);
            }
            None
        },
    }
}

/// The extension of a path, where it is text.
pub fn extension_text(p: &[u8]) -> (r: Option<Vec<char>>)
    ensures
        match r {
            Some(e) => ext_text_of(p@) == Some(e@),
            None => ext_text_of(p@) is None,
        },
{
    match extension(p) {
        Some(e) => match str_from_utf8(e.as_slice()) {
            Ok(s) => Some(chars_of(s)),
            Err(_) => None,
        },
        None => None,
    }
}

/// The type, the subtype and the essence of a media type.
pub open spec fn media_view(m: Option<(String, String, String)>) -> Option<(Seq<char>, Seq<char>, Seq<char>)> {
    match m {
        Some((kind, sub, essence)) => Some((kind@, sub@, essence@)),
        None => None,
    }
}

/// The media type of a path: that of its extension.
pub open spec fn path_media_type(p: Seq<u8>) -> Option<(Seq<char>, Seq<char>, Seq<char>)> {
    match ext_text_of(p) {
        Some(e) => outside::media_type_of(e),
        None => None,
    }
}

/// The media type of a path: that of its extension.
pub fn media_type_of_path(p: &[u8]) -> (r: Option<(String, String, String)>)
    ensures
        media_view(r) == path_media_type(p@),
{
    match extension_text(p) {
        Some(e) => media_type(string_of(e.as_slice()).as_str()),
        None => None,
    }
}

// ---- text -----------------------------------------------------------------------

/// The bytes are text, but for a character that is cut at their end.
pub open spec fn decodes(head: Seq<u8>) -> bool {
    vstd::utf8::valid_utf8(head) || exists|n: int| #[trigger]
        outside::is_valid_up_to(head, n) && outside::is_cut_char(head.skip(n))
}

/// Text has no NUL and decodes as UTF-8.
pub open spec fn is_text(head: Seq<u8>) -> bool {
    head.len() > 0 && !head.contains(0) && decodes(head)
}

pub(crate) proof fn lemma_valid_up_to_once(bytes: Seq<u8>, n: int, m: int)
    requires
        outside::is_valid_up_to(bytes, n),
        outside::is_valid_up_to(bytes, m),
    ensures
        n == m,
{
    if n < m {
        assert(vstd::utf8::valid_utf8(bytes.subrange(0, m)));
    } else if m < n {
        assert(vstd::utf8::valid_utf8(bytes.subrange(0, n)));
    }
}

/// A sniff window is text when it has no NUL and decodes as UTF-8. A multi-byte
/// character cut by the window boundary is not a decode failure.
pub fn looks_like_text(head: &[u8]) -> (r: bool)
    ensures
        r == is_text(head@),
{
    if head.is_empty() {
        return false;
    }
    match first_of(0, head) {
        Some(i) => {
            assert(head@[i as int] == 0);
            return false;
        },
        None => {},
    }
    match str_from_utf8(head) {
        Ok(_) => true,
        Err((up_to, len)) => {
            proof {
                if decodes(head@) {
                    let n = choose|n: int| #[trigger]
                        outside::is_valid_up_to(head@, n) && outside::is_cut_char(head@.skip(n));
                    lemma_valid_up_to_once(head@, n, up_to as int);
                }
            }
            len.is_none()
        },
    }
}

/// The first `max` bytes, or all.
pub open spec fn first_bytes(bytes: Seq<u8>, max: nat) -> Seq<u8> {
    if bytes.len() > max {
        bytes.subrange(0, max as int)
    } else {
        bytes
    }
}

/// What is shown of the first `max` bytes of a text: as much of it as decodes.
pub open spec fn shows_text(bytes: Seq<u8>, max: nat, content: Seq<char>, truncated: bool, count: nat) -> bool {
    let kept = first_bytes(bytes, max);
    exists|n: int| #[trigger]
        outside::is_valid_up_to(kept, n) && content == vstd::utf8::decode_utf8(kept.subrange(0, n)) && truncated == (
        bytes.len() > max || n < kept.len()) && count == lines::lines_of(content).len()
}

/// The preview of a text file, from its first bytes: one more than are shown, so
/// that it is known whether there are more.
pub fn text_preview(bytes: &[u8], max: usize) -> (r: (String, bool, usize))
    ensures
        shows_text(bytes@, max as nat, r.0@, r.1, r.2 as nat),
{
    let len: usize = bytes.len();
    let end: usize = if len > max {
        max
    } else {
        len
    };
    let kept: &[u8] = vstd::slice::slice_subrange(bytes, 0, end);
    let mut truncated: bool = len > max;
    assert(kept@.subrange(0, end as int) =~= kept@);
    let valid: usize = match str_from_utf8(kept) {
        Ok(_) => {
            assert(outside::is_valid_up_to(kept@, end as int));
            end
        },
        Err((up_to, _)) => {
            truncated = true;
            proof {
                if up_to == end {
                    assert(vstd::utf8::valid_utf8(kept@));
                }
            }
            up_to
        },
    };
    assert(outside::is_valid_up_to(kept@, valid as int));
    let sound: &[u8] = vstd::slice::slice_subrange(kept, 0, valid);
    assert(sound@ =~= kept@.subrange(0, valid as int));
    assert(kept@ =~= first_bytes(bytes@, max as nat));
    match str_from_utf8(sound) {
        Ok(s) => {
            let content: String = s.to_owned();
            let all: Vec<Vec<char>> = split_lines(chars_of(s).as_slice());
            assert(lines::char_views(all@).len() == all@.len());
            (content, truncated, all.len())
        },
        Err(_) => (String::new(), truncated, 0),
    }
}

/// As much of a text as fits in `max` bytes.
pub fn truncate_utf8(s: &str, max: usize) -> (r: String)
    ensures
        exists|k: int| #[trigger] lines::fits_exactly(s@, max as nat, k) && r@ == s@.subrange(0, k),
{
    let chars: Vec<char> = chars_of(s);
    let k: usize = count_fitting(chars.as_slice(), max);
    assert(lines::fits_exactly(s@, max as nat, k as int));
    string_of(part(chars.as_slice(), 0, k).as_slice())
}

} // verus!
