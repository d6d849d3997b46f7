//! The metadata card of a file.

use vstd::prelude::*;

use crate::bytestr;
use crate::bytestr::starts_with;
use crate::outside::string_of;
use crate::preview;
use crate::preview::{extension_text, looks_like_text, FileMeta};
use crate::text;
use crate::text::lines;
use crate::text::lines::{read_number, split_fields, split_lines};
use crate::text::{begins_with, chars_of, lowered, number_text, part, trimmed};

verus! {

/// What the file system says of a file.
#[derive(Debug, Clone, Copy)]
pub struct FileStat {
    pub size: u64,
    pub mtime: i64,
    pub mode: u32,
    pub uid: u32,
    pub is_symlink: bool,
    pub is_dir: bool,
}

/// The bytes begin with these.
pub open spec fn begins(head: Seq<u8>, magic: Seq<u8>) -> bool {
    bytestr::occurs(head, magic, 0)
}

/// The bytes begin with this text.
pub open spec fn begins_text(head: Seq<u8>, magic: Seq<char>) -> bool {
    begins(head, vstd::utf8::encode_utf8(magic))
}

/// What the first bytes of a file tell of its kind.
pub open spec fn magic_kind(head: Seq<u8>) -> Seq<char> {
    if begins_text(head, "%PDF-"@) {
        "pdf"@
    } else if begins_text(head, "\x7fELF"@) {
        "elf"@
    } else if begins(head, seq![0x89u8, 0x50u8, 0x4eu8, 0x47u8]) {
        "png"@
    } else if begins(head, seq![0xffu8, 0xd8u8, 0xffu8]) {
        "jpeg"@
    } else if begins_text(head, "GIF8"@) {
        "gif"@
    } else if begins_text(head, "PK\x03\x04"@) {
        "zip"@
    } else if begins(head, seq![0x1fu8, 0x8bu8]) {
        "gzip"@
    } else if begins_text(head, "#!"@) {
        "script"@
    } else if begins_text(head, "OggS"@) {
        "ogg"@
    } else if begins_text(head, "\x00asm"@) {
        "wasm"@
    } else if head.len() == 0 {
        "file"@
    } else if preview::is_text(head) {
        "text"@
    } else {
        "binary"@
    }
}

/// Whether the bytes begin with a text.
pub(crate) fn has_text(head: &[u8], magic: &str) -> (r: bool)
    ensures
        r == begins_text(head@, magic@),
{
    starts_with(head, magic.as_bytes())
}

/// What the first bytes of a file tell of its kind.
pub fn kind_from_magic(head: &[u8]) -> (r: String)
    ensures
        r@ == magic_kind(head@),
{
    let png: [u8; 4] = [0x89, 0x50, 0x4e, 0x47];
    let jpeg: [u8; 3] = [0xff, 0xd8, 0xff];
    let gzip: [u8; 2] = [0x1f, 0x8b];
    proof {
        assert(png@ =~= seq![0x89u8, 0x50u8, 0x4eu8, 0x47u8]);
        assert(jpeg@ =~= seq![0xffu8, 0xd8u8, 0xffu8]);
        assert(gzip@ =~= seq![0x1fu8, 0x8bu8]);
    }
    let kind: &str = if has_text(head, "%PDF-") {
        "pdf"
    } else if has_text(head, "\x7fELF") {
        "elf"
    } else if starts_with(head, png.as_slice()) {
        "png"
    } else if starts_with(head, jpeg.as_slice()) {
        "jpeg"
    } else if has_text(head, "GIF8") {
        "gif"
    } else if has_text(head, "PK\x03\x04") {
        "zip"
    } else if starts_with(head, gzip.as_slice()) {
        "gzip"
    } else if has_text(head, "#!") {
        "script"
    } else if has_text(head, "OggS") {
        "ogg"
    } else if has_text(head, "\x00asm") {
        "wasm"
    } else if head.is_empty() {
        "file"
    } else if looks_like_text(head) {
        "text"
    } else {
        "binary"
    };
    kind.to_owned()
}

/// The kind of a file: its extension in lower case; without one, what its first
/// bytes tell, where they could be read.
pub open spec fn extension_kind(p: Seq<u8>, head: Option<Seq<u8>>) -> Seq<char> {
    match preview::ext_text_of(p) {
        Some(e) => if e.len() > 0 {
            text::lower_chars(e)
        } else {
            unnamed_kind(head)
        },
        None => unnamed_kind(head),
    }
}

pub open spec fn unnamed_kind(head: Option<Seq<u8>>) -> Seq<char> {
    match head {
        Some(h) => magic_kind(h),
        None => "file"@,
    }
}

pub open spec fn slice_view(head: Option<&[u8]>) -> Option<Seq<u8>> {
    match head {
        Some(h) => Some(h@),
        None => None,
    }
}

/// The kind of a file, from its name and its first bytes.
pub fn kind_from_extension(p: &[u8], head: Option<&[u8]>) -> (r: String)
    ensures
        r@ == extension_kind(p@, slice_view(head)),
{
    match extension_text(p) {
        Some(e) => {
            if e.len() > 0 {
                return string_of(lowered(e.as_slice()).as_slice());
            }
        },
        None => {},
    }
    match head {
        Some(h) => kind_from_magic(h),
        None => "file".to_owned(),
    }
}

/// The name of a user in a line of the user table, where it is the line of this
/// user: the first field, where the third is the user's number.
pub open spec fn named_in(line: Seq<char>, uid: u32) -> Option<Seq<char>> {
    let fields = lines::fields_of(line, ':');
    if fields.len() >= 3 && lines::whole_number(fields[2], u32::MAX as nat) == Some(uid as nat) {
        Some(fields[0])
    } else {
        None
    }
}

/// The name of a user, from the lines of the user table from `i` on; the number
/// where none has it.
pub open spec fn name_from(all: Seq<Seq<char>>, uid: u32, i: int) -> Seq<char>
    decreases all.len() - i,
{
    if i < 0 || i >= all.len() {
        text::decimal_text(uid as nat)
    } else {
        match named_in(all[i], uid) {
            Some(name) => name,
            None => name_from(all, uid, i + 1),
        }
    }
}

/// The name of a user; the number where the user table cannot be read.
pub open spec fn user_name(uid: u32, table: Option<&str>) -> Seq<char> {
    match table {
        Some(t) => name_from(lines::lines_of(t@), uid, 0),
        None => text::decimal_text(uid as nat),
    }
}

fn read_name(line: &[char], uid: u32) -> (r: Option<Vec<char>>)
    ensures
        match r {
            Some(name) => named_in(line@, uid) == Some(name@),
            None => named_in(line@, uid) is None,
        },
{
    let fields: Vec<Vec<char>> = split_fields(line, ':');
    let ghost views = lines::char_views(fields@);
    if fields.len() < 3 {
        return None;
    }
    assert(views[2] == fields@[2]@);
    assert(views[0] == fields@[0]@);
    match read_number(fields[2].as_slice(), 0xFFFF_FFFF) {
        Some(id) => {
            if id == uid as u64 {
                let name: Vec<char> = part(fields[0].as_slice(), 0, fields[0].len());
                assert(name@ =~= fields@[0]@);
                Some(name)
            } else {
                None
            }
        },
        None => None,
    }
}

/// Resolves a uid to a user name via the text of the user table, falling back to
/// the number.
pub fn owner_name(uid: u32, table: Option<&str>) -> (r: String)
    ensures
        r@ == user_name(uid, table),
{
    if let Some(t) = table {
        let all: Vec<Vec<char>> = split_lines(chars_of(t).as_slice());
        let ghost views = lines::char_views(all@);
        let n: usize = all.len();
        let mut i: usize = 0;
        while i < n
            invariant
                n == all@.len(),
                i <= n,
                views == lines::char_views(all@),
                views == lines::lines_of(t@),
                name_from(views, uid, i as int) == name_from(views, uid, 0),
                table == Some(t),
            decreases n - i,
        {
            assert(views[i as int] == all@[i as int]@);
            if let Some(name) = read_name(all[i].as_slice(), uid) {
                return string_of(name.as_slice());
            }
            i += 1;
        }
    }
    number_text(uid as u64)
}

/// A permission as it is shown.
pub open spec fn shown_bit(mode: u32, bit: u32, c: char) -> char {
    if mode & bit != 0 {
        c
    } else {
        '-'
    }
}

/// A mode as `rwxr-xr-x`.
pub open spec fn mode_text(mode: u32) -> Seq<char> {
    seq![
        shown_bit(mode, 0o400, 'r'),
        shown_bit(mode, 0o200, 'w'),
        shown_bit(mode, 0o100, 'x'),
        shown_bit(mode, 0o040, 'r'),
        shown_bit(mode, 0o020, 'w'),
        shown_bit(mode, 0o010, 'x'),
        shown_bit(mode, 0o004, 'r'),
        shown_bit(mode, 0o002, 'w'),
        shown_bit(mode, 0o001, 'x'),
    ]
}

fn bit_char(mode: u32, bit: u32, c: char) -> (r: char)
    ensures
        r == shown_bit(mode, bit, c),
{
    if mode & bit != 0 {
        c
    } else {
        '-'
    }
}

/// Renders a mode as `rwxr-xr-x`.
pub fn mode_string(mode: u32) -> (r: String)
    ensures
        r@ == mode_text(mode),
{
    let bits: [char; 9] = [
        bit_char(mode, 0o400, 'r'),
        bit_char(mode, 0o200, 'w'),
        bit_char(mode, 0o100, 'x'),
        bit_char(mode, 0o040, 'r'),
        bit_char(mode, 0o020, 'w'),
        bit_char(mode, 0o010, 'x'),
        bit_char(mode, 0o004, 'r'),
        bit_char(mode, 0o002, 'w'),
        bit_char(mode, 0o001, 'x'),
    ];
    assert(bits@ =~= mode_text(mode));
    string_of(bits.as_slice())
}

/// The card of a file.
pub open spec fn is_card(m: FileMeta, p: Seq<u8>, stat: FileStat, head: Option<Seq<u8>>, table: Option<&str>) -> bool {
    &&& m.path@ == p
    &&& m.size == stat.size
    &&& m.mtime == stat.mtime
    &&& m.mode == stat.mode
    &&& m.owner@ == user_name(stat.uid, table)
    &&& m.kind@ == (if stat.is_symlink {
        "symlink"@
    } else if stat.is_dir {
        "directory"@
    } else {
        extension_kind(p, head)
    })
    &&& m.is_dir == stat.is_dir
}

/// Collects the metadata card shown for any file, from what the file system says
/// of it, its first bytes and the user table.
pub fn file_meta(p: &[u8], stat: FileStat, head: Option<&[u8]>, table: Option<&str>) -> (r: FileMeta)
    ensures
        is_card(r, p@, stat, slice_view(head), table),
{
    let kind: String = if stat.is_symlink {
        "symlink".to_owned()
    } else if stat.is_dir {
        "directory".to_owned()
    } else {
        kind_from_extension(p, head)
    };
    FileMeta {
        path: vstd::slice::slice_to_vec(p),
        size: stat.size,
        mtime: stat.mtime,
        mode: stat.mode,
        owner: owner_name(stat.uid, table),
        kind,
        is_dir: stat.is_dir,
    }
}

// ---- rendered pages -----------------------------------------------------------------

/// One more byte of a key.
pub open spec fn mixed(h: u64, b: u8) -> u64 {
    (h ^ (b as u64)).wrapping_mul(0x1000_0000_01b3)
}

pub open spec fn mixed_all(h: u64, bytes: Seq<u8>) -> u64
    decreases bytes.len(),
{
    if bytes.len() == 0 {
        h
    } else {
        mixed(mixed_all(h, bytes.drop_last()), bytes.last())
    }
}

/// The lowest `k` bytes of a number, the least significant first.
pub open spec fn low_bytes(x: u64, k: nat) -> Seq<u8>
    decreases k,
{
    if k == 0 {
        Seq::empty()
    } else {
        seq![(x % 256) as u8] + low_bytes(x / 256, (k - 1) as nat)
    }
}

/// A digit of a number in base sixteen.
pub open spec fn hex_digit(d: u64) -> char {
    if d < 10 {
        ((48 + d) as u8) as char
    } else {
        ((87 + d) as u8) as char
    }
}

/// The lowest `k` digits of a number in base sixteen.
pub open spec fn hex_text(x: u64, k: nat) -> Seq<char>
    decreases k,
{
    if k == 0 {
        Seq::empty()
    } else {
        hex_text(x / 16, (k - 1) as nat).push(hex_digit(x % 16))
    }
}

/// The key of a rendered page.
pub open spec fn key_text(p: Seq<u8>, mtime: i64, size: u64) -> Seq<char> {
    let h = mixed_all(0xcbf2_9ce4_8422_2325, p);
    let h = mixed_all(h, low_bytes(mtime as u64, 8));
    hex_text(mixed_all(h, low_bytes(size, 8)), 16)
}

fn mix_all(h: u64, bytes: &[u8]) -> (r: u64)
    ensures
        r == mixed_all(h, bytes@),
{
    let n: usize = bytes.len();
    let mut out: u64 = h;
    let mut i: usize = 0;
    assert(bytes@.subrange(0, 0).len() == 0);
    while i < n
        invariant
            n == bytes@.len(),
            i <= n,
            out == mixed_all(h, bytes@.subrange(0, i as int)),
        decreases n - i,
    {
        proof {
            let next = bytes@.subrange(0, i + 1);
            assert(next.drop_last() =~= bytes@.subrange(0, i as int));
            assert(next.last() == bytes@[i as int]);
        }
        out = (out ^ (bytes[i] as u64)).wrapping_mul(0x1000_0000_01b3);
        i += 1;
    }
    assert(bytes@.subrange(0, n as int) =~= bytes@);
    out
}

fn bytes_of_number(x: u64) -> (r: Vec<u8>)
    ensures
        r@ == low_bytes(x, 8),
{
    let mut out: Vec<u8> = Vec::new();
    let mut left: u64 = x;
    let mut k: usize = 8;
    assert(out@ + low_bytes(x, 8) =~= low_bytes(x, 8));
    while k > 0
        invariant
            k <= 8,
            out@ + low_bytes(left, k as nat) == low_bytes(x, 8),
        decreases k,
    {
        let ghost before = out@;
        let b: u8 = (left % 256) as u8;
        out.push(b);
        assert(out@ + low_bytes(left / 256, (k - 1) as nat) =~= before + (seq![b] + low_bytes(
            left / 256,
            (k - 1) as nat,
        )));
        left = left / 256;
        k -= 1;
    }
    assert(out@ + low_bytes(left, 0) =~= out@);
    out
}

fn hex_chars(x: u64, k: usize) -> (r: Vec<char>)
    ensures
        r@ == hex_text(x, k as nat),
    decreases k,
{
    if k == 0 {
        return Vec::new();
    }
    let mut out: Vec<char> = hex_chars(x / 16, k - 1);
    let d: u8 = (x % 16) as u8;
    let c: char = if d < 10 {
        (48 + d) as char
    } else {
        (87 + d) as char
    };
    out.push(c);
    out
}

/// FNV-1a over path + mtime + size. Hand-rolled so cached renders survive a
/// toolchain upgrade, unlike `DefaultHasher`.
pub fn cache_key(p: &[u8], mtime: i64, size: u64) -> (r: String)
    ensures
        r@ == key_text(p@, mtime, size),
{
    let h: u64 = mix_all(0xcbf2_9ce4_8422_2325, p);
    let h: u64 = mix_all(h, bytes_of_number(mtime as u64).as_slice());
    let h: u64 = mix_all(h, bytes_of_number(size).as_slice());
    string_of(hex_chars(h, 16).as_slice())
}

/// The number of pages in the first line that tells it.
pub open spec fn pages_from(all: Seq<Seq<char>>, i: int) -> Option<nat>
    decreases all.len() - i,
{
    if i < 0 || i >= all.len() {
        None
    } else if text::begins(all[i], "Pages:"@) {
        lines::whole_number(text::trim(all[i].skip("Pages:"@.len() as int)), usize::MAX as nat)
    } else {
        pages_from(all, i + 1)
    }
}

pub open spec fn as_nat(r: Option<usize>) -> Option<nat> {
    match r {
        Some(n) => Some(n as nat),
        None => None,
    }
}

/// A number of pages, as it was written down.
pub fn page_count(s: &str) -> (r: Option<usize>)
    ensures
        as_nat(r) == lines::whole_number(text::trim(s@), usize::MAX as nat),
{
    read_pages(chars_of(s).as_slice())
}

fn read_pages(s: &[char]) -> (r: Option<usize>)
    ensures
        as_nat(r) == lines::whole_number(text::trim(s@), usize::MAX as nat),
{
    match read_number(trimmed(s).as_slice(), usize::MAX as u64) {
        Some(n) => Some(n as usize),
        None => None,
    }
}

/// The number of pages, in what `pdfinfo` prints.
pub fn pdf_page_count(output: &str) -> (r: Option<usize>)
    ensures
        as_nat(r) == pages_from(lines::lines_of(output@), 0),
{
    let all: Vec<Vec<char>> = split_lines(chars_of(output).as_slice());
    let label: Vec<char> = chars_of("Pages:");
    let ghost views = lines::char_views(all@);
    let n: usize = all.len();
    let mut i: usize = 0;
    while i < n
        invariant
            n == all@.len(),
            i <= n,
            views == lines::char_views(all@),
            views == lines::lines_of(output@),
            label@ == "Pages:"@,
            pages_from(views, i as int) == pages_from(views, 0),
        decreases n - i,
    {
        assert(views[i as int] == all@[i as int]@);
        if begins_with(all[i].as_slice(), label.as_slice()) {
            let m: usize = all[i].len();
            let rest: &[char] = vstd::slice::slice_subrange(all[i].as_slice(), label.len(), m);
            assert(rest@ =~= views[i as int].skip("Pages:"@.len() as int));
            return read_pages(rest);
        }
        i += 1;
    }
    None
}

} // verus!
