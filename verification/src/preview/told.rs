//! What cards and previews tell, over the files' own data.

use vstd::prelude::*;

use crate::bytestr;
use crate::decimal;
use crate::decimal::exact;
use crate::outside;
use crate::path;
use crate::path::laws as paths;
use crate::preview;
use crate::preview::card;
use crate::preview::class;
use crate::preview::class::{Class, Found};
use crate::preview::svg;
use crate::preview::{FileMeta, Preview, PreviewLimits};
use crate::query::laws as inputs;
use crate::text;
use crate::text::laws as splitting;
use crate::text::lines;

verus! {

// ---- cards ------------------------------------------------------------------------

/// The nine permissions, the owner's first, then the group's, then everyone's, each as
/// reading, writing and running: a letter where the bit is set, else a dash.
pub proof fn law_permissions(mode: u32)
    ensures
        card::mode_text(mode).len() == 9,
        card::mode_text(mode)[0] == (if (mode / 256) % 2 == 1 { 'r' } else { '-' }),
        card::mode_text(mode)[1] == (if (mode / 128) % 2 == 1 { 'w' } else { '-' }),
        card::mode_text(mode)[2] == (if (mode / 64) % 2 == 1 { 'x' } else { '-' }),
        card::mode_text(mode)[3] == (if (mode / 32) % 2 == 1 { 'r' } else { '-' }),
        card::mode_text(mode)[4] == (if (mode / 16) % 2 == 1 { 'w' } else { '-' }),
        card::mode_text(mode)[5] == (if (mode / 8) % 2 == 1 { 'x' } else { '-' }),
        card::mode_text(mode)[6] == (if (mode / 4) % 2 == 1 { 'r' } else { '-' }),
        card::mode_text(mode)[7] == (if (mode / 2) % 2 == 1 { 'w' } else { '-' }),
        card::mode_text(mode)[8] == (if mode % 2 == 1 { 'x' } else { '-' }),
{
    assert((mode & 0o400 != 0 <==> (mode / 256) % 2 == 1) && (mode & 0o200 != 0 <==> (mode / 128) % 2 == 1) && (mode
        & 0o100 != 0 <==> (mode / 64) % 2 == 1) && (mode & 0o040 != 0 <==> (mode / 32) % 2 == 1) && (mode & 0o020 != 0
        <==> (mode / 16) % 2 == 1) && (mode & 0o010 != 0 <==> (mode / 8) % 2 == 1) && (mode & 0o004 != 0 <==> (mode / 4)
        % 2 == 1) && (mode & 0o002 != 0 <==> (mode / 2) % 2 == 1) && (mode & 0o001 != 0 <==> mode % 2 == 1))
        by (bit_vector);
}

/// The owner is the first field of the first line of the user table whose third field is
/// the user's number.
pub proof fn law_owner_is_looked_up(all: Seq<Seq<char>>, uid: u32, k: int, fields: Seq<Seq<char>>, i: int)
    requires
        0 <= i <= k < all.len(),
        fields.len() >= 3,
        splitting::none_holds(fields, ':'),
        all[k] == splitting::joined_by(fields, ':'),
        fields[2] == text::decimal_text(uid as nat),
        forall|j: int|
            0 <= j < k ==> lines::fields_of(#[trigger] all[j], ':').len() < 3 || lines::whole_number(
                lines::fields_of(all[j], ':')[2],
                u32::MAX as nat,
            ) != Some(uid as nat),
    ensures
        card::name_from(all, uid, i) == fields[0],
    decreases k - i,
{
    if i < k {
        assert(card::named_in(all[i], uid) is None);
        law_owner_is_looked_up(all, uid, k, fields, i + 1);
    } else {
        splitting::law_fields_of_joined(fields, ':');
        exact::law_digits_read_back(uid as nat);
        assert(decimal::is_digit(fields[2][0]));
    }
}

/// A user that no line is about is shown by number.
pub proof fn law_unknown_owner_is_a_number(all: Seq<Seq<char>>, uid: u32, i: int)
    requires
        0 <= i <= all.len(),
        forall|j: int|
            0 <= j < all.len() ==> lines::fields_of(#[trigger] all[j], ':').len() < 3 || lines::whole_number(
                lines::fields_of(all[j], ':')[2],
                u32::MAX as nat,
            ) != Some(uid as nat),
    ensures
        decimal::digits_value(card::name_from(all, uid, i)) == uid,
        decimal::all_digits(card::name_from(all, uid, i)),
    decreases all.len() - i,
{
    exact::law_digits_read_back(uid as nat);
    if i < all.len() {
        assert(card::named_in(all[i], uid) is None);
        law_unknown_owner_is_a_number(all, uid, i + 1);
    }
}

/// The bytes of an ASCII text are its characters.
pub(crate) proof fn lemma_ascii_bytes(s: Seq<char>, bytes: Seq<u8>)
    requires
        s.len() == bytes.len(),
        forall|k: int| 0 <= k < s.len() ==> (#[trigger] bytes[k]) < 128 && s[k] == bytes[k] as char,
    ensures
        vstd::utf8::encode_utf8(s) == bytes,
{
    assert forall|k: int| 0 <= k < s.len() implies '\0' <= #[trigger] s[k] <= '\u{7f}' by {
        assert(bytes[k] < 128 && s[k] == bytes[k] as char);
    }
    vstd::utf8::is_ascii_chars_encode_utf8(s);
    assert(vstd::utf8::encode_utf8(s) =~= bytes);
}

proof fn lemma_magics()
    ensures
        vstd::utf8::encode_utf8("%PDF-"@) == seq![0x25u8, 0x50, 0x44, 0x46, 0x2d],
        vstd::utf8::encode_utf8("\x7fELF"@) == seq![0x7fu8, 0x45, 0x4c, 0x46],
        vstd::utf8::encode_utf8("GIF8"@) == seq![0x47u8, 0x49, 0x46, 0x38],
        vstd::utf8::encode_utf8("PK\x03\x04"@) == seq![0x50u8, 0x4b, 3, 4],
        vstd::utf8::encode_utf8("#!"@) == seq![0x23u8, 0x21],
        vstd::utf8::encode_utf8("OggS"@) == seq![0x4fu8, 0x67, 0x67, 0x53],
        vstd::utf8::encode_utf8("\x00asm"@) == seq![0u8, 0x61, 0x73, 0x6d],
{
    reveal_strlit("%PDF-");
    reveal_strlit("\x7fELF");
    reveal_strlit("GIF8");
    reveal_strlit("PK\x03\x04");
    reveal_strlit("#!");
    reveal_strlit("OggS");
    reveal_strlit("\x00asm");
    lemma_ascii_bytes("%PDF-"@, seq![0x25u8, 0x50, 0x44, 0x46, 0x2d]);
    lemma_ascii_bytes("\x7fELF"@, seq![0x7fu8, 0x45, 0x4c, 0x46]);
    lemma_ascii_bytes("GIF8"@, seq![0x47u8, 0x49, 0x46, 0x38]);
    lemma_ascii_bytes("PK\x03\x04"@, seq![0x50u8, 0x4b, 3, 4]);
    lemma_ascii_bytes("#!"@, seq![0x23u8, 0x21]);
    lemma_ascii_bytes("OggS"@, seq![0x4fu8, 0x67, 0x67, 0x53]);
    lemma_ascii_bytes("\x00asm"@, seq![0u8, 0x61, 0x73, 0x6d]);
}

/// The bytes begin with others.
pub open spec fn leads(magic: Seq<u8>, head: Seq<u8>) -> bool {
    magic.len() <= head.len() && forall|i: int| 0 <= i < magic.len() ==> head[i] == #[trigger] magic[i]
}

proof fn lemma_leads(magic: Seq<u8>, head: Seq<u8>)
    ensures
        card::begins(head, magic) <==> leads(magic, head),
        leads(magic, head) && magic.len() > 0 ==> head[0] == magic[0],
{
    if leads(magic, head) {
        assert(head.subrange(0, magic.len() as int) =~= magic);
        if magic.len() > 0 {
            assert(head[0] == magic[0]);
        }
    }
    if card::begins(head, magic) {
        assert forall|i: int| 0 <= i < magic.len() implies head[i] == #[trigger] magic[i] by {
            assert(head.subrange(0, magic.len() as int)[i] == magic[i]);
        }
    }
}

/// Files without an extension are told by their first bytes.
pub proof fn law_first_bytes_tell_the_kind(head: Seq<u8>)
    ensures
        leads(seq![0x25u8, 0x50, 0x44, 0x46, 0x2d], head) ==> card::magic_kind(head) == "pdf"@,
        leads(seq![0x7fu8, 0x45, 0x4c, 0x46], head) ==> card::magic_kind(head) == "elf"@,
        leads(seq![0x89u8, 0x50, 0x4e, 0x47], head) ==> card::magic_kind(head) == "png"@,
        leads(seq![0xffu8, 0xd8, 0xff], head) ==> card::magic_kind(head) == "jpeg"@,
        leads(seq![0x47u8, 0x49, 0x46, 0x38], head) ==> card::magic_kind(head) == "gif"@,
        leads(seq![0x50u8, 0x4b, 3, 4], head) ==> card::magic_kind(head) == "zip"@,
        leads(seq![0x1fu8, 0x8b], head) ==> card::magic_kind(head) == "gzip"@,
        leads(seq![0x23u8, 0x21], head) ==> card::magic_kind(head) == "script"@,
        leads(seq![0x4fu8, 0x67, 0x67, 0x53], head) ==> card::magic_kind(head) == "ogg"@,
        leads(seq![0u8, 0x61, 0x73, 0x6d], head) ==> card::magic_kind(head) == "wasm"@,
        head.len() == 0 ==> card::magic_kind(head) == "file"@,
        head.len() > 0 && head[0] == 0x20 && head.contains(0) ==> card::magic_kind(head) == "binary"@,
        head.len() > 0 && head[0] == 0x20 && !head.contains(0) && vstd::utf8::valid_utf8(head) ==> card::magic_kind(head)
            == "text"@,
{
    lemma_magics();
    lemma_leads(seq![0x25u8, 0x50, 0x44, 0x46, 0x2d], head);
    lemma_leads(seq![0x7fu8, 0x45, 0x4c, 0x46], head);
    lemma_leads(seq![0x89u8, 0x50u8, 0x4eu8, 0x47u8], head);
    lemma_leads(seq![0xffu8, 0xd8u8, 0xffu8], head);
    lemma_leads(seq![0x47u8, 0x49, 0x46, 0x38], head);
    lemma_leads(seq![0x50u8, 0x4b, 3, 4], head);
    lemma_leads(seq![0x1fu8, 0x8bu8], head);
    lemma_leads(seq![0x23u8, 0x21], head);
    lemma_leads(seq![0x4fu8, 0x67, 0x67, 0x53], head);
    lemma_leads(seq![0u8, 0x61, 0x73, 0x6d], head);
}

/// The extension of a path is what stands behind the last dot of its name, where
/// something stands before that dot; a name without a dot has none, nor has one with a
/// single dot in front.
pub proof fn law_extension(p: Seq<u8>, stem: Seq<u8>, ext: Seq<u8>)
    requires
        p.len() > 0,
        forall|i: int| 0 <= i < stem.len() ==> #[trigger] stem[i] as char != '/',
        forall|i: int| 0 <= i < ext.len() ==> #[trigger] ext[i] as char != '/' && ext[i] as char != '.',
    ensures
        stem.len() > 0 && !(stem == seq![path::DOT] && ext.len() == 0) ==> preview::ext_of(
            p + seq![path::SLASH] + (stem + seq![path::DOT] + ext),
        ) == Some(ext),
        stem.len() == 0 && ext.len() > 0 ==> preview::ext_of(p + seq![path::SLASH] + (stem + seq![path::DOT] + ext))
            is None,
        ext.len() > 0 ==> preview::ext_of(p + seq![path::SLASH] + ext) is None,
{
    let name = stem + seq![path::DOT] + ext;
    let at = stem.len() as int;
    assert forall|i: int| 0 <= i < name.len() implies #[trigger] name[i] as char != '/' by {
        if i < at {
            assert(name[i] == stem[i]);
        } else if i > at {
            assert(name[i] == ext[i - at - 1]);
        }
    }
    assert(name[at] == path::DOT);
    assert forall|j: int| at < j < name.len() implies name[j] != path::DOT by {
        assert(name[j] == ext[j - at - 1]);
    }
    preview::lemma_last_dot(name, Some(at));
    assert(name.skip(at + 1) =~= ext);
    if name.len() > 1 {
        paths::law_file_name(p, name);
        if name.len() == 2 && name[0] == 46 && name[1] == 46 {
            if ext.len() > 0 {
                assert(ext[ext.len() - 1] as char != '.');
                assert(name[name.len() - 1] == ext[ext.len() - 1]);
            }
            assert(stem =~= seq![path::DOT]);
        }
    }
    if ext.len() > 0 {
        assert forall|j: int| 0 <= j < ext.len() implies ext[j] != path::DOT by {
            assert(ext[j] as char != '.');
        }
        preview::lemma_last_dot(ext, None);
        assert(ext[0] as char != '.');
        paths::law_file_name(p, ext);
    }
}

/// Symbolic links and directories are told as such, whatever their names; of the rest
/// the extension tells the kind, in small letters.
pub proof fn law_card_tells(m: FileMeta, p: Seq<u8>, stat: card::FileStat, head: Option<Seq<u8>>, table: Option<&str>)
    requires
        card::is_card(m, p, stat, head, table),
    ensures
        m.path@ == p && m.size == stat.size && m.mtime == stat.mtime && m.mode == stat.mode && m.is_dir == stat.is_dir,
        stat.is_symlink ==> m.kind@ == "symlink"@,
        !stat.is_symlink && stat.is_dir ==> m.kind@ == "directory"@,
        !stat.is_symlink && !stat.is_dir ==> match preview::ext_text_of(p) {
            Some(e) => e.len() > 0 ==> m.kind@ == text::lower_chars(e),
            None => head is None ==> m.kind@ == "file"@,
        },
{
}

// ---- pages ------------------------------------------------------------------------

/// The number of pages is read from the first line that begins with its label: blanks,
/// and a number.
pub proof fn law_pages_are_read(all: Seq<Seq<char>>, k: int, blanks: Seq<char>, number: Seq<char>, i: int)
    requires
        0 <= i <= k < all.len(),
        all[k] == "Pages:"@ + blanks + number,
        forall|j: int| 0 <= j < blanks.len() ==> #[trigger] blanks[j] == ' ' || blanks[j] == '\t',
        number.len() > 0,
        decimal::all_digits(number),
        decimal::digits_value(number) <= usize::MAX,
        forall|j: int| 0 <= j < k ==> !text::begins(#[trigger] all[j], "Pages:"@),
    ensures
        card::pages_from(all, i) == Some(decimal::digits_value(number)),
    decreases k - i,
{
    if i < k {
        law_pages_are_read(all, k, blanks, number, i + 1);
    } else {
        let line = all[k];
        reveal_strlit("Pages:");
        assert(line.subrange(0, 6) =~= "Pages:"@);
        assert(line.skip(6) =~= blanks + number);
        lemma_blanks(blanks, number);
        assert(decimal::is_digit(number[0]));
        assert(decimal::is_digit(number[number.len() - 1]));
        assert(text::trim_end(number) == number);
    }
}

proof fn lemma_blanks(blanks: Seq<char>, tail: Seq<char>)
    requires
        forall|j: int| 0 <= j < blanks.len() ==> #[trigger] blanks[j] == ' ' || blanks[j] == '\t',
        tail.len() > 0,
        decimal::is_digit(tail[0]),
    ensures
        text::trim_start(blanks + tail) == tail,
    decreases blanks.len(),
{
    let all = blanks + tail;
    if blanks.len() > 0 {
        assert(all[0] == blanks[0]);
        assert(all.skip(1) =~= blanks.skip(1) + tail);
        lemma_blanks(blanks.skip(1), tail);
    } else {
        assert(all =~= tail);
    }
}

/// The number that hexadecimal digits write.
pub open spec fn hex_number(s: Seq<char>) -> nat
    decreases s.len(),
{
    if s.len() == 0 {
        0
    } else {
        (hex_number(s.drop_last()) * 16 + (if '0' <= s.last() <= '9' {
            s.last() as int - '0' as int
        } else {
            s.last() as int - 'a' as int + 10
        })) as nat
    }
}

/// A number in so many hexadecimal digits is read back as its lowest digits say.
pub proof fn law_hex_reads_back(x: u64, k: nat)
    ensures
        card::hex_text(x, k).len() == k,
        hex_number(card::hex_text(x, k)) % 16 == (if k == 0 {
            0
        } else {
            x as int % 16
        }),
        k == 0 ==> hex_number(card::hex_text(x, k)) == 0,
        k > 0 ==> hex_number(card::hex_text(x, k)) == 16 * hex_number(card::hex_text(x / 16, (k - 1) as nat)) + x as int
            % 16,
        forall|i: int|
            0 <= i < k ==> '0' <= #[trigger] card::hex_text(x, k)[i] <= '9' || 'a' <= card::hex_text(x, k)[i] <= 'f',
    decreases k,
{
    let s = card::hex_text(x, k);
    if k > 0 {
        let front = card::hex_text(x / 16, (k - 1) as nat);
        law_hex_reads_back(x / 16, (k - 1) as nat);
        assert(s.drop_last() =~= front);
        let d = card::hex_digit(x % 16);
        assert(s.last() == d);
        assert forall|i: int| 0 <= i < k implies '0' <= #[trigger] s[i] <= '9' || 'a' <= s[i] <= 'f' by {
            if i < k - 1 {
                assert(s[i] == front[i]);
            }
        }
    }
}

// ---- texts ------------------------------------------------------------------------

/// A text preview is the beginning of the file: all of it where it is text and not longer
/// than the limit, and then it is not marked as truncated; a longer one is marked.
pub proof fn law_text_previews(bytes: Seq<u8>, max: nat, content: Seq<char>, truncated: bool, count: nat)
    requires
        preview::shows_text(bytes, max, content, truncated, count),
    ensures
        ({
            let shown = vstd::utf8::encode_utf8(content);
            &&& shown.len() <= max && shown.len() <= bytes.len()
            &&& bytes.take(shown.len() as int) == shown
            &&& truncated <==> shown.len() < bytes.len()
            &&& vstd::utf8::valid_utf8(bytes) && bytes.len() <= max ==> shown == bytes && !truncated
            &&& forall|m: int|
                shown.len() < m <= max && m <= bytes.len() ==> !vstd::utf8::valid_utf8(#[trigger] bytes.take(m))
        }),
        count == lines::lines_of(content).len(),
{
    let kept = preview::first_bytes(bytes, max);
    let n = choose|n: int| #[trigger]
        outside::is_valid_up_to(kept, n) && content == vstd::utf8::decode_utf8(kept.subrange(0, n)) && truncated == (
        bytes.len() > max || n < kept.len()) && count == lines::lines_of(content).len();
    vstd::utf8::decode_utf8_encode_utf8(kept.subrange(0, n));
    let shown = vstd::utf8::encode_utf8(content);
    assert(bytes.take(n) =~= kept.subrange(0, n));
    assert forall|m: int| n < m <= max && m <= bytes.len() implies !vstd::utf8::valid_utf8(#[trigger] bytes.take(m)) by {
        assert(bytes.take(m) =~= kept.subrange(0, m));
    }
    if vstd::utf8::valid_utf8(bytes) && bytes.len() <= max && n < bytes.len() {
        assert(kept.subrange(0, bytes.len() as int) =~= bytes);
    }
    if vstd::utf8::valid_utf8(bytes) && bytes.len() <= max {
        assert(shown =~= bytes);
    }
}

/// What fits of a text is a beginning of it that takes no more bytes than there is room
/// for, and is all of it or would take more with one more character.
pub proof fn law_fitting_texts(s: Seq<char>, max: nat, k: int)
    requires
        lines::fits_exactly(s, max, k),
    ensures
        0 <= k <= s.len(),
        vstd::utf8::encode_utf8(s.take(k)).len() <= max,
        k < s.len() ==> vstd::utf8::encode_utf8(s.take(k + 1)).len() > max,
{
    splitting::law_text_takes_its_bytes(s.subrange(0, k));
    assert(s.take(k) =~= s.subrange(0, k));
    if k < s.len() {
        splitting::law_text_takes_its_bytes(s.subrange(0, k + 1));
        assert(s.take(k + 1) =~= s.subrange(0, k + 1));
    }
}

// ---- classes ------------------------------------------------------------------------

/// The first bytes of a PDF decide before anything else; a drawing has its tag in it; what
/// begins an image is one unless it is one of these; what has a NUL in it is no text.
pub proof fn law_classes(
    p: Seq<u8>,
    head: Seq<u8>,
    media: Option<(Seq<char>, Seq<char>, Seq<char>)>,
    image: bool,
)
    ensures
        ({
            let c = class::class_of(p, head, media, image);
            let drawn = bytestr::contains(head, vstd::utf8::encode_utf8("<svg"@));
            &&& leads(seq![0x25u8, 0x50, 0x44, 0x46, 0x2d], head) <==> c == Class::Pdf
            &&& c == Class::Svg ==> drawn
            &&& c == Class::Svg ==> preview::ext_of(p) is Some || media is Some
            &&& image && c != Class::Pdf && !drawn ==> c == Class::Image
            &&& c == Class::Image ==> image
            &&& image ==> c == Class::Pdf || c == Class::Svg || c == Class::Image
            &&& c == Class::Text ==> !head.contains(0) && head.len() > 0
            &&& (media matches Some(m) && m.0 == "audio"@) && c != Class::Pdf && !drawn && !image ==> c == Class::Audio
            &&& head.len() == 0 && !image && !(media matches Some(m) && m.0 == "audio"@) ==> c == Class::Other
        }),
{
    lemma_magics();
    lemma_leads(seq![0x25u8, 0x50, 0x44, 0x46, 0x2d], head);
    if head.len() == 0 && !image {
        lemma_short_heads(head);
    }
}

proof fn lemma_short_heads(head: Seq<u8>)
    requires
        head.len() == 0,
    ensures
        !bytestr::contains(head, vstd::utf8::encode_utf8("<svg"@)),
        !card::begins_text(head, "fLaC"@),
        !card::begins_text(head, "ID3"@),
{
    reveal_strlit("<svg");
    reveal_strlit("fLaC");
    reveal_strlit("ID3");
    lemma_ascii_bytes("<svg"@, seq![0x3cu8, 0x73, 0x76, 0x67]);
    lemma_ascii_bytes("fLaC"@, seq![0x66u8, 0x4c, 0x61, 0x43]);
    lemma_ascii_bytes("ID3"@, seq![0x49u8, 0x44, 0x33]);
}

/// A preview shows what was found out: of an image within the limit its own width and
/// height, of a PDF its page and the number of its pages, of a text its beginning; sound
/// is played from where it is.
pub proof fn law_previews_show_what_was_found(
    r: Preview,
    c: Class,
    p: Seq<u8>,
    meta: FileMeta,
    limits: PreviewLimits,
    found: Found,
)
    requires
        class::is_preview(r, c, p, meta, limits, found),
    ensures
        c == Class::Audio ==> (r matches Preview::Audio { path } && path@ == p),
        (c == Class::Image || c == Class::Svg) && meta.size <= limits.max_image_bytes ==> match found {
            Found::Size { width, height } => r matches Preview::Image { path, width: w, height: h } && path@ == p && w
                == width && h == height,
            _ => r == Preview::Meta(meta),
        },
        c == Class::Pdf ==> match found {
            Found::Page { page_png, text, pages } => r matches Preview::Pdf { page_png: png, text: shown, pages: n }
                && png == page_png && n == pages && vstd::utf8::encode_utf8(shown@).len() <= limits.max_text_bytes && (
            vstd::utf8::encode_utf8(text@).len() <= limits.max_text_bytes ==> shown@ == text@),
            _ => r == Preview::Meta(meta),
        },
        c == Class::Text ==> match found {
            Found::Bytes(bytes) => r matches Preview::Text { content, truncated, .. } && (vstd::utf8::valid_utf8(bytes@)
                && bytes@.len() <= limits.max_text_bytes ==> vstd::utf8::encode_utf8(content@) == bytes@ && !truncated),
            _ => r == Preview::Meta(meta),
        },
        c == Class::Other ==> r == Preview::Meta(meta),
{
    if c == Class::Pdf {
        if let Found::Page { page_png, text, pages } = found {
            if let Preview::Pdf { page_png: png, text: shown, pages: n } = r {
                let k = choose|k: int| #[trigger]
                    lines::fits_exactly(text@, limits.max_text_bytes as nat, k) && shown@ == text@.subrange(0, k);
                law_fitting_texts(text@, limits.max_text_bytes as nat, k);
                assert(text@.take(k) =~= shown@);
                if k < text@.len() && vstd::utf8::encode_utf8(text@).len() <= limits.max_text_bytes {
                    splitting::law_text_takes_its_bytes(text@);
                    splitting::law_text_takes_its_bytes(text@.take(k + 1));
                    splitting::lemma_part_takes_less(text@, k + 1);
                }
                if k == text@.len() {
                    assert(text@.subrange(0, k) =~= text@);
                }
            }
        }
    }
    if c == Class::Text {
        if let Found::Bytes(bytes) = found {
            if let Preview::Text { content, truncated, lines: n } = r {
                law_text_previews(bytes@, limits.max_text_bytes as nat, content@, truncated, n as nat);
            }
        }
    }
}

// ---- drawings -----------------------------------------------------------------------

/// The size of a drawing is its width and its height where both can be read; else it is
/// what the third and the fourth of four readable numbers of its view box say; else it
/// has none.
pub proof fn law_drawing_sizes(width: Option<u32>, height: Option<u32>, view_box: Seq<Option<u32>>)
    ensures
        width is Some && height is Some ==> svg::size_of(width, height, view_box) == (width->0, height->0),
        (width is None || height is None) && view_box.len() == 4 && (forall|i: int|
            0 <= i < 4 ==> (#[trigger] view_box[i]) is Some) ==> svg::size_of(width, height, view_box) == (
            view_box[2]->0,
            view_box[3]->0,
        ),
        (width is None || height is None) && view_box.len() < 4 ==> svg::size_of(width, height, view_box) == (0u32, 0u32),
{
    if view_box.len() == 4 && (forall|i: int| 0 <= i < 4 ==> (#[trigger] view_box[i]) is Some) {
        reveal_with_fuel(svg::nth_number, 5);
        assert(view_box[0] is Some && view_box[1] is Some && view_box[2] is Some && view_box[3] is Some);
    }
    if view_box.len() < 4 {
        lemma_too_few(view_box, 0, 3);
    }
}

proof fn lemma_too_few(numbers: Seq<Option<u32>>, from: int, nth: nat)
    requires
        0 <= from,
        numbers.len() - from <= nth,
    ensures
        svg::nth_number(numbers, from, nth) is None,
    decreases numbers.len() - from,
{
    if from < numbers.len() {
        match numbers[from] {
            Some(_) => {
                lemma_too_few(numbers, from + 1, (nth - 1) as nat);
            },
            None => {
                lemma_too_few(numbers, from + 1, nth);
            },
        }
    }
}

/// An attribute's value is what stands in quotes behind its name and an equals sign, where
/// the name stands first behind a blank.
pub proof fn law_attributes(tag: Seq<char>, name: Seq<char>, at: int, value: Seq<char>, rest: Seq<char>, i: int)
    requires
        name.len() > 0,
        0 <= i <= at,
        at > 0,
        tag[at - 1] == ' ',
        at + name.len() <= tag.len(),
        tag.skip(at) == name + seq!['=', '"'] + value + seq!['"'] + rest,
        !value.contains('"'),
        forall|j: int| i <= j < at ==> #[trigger] tag.subrange(j, j + name.len()) != name,
    ensures
        svg::attribute(tag, name, i) == Some(value),
    decreases at - i,
{
    if i < at {
        assert(tag.subrange(i, i + name.len()) != name);
        law_attributes(tag, name, at, value, rest, i + 1);
    } else {
        let after = tag.skip(at + name.len());
        assert(tag.subrange(at, at + name.len()) =~= name) by {
            assert(tag.subrange(at, at + name.len()) =~= tag.skip(at).subrange(0, name.len() as int));
        }
        assert(after =~= tag.skip(at).skip(name.len() as int));
        assert(after =~= seq!['=', '"'] + value + seq!['"'] + rest);
        assert(after[0] == '=');
        assert(after.skip(1)[0] == '"');
        let inner = after.skip(1).skip(1);
        assert(inner =~= value + seq!['"'] + rest);
        assert forall|j: int| 0 <= j < value.len() implies inner[j] != '"' by {
            assert(inner[j] == value[j]);
            assert(value.contains(value[j]));
        }
        assert(inner[value.len() as int] == '"');
        splitting::lemma_first_at(inner, '"', value.len() as int);
        assert(inner.subrange(0, value.len() as int) =~= value);
    }
}

/// A size is read without the letters of its unit and the blanks around it.
pub proof fn law_units_are_dropped(number: Seq<char>, unit: Seq<char>)
    requires
        number.len() > 0,
        decimal::all_digits(number),
        forall|i: int| 0 <= i < unit.len() ==> 'a' <= #[trigger] unit[i] <= 'z' || unit[i] == '%',
    ensures
        svg::number_of(number + unit) == number,
{
    let all = number + unit;
    assert(inputs::is_plain(all)) by {
        assert forall|i: int| 0 <= i < all.len() implies !inputs::is_gap(#[trigger] all[i]) && all[i] != '"' by {
            if i < number.len() {
                assert(decimal::is_digit(number[i]));
            } else {
                assert(all[i] == unit[i - number.len()]);
            }
        }
    }
    inputs::lemma_no_blank(all);
    lemma_trim_unit(number, unit);
    assert(inputs::is_plain(number)) by {
        assert forall|i: int| 0 <= i < number.len() implies !inputs::is_gap(#[trigger] number[i]) && number[i] != '"' by {
            assert(decimal::is_digit(number[i]));
        }
    }
    inputs::lemma_no_blank(number);
}

proof fn lemma_trim_unit(number: Seq<char>, unit: Seq<char>)
    requires
        number.len() > 0,
        decimal::all_digits(number),
        forall|i: int| 0 <= i < unit.len() ==> 'a' <= #[trigger] unit[i] <= 'z' || unit[i] == '%',
    ensures
        svg::trim_unit(number + unit) == number,
    decreases unit.len(),
{
    let all = number + unit;
    if unit.len() > 0 {
        assert(all.last() == unit[unit.len() - 1]);
        assert(all.drop_last() =~= number + unit.drop_last());
        lemma_trim_unit(number, unit.drop_last());
    } else {
        assert(all =~= number);
        assert(decimal::is_digit(number[number.len() - 1]));
    }
}

/// The numbers of a view box are the words between blanks and commas, in order.
pub proof fn law_view_box_words(words: Seq<Seq<char>>, gap: char)
    requires
        gap == ' ' || gap == ',' || gap == '\n' || gap == '\t',
        words.len() > 0,
        forall|k: int| 0 <= k < words.len() ==> (#[trigger] words[k]).len() > 0 && decimal::all_digits(words[k]),
    ensures
        svg::words_after(splitting::joined_by(words, gap), Seq::empty()) == words,
    decreases words.len(),
{
    let first = words[0];
    let s = splitting::joined_by(words, gap);
    assert(words[0].len() > 0 && decimal::all_digits(words[0]));
    if words.len() == 1 {
        lemma_word(first, Seq::empty(), Seq::empty());
        assert(first + Seq::empty() =~= first);
        assert(Seq::<char>::empty() + first =~= first);
        assert(words =~= seq![first]);
    } else {
        let rest = words.skip(1);
        assert forall|k: int| 0 <= k < rest.len() implies (#[trigger] rest[k]).len() > 0 && decimal::all_digits(rest[k]) by {
            assert(words[k + 1].len() > 0);
        }
        law_view_box_words(rest, gap);
        let tail = seq![gap] + splitting::joined_by(rest, gap);
        assert(s =~= first + tail);
        lemma_word(first, tail, Seq::empty());
        assert(Seq::<char>::empty() + first =~= first);
        assert(tail[0] == gap);
        assert(tail.skip(1) =~= splitting::joined_by(rest, gap));
        assert(words =~= seq![first] + rest);
    }
}

proof fn lemma_word(word: Seq<char>, tail: Seq<char>, read: Seq<char>)
    requires
        decimal::all_digits(word),
    ensures
        svg::words_after(word + tail, read) == svg::words_after(tail, read + word),
    decreases word.len(),
{
    if word.len() == 0 {
        assert(word + tail =~= tail);
        assert(read + word =~= read);
    } else {
        let all = word + tail;
        assert(all[0] == word[0]);
        assert(decimal::is_digit(word[0]));
        assert(all.skip(1) =~= word.skip(1) + tail);
        assert(read.push(word[0]) + word.skip(1) =~= read + word);
        assert forall|i: int| 0 <= i < word.skip(1).len() implies decimal::is_digit(#[trigger] word.skip(1)[i]) by {
            assert(decimal::is_digit(word[i + 1]));
        }
        lemma_word(word.skip(1), tail, read.push(word[0]));
    }
}

/// The first place of a word is where it stands and does not stand before.
pub proof fn law_first_place_of_word(s: Seq<char>, word: Seq<char>, at: int, i: int)
    requires
        0 <= i <= at,
        at + word.len() <= s.len(),
        s.subrange(at, at + word.len()) == word,
        forall|j: int| i <= j < at ==> #[trigger] s.subrange(j, j + word.len()) != word,
    ensures
        svg::place_of(s, word, i) == Some(at),
    decreases at - i,
{
    if i < at {
        assert(s.subrange(i, i + word.len()) != word);
        law_first_place_of_word(s, word, at, i + 1);
    }
}

/// The tag that begins a text goes up to its end, where it is short enough.
pub proof fn law_tag_ends_at_its_bracket(body: Seq<char>, rest: Seq<char>, tag: Seq<char>)
    requires
        !body.contains('>'),
        vstd::utf8::encode_utf8(body).len() <= 2048,
        svg::is_tag_of(body + seq!['>'] + rest, tag),
    ensures
        tag == body,
{
    let all = body + seq!['>'] + rest;
    assert forall|i: int| 0 <= i < body.len() implies all[i] != '>' by {
        assert(all[i] == body[i]);
        assert(body.contains(body[i]));
    }
    assert(all[body.len() as int] == '>');
    splitting::lemma_first_at(all, '>', body.len() as int);
    let open = all.subrange(0, body.len() as int);
    assert(open =~= body);
    let k = choose|k: int| #[trigger]
        lines::fits_exactly(open, svg::MAX_TAG_BYTES as nat, k) && tag == open.subrange(0, k);
    law_fitting_texts(body, 2048, k);
    if k < body.len() {
        splitting::law_text_takes_its_bytes(body);
        splitting::law_text_takes_its_bytes(body.take(k + 1));
        splitting::lemma_part_takes_less(body, k + 1);
        assert(body.take(k + 1) =~= body.subrange(0, k + 1));
    }
    assert(open.subrange(0, body.len() as int) =~= body);
}

/// Directories, links and empty files have nothing to look at, and everything else has.
pub proof fn law_settled(meta: FileMeta)
    ensures
        meta.is_dir || meta.size == 0 || meta.kind@ == "symlink"@ ==> class::is_settled(meta),
        !meta.is_dir && meta.size > 0 && meta.kind@ != "symlink"@ ==> !class::is_settled(meta),
{
}

/// The media type of a path is that of the extension of its name.
pub proof fn law_media_type_of_paths(p: Seq<u8>, stem: Seq<u8>, ext: Seq<u8>)
    requires
        p.len() > 0,
        stem.len() > 0,
        ext.len() > 0,
        forall|i: int| 0 <= i < stem.len() ==> #[trigger] stem[i] as char != '/',
        forall|i: int| 0 <= i < ext.len() ==> #[trigger] ext[i] as char != '/' && ext[i] as char != '.',
        vstd::utf8::valid_utf8(ext),
    ensures
        preview::path_media_type(p + seq![path::SLASH] + (stem + seq![path::DOT] + ext)) == outside::media_type_of(
            vstd::utf8::decode_utf8(ext),
        ),
{
    law_extension(p, stem, ext);
}

/// Sounds are told by their first bytes, where no drawing or image claims them.
pub proof fn law_sounds_are_told(
    p: Seq<u8>,
    head: Seq<u8>,
    media: Option<(Seq<char>, Seq<char>, Seq<char>)>,
)
    requires
        !bytestr::contains(head, vstd::utf8::encode_utf8("<svg"@)),
    ensures
        leads(seq![0x66u8, 0x4c, 0x61, 0x43], head) || leads(seq![0x49u8, 0x44, 0x33], head) || leads(
            seq![0xffu8, 0xfbu8],
            head,
        ) || leads(seq![0xffu8, 0xf3u8], head) || leads(seq![0xffu8, 0xf2u8], head) ==> class::class_of(
            p,
            head,
            media,
            false,
        ) == Class::Audio,
        head.len() >= 12 && leads(seq![0x52u8, 0x49, 0x46, 0x46], head) && leads(
            seq![0x57u8, 0x41, 0x56, 0x45],
            head.skip(8),
        ) ==> class::class_of(p, head, media, false) == Class::Audio,
        head.len() >= 12 && leads(seq![0x46u8, 0x4f, 0x52, 0x4d], head) && (leads(
            seq![0x41u8, 0x49, 0x46, 0x46],
            head.skip(8),
        ) || leads(seq![0x41u8, 0x49, 0x46, 0x43], head.skip(8))) ==> class::class_of(p, head, media, false)
            == Class::Audio,
{
    lemma_magics();
    reveal_strlit("fLaC");
    reveal_strlit("ID3");
    reveal_strlit("RIFF");
    reveal_strlit("WAVE");
    reveal_strlit("FORM");
    reveal_strlit("AIFF");
    reveal_strlit("AIFC");
    lemma_ascii_bytes("fLaC"@, seq![0x66u8, 0x4c, 0x61, 0x43]);
    lemma_ascii_bytes("ID3"@, seq![0x49u8, 0x44, 0x33]);
    lemma_ascii_bytes("RIFF"@, seq![0x52u8, 0x49, 0x46, 0x46]);
    lemma_ascii_bytes("WAVE"@, seq![0x57u8, 0x41, 0x56, 0x45]);
    lemma_ascii_bytes("FORM"@, seq![0x46u8, 0x4f, 0x52, 0x4d]);
    lemma_ascii_bytes("AIFF"@, seq![0x41u8, 0x49, 0x46, 0x46]);
    lemma_ascii_bytes("AIFC"@, seq![0x41u8, 0x49, 0x46, 0x43]);
    lemma_leads(seq![0x25u8, 0x50, 0x44, 0x46, 0x2d], head);
    lemma_leads(seq![0x66u8, 0x4c, 0x61, 0x43], head);
    lemma_leads(seq![0x49u8, 0x44, 0x33], head);
    lemma_leads(seq![0xffu8, 0xfbu8], head);
    lemma_leads(seq![0xffu8, 0xf3u8], head);
    lemma_leads(seq![0xffu8, 0xf2u8], head);
    lemma_leads(seq![0x52u8, 0x49, 0x46, 0x46], head);
    lemma_leads(seq![0x46u8, 0x4f, 0x52, 0x4d], head);
    lemma_holds(head, 0, seq![0x52u8, 0x49, 0x46, 0x46]);
    lemma_holds(head, 0, seq![0x46u8, 0x4f, 0x52, 0x4d]);
    lemma_holds(head, 8, seq![0x57u8, 0x41, 0x56, 0x45]);
    lemma_holds(head, 8, seq![0x41u8, 0x49, 0x46, 0x46]);
    lemma_holds(head, 8, seq![0x41u8, 0x49, 0x46, 0x43]);
}

proof fn lemma_holds(head: Seq<u8>, at: int, bytes: Seq<u8>)
    requires
        0 <= at,
    ensures
        at <= head.len() && leads(bytes, head.skip(at)) ==> at + bytes.len() <= head.len() && head.subrange(
            at,
            at + bytes.len(),
        ) == bytes,
        leads(bytes, head) ==> leads(bytes, head.skip(0)),
{
    assert(head.skip(0) =~= head);
    if at <= head.len() && leads(bytes, head.skip(at)) {
        let tail = head.skip(at);
        assert forall|i: int| 0 <= i < bytes.len() implies head[at + i] == bytes[i] by {
            assert(tail[i] == bytes[i]);
        }
        assert(head.subrange(at, at + bytes.len()) =~= bytes);
    }
}

/// A drawing has its tag in it and a name, or a media type, that says so.
pub proof fn law_drawings_are_told(
    p: Seq<u8>,
    head: Seq<u8>,
    media: Option<(Seq<char>, Seq<char>, Seq<char>)>,
    image: bool,
)
    requires
        !leads(seq![0x25u8, 0x50, 0x44, 0x46, 0x2d], head),
        bytestr::contains(head, vstd::utf8::encode_utf8("<svg"@)),
    ensures
        (preview::ext_text_of(p) is Some && preview::ext_of(p)->0.len() == 3 && bytestr::lower(preview::ext_of(p)->0[0])
            as char == 's' && bytestr::lower(preview::ext_of(p)->0[1]) as char == 'v' && bytestr::lower(
            preview::ext_of(p)->0[2],
        ) as char == 'g') || (media matches Some(m) && m.2 == "image/svg+xml"@) <==> class::class_of(
            p,
            head,
            media,
            image,
        ) == Class::Svg,
{
    lemma_magics();
    lemma_leads(seq![0x25u8, 0x50, 0x44, 0x46, 0x2d], head);
    reveal_strlit("svg");
    let svg = seq![0x73u8, 0x76, 0x67];
    lemma_ascii_bytes("svg"@, svg);
    if let Some(e) = preview::ext_of(p) {
        if bytestr::same_ci(e, svg) {
            assert(bytestr::lower(e[0]) == bytestr::lower(svg[0]));
            assert(bytestr::lower(e[1]) == bytestr::lower(svg[1]));
            assert(bytestr::lower(e[2]) == bytestr::lower(svg[2]));
        }
        if e.len() == 3 && bytestr::lower(e[0]) == 0x73 && bytestr::lower(e[1]) == 0x76 && bytestr::lower(e[2]) == 0x67 {
            assert forall|i: int| 0 <= i < 3 implies bytestr::lower(#[trigger] e[i]) == bytestr::lower(svg[i]) by {
                assert(i == 0 || i == 1 || i == 2);
            }
            assert(bytestr::same_ci(e, svg));
        }
    }
}

/// The key of a rendered page is one hash over the path, the time and the size, byte by
/// byte: each byte is mixed in, and the whole multiplied.
pub proof fn law_key_is_one_hash(p: Seq<u8>, mtime: i64, size: u64)
    ensures
        card::key_text(p, mtime, size) == card::hex_text(
            card::mixed_all(14695981039346656037, p + card::low_bytes(mtime as u64, 8) + card::low_bytes(size, 8)),
            16,
        ),
        card::key_text(p, mtime, size).len() == 16,
{
    let (a, b) = (card::low_bytes(mtime as u64, 8), card::low_bytes(size, 8));
    lemma_mixed_concat(14695981039346656037, p, a);
    lemma_mixed_concat(14695981039346656037, p + a, b);
    law_hex_reads_back(card::mixed_all(14695981039346656037, p + a + b), 16);
}

proof fn lemma_mixed_concat(h: u64, a: Seq<u8>, b: Seq<u8>)
    ensures
        card::mixed_all(h, a + b) == card::mixed_all(card::mixed_all(h, a), b),
    decreases b.len(),
{
    if b.len() == 0 {
        assert(a + b =~= a);
    } else {
        assert((a + b).drop_last() =~= a + b.drop_last());
        lemma_mixed_concat(h, a, b.drop_last());
    }
}

/// One byte more is mixed in and multiplied, within 64 bits.
pub proof fn law_one_more_byte(h: u64, bytes: Seq<u8>, b: u8)
    ensures
        card::mixed_all(h, bytes.push(b)) as int == ((card::mixed_all(h, bytes) ^ (b as u64)) as int * 17592186044851)
            % 0x1_0000_0000_0000_0000,
{
    assert(bytes.push(b).drop_last() =~= bytes);
}

/// A number's bytes, the least significant first.
pub proof fn law_low_bytes(x: u64, k: nat)
    ensures
        card::low_bytes(x, k).len() == k,
        k > 0 ==> card::low_bytes(x, k)[0] == x % 256 && card::low_bytes(x, k).skip(1) == card::low_bytes(
            x / 256,
            (k - 1) as nat,
        ),
    decreases k,
{
    if k > 0 {
        law_low_bytes(x / 256, (k - 1) as nat);
        assert(card::low_bytes(x, k).skip(1) =~= card::low_bytes(x / 256, (k - 1) as nat));
    }
}

/// What is text: bytes without a NUL that decode, but for a character cut at the end.
pub proof fn law_texts_are_told(head: Seq<u8>, n: int)
    ensures
        head.len() == 0 ==> !preview::is_text(head),
        head.contains(0) ==> !preview::is_text(head),
        head.len() > 0 && !head.contains(0) && vstd::utf8::valid_utf8(head) ==> preview::is_text(head),
        outside::is_valid_up_to(head, n) && n < head.len() && head.len() > 0 && !head.contains(0) ==> (preview::is_text(head)
            <==> outside::is_cut_char(head.skip(n))),
{
    if outside::is_valid_up_to(head, n) && n < head.len() {
        assert(!vstd::utf8::valid_utf8(head)) by {
            assert(head.subrange(0, head.len() as int) =~= head);
            assert(!vstd::utf8::valid_utf8(head.subrange(0, head.len() as int)));
        }
        if preview::decodes(head) {
            let m = choose|m: int| #[trigger]
                outside::is_valid_up_to(head, m) && outside::is_cut_char(head.skip(m));
            preview::lemma_valid_up_to_once(head, n, m);
        }
    }
}

} // verus!
