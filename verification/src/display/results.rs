//! The results of a search, as the command line prints them.

use vstd::prelude::*;

use crate::model::Hit;
use crate::outside;
use crate::outside::{lossy_text, string_of};
use crate::preview;
use crate::preview::media_type_of_path;
use crate::text;
use crate::text::{chars_of, joined, number_text};

verus! {

// ---- JSON lines --------------------------------------------------------------------

/// A hexadecimal digit.
pub open spec fn hex_digit(n: nat) -> char {
    if n < 10 {
        ((48 + n) as u8) as char
    } else {
        ((87 + n) as u8) as char
    }
}

/// A character inside a JSON string.
pub open spec fn json_char(c: char) -> Seq<char> {
    if c == '"' || c == '\\' {
        seq!['\\', c]
    } else if c == '\n' {
        seq!['\\', 'n']
    } else if c == '\r' {
        seq!['\\', 'r']
    } else if c == '\t' {
        seq!['\\', 't']
    } else if (c as u32) < 0x20 {
        seq!['\\', 'u', '0', '0', hex_digit((c as nat) / 16), hex_digit((c as nat) % 16)]
    } else {
        seq![c]
    }
}

/// The characters of a JSON string.
pub open spec fn json_chars(s: Seq<char>) -> Seq<char>
    decreases s.len(),
{
    if s.len() == 0 {
        Seq::empty()
    } else {
        json_chars(s.drop_last()) + json_char(s.last())
    }
}

/// A JSON string.
pub open spec fn json_string(s: Seq<char>) -> Seq<char> {
    seq!['"'] + json_chars(s) + seq!['"']
}

/// A number in decimal digits, behind a minus where it is negative.
pub open spec fn signed_text(n: int) -> Seq<char> {
    if n < 0 {
        "-"@ + text::decimal_text((-n) as nat)
    } else {
        text::decimal_text(n as nat)
    }
}

/// A hit as a JSON object on one line. A path that is no text is shown lossily.
pub open spec fn json_text(hit: Hit) -> Seq<char> {
    "{\"path\":"@ + json_string(outside::lossy_text_of(hit.path@)) + ",\"size\":"@ + text::decimal_text(
        hit.size as nat,
    ) + ",\"modified\":"@ + signed_text(hit.mtime as int) + ",\"directory\":"@ + (if hit.is_dir {
        "true}"@
    } else {
        "false}"@
    })
}

fn hex_char(n: u32) -> (r: char)
    requires
        n < 16,
    ensures
        r == hex_digit(n as nat),
{
    if n < 10 {
        (48 + n as u8) as char
    } else {
        (87 + n as u8) as char
    }
}

/// Appends a character inside a JSON string.
fn push_json_char(out: &mut Vec<char>, c: char)
    ensures
        final(out)@ == old(out)@ + json_char(c),
{
    let ghost before = out@;
    if c == '"' || c == '\\' {
        out.push('\\');
        out.push(c);
    } else if c == '\n' {
        out.push('\\');
        out.push('n');
    } else if c == '\r' {
        out.push('\\');
        out.push('r');
    } else if c == '\t' {
        out.push('\\');
        out.push('t');
    } else if (c as u32) < 0x20 {
        let n: u32 = c as u32;
        out.push('\\');
        out.push('u');
        out.push('0');
        out.push('0');
        out.push(hex_char(n / 16));
        out.push(hex_char(n % 16));
    } else {
        out.push(c);
    }
    assert(out@ =~= before + json_char(c));
}

/// A text as a JSON string.
pub fn json_quoted(s: &str) -> (r: String)
    ensures
        r@ == json_string(s@),
{
    let chars: Vec<char> = chars_of(s);
    let n: usize = chars.len();
    let mut out: Vec<char> = Vec::new();
    out.push('"');
    let mut i: usize = 0;
    assert(chars@.take(0).len() == 0);
    assert(out@ =~= seq!['"'] + json_chars(chars@.take(0)));
    while i < n
        invariant
            n == chars@.len(),
            i <= n,
            out@ == seq!['"'] + json_chars(chars@.take(i as int)),
        decreases n - i,
    {
        let ghost next = chars@.take(i + 1);
        assert(next.drop_last() =~= chars@.take(i as int));
        assert(next.last() == chars@[i as int]);
        push_json_char(&mut out, chars[i]);
        assert(out@ =~= seq!['"'] + json_chars(next));
        i += 1;
    }
    assert(chars@.take(n as int) =~= chars@);
    out.push('"');
    assert(out@ =~= json_string(s@));
    string_of(out.as_slice())
}

/// A number in decimal digits, behind a minus where it is negative.
pub fn signed_number_text(n: i64) -> (r: String)
    ensures
        r@ == signed_text(n as int),
{
    if n < 0 {
        let size: u64 = (-(n + 1)) as u64 + 1;
        joined("-", number_text(size).as_str())
    } else {
        number_text(n as u64)
    }
}

/// A hit as a JSON object on one line.
pub fn json_line(hit: &Hit) -> (r: String)
    ensures
        r@ == json_text(*hit),
{
    let shown: String = lossy_text(hit.path.as_slice());
    let mut s: String = joined("{\"path\":", json_quoted(shown.as_str()).as_str());
    s = joined(s.as_str(), ",\"size\":");
    s = joined(s.as_str(), number_text(hit.size).as_str());
    s = joined(s.as_str(), ",\"modified\":");
    s = joined(s.as_str(), signed_number_text(hit.mtime).as_str());
    s = joined(s.as_str(), ",\"directory\":");
    if hit.is_dir {
        joined(s.as_str(), "true}")
    } else {
        joined(s.as_str(), "false}")
    }
}

// ---- plain lines -------------------------------------------------------------------

/// What a hit is: a directory, or the media type that its path tells.
pub open spec fn kind_text(hit: Hit) -> Seq<char> {
    if hit.is_dir {
        "inode/directory"@
    } else {
        match preview::path_media_type(hit.path@) {
            Some(m) => m.2,
            None => "application/octet-stream"@,
        }
    }
}

/// What a hit is.
pub fn kind_of(hit: &Hit) -> (r: String)
    ensures
        r@ == kind_text(*hit),
{
    if hit.is_dir {
        return "inode/directory".to_owned();
    }
    match media_type_of_path(hit.path.as_slice()) {
        Some(m) => m.2,
        None => "application/octet-stream".to_owned(),
    }
}

/// Spaces that fill a text up to a width.
pub open spec fn fill(s: Seq<char>, width: nat) -> Seq<char> {
    Seq::new(
        if s.len() < width {
            (width - s.len()) as nat
        } else {
            0
        },
        |i: int| ' ',
    )
}

fn filling(s: &str, width: usize) -> (r: String)
    ensures
        r@ == fill(s@, width as nat),
{
    let n: usize = chars_of(s).len();
    let mut out: Vec<char> = Vec::new();
    while out.len() < width && n < width - out.len()
        invariant
            n == s@.len(),
            out@.len() <= fill(s@, width as nat).len(),
            forall|i: int| 0 <= i < out@.len() ==> out@[i] == ' ',
        decreases width - out@.len(),
    {
        out.push(' ');
    }
    assert(out@ =~= fill(s@, width as nat));
    string_of(out.as_slice())
}

/// A hit as a line: what it is, its size, its time and its path, a slash behind a
/// directory's.
pub open spec fn hit_text(hit: Hit, size: Seq<char>) -> Seq<char> {
    let kind = kind_text(hit);
    let time = signed_text(hit.mtime as int);
    kind + fill(kind, 18) + " "@ + fill(size, 7) + size + "  "@ + fill(time, 10) + time + "  "@
        + outside::lossy_text_of(hit.path@) + (if hit.is_dir {
        "/"@
    } else {
        ""@
    })
}

/// A hit as a line; `size` is how its size is shown.
pub fn hit_line(hit: &Hit, size: &str) -> (r: String)
    ensures
        r@ == hit_text(*hit, size@),
{
    let kind: String = kind_of(hit);
    let time: String = signed_number_text(hit.mtime);
    let mut s: String = joined(kind.as_str(), filling(kind.as_str(), 18).as_str());
    s = joined(s.as_str(), " ");
    s = joined(s.as_str(), filling(size, 7).as_str());
    s = joined(s.as_str(), size);
    s = joined(s.as_str(), "  ");
    s = joined(s.as_str(), filling(time.as_str(), 10).as_str());
    s = joined(s.as_str(), time.as_str());
    s = joined(s.as_str(), "  ");
    s = joined(s.as_str(), lossy_text(hit.path.as_slice()).as_str());
    if hit.is_dir {
        joined(s.as_str(), "/")
    } else {
        joined(s.as_str(), "")
    }
}

// ---- one line ----------------------------------------------------------------------

/// No character of the text is a control character that ends a line.
pub open spec fn is_one_line(s: Seq<char>) -> bool {
    forall|i: int| 0 <= i < s.len() ==> (#[trigger] s[i]) as u32 >= 0x20
}

proof fn lemma_one_line_concat(a: Seq<char>, b: Seq<char>)
    requires
        is_one_line(a),
        is_one_line(b),
    ensures
        is_one_line(a + b),
{
}

proof fn lemma_json_char(c: char)
    ensures
        is_one_line(json_char(c)),
{
    let n = c as nat;
    if n < 0x20 {
        assert(n / 16 < 2 && n % 16 < 16);
        assert(hex_digit(n / 16) as u32 >= 0x20);
        assert(hex_digit(n % 16) as u32 >= 0x20);
    }
    let s = json_char(c);
    assert forall|i: int| 0 <= i < s.len() implies (#[trigger] s[i]) as u32 >= 0x20 by {
        assert(i == 0 || i == 1 || i == 2 || i == 3 || i == 4 || i == 5);
    }
}

proof fn lemma_json_chars(s: Seq<char>)
    ensures
        is_one_line(json_chars(s)),
    decreases s.len(),
{
    if s.len() > 0 {
        lemma_json_chars(s.drop_last());
        let c = s.last();
        lemma_json_char(c);
        lemma_one_line_concat(json_chars(s.drop_last()), json_char(c));
    }
}

proof fn lemma_decimal(n: nat)
    ensures
        is_one_line(text::decimal_text(n)),
    decreases n,
{
    if n >= 10 {
        lemma_decimal(n / 10);
    }
}

/// A hit is one line of JSON, whatever its path holds.
pub proof fn law_json_is_one_line(hit: Hit)
    ensures
        is_one_line(json_text(hit)),
{
    reveal_strlit("{\"path\":");
    reveal_strlit(",\"size\":");
    reveal_strlit(",\"modified\":");
    reveal_strlit(",\"directory\":");
    reveal_strlit("true}");
    reveal_strlit("false}");
    reveal_strlit("-");
    let p = outside::lossy_text_of(hit.path@);
    lemma_json_chars(p);
    lemma_decimal(hit.size as nat);
    let m = hit.mtime as int;
    lemma_decimal(if m < 0 {
        (-m) as nat
    } else {
        m as nat
    });
    assert(is_one_line(signed_text(m)));
    assert(is_one_line(json_string(p)));
}

} // verus!
