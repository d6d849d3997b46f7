//! What holds of the texts that are shown.

use vstd::prelude::*;

use crate::decimal;
use crate::decimal::exact;
use crate::display;
use crate::display::results;
use crate::model::Hit;
use crate::outside;
use crate::preview::{FileMeta, Preview};
use crate::text;
use crate::text::laws as splitting;
use crate::text::lines;

verus! {

// ---- first lines ------------------------------------------------------------------

/// The first of some lines, one in front, the others behind.
proof fn lemma_front(all: Seq<Seq<char>>, k: nat)
    requires
        1 < k <= all.len(),
    ensures
        display::with_ends(all, k) == all[0] + seq!['\n'] + display::with_ends(all.skip(1), (k - 1) as nat),
    decreases k,
{
    reveal_strlit("\n");
    assert("\n"@ =~= seq!['\n']);
    if k > 2 {
        let m = (k - 1) as nat;
        lemma_front(all, m);
        assert(all.skip(1)[m - 1] == all[k - 1]);
        assert(display::with_ends(all, k) =~= all[0] + seq!['\n'] + display::with_ends(all.skip(1), m));
    } else {
        assert(display::with_ends(all, 1) == all[0]);
        assert(display::with_ends(all.skip(1), 1) == all[1]);
    }
}

proof fn lemma_with_ends(all: Seq<Seq<char>>, k: nat)
    requires
        k <= all.len(),
    ensures
        display::with_ends(all, k) == splitting::joined_by(all.take(k as int), '\n'),
    decreases k,
{
    let some = all.take(k as int);
    if k > 1 {
        lemma_front(all, k);
        lemma_with_ends(all.skip(1), (k - 1) as nat);
        assert(all.skip(1).take(k - 1) =~= some.skip(1));
    }
}

/// Splitting what is shown at its line ends gives the first lines of the text back, as
/// many as there are or as the limit allows, each the same and in the same order.
pub proof fn law_first_lines_split_again(s: Seq<char>, max: nat, shown: Seq<char>)
    requires
        max > 0,
        s.len() > 0,
        shown == display::with_ends(
            lines::lines_of(s),
            if lines::lines_of(s).len() < max {
                lines::lines_of(s).len()
            } else {
                max
            },
        ),
    ensures
        lines::fields_of(shown, '\n').len() == (if lines::lines_of(s).len() < max {
            lines::lines_of(s).len()
        } else {
            max
        }),
        forall|k: int|
            0 <= k < lines::fields_of(shown, '\n').len() ==> #[trigger] lines::fields_of(shown, '\n')[k]
                == lines::lines_of(s)[k],
{
    let all = lines::lines_of(s);
    let m = if all.len() < max {
        all.len()
    } else {
        max
    };
    splitting::law_lines_hold_no_ends(s);
    lemma_with_ends(all, m);
    let some = all.take(m as int);
    assert forall|k: int, i: int| 0 <= k < some.len() && 0 <= i < some[k].len() implies #[trigger] some[k][i]
        != '\n' by {
        assert(all[k][i] != '\n');
    }
    splitting::law_fields_of_joined(some, '\n');
}

/// A text without carriage returns and without a final line end that has no more lines
/// than the limit is shown as it is, blank lines and all.
pub proof fn law_short_texts_are_shown_whole(s: Seq<char>, max: nat, shown: Seq<char>)
    requires
        lines::lines_of(s).len() <= max,
        !s.contains('\r'),
        s.len() == 0 || s.last() != '\n',
        shown == display::with_ends(lines::lines_of(s), lines::lines_of(s).len()),
    ensures
        shown == s,
{
    let all = lines::lines_of(s);
    lemma_with_ends(all, all.len());
    assert(all.take(all.len() as int) =~= all);
    if s.len() > 0 {
        splitting::law_lines_join_again(s);
    } else {
        assert(shown =~= s);
    }
}

/// Of lines that were put together with line ends between them, the first ones are shown
/// so again, the blank ones too.
pub proof fn law_first_rows_are_shown(rows: Seq<Seq<char>>, max: nat)
    requires
        rows.len() > 0,
        rows.last().len() > 0,
        splitting::none_holds(rows, '\n'),
        splitting::none_holds(rows, '\r'),
    ensures
        lines::lines_of(splitting::joined_by(rows, '\n')).len() == rows.len(),
        rows.len() <= max ==> display::with_ends(
            lines::lines_of(splitting::joined_by(rows, '\n')),
            rows.len(),
        ) == splitting::joined_by(rows, '\n'),
        rows.len() > max ==> display::with_ends(lines::lines_of(splitting::joined_by(rows, '\n')), max)
            == splitting::joined_by(rows.take(max as int), '\n'),
{
    splitting::law_lines_of_joined(rows);
    lemma_with_ends(
        rows,
        if rows.len() <= max {
            rows.len()
        } else {
            max
        },
    );
    assert(rows.take(rows.len() as int) =~= rows);
}

// ---- short texts ------------------------------------------------------------------

/// A cut text has no more characters than the limit; one that is short enough is shown
/// as it is, and of a longer one all but the last character are its own.
pub proof fn law_cut_texts(s: Seq<char>, n: nat)
    requires
        n > 0,
    ensures
        s.len() <= n ==> display::cut_text(s, n) == s,
        s.len() > n ==> {
            &&& display::cut_text(s, n).len() == n
            &&& display::cut_text(s, n).last() == '…'
            &&& forall|i: int| 0 <= i < n - 1 ==> #[trigger] display::cut_text(s, n)[i] == s[i]
        },
{
    reveal_strlit("…");
}

/// A time is shown in minutes, a colon and two digits of seconds; what lies between two
/// seconds does not show.
pub proof fn law_clock(minutes: nat, seconds: nat, rest: nat, micros: i64)
    requires
        seconds < 60,
        rest < 1_000_000,
        micros == (minutes * 60 + seconds) * 1_000_000 + rest,
    ensures
        ({
            let shown = display::clock_text(micros);
            let n = shown.len();
            &&& n >= 4
            &&& shown[n - 3] == ':'
            &&& decimal::is_digit(shown[n - 2]) && decimal::is_digit(shown[n - 1])
            &&& 10 * (shown[n - 2] as int - '0' as int) + (shown[n - 1] as int - '0' as int) == seconds
            &&& decimal::all_digits(shown.take(n - 3)) && decimal::digits_value(shown.take(n - 3)) == minutes
        }),
{
    reveal_strlit(":");
    reveal_strlit("0");
    let all = (micros / 1_000_000) as nat;
    assert(all == minutes * 60 + seconds);
    assert(all / 60 == minutes && all % 60 == seconds);
    exact::law_digits_read_back(minutes);
    let m = text::decimal_text(minutes);
    let s = display::two_digits(seconds);
    lemma_two_digits(seconds);
    let shown = display::clock_text(micros);
    assert(shown == m + ":"@ + s);
    assert(shown.take(shown.len() - 3) =~= m);
    assert(shown[shown.len() - 2] == s[0] && shown[shown.len() - 1] == s[1]);
}

/// No time is shown before the start.
pub proof fn law_clock_starts_at_zero(micros: i64)
    requires
        micros < 0,
    ensures
        display::clock_text(micros) == display::clock_text(0),
{
}

proof fn lemma_two_digits(n: nat)
    requires
        n < 60,
    ensures
        display::two_digits(n).len() == 2,
        decimal::is_digit(display::two_digits(n)[0]),
        decimal::is_digit(display::two_digits(n)[1]),
        10 * (display::two_digits(n)[0] as int - '0' as int) + (display::two_digits(n)[1] as int - '0' as int) == n,
{
    reveal_strlit("0");
    reveal_with_fuel(text::decimal_text, 2);
    let s = text::decimal_text(n);
    if n < 10 {
        assert(s.len() == 1 && s[0] as int == 48 + n);
    } else {
        assert(s.len() == 2);
        assert(s[1] as int == 48 + n % 10);
        assert(s[0] as int == 48 + n / 10);
    }
}

/// The number that octal digits write.
pub open spec fn octal_value(s: Seq<char>) -> nat
    decreases s.len(),
{
    if s.len() == 0 {
        0
    } else {
        (octal_value(s.drop_last()) * 8 + (s.last() as int - '0' as int)) as nat
    }
}

/// Octal digits are digits below eight, and are read back as the number.
pub proof fn law_octal_reads_back(n: nat)
    ensures
        octal_value(display::octal_text(n)) == n,
        display::octal_text(n).len() > 0,
        forall|i: int| 0 <= i < display::octal_text(n).len() ==> '0' <= #[trigger] display::octal_text(n)[i] <= '7',
    decreases n,
{
    let s = display::octal_text(n);
    let last = ((48 + n % 8) as u8) as char;
    assert(s.last() == last);
    assert(last as int == 48 + n % 8);
    if n < 8 {
        assert(s.drop_last() =~= Seq::empty());
        assert(octal_value(s.drop_last()) == 0);
    } else {
        law_octal_reads_back(n / 8);
        assert(s.drop_last() =~= display::octal_text(n / 8));
        assert forall|i: int| 0 <= i < s.len() implies '0' <= #[trigger] s[i] <= '7' by {
            if i < s.len() - 1 {
                assert(s[i] == display::octal_text(n / 8)[i]);
            }
        }
    }
}

/// The text of a preview is shown whole, and first; a mark follows exactly where it was
/// truncated. An error is told.
pub proof fn law_preview_texts(p: Preview)
    ensures
        match p {
            Preview::Text { content, truncated, .. } => {
                &&& content@.len() <= display::body_text(p).len()
                &&& display::body_text(p).take(content@.len() as int) == content@
                &&& display::body_text(p).len() == content@.len() <==> !truncated
            },
            Preview::Pdf { text, .. } => text@.len() <= display::body_text(p).len() && display::body_text(p).skip(
                display::body_text(p).len() - text@.len(),
            ) == text@,
            Preview::Error(e) => e@.len() < display::body_text(p).len() && display::body_text(p).skip(
                display::body_text(p).len() - e@.len(),
            ) == e@,
            Preview::Image { .. } => display::body_text(p).len() == 0,
            Preview::Audio { .. } => display::body_text(p).len() == 0,
            Preview::Meta(m) => display::body_text(p).take(m.kind@.len() as int) == m.kind@ && ({
                let path = outside::lossy_text_of(m.path@);
                path.len() <= display::body_text(p).len() && display::body_text(p).skip(
                    display::body_text(p).len() - path.len(),
                ) == path
            }),
        },
{
    reveal_strlit("\n… preview truncated");
    reveal_strlit("Preview unavailable\n");
    let b = display::body_text(p);
    match p {
        Preview::Text { content, truncated, .. } => {
            assert(b.take(content@.len() as int) =~= content@);
        },
        Preview::Pdf { text, pages, .. } => {
            assert(b.skip(b.len() - text@.len()) =~= text@);
        },
        Preview::Error(e) => {
            assert(b.skip(b.len() - e@.len()) =~= e@);
        },
        Preview::Meta(m) => {
            let path = outside::lossy_text_of(m.path@);
            assert(b.take(m.kind@.len() as int) =~= m.kind@);
            assert(b.skip(b.len() - path.len()) =~= path);
        },
        _ => {},
    }
}

// ---- JSON -------------------------------------------------------------------------

/// The value of a hexadecimal digit in small letters.
pub open spec fn hex_value(c: char) -> int {
    if '0' <= c <= '9' {
        c as int - '0' as int
    } else {
        c as int - 'a' as int + 10
    }
}

/// Reads the characters inside a JSON string: a backslash and what follows it stand for
/// one character, and every other character for itself.
pub open spec fn json_read(s: Seq<char>) -> Seq<char>
    decreases s.len(),
{
    if s.len() == 0 {
        Seq::empty()
    } else if s[0] != '\\' || s.len() < 2 {
        seq![s[0]] + json_read(s.skip(1))
    } else if s[1] == 'u' && s.len() >= 6 {
        seq![(4096 * hex_value(s[2]) + 256 * hex_value(s[3]) + 16 * hex_value(s[4]) + hex_value(s[5])) as char]
            + json_read(s.skip(6))
    } else if s[1] == 'n' {
        seq!['\n'] + json_read(s.skip(2))
    } else if s[1] == 'r' {
        seq!['\r'] + json_read(s.skip(2))
    } else if s[1] == 't' {
        seq!['\t'] + json_read(s.skip(2))
    } else {
        seq![s[1]] + json_read(s.skip(2))
    }
}

proof fn lemma_json_char_reads(c: char, tail: Seq<char>)
    ensures
        json_read(results::json_char(c) + tail) == seq![c] + json_read(tail),
{
    let j = results::json_char(c);
    let all = j + tail;
    assert(all.skip(j.len() as int) =~= tail);
    let n = c as nat;
    if c != '"' && c != '\\' && c != '\n' && c != '\r' && c != '\t' && n < 0x20 {
        let (h, l) = (n / 16, n % 16);
        assert(n == 16 * h + l && h < 2 && l < 16);
        assert(hex_value(results::hex_digit(h)) == h);
        assert(hex_value(results::hex_digit(l)) == l);
        assert(all[0] == '\\' && all[1] == 'u' && all[2] == '0' && all[3] == '0');
        assert(all[4] == results::hex_digit(h) && all[5] == results::hex_digit(l));
    } else if j.len() == 2 {
        assert(all[0] == '\\' && all[1] == j[1]);
    } else {
        assert(all[0] == c);
    }
}

proof fn lemma_json_chars_read(s: Seq<char>, tail: Seq<char>)
    ensures
        json_read(results::json_chars(s) + tail) == s + json_read(tail),
    decreases s.len(),
{
    if s.len() == 0 {
        assert(results::json_chars(s) + tail =~= tail);
        assert(s + json_read(tail) =~= json_read(tail));
    } else {
        let last = results::json_char(s.last());
        lemma_json_char_reads(s.last(), tail);
        lemma_json_chars_read(s.drop_last(), last + tail);
        assert(results::json_chars(s) + tail =~= results::json_chars(s.drop_last()) + (last + tail));
        assert(s.drop_last() + (seq![s.last()] + json_read(tail)) =~= s + json_read(tail));
    }
}

/// A JSON string reads back as the text it was made of, and no quote stands bare in it:
/// every quote inside has a backslash before it.
pub proof fn law_json_strings_read_back(s: Seq<char>)
    ensures
        results::json_string(s).len() >= 2,
        results::json_string(s)[0] == '"',
        results::json_string(s).last() == '"',
        json_read(results::json_string(s).subrange(1, results::json_string(s).len() - 1)) == s,
        forall|i: int|
            1 <= i < results::json_string(s).len() - 1 && #[trigger] results::json_string(s)[i] == '"'
                ==> results::json_string(s)[i - 1] == '\\',
{
    let inside = results::json_chars(s);
    let all = results::json_string(s);
    assert(all.subrange(1, all.len() - 1) =~= inside);
    lemma_json_chars_read(s, Seq::empty());
    assert(inside + Seq::empty() =~= inside);
    assert(s + json_read(Seq::empty()) =~= s);
    lemma_quotes(s);
    assert forall|i: int| 1 <= i < all.len() - 1 && #[trigger] all[i] == '"' implies all[i - 1] == '\\' by {
        assert(inside[i - 1] == '"');
        assert(i - 1 >= 1 && inside[i - 2] == '\\');
        assert(all[i - 1] == inside[i - 2]);
    }
}

proof fn lemma_quote_in_char(c: char, k: int)
    requires
        0 <= k < results::json_char(c).len(),
        results::json_char(c)[k] == '"',
    ensures
        k == 1,
        results::json_char(c)[0] == '\\',
{
    let j = results::json_char(c);
    let n = c as nat;
    if c == '"' || c == '\\' || c == '\n' || c == '\r' || c == '\t' {
        assert(j.len() == 2 && j[0] == '\\');
    } else if n < 0x20 {
        assert(n / 16 < 2 && n % 16 < 16);
        assert(results::hex_digit(n / 16) != '"');
        assert(results::hex_digit(n % 16) != '"');
        assert(j[0] == '\\' && j[1] == 'u' && j[2] == '0' && j[3] == '0');
        assert(k == 0 || k == 1 || k == 2 || k == 3 || k == 4 || k == 5);
    } else {
        assert(j.len() == 1 && j[0] == c);
    }
}

proof fn lemma_quotes(s: Seq<char>)
    ensures
        forall|i: int|
            0 <= i < results::json_chars(s).len() && #[trigger] results::json_chars(s)[i] == '"' ==> i >= 1
                && results::json_chars(s)[i - 1] == '\\',
    decreases s.len(),
{
    if s.len() > 0 {
        lemma_quotes(s.drop_last());
        let front = results::json_chars(s.drop_last());
        let j = results::json_char(s.last());
        let all = results::json_chars(s);
        assert forall|i: int| 0 <= i < all.len() && #[trigger] all[i] == '"' implies i >= 1 && all[i - 1] == '\\' by {
            if i < front.len() {
                assert(front[i] == '"');
                assert(all[i - 1] == front[i - 1]);
            } else {
                let k = i - front.len();
                assert(j[k] == '"');
                lemma_quote_in_char(s.last(), k);
                assert(all[i - 1] == j[k - 1]);
            }
        }
    }
}

/// A signed number is a minus where it is negative and the digits of its size.
pub proof fn law_signed_numbers_read_back(n: int)
    ensures
        n >= 0 ==> decimal::all_digits(results::signed_text(n)) && decimal::digits_value(results::signed_text(n)) == n,
        n < 0 ==> results::signed_text(n)[0] == '-' && decimal::all_digits(results::signed_text(n).skip(1))
            && decimal::digits_value(results::signed_text(n).skip(1)) == -n,
{
    reveal_strlit("-");
    let size = if n < 0 {
        (-n) as nat
    } else {
        n as nat
    };
    exact::law_digits_read_back(size);
    if n < 0 {
        assert(results::signed_text(n).skip(1) =~= text::decimal_text(size));
    }
}

/// The JSON of a hit tells its path, its size, its time and whether it is a directory,
/// in this order, and each can be told from what comes before and behind it.
pub proof fn law_json_tells_the_hit(hit: Hit) -> (parts: (Seq<char>, Seq<char>, Seq<char>))
    ensures
        results::json_text(hit) == "{\"path\":"@ + parts.0 + ",\"size\":"@ + parts.1 + ",\"modified\":"@ + parts.2
            + ",\"directory\":"@ + (if hit.is_dir {
            "true}"@
        } else {
            "false}"@
        }),
        parts.0.len() >= 2,
        json_read(parts.0.subrange(1, parts.0.len() - 1)) == outside::lossy_text_of(hit.path@),
        decimal::all_digits(parts.1),
        decimal::digits_value(parts.1) == hit.size,
        hit.mtime >= 0 ==> decimal::all_digits(parts.2) && decimal::digits_value(parts.2) == hit.mtime,
        hit.mtime < 0 ==> parts.2[0] == '-' && decimal::all_digits(parts.2.skip(1)) && decimal::digits_value(
            parts.2.skip(1),
        ) == -(hit.mtime as int),
{
    law_json_strings_read_back(outside::lossy_text_of(hit.path@));
    law_signed_numbers_read_back(hit.mtime as int);
    exact::law_digits_read_back(hit.size as nat);
    (
        results::json_string(outside::lossy_text_of(hit.path@)),
        text::decimal_text(hit.size as nat),
        results::signed_text(hit.mtime as int),
    )
}

/// The columns of a line: the kind from the left edge on, the size up to column 26, the
/// time up to column 38, and from column 40 on the path, with a slash behind it exactly
/// for a directory; only spaces between them.
pub proof fn law_columns(hit: Hit, size: Seq<char>, kind: Seq<char>, time: Seq<char>)
    requires
        kind == results::kind_text(hit),
        time == results::signed_text(hit.mtime as int),
        kind.len() <= 18,
        size.len() <= 7,
        time.len() <= 10,
    ensures
        ({
            let line = results::hit_text(hit, size);
            let path = outside::lossy_text_of(hit.path@);
            &&& line.len() >= 40 + path.len()
            &&& line.subrange(0, kind.len() as int) == kind
            &&& line.subrange(26 - size.len(), 26) == size
            &&& line.subrange(38 - time.len(), 38) == time
            &&& line.subrange(40, 40 + path.len() as int) == path
            &&& forall|i: int|
                kind.len() <= i < 26 - size.len() || 26 <= i < 38 - time.len() || 38 <= i < 40 ==> #[trigger] line[i]
                    == ' '
            &&& if hit.is_dir {
                line.len() == 41 + path.len() && line.last() == '/'
            } else {
                line.len() == 40 + path.len()
            }
        }),
{
    reveal_strlit(" ");
    reveal_strlit("  ");
    reveal_strlit("/");
    reveal_strlit("");
    let line = results::hit_text(hit, size);
    let path = outside::lossy_text_of(hit.path@);
    let (f, g, h) = (results::fill(kind, 18), results::fill(size, 7), results::fill(time, 10));
    assert(f.len() == 18 - kind.len() && g.len() == 7 - size.len() && h.len() == 10 - time.len());
    assert(line.subrange(0, kind.len() as int) =~= kind);
    assert(line.subrange(26 - size.len(), 26) =~= size);
    assert(line.subrange(38 - time.len(), 38) =~= time);
    assert(line.subrange(40, 40 + path.len() as int) =~= path);
}

/// A directory is a directory whatever its path looks like; anything else is what its
/// path tells, or any bytes.
pub proof fn law_kinds(hit: Hit)
    ensures
        hit.is_dir ==> results::kind_text(hit) == "inode/directory"@,
        !hit.is_dir ==> results::kind_text(hit) == (match crate::preview::path_media_type(hit.path@) {
            Some(m) => m.2,
            None => "application/octet-stream"@,
        }),
{
}

// ---- memory -----------------------------------------------------------------------

/// The peak is read from the first line of the status that begins with its label: blanks,
/// a number of kibibytes, and a blank and a unit behind it.
pub proof fn law_peak_is_read(all: Seq<Seq<char>>, k: int, blanks: Seq<char>, number: Seq<char>, i: int)
    requires
        0 <= i <= k < all.len(),
        all[k] == "VmHWM:"@ + blanks + number + " kB"@,
        blanks.len() > 0,
        forall|j: int| 0 <= j < blanks.len() ==> #[trigger] blanks[j] == ' ' || blanks[j] == '\t',
        number.len() > 0,
        decimal::all_digits(number),
        decimal::digits_value(number) * 1024 <= u64::MAX,
        forall|j: int| 0 <= j < k ==> !text::begins(#[trigger] all[j], "VmHWM:"@),
    ensures
        display::peak_from(all, i) == Some((decimal::digits_value(number) * 1024) as nat),
    decreases k - i,
{
    if i < k {
        law_peak_is_read(all, k, blanks, number, i + 1);
    } else {
        let label = "VmHWM:"@;
        let unit = " kB"@;
        let line = all[k];
        reveal_strlit("VmHWM:");
        reveal_strlit(" kB");
        assert(line.subrange(0, 6) =~= label);
        assert(text::begins(line, label));
        assert(line[0] == 'V');
        assert(text::trim_start(line) == line);
        assert(line =~= label + (blanks + number + unit));
        lemma_word_len(label, blanks + number + unit);
        assert(line.skip(6) =~= blanks + (number + unit));
        lemma_blanks(blanks, number + unit);
        lemma_word_len(number, unit);
        assert((number + unit).subrange(0, number.len() as int) =~= number);
        assert(display::second_word(line) == Some(number));
        assert(decimal::is_digit(number[0]));
    }
}

proof fn lemma_word_len(word: Seq<char>, tail: Seq<char>)
    requires
        forall|j: int| 0 <= j < word.len() ==> !text::is_white(#[trigger] word[j]),
        tail.len() > 0,
        text::is_white(tail[0]),
    ensures
        display::word_len(word + tail) == word.len(),
    decreases word.len(),
{
    let all = word + tail;
    if word.len() > 0 {
        assert(all[0] == word[0]);
        assert(all.skip(1) =~= word.skip(1) + tail);
        lemma_word_len(word.skip(1), tail);
    } else {
        assert(all =~= tail);
    }
}

proof fn lemma_blanks(blanks: Seq<char>, tail: Seq<char>)
    requires
        forall|j: int| 0 <= j < blanks.len() ==> text::is_white(#[trigger] blanks[j]),
        tail.len() > 0,
        !text::is_white(tail[0]),
    ensures
        text::trim_start(blanks + tail) == tail,
    decreases blanks.len(),
{
    let all = blanks + tail;
    if blanks.len() > 0 {
        assert(all[0] == blanks[0]);
        assert(all.skip(1) =~= blanks.skip(1) + tail);
        lemma_blanks(blanks.skip(1), tail);
    } else {
        assert(all =~= tail);
    }
}

/// No line shown is nothing shown.
pub proof fn law_no_lines(all: Seq<Seq<char>>)
    ensures
        display::with_ends(all, 0).len() == 0,
{
}

/// A card tells the kind, the size in bytes, the mode in octal digits, the owner and the
/// path, in this order.
pub proof fn law_card_texts(m: FileMeta) -> (parts: (Seq<char>, Seq<char>))
    ensures
        display::card_text(m) == m.kind@ + "\n\n"@ + parts.0 + " bytes · mode "@ + parts.1 + " · owner "@ + m.owner@
            + "\n"@ + outside::lossy_text_of(m.path@),
        decimal::all_digits(parts.0) && decimal::digits_value(parts.0) == m.size,
        octal_value(parts.1) == m.mode % 4096,
{
    let mode = m.mode;
    assert(mode & 0o7777 == mode % 4096) by (bit_vector);
    exact::law_digits_read_back(m.size as nat);
    law_octal_reads_back((m.mode & 0o7777) as nat);
    (text::decimal_text(m.size as nat), display::octal_text((m.mode & 0o7777) as nat))
}

/// A PDF is told by its number of pages, before its text.
pub proof fn law_pdf_texts(page_png: Vec<u8>, content: String, pages: usize) -> (digits: Seq<char>)
    ensures
        display::body_text(Preview::Pdf { page_png, text: content, pages }) == "PDF · "@ + digits + " pages\n\n"@
            + content@,
        decimal::all_digits(digits) && decimal::digits_value(digits) == pages,
{
    exact::law_digits_read_back(pages as nat);
    text::decimal_text(pages as nat)
}

} // verus!
