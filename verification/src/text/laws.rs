//! What holds of lines and fields, told over whole texts.

use vstd::prelude::*;

use crate::decimal;
use crate::text;
use crate::text::lines;

verus! {

/// The rows with a separator between each two.
pub open spec fn joined_by(rows: Seq<Seq<char>>, separator: char) -> Seq<char>
    decreases rows.len(),
{
    if rows.len() == 0 {
        Seq::empty()
    } else if rows.len() == 1 {
        rows[0]
    } else {
        rows[0] + seq![separator] + joined_by(rows.skip(1), separator)
    }
}

/// No row holds the character.
pub open spec fn none_holds(rows: Seq<Seq<char>>, c: char) -> bool {
    forall|k: int, i: int| 0 <= k < rows.len() && 0 <= i < rows[k].len() ==> #[trigger] rows[k][i] != c
}

pub(crate) proof fn lemma_first_at(s: Seq<char>, c: char, at: int)
    requires
        0 <= at <= s.len(),
        at < s.len() ==> s[at] == c,
        forall|i: int| 0 <= i < at ==> s[i] != c,
    ensures
        text::first_at(s, c) == at,
    decreases s.len(),
{
    if at > 0 {
        assert(s[0] != c);
        lemma_first_at(s.skip(1), c, at - 1);
    }
}

pub(crate) proof fn lemma_first_at_found(s: Seq<char>, c: char)
    ensures
        0 <= text::first_at(s, c) <= s.len(),
        text::first_at(s, c) < s.len() ==> s[text::first_at(s, c)] == c,
        forall|i: int| 0 <= i < text::first_at(s, c) ==> s[i] != c,
    decreases s.len(),
{
    if s.len() > 0 && s[0] != c {
        lemma_first_at_found(s.skip(1), c);
        assert forall|i: int| 0 <= i < text::first_at(s, c) implies s[i] != c by {
            if i > 0 {
                assert(s.skip(1)[i - 1] != c);
            }
        }
    }
}

/// A character is found at its first place, or at the end where it does not occur.
pub proof fn law_first_place(s: Seq<char>, c: char)
    ensures
        0 <= text::first_at(s, c) <= s.len(),
        text::first_at(s, c) < s.len() ==> s[text::first_at(s, c)] == c,
        forall|i: int| 0 <= i < text::first_at(s, c) ==> s[i] != c,
{
    lemma_first_at_found(s, c);
}

/// Rows without the separator, joined by it, are the fields of what comes out.
pub proof fn law_fields_of_joined(rows: Seq<Seq<char>>, separator: char)
    requires
        rows.len() > 0,
        none_holds(rows, separator),
    ensures
        lines::fields_of(joined_by(rows, separator), separator) == rows,
    decreases rows.len(),
{
    let s = joined_by(rows, separator);
    let first = rows[0];
    assert forall|i: int| 0 <= i < first.len() implies first[i] != separator by {
        assert(rows[0][i] != separator);
    }
    if rows.len() == 1 {
        lemma_first_at(s, separator, s.len() as int);
        assert(rows =~= seq![s]);
    } else {
        let rest = rows.skip(1);
        assert forall|k: int, i: int| 0 <= k < rest.len() && 0 <= i < rest[k].len() implies #[trigger] rest[k][i]
            != separator by {
            assert(rows[k + 1][i] != separator);
        }
        law_fields_of_joined(rest, separator);
        assert forall|i: int| 0 <= i < first.len() implies s[i] != separator by {
            assert(s[i] == first[i]);
        }
        assert(s[first.len() as int] == separator);
        lemma_first_at(s, separator, first.len() as int);
        assert(s.subrange(0, first.len() as int) =~= first);
        assert(s.skip(first.len() as int + 1) =~= joined_by(rest, separator));
        assert(rows =~= seq![first] + rest);
    }
}

/// The fields of a text hold no separator, and joined by it they are the text.
pub proof fn law_fields_join_again(s: Seq<char>, separator: char)
    ensures
        lines::fields_of(s, separator).len() > 0,
        none_holds(lines::fields_of(s, separator), separator),
        joined_by(lines::fields_of(s, separator), separator) == s,
    decreases s.len(),
{
    lemma_first_at_found(s, separator);
    let at = text::first_at(s, separator);
    let fields = lines::fields_of(s, separator);
    if at < s.len() {
        let rest = lines::fields_of(s.skip(at + 1), separator);
        law_fields_join_again(s.skip(at + 1), separator);
        assert(fields.skip(1) =~= rest);
        assert(fields[0] == s.subrange(0, at));
        assert forall|k: int, i: int| 0 <= k < fields.len() && 0 <= i < fields[k].len() implies #[trigger] fields[k][i]
            != separator by {
            if k > 0 {
                assert(fields[k] == rest[k - 1]);
                assert(rest[k - 1][i] != separator);
            }
        }
        assert(fields[0] + seq![separator] + s.skip(at + 1) =~= s);
    }
}

// ---- lines ----------------------------------------------------------------------

/// Lines without line ends in them, none of which ends in a carriage return, are the
/// lines of the text that has a line end behind each of them; with or without a carriage
/// return before it.
pub proof fn law_lines_of_ended(rows: Seq<Seq<char>>, end: Seq<char>)
    requires
        none_holds(rows, '\n'),
        none_holds(rows, '\r'),
        end == seq!['\n'] || end == seq!['\r', '\n'],
    ensures
        lines::lines_of(each_ended(rows, end)) == rows,
    decreases rows.len(),
{
    let s = each_ended(rows, end);
    if rows.len() > 0 {
        let first = rows[0];
        let rest = rows.skip(1);
        assert forall|k: int, i: int| 0 <= k < rest.len() && 0 <= i < rest[k].len() implies #[trigger] rest[k][i]
            != '\n' by {
            assert(rows[k + 1][i] != '\n');
        }
        assert forall|k: int, i: int| 0 <= k < rest.len() && 0 <= i < rest[k].len() implies #[trigger] rest[k][i]
            != '\r' by {
            assert(rows[k + 1][i] != '\r');
        }
        law_lines_of_ended(rest, end);
        let at = first.len() as int + end.len() - 1;
        assert forall|i: int| 0 <= i < at implies s[i] != '\n' by {
            if i < first.len() {
                assert(s[i] == first[i]);
                assert(rows[0][i] != '\n');
            }
        }
        assert(s[at] == '\n');
        lemma_first_at(s, '\n', at);
        let line = s.subrange(0, at);
        assert(s.skip(at + 1) =~= each_ended(rest, end));
        if end.len() == 1 {
            assert(line =~= first);
            if first.len() > 0 {
                assert(rows[0][first.len() - 1] != '\r');
            }
        } else {
            assert(line.drop_last() =~= first);
            assert(line.last() == '\r');
        }
        assert(lines::without_return(line) == first);
        assert(rows =~= seq![first] + rest);
    } else {
        assert(rows =~= Seq::empty());
    }
}

/// The rows, each followed by `end`.
pub open spec fn each_ended(rows: Seq<Seq<char>>, end: Seq<char>) -> Seq<char>
    decreases rows.len(),
{
    if rows.len() == 0 {
        Seq::empty()
    } else {
        rows[0] + end + each_ended(rows.skip(1), end)
    }
}

/// The end of the last line is optional: lines with line ends between them, the last of
/// which is not empty, are the lines of what comes out.
pub proof fn law_lines_of_joined(rows: Seq<Seq<char>>)
    requires
        rows.len() > 0,
        rows.last().len() > 0,
        none_holds(rows, '\n'),
        none_holds(rows, '\r'),
    ensures
        lines::lines_of(joined_by(rows, '\n')) == rows,
    decreases rows.len(),
{
    let s = joined_by(rows, '\n');
    let first = rows[0];
    assert forall|i: int| 0 <= i < first.len() implies first[i] != '\n' by {
        assert(rows[0][i] != '\n');
    }
    if rows.len() == 1 {
        lemma_first_at(s, '\n', s.len() as int);
        assert(rows =~= seq![s]);
    } else {
        let rest = rows.skip(1);
        assert forall|k: int, i: int| 0 <= k < rest.len() && 0 <= i < rest[k].len() implies #[trigger] rest[k][i]
            != '\n' by {
            assert(rows[k + 1][i] != '\n');
        }
        assert forall|k: int, i: int| 0 <= k < rest.len() && 0 <= i < rest[k].len() implies #[trigger] rest[k][i]
            != '\r' by {
            assert(rows[k + 1][i] != '\r');
        }
        assert(rest.last() == rows.last());
        law_lines_of_joined(rest);
        assert forall|i: int| 0 <= i < first.len() implies s[i] != '\n' by {
            assert(s[i] == first[i]);
        }
        assert(s[first.len() as int] == '\n');
        lemma_first_at(s, '\n', first.len() as int);
        assert(s.subrange(0, first.len() as int) =~= first);
        assert(s.skip(first.len() as int + 1) =~= joined_by(rest, '\n'));
        if first.len() > 0 {
            assert(rows[0][first.len() - 1] != '\r');
        }
        assert(rows =~= seq![first] + rest);
    }
}

/// No line holds a line end.
pub proof fn law_lines_hold_no_ends(s: Seq<char>)
    ensures
        none_holds(lines::lines_of(s), '\n'),
        s.len() > 0 ==> lines::lines_of(s).len() > 0,
    decreases s.len(),
{
    lemma_first_at_found(s, '\n');
    let all = lines::lines_of(s);
    if s.len() > 0 {
        let at = text::first_at(s, '\n');
        if at < s.len() {
            let rest = lines::lines_of(s.skip(at + 1));
            law_lines_hold_no_ends(s.skip(at + 1));
            assert forall|k: int, i: int| 0 <= k < all.len() && 0 <= i < all[k].len() implies #[trigger] all[k][i]
                != '\n' by {
                if k == 0 {
                    assert(all[0] == lines::without_return(s.subrange(0, at)));
                    assert(all[0][i] == s[i]);
                } else {
                    assert(all[k] == rest[k - 1]);
                    assert(rest[k - 1][i] != '\n');
                }
            }
        } else {
            assert(all[0] == s);
        }
    }
}

/// A text without carriage returns and without a final line end is its lines with line
/// ends between them.
pub proof fn law_lines_join_again(s: Seq<char>)
    requires
        !s.contains('\r'),
        s.len() > 0,
        s.last() != '\n',
    ensures
        joined_by(lines::lines_of(s), '\n') == s,
    decreases s.len(),
{
    lemma_first_at_found(s, '\n');
    let at = text::first_at(s, '\n');
    let all = lines::lines_of(s);
    if at < s.len() {
        let tail = s.skip(at + 1);
        assert(tail.last() == s.last());
        assert(!tail.contains('\r')) by {
            if tail.contains('\r') {
                let k = choose|k: int| 0 <= k < tail.len() && tail[k] == '\r';
                assert(s[k + at + 1] == '\r');
            }
        }
        law_lines_join_again(tail);
        law_lines_hold_no_ends(tail);
        let front = s.subrange(0, at);
        if front.len() > 0 {
            assert(s[at - 1] == front.last());
            assert(s.contains(s[at - 1]));
        }
        assert(lines::without_return(front) == front);
        assert(all.skip(1) =~= lines::lines_of(tail));
        assert(front + seq!['\n'] + tail =~= s);
    }
}

// ---- bytes ----------------------------------------------------------------------

proof fn lemma_encode_push(s: Seq<char>, c: char)
    ensures
        vstd::utf8::encode_utf8(s.push(c)) == vstd::utf8::encode_utf8(s) + vstd::utf8::encode_scalar(c as u32),
    decreases s.len(),
{
    let all = s.push(c);
    let own = vstd::utf8::encode_scalar(c as u32);
    if s.len() == 0 {
        assert(all.drop_first() =~= Seq::empty());
        assert(vstd::utf8::encode_utf8(all.drop_first()) =~= Seq::empty());
        assert(all[0] == c);
        assert(vstd::utf8::encode_utf8(all) =~= own);
        assert(vstd::utf8::encode_utf8(s) + own =~= own);
    } else {
        lemma_encode_push(s.drop_first(), c);
        assert(all.drop_first() =~= s.drop_first().push(c));
        assert(all[0] == s[0]);
        let first = vstd::utf8::encode_scalar(s[0] as u32);
        let rest = vstd::utf8::encode_utf8(s.drop_first());
        assert(first + (rest + own) =~= (first + rest) + own);
    }
}

proof fn lemma_width(c: char)
    ensures
        vstd::utf8::encode_scalar(c as u32).len() == lines::width(c),
{
    vstd::utf8::char_is_scalar(c);
}

/// The bytes that a text takes are those that encode it.
pub proof fn law_text_takes_its_bytes(s: Seq<char>)
    ensures
        lines::byte_len(s) == vstd::utf8::encode_utf8(s).len(),
    decreases s.len(),
{
    if s.len() > 0 {
        law_text_takes_its_bytes(s.drop_last());
        lemma_encode_push(s.drop_last(), s.last());
        assert(s.drop_last().push(s.last()) =~= s);
        lemma_width(s.last());
    }
}

/// A part of a text takes no more bytes than the text.
pub(crate) proof fn lemma_part_takes_less(s: Seq<char>, k: int)
    requires
        0 <= k <= s.len(),
    ensures
        lines::byte_len(s.subrange(0, k)) <= lines::byte_len(s),
    decreases s.len(),
{
    if k == s.len() {
        assert(s.subrange(0, k) =~= s);
    } else {
        lemma_part_takes_less(s.drop_last(), k);
        assert(s.drop_last().subrange(0, k) =~= s.subrange(0, k));
    }
}

/// The number of times a character occurs.
pub open spec fn occurrences(s: Seq<char>, c: char) -> nat
    decreases s.len(),
{
    if s.len() == 0 {
        0
    } else {
        occurrences(s.drop_last(), c) + (if s.last() == c {
            1nat
        } else {
            0nat
        })
    }
}

proof fn lemma_occurrences(a: Seq<char>, b: Seq<char>, c: char)
    ensures
        occurrences(a + b, c) == occurrences(a, c) + occurrences(b, c),
    decreases b.len(),
{
    if b.len() == 0 {
        assert(a + b =~= a);
    } else {
        assert((a + b).drop_last() =~= a + b.drop_last());
        lemma_occurrences(a, b.drop_last(), c);
    }
}

proof fn lemma_no_occurrence(s: Seq<char>, c: char)
    requires
        forall|i: int| 0 <= i < s.len() ==> s[i] != c,
    ensures
        occurrences(s, c) == 0,
    decreases s.len(),
{
    if s.len() > 0 {
        assert(s[s.len() - 1] != c);
        lemma_no_occurrence(s.drop_last(), c);
    }
}

/// There are as many lines as line ends, and one more where the text goes on behind the
/// last of them.
pub proof fn law_lines_are_counted(s: Seq<char>)
    ensures
        lines::lines_of(s).len() == occurrences(s, '\n') + (if s.len() > 0 && s.last() != '\n' {
            1nat
        } else {
            0nat
        }),
    decreases s.len(),
{
    lemma_first_at_found(s, '\n');
    if s.len() > 0 {
        let at = text::first_at(s, '\n');
        if at < s.len() {
            let front = s.subrange(0, at);
            let tail = s.skip(at + 1);
            law_lines_are_counted(tail);
            assert(s =~= front + (seq!['\n'] + tail));
            lemma_occurrences(front, seq!['\n'] + tail, '\n');
            lemma_occurrences(seq!['\n'], tail, '\n');
            lemma_no_occurrence(front, '\n');
            assert(seq!['\n'].drop_last() =~= Seq::empty());
            assert(occurrences(seq!['\n'].drop_last(), '\n') == 0);
            assert(seq!['\n'].last() == '\n');
            if tail.len() > 0 {
                assert(tail.last() == s.last());
            } else {
                assert(s[at] == s.last());
            }
        } else {
            lemma_no_occurrence(s, '\n');
            assert(s[s.len() - 1] != '\n');
        }
    }
}

// ---- blanks ---------------------------------------------------------------------

/// Trimming takes away the white space at both ends, all of it, and nothing else.
pub proof fn law_trimming(before: Seq<char>, core: Seq<char>, behind: Seq<char>)
    requires
        forall|i: int| 0 <= i < before.len() ==> text::is_white(#[trigger] before[i]),
        forall|i: int| 0 <= i < behind.len() ==> text::is_white(#[trigger] behind[i]),
        core.len() > 0,
        !text::is_white(core[0]),
        !text::is_white(core.last()),
    ensures
        text::trim(before + core + behind) == core,
        text::trim(before).len() == 0,
    decreases before.len() + behind.len(),
{
    lemma_trim_start(before, core + behind);
    assert(before + (core + behind) =~= before + core + behind);
    lemma_trim_end(core, behind);
    lemma_all_white(before);
}

proof fn lemma_trim_start(before: Seq<char>, tail: Seq<char>)
    requires
        forall|i: int| 0 <= i < before.len() ==> text::is_white(#[trigger] before[i]),
        tail.len() > 0,
        !text::is_white(tail[0]),
    ensures
        text::trim_start(before + tail) == tail,
    decreases before.len(),
{
    let all = before + tail;
    if before.len() > 0 {
        assert(all[0] == before[0]);
        assert(all.skip(1) =~= before.skip(1) + tail);
        lemma_trim_start(before.skip(1), tail);
    } else {
        assert(all =~= tail);
    }
}

proof fn lemma_trim_end(front: Seq<char>, behind: Seq<char>)
    requires
        forall|i: int| 0 <= i < behind.len() ==> text::is_white(#[trigger] behind[i]),
        front.len() > 0,
        !text::is_white(front.last()),
    ensures
        text::trim_end(front + behind) == front,
    decreases behind.len(),
{
    let all = front + behind;
    if behind.len() > 0 {
        assert(all.last() == behind[behind.len() - 1]);
        assert(all.drop_last() =~= front + behind.drop_last());
        lemma_trim_end(front, behind.drop_last());
    } else {
        assert(all =~= front);
    }
}

proof fn lemma_all_white(s: Seq<char>)
    requires
        forall|i: int| 0 <= i < s.len() ==> text::is_white(#[trigger] s[i]),
    ensures
        text::trim_start(s).len() == 0,
    decreases s.len(),
{
    if s.len() > 0 {
        assert(text::is_white(s[0]));
        lemma_all_white(s.skip(1));
    }
}

// ---- numbers --------------------------------------------------------------------

/// A whole number is one or more digits, with or without a plus in front, that write no
/// more than the limit; nothing else is a number.
pub proof fn law_whole_numbers(digits: Seq<char>, max: nat, i: int)
    ensures
        digits.len() > 0 && decimal::all_digits(digits) && decimal::digits_value(digits) <= max
            ==> lines::whole_number(digits, max) == Some(decimal::digits_value(digits)) && lines::whole_number(
            seq!['+'] + digits,
            max,
        ) == Some(decimal::digits_value(digits)),
        digits.len() > 0 && decimal::all_digits(digits) && decimal::digits_value(digits) > max ==> lines::whole_number(
            digits,
            max,
        ) is None,
        0 <= i < digits.len() && !decimal::is_digit(digits[i]) && !(i == 0 && digits[0] == '+') ==> lines::whole_number(
            digits,
            max,
        ) is None,
        lines::whole_number(Seq::empty(), max) is None,
        lines::whole_number(seq!['+'], max) is None,
{
    let plus = seq!['+'] + digits;
    assert(plus[0] == '+' && plus.skip(1) =~= digits);
    assert(seq!['+'].skip(1).len() == 0);
    if digits.len() > 0 && decimal::all_digits(digits) {
        assert(decimal::is_digit(digits[0]));
    }
    if 0 <= i < digits.len() && !decimal::is_digit(digits[i]) && !(i == 0 && digits[0] == '+') {
        if digits[0] == '+' {
            assert(digits.skip(1)[i - 1] == digits[i]);
        }
    }
}

/// A text begins with another where it is that other and more.
pub proof fn law_beginnings(prefix: Seq<char>, rest: Seq<char>, s: Seq<char>)
    ensures
        text::begins(prefix + rest, prefix),
        text::begins(s, prefix) ==> s == prefix + s.skip(prefix.len() as int),
{
    assert((prefix + rest).subrange(0, prefix.len() as int) =~= prefix);
    if text::begins(s, prefix) {
        assert(s =~= s.subrange(0, prefix.len() as int) + s.skip(prefix.len() as int));
    }
}

} // verus!
