//! Lines, fields and whole numbers in text.

use vstd::prelude::*;

use crate::decimal;
use crate::text;
use crate::text::{find_char, part};

verus! {

/// A line without the carriage return that belongs to its end.
pub open spec fn without_return(s: Seq<char>) -> Seq<char> {
    if s.len() > 0 && s.last() == '\r' {
        s.drop_last()
    } else {
        s
    }
}

/// The lines of a text, without their ends. The end of the last line is optional.
pub open spec fn lines_of(s: Seq<char>) -> Seq<Seq<char>>
    decreases s.len(),
{
    if s.len() == 0 {
        Seq::empty()
    } else {
        let at = text::first_at(s, '\n');
        if 0 <= at < s.len() {
            seq![without_return(s.subrange(0, at))] + lines_of(s.skip(at + 1))
        } else {
            seq![s]
        }
    }
}

/// The parts between separators.
pub open spec fn fields_of(s: Seq<char>, separator: char) -> Seq<Seq<char>>
    decreases s.len(),
{
    let at = text::first_at(s, separator);
    if 0 <= at < s.len() {
        seq![s.subrange(0, at)] + fields_of(s.skip(at + 1), separator)
    } else {
        seq![s]
    }
}

/// The texts that a vector of vectors holds.
pub open spec fn char_views(v: Seq<Vec<char>>) -> Seq<Seq<char>> {
    Seq::new(v.len(), |i: int| v[i]@)
}

proof fn lemma_push_chars(v: Seq<Vec<char>>, x: Vec<char>)
    ensures
        char_views(v.push(x)) == char_views(v).push(x@),
{
    assert(char_views(v.push(x)) =~= char_views(v).push(x@));
}

/// The lines of a text, without their ends.
pub fn split_lines(s: &[char]) -> (r: Vec<Vec<char>>)
    ensures
        char_views(r@) == lines_of(s@),
{
    let n: usize = s.len();
    let mut out: Vec<Vec<char>> = Vec::new();
    let mut from: usize = 0;
    proof {
        assert(s@.skip(0) =~= s@);
        assert(char_views(out@) + lines_of(s@) =~= lines_of(s@));
    }
    while from < n
        invariant
            n == s@.len(),
            from <= n,
            char_views(out@) + lines_of(s@.skip(from as int)) == lines_of(s@),
        decreases n - from,
    {
        let rest: &[char] = vstd::slice::slice_subrange(s, from, n);
        assert(rest@ =~= s@.skip(from as int));
        let at: usize = find_char(rest, '\n');
        let ghost before = char_views(out@);
        if at < rest.len() {
            let end: usize = if at > 0 && rest[at - 1] == '\r' {
                at - 1
            } else {
                at
            };
            let line: Vec<char> = part(rest, 0, end);
            proof {
                let whole = rest@.subrange(0, at as int);
                assert(line@ =~= without_return(whole));
                assert(rest@.skip(at + 1) =~= s@.skip(from + at + 1));
                lemma_push_chars(out@, line);
                assert(before.push(line@) + lines_of(s@.skip(from + at + 1)) =~= before + (seq![line@] + lines_of(
                    rest@.skip(at + 1),
                )));
            }
            out.push(line);
            from = from + at + 1;
        } else {
            let line: Vec<char> = part(rest, 0, rest.len());
            proof {
                assert(line@ =~= rest@);
                lemma_push_chars(out@, line);
                assert(s@.skip(n as int).len() == 0);
                assert(before.push(line@) + lines_of(s@.skip(n as int)) =~= before + seq![rest@]);
            }
            out.push(line);
            from = n;
        }
    }
    proof {
        assert(s@.skip(n as int).len() == 0);
        assert(char_views(out@) + lines_of(s@.skip(n as int)) =~= char_views(out@));
    }
    out
}

/// The parts between separators.
pub fn split_fields(s: &[char], separator: char) -> (r: Vec<Vec<char>>)
    ensures
        char_views(r@) == fields_of(s@, separator),
        r@.len() > 0,
{
    let n: usize = s.len();
    let mut out: Vec<Vec<char>> = Vec::new();
    let mut from: usize = 0;
    proof {
        assert(s@.skip(0) =~= s@);
        assert(char_views(out@) + fields_of(s@, separator) =~= fields_of(s@, separator));
    }
    loop
        invariant_except_break
            n == s@.len(),
            from <= n,
            char_views(out@) + fields_of(s@.skip(from as int), separator) == fields_of(s@, separator),
        ensures
            char_views(out@) == fields_of(s@, separator),
            out@.len() > 0,
        decreases n - from,
    {
        let rest: &[char] = vstd::slice::slice_subrange(s, from, n);
        assert(rest@ =~= s@.skip(from as int));
        let at: usize = find_char(rest, separator);
        let ghost before = char_views(out@);
        let field: Vec<char> = part(rest, 0, at);
        proof {
            lemma_push_chars(out@, field);
        }
        out.push(field);
        if at < rest.len() {
            proof {
                assert(rest@.skip(at + 1) =~= s@.skip(from + at + 1));
                assert(before.push(field@) + fields_of(s@.skip(from + at + 1), separator) =~= before + (seq![field@]
                    + fields_of(rest@.skip(at + 1), separator)));
            }
            from = from + at + 1;
        } else {
            proof {
                assert(field@ =~= rest@);
                assert(before.push(field@) =~= before + seq![rest@]);
            }
            break;
        }
    }
    out
}

/// The digits of a whole number: an optional plus sign leads them.
pub open spec fn number_digits(s: Seq<char>) -> Seq<char> {
    if s.len() > 0 && s[0] == '+' {
        s.skip(1)
    } else {
        s
    }
}

/// The whole number that a text writes, where it is at most `max`.
pub open spec fn whole_number(s: Seq<char>, max: nat) -> Option<nat> {
    let digits = number_digits(s);
    if digits.len() > 0 && decimal::all_digits(digits) && decimal::digits_value(digits) <= max {
        Some(decimal::digits_value(digits))
    } else {
        None
    }
}

/// More digits write no smaller number.
proof fn lemma_digits_grow(s: Seq<char>, k: int)
    requires
        0 <= k <= s.len(),
        decimal::all_digits(s),
    ensures
        decimal::digits_value(s.subrange(0, k)) <= decimal::digits_value(s),
    decreases s.len(),
{
    if k == s.len() {
        assert(s.subrange(0, k) =~= s);
    } else {
        assert forall|i: int| 0 <= i < s.drop_last().len() implies decimal::is_digit(
            #[trigger] s.drop_last()[i],
        ) by {
            assert(decimal::is_digit(s[i]));
        }
        assert(s.drop_last().subrange(0, k) =~= s.subrange(0, k));
        lemma_digits_grow(s.drop_last(), k);
        assert(decimal::is_digit(s[s.len() - 1]));
    }
}

/// Reads a whole number that is at most `max`.
pub fn read_number(s: &[char], max: u64) -> (r: Option<u64>)
    ensures
        match r {
            Some(n) => whole_number(s@, max as nat) == Some(n as nat),
            None => whole_number(s@, max as nat) is None,
        },
{
    let n: usize = s.len();
    let from: usize = if n > 0 && s[0] == '+' {
        1
    } else {
        0
    };
    let digits: &[char] = vstd::slice::slice_subrange(s, from, n);
    assert(digits@ =~= number_digits(s@));
    let m: usize = digits.len();
    if m == 0 {
        return None;
    }
    let mut value: u64 = 0;
    let mut i: usize = 0;
    assert(digits@.subrange(0, 0).len() == 0);
    while i < m
        invariant
            m == digits@.len(),
            i <= m,
            m > 0,
            digits@ == number_digits(s@),
            value <= max,
            value == decimal::digits_value(digits@.subrange(0, i as int)),
            forall|j: int| 0 <= j < i ==> decimal::is_digit(#[trigger] digits@[j]),
        decreases m - i,
    {
        let c: char = digits[i];
        if !('0' <= c && c <= '9') {
            assert(!decimal::is_digit(digits@[i as int]));
            return None;
        }
        let d: u64 = (c as u8 - 48) as u64;
        let next: u128 = value as u128 * 10 + d as u128;
        proof {
            let more = digits@.subrange(0, i + 1);
            assert(more.drop_last() =~= digits@.subrange(0, i as int));
            assert(more.last() == c);
            assert(next == decimal::digits_value(more));
        }
        if next > max as u128 {
            proof {
                if decimal::all_digits(digits@) {
                    lemma_digits_grow(digits@, i + 1);
                }
            }
            return None;
        }
        value = next as u64;
        i += 1;
    }
    assert(digits@.subrange(0, m as int) =~= digits@);
    Some(value)
}

/// The number of bytes that encode a character.
pub open spec fn width(c: char) -> nat {
    let n = c as int;
    if n < 0x80 {
        1
    } else if n < 0x800 {
        2
    } else if n < 0x1_0000 {
        3
    } else {
        4
    }
}

/// The number of bytes that encode a text.
pub open spec fn byte_len(s: Seq<char>) -> nat
    decreases s.len(),
{
    if s.len() == 0 {
        0
    } else {
        byte_len(s.drop_last()) + width(s.last())
    }
}

/// The first `k` characters are all that fit in `max` bytes.
pub open spec fn fits_exactly(s: Seq<char>, max: nat, k: int) -> bool {
    &&& 0 <= k <= s.len()
    &&& byte_len(s.subrange(0, k)) <= max
    &&& k < s.len() ==> byte_len(s.subrange(0, k + 1)) > max
}

fn width_of(c: char) -> (r: usize)
    ensures
        r == width(c),
{
    let n: u32 = c as u32;
    if n < 0x80 {
        1
    } else if n < 0x800 {
        2
    } else if n < 0x1_0000 {
        3
    } else {
        4
    }
}

/// How many characters of a text fit in `max` bytes.
pub fn count_fitting(s: &[char], max: usize) -> (k: usize)
    ensures
        fits_exactly(s@, max as nat, k as int),
{
    let n: usize = s.len();
    let mut used: usize = 0;
    let mut k: usize = 0;
    assert(s@.subrange(0, 0).len() == 0);
    while k < n
        invariant
            n == s@.len(),
            k <= n,
            used <= max,
            used == byte_len(s@.subrange(0, k as int)),
        decreases n - k,
    {
        let w: usize = width_of(s[k]);
        proof {
            let next = s@.subrange(0, k + 1);
            assert(next.drop_last() =~= s@.subrange(0, k as int));
            assert(next.last() == s@[k as int]);
        }
        if w > max - used {
            return k;
        }
        used = used + w;
        k += 1;
    }
    k
}

} // verus!
