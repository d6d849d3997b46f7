//! What an SVG file says of its size.

use vstd::prelude::*;

use crate::outside::{str_from_utf8, string_of};
use crate::query;
use crate::text;
use crate::text::lines;
use crate::text::lines::count_fitting;
use crate::text::{begins_with, chars_of, find_char, part, skip_white, trimmed};

verus! {

/// How much of the root tag is looked at, in bytes.
pub const MAX_TAG_BYTES: usize = 2048;

/// The sizes that the root tag of an SVG declares, as they are written: its
/// `width` and `height` without their units, and the numbers of its `viewBox`.
#[derive(Debug)]
pub struct SvgTexts {
    pub width: Option<String>,
    pub height: Option<String>,
    pub view_box: Vec<String>,
}

/// The first place from `i` on where `word` stands.
pub open spec fn place_of(s: Seq<char>, word: Seq<char>, i: int) -> Option<int>
    decreases s.len() + 1 - i,
{
    if i < 0 || i + word.len() > s.len() {
        None
    } else if s.subrange(i, i + word.len()) == word {
        Some(i)
    } else {
        place_of(s, word, i + 1)
    }
}

/// The tag that begins a text: up to its end, and at most so many bytes.
pub open spec fn is_tag_of(rest: Seq<char>, tag: Seq<char>) -> bool {
    let open = rest.subrange(0, text::first_at(rest, '>'));
    exists|k: int| #[trigger] lines::fits_exactly(open, MAX_TAG_BYTES as nat, k) && tag == open.subrange(0, k)
}

/// The characters of ASCII that stand between words.
pub open spec fn is_ascii_white(c: char) -> bool {
    c == ' ' || c == '\t' || c == '\n' || c == '\r' || c as int == 12
}

/// What is behind the name of an attribute gives its value: an equals sign, and
/// the value in quotes.
pub open spec fn quoted_value(after: Seq<char>) -> Option<Seq<char>> {
    let v = text::trim_start(after);
    if v.len() == 0 || v[0] != '=' {
        None
    } else {
        let w = text::trim_start(v.skip(1));
        if w.len() == 0 || (w[0] != '"' && w[0] != '\'') {
            None
        } else {
            let inner = w.skip(1);
            let end = text::first_at(inner, w[0]);
            if end < inner.len() {
                Some(inner.subrange(0, end))
            } else {
                None
            }
        }
    }
}

/// The value of an attribute whose name stands at `i`; white space or nothing
/// must come before it, so `stroke-width` never answers for `width`.
pub open spec fn value_at(tag: Seq<char>, name: Seq<char>, i: int) -> Option<Seq<char>> {
    if i > 0 && !is_ascii_white(tag[i - 1]) {
        None
    } else {
        quoted_value(tag.skip(i + name.len()))
    }
}

/// The value of the first occurrence of a name from `i` on that has one.
pub open spec fn attribute(tag: Seq<char>, name: Seq<char>, i: int) -> Option<Seq<char>>
    decreases tag.len() - i,
{
    if i < 0 || name.len() == 0 || i + name.len() > tag.len() {
        None
    } else if tag.subrange(i, i + name.len()) == name {
        match value_at(tag, name, i) {
            Some(v) => Some(v),
            None => attribute(tag, name, i + name.len()),
        }
    } else {
        attribute(tag, name, i + 1)
    }
}

/// What a unit is made of.
pub open spec fn is_unit(c: char) -> bool {
    'a' <= c <= 'z' || 'A' <= c <= 'Z' || c == '%'
}

pub open spec fn trim_unit(s: Seq<char>) -> Seq<char>
    decreases s.len(),
{
    if s.len() > 0 && is_unit(s.last()) {
        trim_unit(s.drop_last())
    } else {
        s
    }
}

/// A size without its unit.
pub open spec fn number_of(raw: Seq<char>) -> Seq<char> {
    text::trim(trim_unit(text::trim(raw)))
}

/// What parts the numbers of a `viewBox`.
pub open spec fn is_gap(c: char) -> bool {
    c == ',' || is_ascii_white(c)
}

/// The words between gaps; `word` is the part of the current one that was already
/// read.
pub open spec fn words_after(s: Seq<char>, word: Seq<char>) -> Seq<Seq<char>>
    decreases s.len(),
{
    let done = if word.len() == 0 {
        Seq::empty()
    } else {
        seq![word]
    };
    if s.len() == 0 {
        done
    } else if is_gap(s[0]) {
        done + words_after(s.skip(1), Seq::empty())
    } else {
        words_after(s.skip(1), word.push(s[0]))
    }
}

fn find_word(s: &[char], word: &[char]) -> (r: Option<usize>)
    ensures
        match r {
            Some(i) => place_of(s@, word@, 0) == Some(i as int) && i + word@.len() <= s@.len(),
            None => place_of(s@, word@, 0) is None,
        },
{
    let n: usize = s.len();
    let m: usize = word.len();
    if m > n {
        return None;
    }
    let mut i: usize = 0;
    while i <= n - m
        invariant
            n == s@.len(),
            m == word@.len(),
            m <= n,
            i <= n - m + 1,
            place_of(s@, word@, i as int) == place_of(s@, word@, 0),
        decreases n - m + 1 - i,
    {
        let here: &[char] = vstd::slice::slice_subrange(s, i, n);
        assert(here@.subrange(0, m as int) =~= s@.subrange(i as int, i + m));
        if begins_with(here, word) {
            return Some(i);
        }
        if i == n - m {
            assert(place_of(s@, word@, i + 1) is None);
            return None;
        }
        i += 1;
    }
    None
}

fn read_quoted(tag: &[char], from: usize) -> (r: Option<Vec<char>>)
    requires
        from <= tag@.len(),
    ensures
        match r {
            Some(v) => quoted_value(tag@.skip(from as int)) == Some(v@),
            None => quoted_value(tag@.skip(from as int)) is None,
        },
{
    let n: usize = tag.len();
    let at: usize = skip_white(tag, from);
    if at == n || tag[at] != '=' {
        return None;
    }
    assert(tag@.skip(at as int).skip(1) =~= tag@.skip(at + 1));
    let open: usize = skip_white(tag, at + 1);
    if open == n || (tag[open] != '"' && tag[open] != '\'') {
        return None;
    }
    let inner: &[char] = vstd::slice::slice_subrange(tag, open + 1, n);
    assert(inner@ =~= tag@.skip(open as int).skip(1));
    let end: usize = find_char(inner, tag[open]);
    if end == inner.len() {
        return None;
    }
    Some(part(inner, 0, end))
}

fn is_ascii_space(c: char) -> (r: bool)
    ensures
        r == is_ascii_white(c),
{
    c == ' ' || c == '\t' || c == '\n' || c == '\r' || c as u32 == 12
}

/// Reads `name="value"` / `name='value'` out of an open tag, requiring a
/// whitespace boundary so `stroke-width` never answers for `width`.
pub fn svg_attr_str(tag: &[char], name: &[char]) -> (r: Option<Vec<char>>)
    ensures
        match r {
            Some(v) => attribute(tag@, name@, 0) == Some(v@),
            None => attribute(tag@, name@, 0) is None,
        },
{
    let n: usize = tag.len();
    let m: usize = name.len();
    if m == 0 || m > n {
        return None;
    }
    let mut i: usize = 0;
    while i <= n - m
        invariant
            n == tag@.len(),
            m == name@.len(),
            0 < m <= n,
            i <= n,
            attribute(tag@, name@, i as int) == attribute(tag@, name@, 0),
        decreases n - i,
    {
        let here: &[char] = vstd::slice::slice_subrange(tag, i, n);
        assert(here@.subrange(0, m as int) =~= tag@.subrange(i as int, i + m));
        if begins_with(here, name) {
            if i == 0 || is_ascii_space(tag[i - 1]) {
                match read_quoted(tag, i + m) {
                    Some(v) => {
                        return Some(v);
                    },
                    None => {},
                }
            }
            i = i + m;
        } else {
            i += 1;
        }
    }
    None
}

fn without_unit(s: &[char]) -> (r: Vec<char>)
    ensures
        r@ == trim_unit(s@),
{
    let n: usize = s.len();
    let mut end: usize = n;
    assert(s@.subrange(0, n as int) =~= s@);
    while end > 0 && (('a' <= s[end - 1] && s[end - 1] <= 'z') || ('A' <= s[end - 1] && s[end - 1] <= 'Z')
        || s[end - 1] == '%')
        invariant
            n == s@.len(),
            end <= n,
            trim_unit(s@.subrange(0, end as int)) == trim_unit(s@),
        decreases end,
    {
        assert(s@.subrange(0, end as int).drop_last() =~= s@.subrange(0, end - 1));
        end -= 1;
    }
    part(s, 0, end)
}

fn read_words(s: &[char]) -> (r: Vec<Vec<char>>)
    ensures
        lines::char_views(r@) == words_after(s@, Seq::empty()),
{
    let n: usize = s.len();
    let mut out: Vec<Vec<char>> = Vec::new();
    let mut word: Vec<char> = Vec::new();
    let mut i: usize = 0;
    proof {
        assert(s@.skip(0) =~= s@);
        assert(word@ =~= Seq::empty());
        assert(lines::char_views(out@) + words_after(s@, Seq::empty()) =~= words_after(s@, Seq::empty()));
    }
    while i < n
        invariant
            n == s@.len(),
            i <= n,
            lines::char_views(out@) + words_after(s@.skip(i as int), word@) == words_after(s@, Seq::empty()),
        decreases n - i,
    {
        let c: char = s[i];
        let ghost before = lines::char_views(out@);
        let ghost read = word@;
        assert(s@.skip(i as int).skip(1) =~= s@.skip(i + 1));
        if c == ',' || is_ascii_space(c) {
            if word.len() > 0 {
                out.push(word);
                assert(lines::char_views(out@) =~= before.push(read));
            }
            word = Vec::new();
            assert(word@ =~= Seq::empty());
            assert(lines::char_views(out@) + words_after(s@.skip(i + 1), word@) =~= before + words_after(
                s@.skip(i as int),
                read,
            ));
        } else {
            word.push(c);
        }
        i += 1;
    }
    let ghost before = lines::char_views(out@);
    let ghost read = word@;
    assert(s@.skip(n as int).len() == 0);
    if word.len() > 0 {
        out.push(word);
        assert(lines::char_views(out@) =~= before + words_after(s@.skip(n as int), read));
    } else {
        assert(before + words_after(s@.skip(n as int), read) =~= before);
    }
    out
}

/// The texts of the sizes that a tag declares.
pub open spec fn tells_sizes(t: SvgTexts, tag: Seq<char>) -> bool {
    &&& match (t.width, attribute(tag, "width"@, 0)) {
        (Some(s), Some(v)) => s@ == number_of(v),
        (None, None) => true,
        _ => false,
    }
    &&& match (t.height, attribute(tag, "height"@, 0)) {
        (Some(s), Some(v)) => s@ == number_of(v),
        (None, None) => true,
        _ => false,
    }
    &&& query::string_views(t.view_box@) == (match attribute(tag, "viewBox"@, 0) {
        Some(v) => words_after(v, Seq::empty()),
        None => Seq::empty(),
    })
}

fn read_size(tag: &[char], name: &str) -> (r: Option<String>)
    ensures
        match (r, attribute(tag@, name@, 0)) {
            (Some(s), Some(v)) => s@ == number_of(v),
            (None, None) => true,
            _ => false,
        },
{
    match svg_attr_str(tag, chars_of(name).as_slice()) {
        Some(raw) => {
            let number: Vec<char> = trimmed(without_unit(trimmed(raw.as_slice()).as_slice()).as_slice());
            Some(string_of(number.as_slice()))
        },
        None => None,
    }
}

/// The sizes that a tag declares.
pub fn tag_sizes(tag: &[char]) -> (r: SvgTexts)
    ensures
        tells_sizes(r, tag@),
{
    let mut view_box: Vec<String> = Vec::new();
    assert(query::string_views(view_box@) =~= Seq::empty());
    if let Some(v) = svg_attr_str(tag, chars_of("viewBox").as_slice()) {
        let words: Vec<Vec<char>> = read_words(v.as_slice());
        let n: usize = words.len();
        let mut i: usize = 0;
        while i < n
            invariant
                n == words@.len(),
                i <= n,
                view_box@.len() == i,
                forall|j: int| 0 <= j < i ==> (#[trigger] view_box@[j])@ == words@[j]@,
            decreases n - i,
        {
            view_box.push(string_of(words[i].as_slice()));
            i += 1;
        }
        assert(query::string_views(view_box@) =~= lines::char_views(words@));
    }
    SvgTexts { width: read_size(tag, "width"), height: read_size(tag, "height"), view_box }
}

/// The root tag of an SVG, where the bytes are text and hold one.
pub open spec fn is_root_tag(head: Seq<u8>, tag: Option<Vec<char>>) -> bool {
    let chars = vstd::utf8::decode_utf8(head);
    let at = place_of(chars, "<svg"@, 0);
    match tag {
        Some(tag) => vstd::utf8::valid_utf8(head) && at is Some && is_tag_of(chars.skip(at->0), tag@),
        None => !vstd::utf8::valid_utf8(head) || at is None,
    }
}

/// The root tag of an SVG: its first so many bytes, where the tag is longer.
pub fn root_tag(head: &[u8]) -> (r: Option<Vec<char>>)
    ensures
        is_root_tag(head@, r),
{
    let chars: Vec<char> = match str_from_utf8(head) {
        Ok(s) => chars_of(s),
        Err(_) => {
            return None;
        },
    };
    let at: usize = match find_word(chars.as_slice(), chars_of("<svg").as_slice()) {
        Some(at) => at,
        None => {
            return None;
        },
    };
    let rest: &[char] = vstd::slice::slice_subrange(chars.as_slice(), at, chars.len());
    assert(rest@ =~= chars@.skip(at as int));
    let end: usize = find_char(rest, '>');
    let open: &[char] = vstd::slice::slice_subrange(rest, 0, end);
    let k: usize = count_fitting(open, MAX_TAG_BYTES);
    assert(open@ =~= rest@.subrange(0, text::first_at(rest@, '>')));
    Some(part(open, 0, k))
}

/// The place of the `nth` readable number, and what it is.
pub open spec fn nth_number(numbers: Seq<Option<u32>>, from: int, nth: nat) -> Option<u32>
    decreases numbers.len() - from,
{
    if from < 0 || from >= numbers.len() {
        None
    } else {
        match numbers[from] {
            Some(v) => if nth == 0 {
                Some(v)
            } else {
                nth_number(numbers, from + 1, (nth - 1) as nat)
            },
            None => nth_number(numbers, from + 1, nth),
        }
    }
}

fn find_number(numbers: &Vec<Option<u32>>, nth: usize) -> (r: Option<u32>)
    ensures
        r == nth_number(numbers@, 0, nth as nat),
{
    let n: usize = numbers.len();
    let mut left: usize = nth;
    let mut i: usize = 0;
    while i < n
        invariant
            n == numbers@.len(),
            i <= n,
            nth_number(numbers@, i as int, left as nat) == nth_number(numbers@, 0, nth as nat),
        decreases n - i,
    {
        if let Some(v) = numbers[i] {
            if left == 0 {
                return Some(v);
            }
            left -= 1;
        }
        i += 1;
    }
    None
}

/// The size of an SVG: `width` and `height` win, where both can be read; the third
/// and fourth readable numbers of the `viewBox` are the fallback; else there is
/// none.
pub open spec fn size_of(width: Option<u32>, height: Option<u32>, view_box: Seq<Option<u32>>) -> (u32, u32) {
    match (width, height) {
        (Some(w), Some(h)) => (w, h),
        _ => match (nth_number(view_box, 0, 2), nth_number(view_box, 0, 3)) {
            (Some(w), Some(h)) => (w, h),
            _ => (0, 0),
        },
    }
}

/// The size of an SVG, from the numbers that its declared sizes were read as.
pub fn svg_dimensions(width: Option<u32>, height: Option<u32>, view_box: &Vec<Option<u32>>) -> (r: (u32, u32))
    ensures
        r == size_of(width, height, view_box@),
{
    match (width, height) {
        (Some(w), Some(h)) => (w, h),
        _ => match (find_number(view_box, 2), find_number(view_box, 3)) {
            (Some(w), Some(h)) => (w, h),
            _ => (0, 0),
        },
    }
}

} // verus!
