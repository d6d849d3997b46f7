//! Query language parser.
//!
//! Whitespace-separated tokens are ANDed. A token containing `/` is matched
//! against the full path instead of just the name.
//!
//! * `ext:pdf` / `ext:jpg,png` — extension is one of
//! * `size:>10mb`, `size:<1k`, `size:>=4096` — byte size (k/m/g/t are 1024-based)
//! * `dir:` / `file:` — only directories / only files (an optional value is
//!   also used as a name term: `dir:src`)
//! * `"exact phrase"` — literal, spaces included
//! * `re:^IMG_\d+` — regex over the name (or the path when it contains `/`)

use vstd::prelude::*;

use crate::bytestr;
use crate::bytestr::{find_sub, to_lower};
use crate::decimal;
use crate::model;
use crate::model::{signature, signature2};
use crate::outside;
use crate::outside::{debug_text, regex_compile, regex_prefix_literals, str_lowercase, string_of};
use crate::path;
use crate::text;
use crate::text::{begins_with, chars_of, find_char, has_char, is_white_space, is_word, joined, lowered, part, trimmed};

pub mod laws;

verus! {

#[derive(Debug, Clone, Copy, PartialEq, Eq, Structural)]
pub enum Cmp {
    Lt,
    Le,
    Gt,
    Ge,
    Eq,
}

#[derive(Debug, Clone, Copy, PartialEq, Eq, Structural)]
pub struct SizeFilter {
    pub op: Cmp,
    pub bytes: u64,
}

impl SizeFilter {
    /// Whether a size passes the filter.
    pub open spec fn admits(self, size: u64) -> bool {
        match self.op {
            Cmp::Lt => size < self.bytes,
            Cmp::Le => size <= self.bytes,
            Cmp::Gt => size > self.bytes,
            Cmp::Ge => size >= self.bytes,
            Cmp::Eq => size == self.bytes,
        }
    }

    pub fn matches(&self, size: u64) -> (r: bool)
        ensures
            r == self.admits(size),
    {
        match self.op {
            Cmp::Lt => size < self.bytes,
            Cmp::Le => size <= self.bytes,
            Cmp::Gt => size > self.bytes,
            Cmp::Ge => size >= self.bytes,
            Cmp::Eq => size == self.bytes,
        }
    }
}

#[derive(Debug, Clone, Copy, PartialEq, Eq, Structural)]
pub enum Kind {
    Dir,
    File,
}

#[derive(Debug, Clone)]
pub struct Term {
    /// Lowercased needle. ASCII terms are matched byte-wise without allocating.
    pub lower: Vec<u8>,
    pub sig: u64,
    pub sig2: u32,
    pub on_path: bool,
    pub ascii: bool,
}

/// The bytes that a term's text is looked for as.
pub open spec fn needle_of(text: Seq<char>) -> Seq<u8> {
    if vstd::utf8::is_ascii_chars(text) {
        Seq::new(text.len(), |i: int| bytestr::lower(text[i] as u8))
    } else {
        vstd::utf8::encode_utf8(outside::lowercase_of(text))
    }
}

impl Term {
    /// The prefilter bits belong to the needle, and an ASCII needle is in lower
    /// case.
    pub open spec fn wf(self) -> bool {
        &&& self.sig == model::signature_of(self.lower@)
        &&& self.sig2 == model::signature2_of(self.lower@)
        &&& self.ascii ==> bytestr::is_lower(self.lower@)
    }

    /// This is the term of that text.
    pub open spec fn is_of(self, text: Seq<char>) -> bool {
        &&& self.wf()
        &&& self.lower@ == needle_of(text)
        &&& self.on_path == text.contains('/')
        &&& self.ascii == vstd::utf8::is_ascii_chars(text)
    }

    fn new(text: &[char]) -> (r: Option<Term>)
        ensures
            match r {
                Some(t) => text@.len() > 0 && t.is_of(text@),
                None => text@.len() == 0,
            },
    {
        if text.is_empty() {
            return None;
        }
        let ascii: bool = all_ascii(text);
        let lower: Vec<u8> = if ascii {
            ascii_needle(text)
        } else {
            let s: String = str_lowercase(string_of(text).as_str());
            vstd::slice::slice_to_vec(s.as_str().as_bytes())
        };
        Some(Term::with_needle(lower, has_char(text, '/'), ascii))
    }

    /// A term with the bits of its needle.
    pub fn with_needle(lower: Vec<u8>, on_path: bool, ascii: bool) -> (t: Term)
        ensures
            t.lower == lower,
            t.sig == model::signature_of(lower@),
            t.sig2 == model::signature2_of(lower@),
            t.on_path == on_path,
            t.ascii == ascii,
    {
        let sig: u64 = signature(lower.as_slice());
        let sig2: u32 = signature2(lower.as_slice());
        Term { lower, sig, sig2, on_path, ascii }
    }
}

fn all_ascii(text: &[char]) -> (r: bool)
    ensures
        r == vstd::utf8::is_ascii_chars(text@),
{
    let n: usize = text.len();
    let mut i: usize = 0;
    while i < n
        invariant
            n == text@.len(),
            i <= n,
            forall|j: int| 0 <= j < i ==> '\0' <= #[trigger] text@[j] <= '\u{7f}',
        decreases n - i,
    {
        let c: char = text[i];
        if !('\0' <= c && c <= '\u{7f}') {
            return false;
        }
        i += 1;
    }
    true
}

fn ascii_needle(text: &[char]) -> (r: Vec<u8>)
    requires
        vstd::utf8::is_ascii_chars(text@),
    ensures
        r@ == needle_of(text@),
        bytestr::is_lower(r@),
{
    let n: usize = text.len();
    let mut out: Vec<u8> = Vec::new();
    let mut i: usize = 0;
    while i < n
        invariant
            n == text@.len(),
            i <= n,
            vstd::utf8::is_ascii_chars(text@),
            out@.len() == i,
            forall|j: int| 0 <= j < i ==> #[trigger] out@[j] == bytestr::lower(text@[j] as u8),
        decreases n - i,
    {
        out.push(to_lower(text[i] as u8));
        i += 1;
    }
    assert(out@ =~= needle_of(text@));
    out
}

// ---- tokens -----------------------------------------------------------------

/// The token that was read so far, unless it is empty.
pub open spec fn finished(cur: Seq<char>, quoted: bool) -> Seq<(Seq<char>, bool)> {
    if cur.len() == 0 {
        Seq::empty()
    } else {
        seq![(cur, quoted)]
    }
}

/// The tokens of the rest of an input, of which `cur` was already read. A quote
/// switches quoting on or off and is dropped; white space outside quotes ends a
/// token.
pub open spec fn tokens_after(rest: Seq<char>, cur: Seq<char>, quoted: bool, in_quote: bool) -> Seq<
    (Seq<char>, bool),
>
    decreases rest.len(),
{
    if rest.len() == 0 {
        finished(cur, quoted)
    } else if rest[0] == '"' {
        tokens_after(rest.skip(1), cur, true, !in_quote)
    } else if text::is_white(rest[0]) && !in_quote {
        finished(cur, quoted) + tokens_after(rest.skip(1), Seq::empty(), false, in_quote)
    } else {
        tokens_after(rest.skip(1), cur.push(rest[0]), quoted, in_quote)
    }
}

/// The tokens of an input, each with whether a quote stood in it.
pub open spec fn tokens(input: Seq<char>) -> Seq<(Seq<char>, bool)> {
    tokens_after(input, Seq::empty(), false, false)
}

/// The texts and marks of a row of tokens.
pub open spec fn token_views(v: Seq<(Vec<char>, bool)>) -> Seq<(Seq<char>, bool)> {
    Seq::new(v.len(), |i: int| (v[i].0@, v[i].1))
}

/// Splits an input into tokens, each with whether a quote stood in it.
pub fn tokenize(input: &str) -> (out: Vec<(Vec<char>, bool)>)
    ensures
        token_views(out@) == tokens(input@),
{
    let chars: Vec<char> = chars_of(input);
    let n: usize = chars.len();
    let mut out: Vec<(Vec<char>, bool)> = Vec::new();
    let mut cur: Vec<char> = Vec::new();
    let mut quoted: bool = false;
    let mut in_quote: bool = false;
    let mut i: usize = 0;
    assert(chars@.skip(0) =~= input@);
    assert(cur@ =~= Seq::empty());
    assert(token_views(out@) + tokens(input@) =~= tokens(input@));
    while i < n
        invariant
            n == chars@.len(),
            i <= n,
            token_views(out@) + tokens_after(chars@.skip(i as int), cur@, quoted, in_quote) == tokens(input@),
        decreases n - i,
    {
        let ghost rest = chars@.skip(i as int);
        let ghost before = token_views(out@);
        let ghost done = finished(cur@, quoted);
        assert(rest[0] == chars@[i as int]);
        assert(rest.skip(1) =~= chars@.skip(i + 1));
        let ch: char = chars[i];
        if ch == '"' {
            in_quote = !in_quote;
            quoted = true;
        } else if is_white_space(ch) && !in_quote {
            let mut tok: Vec<char> = Vec::new();
            std::mem::swap(&mut tok, &mut cur);
            if !tok.is_empty() {
                out.push((tok, quoted));
                assert(token_views(out@) =~= before + done);
            } else {
                assert(before + done =~= before);
            }
            quoted = false;
            assert(cur@ =~= Seq::empty());
            assert((before + done) + tokens_after(rest.skip(1), Seq::empty(), false, in_quote) =~= before + (done
                + tokens_after(rest.skip(1), Seq::empty(), false, in_quote)));
        } else {
            cur.push(ch);
        }
        i += 1;
    }
    assert(chars@.skip(n as int).len() == 0);
    let ghost before = token_views(out@);
    let ghost done = finished(cur@, quoted);
    if !cur.is_empty() {
        out.push((cur, quoted));
        assert(token_views(out@) =~= before + done);
    } else {
        assert(before + done =~= before);
    }
    out
}

pub open spec fn is_letter(c: char) -> bool {
    'a' <= c <= 'z' || 'A' <= c <= 'Z'
}

/// The head and the value of a token of the form `head:value`, the head being
/// one or more ASCII letters.
pub open spec fn prefix_of(tok: Seq<char>) -> Option<(Seq<char>, Seq<char>)> {
    let at = text::first_at(tok, ':');
    if 0 < at < tok.len() && forall|i: int| 0 <= i < at ==> is_letter(#[trigger] tok[i]) {
        Some((tok.subrange(0, at), tok.skip(at + 1)))
    } else {
        None
    }
}

fn split_prefix(tok: &[char]) -> (r: Option<(Vec<char>, Vec<char>)>)
    ensures
        match r {
            Some((head, val)) => prefix_of(tok@) == Some((head@, val@)),
            None => prefix_of(tok@) is None,
        },
{
    let n: usize = tok.len();
    let at: usize = find_char(tok, ':');
    if at == 0 || at == n {
        return None;
    }
    let mut i: usize = 0;
    while i < at
        invariant
            n == tok@.len(),
            i <= at < n,
            at == text::first_at(tok@, ':'),
            forall|j: int| 0 <= j < i ==> is_letter(#[trigger] tok@[j]),
        decreases at - i,
    {
        let c: char = tok[i];
        if !(('a' <= c && c <= 'z') || ('A' <= c && c <= 'Z')) {
            assert(!is_letter(tok@[i as int]));
            return None;
        }
        i += 1;
    }
    assert(tok@.subrange(at + 1, n as int) =~= tok@.skip(at + 1));
    Some((part(tok, 0, at), part(tok, at + 1, n)))
}

// ---- extensions ---------------------------------------------------------------

/// The text without the dots that lead it.
pub open spec fn without_dots(s: Seq<char>) -> Seq<char>
    decreases s.len(),
{
    if s.len() > 0 && s[0] == '.' {
        without_dots(s.skip(1))
    } else {
        s
    }
}

/// What a piece between commas adds to the extensions.
pub open spec fn extension(piece: Seq<char>) -> Seq<Seq<char>> {
    if piece.len() == 0 {
        Seq::empty()
    } else {
        seq![text::lower_chars(without_dots(piece))]
    }
}

/// The extensions in the rest of a list, of which `cur` was already read.
pub open spec fn extensions_after(rest: Seq<char>, cur: Seq<char>) -> Seq<Seq<char>>
    decreases rest.len(),
{
    if rest.len() == 0 {
        extension(cur)
    } else if rest[0] == ',' {
        extension(cur) + extensions_after(rest.skip(1), Seq::empty())
    } else {
        extensions_after(rest.skip(1), cur.push(rest[0]))
    }
}

/// The texts of a row of strings.
pub open spec fn string_views(v: Seq<String>) -> Seq<Seq<char>> {
    Seq::new(v.len(), |i: int| v[i]@)
}

/// One extension: without leading dots, in lower case.
fn clean_extension(piece: &[char]) -> (r: String)
    ensures
        r@ == text::lower_chars(without_dots(piece@)),
{
    let n: usize = piece.len();
    let mut from: usize = 0;
    assert(piece@.skip(0) =~= piece@);
    while from < n && piece[from] == '.'
        invariant
            n == piece@.len(),
            from <= n,
            without_dots(piece@) == without_dots(piece@.skip(from as int)),
        decreases n - from,
    {
        assert(piece@.skip(from as int)[0] == piece@[from as int]);
        assert(piece@.skip(from as int).skip(1) =~= piece@.skip(from + 1));
        from += 1;
    }
    proof {
        let rest = piece@.skip(from as int);
        if from < n {
            assert(rest[0] == piece@[from as int]);
        }
        assert(without_dots(rest) == rest);
        assert(piece@.subrange(from as int, n as int) =~= rest);
    }
    string_of(lowered(part(piece, from, n).as_slice()).as_slice())
}

fn push_extensions(val: &[char], exts: &mut Vec<String>)
    ensures
        string_views(final(exts)@) == string_views(old(exts)@) + extensions_after(val@, Seq::empty()),
{
    let ghost start = string_views(exts@);
    let ghost all = extensions_after(val@, Seq::empty());
    let n: usize = val.len();
    let mut cur: Vec<char> = Vec::new();
    let mut i: usize = 0;
    assert(val@.skip(0) =~= val@);
    assert(cur@ =~= Seq::empty());
    while i < n
        invariant
            n == val@.len(),
            i <= n,
            string_views(exts@) + extensions_after(val@.skip(i as int), cur@) == start + all,
        decreases n - i,
    {
        let ghost rest = val@.skip(i as int);
        let ghost before = string_views(exts@);
        let ghost piece = extension(cur@);
        assert(rest[0] == val@[i as int]);
        assert(rest.skip(1) =~= val@.skip(i + 1));
        if val[i] == ',' {
            if !cur.is_empty() {
                exts.push(clean_extension(cur.as_slice()));
                assert(string_views(exts@) =~= before + piece);
            } else {
                assert(before + piece =~= before);
            }
            cur = Vec::new();
            assert(cur@ =~= Seq::empty());
            assert((before + piece) + extensions_after(rest.skip(1), Seq::empty()) =~= before + (piece
                + extensions_after(rest.skip(1), Seq::empty())));
        } else {
            cur.push(val[i]);
        }
        i += 1;
    }
    assert(val@.skip(n as int).len() == 0);
    let ghost before = string_views(exts@);
    if !cur.is_empty() {
        exts.push(clean_extension(cur.as_slice()));
        assert(string_views(exts@) =~= before + extension(cur@));
    } else {
        assert(before + extension(cur@) =~= before);
    }
}

// ---- sizes ----------------------------------------------------------------------

/// The comparison that a size begins with, and what follows it.
pub open spec fn operator_of(val: Seq<char>) -> (Cmp, Seq<char>) {
    if text::begins(val, seq!['>', '=']) {
        (Cmp::Ge, val.skip(2))
    } else if text::begins(val, seq!['<', '=']) {
        (Cmp::Le, val.skip(2))
    } else if text::begins(val, seq!['>']) {
        (Cmp::Gt, val.skip(1))
    } else if text::begins(val, seq!['<']) {
        (Cmp::Lt, val.skip(1))
    } else if text::begins(val, seq!['=']) {
        (Cmp::Eq, val.skip(1))
    } else {
        (Cmp::Ge, val)
    }
}

/// How far digits and dots reach.
pub open spec fn number_end(s: Seq<char>) -> int
    decreases s.len(),
{
    if s.len() > 0 && (decimal::is_digit(s[0]) || s[0] == '.') {
        1 + number_end(s.skip(1))
    } else {
        0
    }
}

/// The power of two that a unit stands for.
pub open spec fn unit_shift(unit: Seq<char>) -> Option<nat> {
    if unit == ""@ || unit == "b"@ {
        Some(0)
    } else if unit == "k"@ || unit == "kb"@ || unit == "kib"@ {
        Some(10)
    } else if unit == "m"@ || unit == "mb"@ || unit == "mib"@ {
        Some(20)
    } else if unit == "g"@ || unit == "gb"@ || unit == "gib"@ {
        Some(30)
    } else if unit == "t"@ || unit == "tb"@ || unit == "tib"@ {
        Some(40)
    } else {
        None
    }
}

/// The filter that a size stands for, or what is wrong with it.
pub open spec fn size_of(val: Seq<char>) -> Result<SizeFilter, Seq<char>> {
    let (op, after) = operator_of(val);
    let rest = text::trim(after);
    let end = number_end(rest);
    let number = rest.subrange(0, end);
    let unit = text::lower_chars(text::trim(rest.skip(end)));
    if !decimal::is_decimal(number) {
        Err("invalid size: "@ + outside::debug_text_of(val))
    } else {
        match unit_shift(unit) {
            Some(shift) => Ok(SizeFilter { op, bytes: decimal::scaled_whole(number, shift) }),
            None => Err("unknown size unit: "@ + outside::debug_text_of(unit)),
        }
    }
}

fn find_operator(val: &[char]) -> (r: (Cmp, usize))
    ensures
        r.1 <= val@.len(),
        operator_of(val@) == (r.0, val@.skip(r.1 as int)),
{
    assert(val@.skip(0) =~= val@);
    let ge: Vec<char> = vec!['>', '='];
    let le: Vec<char> = vec!['<', '='];
    let gt: Vec<char> = vec!['>'];
    let lt: Vec<char> = vec!['<'];
    let eq: Vec<char> = vec!['='];
    assert(ge@ =~= seq!['>', '=']);
    assert(le@ =~= seq!['<', '=']);
    assert(gt@ =~= seq!['>']);
    assert(lt@ =~= seq!['<']);
    assert(eq@ =~= seq!['=']);
    if begins_with(val, ge.as_slice()) {
        (Cmp::Ge, 2)
    } else if begins_with(val, le.as_slice()) {
        (Cmp::Le, 2)
    } else if begins_with(val, gt.as_slice()) {
        (Cmp::Gt, 1)
    } else if begins_with(val, lt.as_slice()) {
        (Cmp::Lt, 1)
    } else if begins_with(val, eq.as_slice()) {
        (Cmp::Eq, 1)
    } else {
        (Cmp::Ge, 0)
    }
}

fn find_number_end(s: &[char]) -> (end: usize)
    ensures
        end == number_end(s@),
        end <= s@.len(),
{
    let n: usize = s.len();
    let mut i: usize = 0;
    assert(s@.skip(0) =~= s@);
    while i < n
        invariant
            n == s@.len(),
            i <= n,
            number_end(s@) == i + number_end(s@.skip(i as int)),
        decreases n - i,
    {
        assert(s@.skip(i as int)[0] == s@[i as int]);
        assert(s@.skip(i as int).skip(1) =~= s@.skip(i + 1));
        let c: char = s[i];
        if !(('0' <= c && c <= '9') || c == '.') {
            return i;
        }
        i += 1;
    }
    assert(s@.skip(n as int).len() == 0);
    n
}

fn find_unit(unit: &[char]) -> (r: Option<u32>)
    ensures
        match r {
            Some(shift) => unit_shift(unit@) == Some(shift as nat) && shift <= 40,
            None => unit_shift(unit@) is None,
        },
{
    if is_word(unit, "") || is_word(unit, "b") {
        Some(0)
    } else if is_word(unit, "k") || is_word(unit, "kb") || is_word(unit, "kib") {
        Some(10)
    } else if is_word(unit, "m") || is_word(unit, "mb") || is_word(unit, "mib") {
        Some(20)
    } else if is_word(unit, "g") || is_word(unit, "gb") || is_word(unit, "gib") {
        Some(30)
    } else if is_word(unit, "t") || is_word(unit, "tb") || is_word(unit, "tib") {
        Some(40)
    } else {
        None
    }
}

/// Reads a size: an optional comparison, a decimal number and an optional unit.
pub fn parse_size(val: &[char]) -> (r: Result<SizeFilter, String>)
    ensures
        match r {
            Ok(f) => size_of(val@) == Ok::<SizeFilter, Seq<char>>(f),
            Err(e) => size_of(val@) == Err::<SizeFilter, Seq<char>>(e@),
        },
{
    let (op, skip) = find_operator(val);
    let n: usize = val.len();
    assert(val@.subrange(skip as int, n as int) =~= val@.skip(skip as int));
    let rest: Vec<char> = trimmed(part(val, skip, n).as_slice());
    let end: usize = find_number_end(rest.as_slice());
    let number: Vec<char> = part(rest.as_slice(), 0, end);
    assert(rest@.subrange(end as int, rest@.len() as int) =~= rest@.skip(end as int));
    let unit: Vec<char> = lowered(trimmed(part(rest.as_slice(), end, rest.len()).as_slice()).as_slice());
    match decimal::scaled(number.as_slice(), 0) {
        None => {
            return Err(joined("invalid size: ", debug_text(string_of(val).as_str()).as_str()));
        },
        Some(_) => {},
    }
    match find_unit(unit.as_slice()) {
        None => Err(joined("unknown size unit: ", debug_text(string_of(unit.as_slice()).as_str()).as_str())),
        Some(shift) => match decimal::scaled(number.as_slice(), shift) {
            Some(bytes) => Ok(SizeFilter { op, bytes }),
            None => Err(joined("invalid size: ", debug_text(string_of(val).as_str()).as_str())),
        },
    }
}

// ---- queries ----------------------------------------------------------------------

/// What an input asks for.
pub struct Request {
    pub terms: Seq<Seq<char>>,
    pub exts: Seq<Seq<char>>,
    pub size: Option<SizeFilter>,
    pub kind: Option<Kind>,
    pub regex: Option<Seq<char>>,
    pub regex_on_path: bool,
    pub error: Option<Seq<char>>,
}

impl Request {
    pub open spec fn nothing() -> Request {
        Request {
            terms: Seq::empty(),
            exts: Seq::empty(),
            size: None,
            kind: None,
            regex: None,
            regex_on_path: false,
            error: None,
        }
    }

    /// One more term, unless it is empty.
    pub open spec fn with_term(self, text: Seq<char>) -> Request {
        if text.len() == 0 {
            self
        } else {
            Request { terms: self.terms.push(text), ..self }
        }
    }

    /// What one more token adds.
    pub open spec fn with_token(self, tok: Seq<char>, quoted: bool) -> Request {
        match (quoted, prefix_of(tok)) {
            (false, Some((head, val))) => if head == "ext"@ {
                Request { exts: self.exts + extensions_after(val, Seq::empty()), ..self }
            } else if head == "size"@ {
                match size_of(val) {
                    Ok(f) => Request { size: Some(f), ..self },
                    Err(e) => Request { error: Some(e), ..self },
                }
            } else if head == "dir"@ {
                Request { kind: Some(Kind::Dir), ..self }.with_term(val)
            } else if head == "file"@ {
                Request { kind: Some(Kind::File), ..self }.with_term(val)
            } else if head == "re"@ {
                let placed = Request { regex_on_path: val.contains('/'), ..self };
                match outside::pattern_error(val) {
                    None => Request { regex: Some(val), ..placed },
                    Some(e) => Request { error: Some("invalid regex: "@ + e), ..placed },
                }
            } else {
                self.with_term(tok)
            },
            _ => self.with_term(tok),
        }
    }

    /// What a row of tokens adds.
    pub open spec fn with_tokens(self, toks: Seq<(Seq<char>, bool)>) -> Request
        decreases toks.len(),
    {
        if toks.len() == 0 {
            self
        } else {
            self.with_tokens(toks.drop_last()).with_token(toks.last().0, toks.last().1)
        }
    }
}

/// What an input asks for.
pub open spec fn request_of(input: Seq<char>) -> Request {
    Request::nothing().with_tokens(tokens(input))
}

/// The prefilter bits that all of some byte strings share; none for no byte
/// strings.
pub open spec fn shared_bits(literals: Option<Seq<Seq<u8>>>) -> (u64, u32) {
    match literals {
        Some(l) => if l.len() == 0 {
            (0, 0)
        } else {
            (shared_sig(l), shared_sig2(l))
        },
        None => (0, 0),
    }
}

pub open spec fn shared_sig(l: Seq<Seq<u8>>) -> u64
    decreases l.len(),
{
    if l.len() == 0 {
        u64::MAX
    } else {
        shared_sig(l.drop_last()) & model::signature_of(l.last())
    }
}

pub open spec fn shared_sig2(l: Seq<Seq<u8>>) -> u32
    decreases l.len(),
{
    if l.len() == 0 {
        u32::MAX
    } else {
        shared_sig2(l.drop_last()) & model::signature2_of(l.last())
    }
}

#[derive(Debug)]
pub struct Query {
    pub raw: String,
    pub terms: Vec<Term>,
    pub exts: Vec<String>,
    pub size: Option<SizeFilter>,
    pub kind: Option<Kind>,
    pub regex: Option<regex::bytes::Regex>,
    pub regex_on_path: bool,
    pub error: Option<String>,
    /// Bits any string matching the regex must contain (0 = no filter).
    pub regex_sig: u64,
    pub regex_sig2: u32,
}

impl Default for Query {
    fn default() -> (r: Self)
        ensures
            r.raw@ == Seq::<char>::empty(),
            r.is_for(Request::nothing()),
            r.wf(),
    {
        let r = Query {
            raw: String::new(),
            terms: Vec::new(),
            exts: Vec::new(),
            size: None,
            kind: None,
            regex: None,
            regex_on_path: false,
            error: None,
            regex_sig: 0,
            regex_sig2: 0,
        };
        assert(string_views(r.exts@) =~= Seq::empty());
        r
    }
}

/// The bytes of the extensions.
pub open spec fn ext_bytes(exts: Seq<String>) -> Seq<Seq<u8>> {
    Seq::new(exts.len(), |i: int| vstd::utf8::encode_utf8(exts[i]@))
}

/// The bits of the ASCII terms that are looked for in names.
pub open spec fn term_bits(terms: Seq<Term>) -> (u64, u32)
    decreases terms.len(),
{
    if terms.len() == 0 {
        (0, 0)
    } else {
        let rest = term_bits(terms.drop_last());
        let t = terms.last();
        if !t.on_path && t.ascii {
            (rest.0 | t.sig, rest.1 | t.sig2)
        } else {
            rest
        }
    }
}

impl Query {
    /// The bits that every match of the regex has.
    pub open spec fn regex_bits(self) -> (u64, u32) {
        (self.regex_sig, self.regex_sig2)
    }

    /// The terms are well formed, and the regex's bits are in every match.
    pub open spec fn wf(self) -> bool {
        &&& forall|i: int| 0 <= i < self.terms@.len() ==> (#[trigger] self.terms@[i]).wf()
        &&& match self.regex {
            Some(re) => forall|hay: Seq<u8>| #[trigger]
                outside::regex_accepts(re, hay) ==> {
                    &&& model::bits_within(self.regex_bits().0, model::signature_of(hay))
                    &&& model::bits_within2(self.regex_bits().1, model::signature2_of(hay))
                },
            None => self.regex_bits() == (0u64, 0u32),
        }
    }

    /// The query asks for what the request says.
    pub open spec fn is_for(self, r: Request) -> bool {
        &&& self.terms@.len() == r.terms.len()
        &&& forall|i: int| 0 <= i < self.terms@.len() ==> (#[trigger] self.terms@[i]).is_of(r.terms[i])
        &&& string_views(self.exts@) == r.exts
        &&& self.size == r.size
        &&& self.kind == r.kind
        &&& match r.regex {
            Some(pattern) => {
                &&& self.regex matches Some(re) && forall|hay: Seq<u8>| #[trigger]
                    outside::regex_accepts(re, hay) == outside::pattern_accepts(pattern, hay)
                &&& self.regex_bits() == shared_bits(outside::prefix_literals(pattern))
            },
            None => self.regex is None && self.regex_bits() == (0u64, 0u32),
        }
        &&& self.regex_on_path == r.regex_on_path
        &&& match r.error {
            Some(e) => self.error matches Some(s) && s@ == e,
            None => self.error is None,
        }
    }

    /// Reads a query.
    pub fn parse(input: &str) -> (q: Query)
        ensures
            q.raw@ == input@,
            q.is_for(request_of(input@)),
            q.wf(),
    {
        let mut q: Query = Query::default();
        q.raw = input.to_owned();
        let toks: Vec<(Vec<char>, bool)> = tokenize(input);
        let ghost all = tokens(input@);
        let n: usize = toks.len();
        let mut i: usize = 0;
        assert(all.subrange(0, 0).len() == 0);
        while i < n
            invariant
                n == toks@.len(),
                i <= n,
                all == token_views(toks@),
                q.raw@ == input@,
                q.wf(),
                q.is_for(Request::nothing().with_tokens(all.subrange(0, i as int))),
            decreases n - i,
        {
            let ghost before = Request::nothing().with_tokens(all.subrange(0, i as int));
            proof {
                let next = all.subrange(0, i + 1);
                assert(next.drop_last() =~= all.subrange(0, i as int));
                assert(next.last() == (toks@[i as int].0@, toks@[i as int].1));
            }
            q.take_token(toks[i].0.as_slice(), toks[i].1, Ghost(before));
            i += 1;
        }
        assert(all.subrange(0, n as int) =~= all);
        q
    }

    /// One more term, unless it is empty.
    fn push_term(&mut self, text: &[char], Ghost(r): Ghost<Request>)
        requires
            old(self).wf(),
            old(self).is_for(r),
        ensures
            final(self).wf(),
            final(self).raw == old(self).raw,
            final(self).is_for(r.with_term(text@)),
    {
        let ghost before = self.terms@;
        match Term::new(text) {
            Some(t) => {
                self.terms.push(t);
                assert forall|i: int| 0 <= i < self.terms@.len() implies (#[trigger] self.terms@[i]).is_of(
                    r.with_term(text@).terms[i],
                ) by {
                    if i < before.len() {
                        assert(self.terms@[i] == before[i]);
                    }
                }
                assert forall|i: int| 0 <= i < self.terms@.len() implies (#[trigger] self.terms@[i]).wf() by {
                    if i < before.len() {
                        assert(self.terms@[i] == before[i]);
                    }
                }
            },
            None => {},
        }
    }

    /// What one more token adds.
    fn take_token(&mut self, tok: &[char], quoted: bool, Ghost(r): Ghost<Request>)
        requires
            old(self).wf(),
            old(self).is_for(r),
        ensures
            final(self).wf(),
            final(self).raw == old(self).raw,
            final(self).is_for(r.with_token(tok@, quoted)),
    {
        if quoted {
            self.push_term(tok, Ghost(r));
            return;
        }
        match split_prefix(tok) {
            None => {
                self.push_term(tok, Ghost(r));
            },
            Some((head, val)) => {
                if is_word(head.as_slice(), "ext") {
                    push_extensions(val.as_slice(), &mut self.exts);
                } else if is_word(head.as_slice(), "size") {
                    match parse_size(val.as_slice()) {
                        Ok(f) => {
                            self.size = Some(f);
                        },
                        Err(e) => {
                            self.error = Some(e);
                        },
                    }
                } else if is_word(head.as_slice(), "dir") {
                    self.kind = Some(Kind::Dir);
                    self.push_term(val.as_slice(), Ghost(Request { kind: Some(Kind::Dir), ..r }));
                } else if is_word(head.as_slice(), "file") {
                    self.kind = Some(Kind::File);
                    self.push_term(val.as_slice(), Ghost(Request { kind: Some(Kind::File), ..r }));
                } else if is_word(head.as_slice(), "re") {
                    self.regex_on_path = has_char(val.as_slice(), '/');
                    let pattern: String = string_of(val.as_slice());
                    match regex_compile(pattern.as_str()) {
                        Ok(re) => {
                            let (sig, sig2) = regex_signature(pattern.as_str());
                            self.regex_sig = sig;
                            self.regex_sig2 = sig2;
                            self.regex = Some(re);
                        },
                        Err(e) => {
                            self.error = Some(joined("invalid regex: ", e.as_str()));
                        },
                    }
                } else {
                    self.push_term(tok, Ghost(r));
                }
            },
        }
    }

    /// Nothing to look for.
    pub open spec fn asks_nothing(self) -> bool {
        &&& self.terms@.len() == 0
        &&& self.exts@.len() == 0
        &&& self.size is None
        &&& self.kind is None
        &&& self.regex is None
    }

    pub fn is_empty(&self) -> (r: bool)
        ensures
            r == self.asks_nothing(),
    {
        self.terms.is_empty() && self.exts.is_empty() && self.size.is_none() && self.kind.is_none()
            && self.regex.is_none()
    }

    /// The bits that every candidate name must have.
    pub open spec fn needed_bits(self) -> (u64, u32) {
        let t = term_bits(self.terms@);
        let dot = model::signature_of(seq![46u8]);
        let e = if self.exts@.len() == 0 {
            t
        } else {
            (
                t.0 | (shared_sig(ext_bytes(self.exts@)) | dot),
                t.1 | shared_sig2(ext_bytes(self.exts@)),
            )
        };
        if self.regex_on_path {
            e
        } else {
            (e.0 | self.regex_bits().0, e.1 | self.regex_bits().1)
        }
    }

    /// Bits every candidate name must have set. Combines the name terms, the
    /// extension filter (bits shared by every accepted extension, plus the dot)
    /// and the regex's required literals.
    pub fn name_sig(&self) -> (r: (u64, u32))
        ensures
            r == self.needed_bits(),
    {
        let mut sig: u64 = 0;
        let mut sig2: u32 = 0;
        let n: usize = self.terms.len();
        let mut i: usize = 0;
        assert(self.terms@.subrange(0, 0).len() == 0);
        while i < n
            invariant
                n == self.terms@.len(),
                i <= n,
                (sig, sig2) == term_bits(self.terms@.subrange(0, i as int)),
            decreases n - i,
        {
            proof {
                let next = self.terms@.subrange(0, i + 1);
                assert(next.drop_last() =~= self.terms@.subrange(0, i as int));
                assert(next.last() == self.terms@[i as int]);
            }
            let t: &Term = &self.terms[i];
            if !t.on_path && t.ascii {
                sig = sig | t.sig;
                sig2 = sig2 | t.sig2;
            }
            i += 1;
        }
        assert(self.terms@.subrange(0, n as int) =~= self.terms@);
        if !self.exts.is_empty() {
            let mut common: u64 = u64::MAX;
            let mut common2: u32 = u32::MAX;
            let m: usize = self.exts.len();
            let ghost all = ext_bytes(self.exts@);
            let mut j: usize = 0;
            assert(all.subrange(0, 0).len() == 0);
            while j < m
                invariant
                    m == self.exts@.len(),
                    j <= m,
                    all == ext_bytes(self.exts@),
                    common == shared_sig(all.subrange(0, j as int)),
                    common2 == shared_sig2(all.subrange(0, j as int)),
                decreases m - j,
            {
                let e: &[u8] = self.exts[j].as_str().as_bytes();
                proof {
                    let next = all.subrange(0, j + 1);
                    assert(next.drop_last() =~= all.subrange(0, j as int));
                    assert(next.last() == e@);
                }
                common = common & signature(e);
                common2 = common2 & signature2(e);
                j += 1;
            }
            assert(all.subrange(0, m as int) =~= all);
            let dot: Vec<u8> = vec![46u8];
            assert(dot@ =~= seq![46u8]);
            sig = sig | (common | signature(dot.as_slice()));
            sig2 = sig2 | common2;
        }
        if !self.regex_on_path {
            sig = sig | self.regex_sig;
            sig2 = sig2 | self.regex_sig2;
        }
        (sig, sig2)
    }

    /// Some term is looked for in paths.
    pub open spec fn some_path_term(self) -> bool {
        exists|i: int| 0 <= i < self.terms@.len() && (#[trigger] self.terms@[i]).on_path
    }

    pub(crate) fn any_path_term(&self) -> (r: bool)
        ensures
            r == self.some_path_term(),
    {
        let n: usize = self.terms.len();
        let mut i: usize = 0;
        while i < n
            invariant
                n == self.terms@.len(),
                i <= n,
                forall|j: int| 0 <= j < i ==> !(#[trigger] self.terms@[j]).on_path,
            decreases n - i,
        {
            if self.terms[i].on_path {
                assert(self.terms@[i as int].on_path);
                return true;
            }
            i += 1;
        }
        false
    }

    pub fn has_path_terms(&self) -> (r: bool)
        ensures
            r == (self.regex_on_path || self.some_path_term()),
    {
        self.regex_on_path || self.any_path_term()
    }

    /// Nothing but terms that are looked for in names.
    pub open spec fn only_name_terms(self) -> bool {
        &&& self.exts@.len() == 0
        &&& self.size is None
        &&& self.kind is None
        &&& self.regex is None
        &&& !self.some_path_term()
    }

    fn plain_terms_only(&self) -> (r: bool)
        ensures
            r == self.only_name_terms(),
    {
        self.exts.is_empty() && self.size.is_none() && self.kind.is_none() && self.regex.is_none()
            && !self.any_path_term()
    }

    /// A term of `self` is matched in the same way as `t`, and contains it. An ASCII
    /// term is matched by bytes, any other in the name's lower case: which characters
    /// become an ASCII letter there (`\u{212A}` becomes a `k`) is not stated of
    /// [`outside::lowercase_of_char`], so neither kind is taken to lie in the other.
    pub open spec fn has_longer_term(self, t: Term) -> bool {
        exists|j: int|
            0 <= j < self.terms@.len() && (#[trigger] self.terms@[j]).ascii == t.ascii && bytestr::contains(
                self.terms@[j].lower@,
                t.lower@,
            )
    }

    /// `self` narrows `prev`: it was typed on behind it, both are made of name
    /// terms alone, and each term of `prev` lies in a term of `self`.
    pub open spec fn narrows(self, prev: Query) -> bool {
        &&& !prev.asks_nothing()
        &&& prev.error is None
        &&& text::begins(self.raw@, prev.raw@)
        &&& self.only_name_terms()
        &&& prev.only_name_terms()
        &&& forall|i: int| 0 <= i < prev.terms@.len() ==> self.has_longer_term(#[trigger] prev.terms@[i])
    }

    fn covers(&self, t: &Term) -> (r: bool)
        ensures
            r == self.has_longer_term(*t),
    {
        let n: usize = self.terms.len();
        let mut j: usize = 0;
        while j < n
            invariant
                n == self.terms@.len(),
                j <= n,
                forall|k: int|
                    0 <= k < j ==> !((#[trigger] self.terms@[k]).ascii == t.ascii && bytestr::contains(
                        self.terms@[k].lower@,
                        t.lower@,
                    )),
            decreases n - j,
        {
            let own: &Term = &self.terms[j];
            if own.ascii == t.ascii && find_sub(own.lower.as_slice(), t.lower.as_slice()).is_some() {
                assert(bytestr::contains(self.terms@[j as int].lower@, t.lower@));
                return true;
            }
            j += 1;
        }
        false
    }

    /// True when every match of `self` is guaranteed to also match `prev`, so a
    /// search can filter the previous result set instead of rescanning.
    pub fn refines(&self, prev: &Query) -> (r: bool)
        ensures
            r == self.narrows(*prev),
    {
        if prev.is_empty() || prev.error.is_some() || !begins_with(
            chars_of(self.raw.as_str()).as_slice(),
            chars_of(prev.raw.as_str()).as_slice(),
        ) || !self.plain_terms_only() || !prev.plain_terms_only() {
            return false;
        }
        let n: usize = prev.terms.len();
        let mut i: usize = 0;
        while i < n
            invariant
                n == prev.terms@.len(),
                i <= n,
                forall|k: int| 0 <= k < i ==> self.has_longer_term(#[trigger] prev.terms@[k]),
            decreases n - i,
        {
            if !self.covers(&prev.terms[i]) {
                assert(!self.has_longer_term(prev.terms@[i as int]));
                return false;
            }
            i += 1;
        }
        true
    }
}

/// Some byte strings, where there are any.
pub open spec fn literal_views(literals: Option<Vec<Vec<u8>>>) -> Option<Seq<Seq<u8>>> {
    match literals {
        Some(l) => Some(path::views(l@)),
        None => None,
    }
}

/// The prefilter bits that all of some byte strings share; none for no byte
/// strings.
pub fn shared_signature(literals: &Option<Vec<Vec<u8>>>) -> (r: (u64, u32))
    ensures
        r == shared_bits(literal_views(*literals)),
{
    let list: &Vec<Vec<u8>> = match literals {
        None => {
            return (0, 0);
        },
        Some(l) => l,
    };
    let ghost all = path::views(list@);
    let n: usize = list.len();
    if n == 0 {
        return (0, 0);
    }
    let mut sig: u64 = u64::MAX;
    let mut sig2: u32 = u32::MAX;
    let mut i: usize = 0;
    assert(all.subrange(0, 0).len() == 0);
    while i < n
        invariant
            n == list@.len(),
            i <= n,
            all == path::views(list@),
            sig == shared_sig(all.subrange(0, i as int)),
            sig2 == shared_sig2(all.subrange(0, i as int)),
        decreases n - i,
    {
        proof {
            let next = all.subrange(0, i + 1);
            assert(next.drop_last() =~= all.subrange(0, i as int));
            assert(next.last() == list@[i as int]@);
        }
        sig = sig & signature(list[i].as_slice());
        sig2 = sig2 & signature2(list[i].as_slice());
        i += 1;
    }
    assert(all.subrange(0, n as int) =~= all);
    (sig, sig2)
}

/// Bits shared by every possible prefix of a regex match, used to prefilter the
/// scan. Returns 0 when the pattern has no usable literals.
fn regex_signature(pattern: &str) -> (r: (u64, u32))
    ensures
        r == shared_bits(outside::prefix_literals(pattern@)),
        forall|hay: Seq<u8>| #[trigger]
            outside::pattern_accepts(pattern@, hay) ==> model::bits_within(r.0, model::signature_of(hay))
                && model::bits_within2(r.1, model::signature2_of(hay)),
{
    let literals: Option<Vec<Vec<u8>>> = regex_prefix_literals(pattern);
    let r: (u64, u32) = shared_signature(&literals);
    proof {
        assert forall|hay: Seq<u8>| #[trigger] outside::pattern_accepts(pattern@, hay) implies
            model::bits_within(r.0, model::signature_of(hay)) && model::bits_within2(
            r.1,
            model::signature2_of(hay),
        ) by {
            match literals {
                Some(ref l) => {
                    let all = path::views(l@);
                    if l@.len() > 0 {
                        let k = choose|k: int| 0 <= k < l@.len() && bytestr::contains(hay, #[trigger] l@[k]@);
                        lemma_shared_within(all, k);
                        lemma_contains_ci(hay, l@[k]@);
                        model::law_prefilter_is_sound(hay, l@[k]@);
                        model::lemma_bits(r.0, model::signature_of(all[k]), model::signature_of(hay));
                        model::lemma_bits2(r.1, model::signature2_of(all[k]), model::signature2_of(hay));
                    } else {
                        model::lemma_bits(model::signature_of(hay), 0, 0);
                        model::lemma_bits2(model::signature2_of(hay), 0, 0);
                    }
                },
                None => {
                    model::lemma_bits(model::signature_of(hay), 0, 0);
                    model::lemma_bits2(model::signature2_of(hay), 0, 0);
                },
            }
        }
    }
    r
}

/// What occurs byte for byte occurs up to case.
pub(crate) proof fn lemma_contains_ci(hay: Seq<u8>, needle: Seq<u8>)
    requires
        bytestr::contains(hay, needle),
    ensures
        bytestr::contains_ci(hay, needle),
{
    let at = choose|at: int| bytestr::occurs(hay, needle, at);
    assert(bytestr::occurs_ci(hay, needle, at));
}

/// The bits that byte strings share are bits of each of them.
pub(crate) proof fn lemma_shared_within(l: Seq<Seq<u8>>, k: int)
    requires
        0 <= k < l.len(),
    ensures
        model::bits_within(shared_sig(l), model::signature_of(l[k])),
        model::bits_within2(shared_sig2(l), model::signature2_of(l[k])),
    decreases l.len(),
{
    let rest = l.drop_last();
    let (a, b) = (shared_sig(rest), model::signature_of(l.last()));
    let (a2, b2) = (shared_sig2(rest), model::signature2_of(l.last()));
    if k == l.len() - 1 {
        assert(b & (a & b) == a & b) by (bit_vector);
        assert(b2 & (a2 & b2) == a2 & b2) by (bit_vector);
    } else {
        lemma_shared_within(rest, k);
        model::lemma_bits(a, b, model::signature_of(l[k]));
        model::lemma_bits2(a2, b2, model::signature2_of(l[k]));
    }
}

} // verus!
