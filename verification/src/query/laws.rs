//! What holds of the query language, told over whole inputs.

use vstd::prelude::*;

use crate::decimal;
use crate::decimal::exact;
use crate::outside;
use crate::query;
use crate::query::{Cmp, Kind, Request, SizeFilter};
use crate::text;
use crate::text::laws as splitting;

verus! {

// ---- comparisons ----------------------------------------------------------

/// The comparisons as relations of numbers: `<` is the contrary of `>=` and `>` of
/// `<=`; `<=` is `<` or `=`, and `>=` is `>` or `=`; `=` takes its own number alone.
pub proof fn law_size_comparisons(bytes: u64, size: u64)
    ensures
        (SizeFilter { op: Cmp::Lt, bytes }).admits(size) <==> !(SizeFilter { op: Cmp::Ge, bytes }).admits(size),
        (SizeFilter { op: Cmp::Gt, bytes }).admits(size) <==> !(SizeFilter { op: Cmp::Le, bytes }).admits(size),
        (SizeFilter { op: Cmp::Le, bytes }).admits(size) <==> (SizeFilter { op: Cmp::Lt, bytes }).admits(size) || (
        SizeFilter { op: Cmp::Eq, bytes }).admits(size),
        (SizeFilter { op: Cmp::Ge, bytes }).admits(size) <==> (SizeFilter { op: Cmp::Gt, bytes }).admits(size) || (
        SizeFilter { op: Cmp::Eq, bytes }).admits(size),
        (SizeFilter { op: Cmp::Eq, bytes }).admits(size) <==> size == bytes,
        bytes > 0 ==> (SizeFilter { op: Cmp::Lt, bytes }).admits(0),
        bytes < u64::MAX ==> (SizeFilter { op: Cmp::Gt, bytes }).admits(u64::MAX),
{
}

/// What is smaller than an admitted size is admitted by `<` and `<=`; what is greater
/// by `>` and `>=`.
pub proof fn law_size_comparisons_are_closed(bytes: u64, size: u64, other: u64)
    ensures
        (SizeFilter { op: Cmp::Lt, bytes }).admits(size) && other <= size ==> (SizeFilter {
            op: Cmp::Lt,
            bytes,
        }).admits(other),
        (SizeFilter { op: Cmp::Le, bytes }).admits(size) && other <= size ==> (SizeFilter {
            op: Cmp::Le,
            bytes,
        }).admits(other),
        (SizeFilter { op: Cmp::Gt, bytes }).admits(size) && other >= size ==> (SizeFilter {
            op: Cmp::Gt,
            bytes,
        }).admits(other),
        (SizeFilter { op: Cmp::Ge, bytes }).admits(size) && other >= size ==> (SizeFilter {
            op: Cmp::Ge,
            bytes,
        }).admits(other),
{
}

// ---- words ------------------------------------------------------------------

/// A blank that parts words.
pub open spec fn is_gap(c: char) -> bool {
    c == ' ' || c == '\t' || c == '\n' || c == '\r' || c == '\u{b}' || c == '\u{c}' || c == '\u{85}' || c == '\u{a0}'
        || c == '\u{1680}' || '\u{2000}' <= c <= '\u{200a}' || c == '\u{2028}' || c == '\u{2029}' || c == '\u{202f}'
        || c == '\u{205f}' || c == '\u{3000}'
}

/// Something to read, with no blank and no quote in it.
pub open spec fn is_plain(s: Seq<char>) -> bool {
    forall|i: int| 0 <= i < s.len() ==> !is_gap(#[trigger] s[i]) && s[i] != '"'
}

pub open spec fn are_words(words: Seq<Seq<char>>) -> bool {
    forall|k: int| 0 <= k < words.len() ==> (#[trigger] words[k]).len() > 0 && is_plain(words[k])
}

/// The words, one behind the other, each followed by a space.
pub open spec fn spaced(words: Seq<Seq<char>>) -> Seq<char>
    decreases words.len(),
{
    if words.len() == 0 {
        Seq::empty()
    } else {
        words[0] + seq![' '] + spaced(words.skip(1))
    }
}

/// What parts words is what Unicode calls white space.
pub proof fn law_white_space(c: char)
    ensures
        text::is_white(c) <==> is_gap(c),
{
}

proof fn lemma_run(word: Seq<char>, tail: Seq<char>, cur: Seq<char>, quoted: bool)
    requires
        is_plain(word),
    ensures
        query::tokens_after(word + tail, cur, quoted, false) == query::tokens_after(tail, cur + word, quoted, false),
    decreases word.len(),
{
    if word.len() == 0 {
        assert(word + tail =~= tail);
        assert(cur + word =~= cur);
    } else {
        let all = word + tail;
        assert(all[0] == word[0]);
        assert(!is_gap(word[0]));
        law_white_space(word[0]);
        assert(all.skip(1) =~= word.skip(1) + tail);
        assert(cur.push(word[0]) + word.skip(1) =~= cur + word);
        assert(is_plain(word.skip(1)));
        lemma_run(word.skip(1), tail, cur.push(word[0]), quoted);
    }
}

proof fn lemma_quoted_run(phrase: Seq<char>, tail: Seq<char>, cur: Seq<char>)
    requires
        !phrase.contains('"'),
    ensures
        query::tokens_after(phrase + tail, cur, true, true) == query::tokens_after(tail, cur + phrase, true, true),
    decreases phrase.len(),
{
    if phrase.len() == 0 {
        assert(phrase + tail =~= tail);
        assert(cur + phrase =~= cur);
    } else {
        let all = phrase + tail;
        assert(all[0] == phrase[0]);
        assert(phrase.contains(phrase[0]));
        assert(all.skip(1) =~= phrase.skip(1) + tail);
        assert(cur.push(phrase[0]) + phrase.skip(1) =~= cur + phrase);
        assert(!phrase.skip(1).contains('"')) by {
            if phrase.skip(1).contains('"') {
                let k = choose|k: int| 0 <= k < phrase.skip(1).len() && phrase.skip(1)[k] == '"';
                assert(phrase[k + 1] == '"');
            }
        }
        lemma_quoted_run(phrase.skip(1), tail, cur.push(phrase[0]));
    }
}

/// A word alone is one token.
pub proof fn law_word_is_a_token(word: Seq<char>)
    requires
        word.len() > 0,
        is_plain(word),
    ensures
        query::tokens(word) == seq![(word, false)],
{
    lemma_run(word, Seq::empty(), Seq::empty(), false);
    assert(word + Seq::empty() =~= word);
    assert(Seq::<char>::empty() + word =~= word);
}

/// Blank-separated words are tokens, in order.
pub proof fn law_words_are_tokens(words: Seq<Seq<char>>)
    requires
        are_words(words),
    ensures
        query::tokens(spaced(words)).len() == words.len(),
        forall|k: int| 0 <= k < words.len() ==> #[trigger] query::tokens(spaced(words))[k] == (words[k], false),
    decreases words.len(),
{
    if words.len() > 0 {
        let word = words[0];
        let rest = words.skip(1);
        let tail = seq![' '] + spaced(rest);
        assert(words[0].len() > 0 && is_plain(words[0]));
        assert forall|k: int| 0 <= k < rest.len() implies (#[trigger] rest[k]).len() > 0 && is_plain(rest[k]) by {
            assert(words[k + 1].len() > 0);
        }
        law_words_are_tokens(rest);
        assert(spaced(words) =~= word + tail);
        lemma_run(word, tail, Seq::empty(), false);
        assert(Seq::<char>::empty() + word =~= word);
        assert(tail[0] == ' ');
        assert(text::is_white(' '));
        assert(tail.skip(1) =~= spaced(rest));
        assert(query::tokens_after(tail, word, false, false) == query::finished(word, false) + query::tokens(
            spaced(rest),
        ));
        assert forall|k: int| 0 <= k < words.len() implies #[trigger] query::tokens(spaced(words))[k] == (
            words[k],
            false,
        ) by {
            if k > 0 {
                assert(query::tokens(spaced(rest))[k - 1] == (rest[k - 1], false));
            }
        }
    }
}

/// Quotes keep blanks: a quoted phrase is one token, without the quotes.
pub proof fn law_quoted_phrase_is_a_token(phrase: Seq<char>)
    requires
        phrase.len() > 0,
        !phrase.contains('"'),
    ensures
        query::tokens(seq!['"'] + phrase + seq!['"']) == seq![(phrase, true)],
{
    let all = seq!['"'] + phrase + seq!['"'];
    assert(all[0] == '"');
    assert(all.skip(1) =~= phrase + seq!['"']);
    lemma_quoted_run(phrase, seq!['"'], Seq::empty());
    assert(Seq::<char>::empty() + phrase =~= phrase);
    assert(seq!['"'].skip(1) =~= Seq::empty());
    assert(query::tokens_after(Seq::empty(), phrase, true, false) == query::finished(phrase, true));
    assert(query::tokens_after(seq!['"'], phrase, true, true) == query::tokens_after(
        seq!['"'].skip(1),
        phrase,
        true,
        false,
    ));
}

// ---- what a token asks --------------------------------------------------------

/// The token is `head:value`.
pub open spec fn is_headed(tok: Seq<char>, head: Seq<char>) -> bool {
    tok.len() > head.len() && tok.subrange(0, head.len() as int) == head && tok[head.len() as int] == ':'
}

/// The token asks for something else than a name.
pub open spec fn is_filter(tok: Seq<char>) -> bool {
    is_headed(tok, "ext"@) || is_headed(tok, "size"@) || is_headed(tok, "dir"@) || is_headed(tok, "file"@)
        || is_headed(tok, "re"@)
}

proof fn lemma_heads()
    ensures
        "ext"@ == seq!['e', 'x', 't'],
        "size"@ == seq!['s', 'i', 'z', 'e'],
        "dir"@ == seq!['d', 'i', 'r'],
        "file"@ == seq!['f', 'i', 'l', 'e'],
        "re"@ == seq!['r', 'e'],
{
    reveal_strlit("ext");
    reveal_strlit("size");
    reveal_strlit("dir");
    reveal_strlit("file");
    reveal_strlit("re");
    assert("ext"@ =~= seq!['e', 'x', 't']);
    assert("size"@ =~= seq!['s', 'i', 'z', 'e']);
    assert("dir"@ =~= seq!['d', 'i', 'r']);
    assert("file"@ =~= seq!['f', 'i', 'l', 'e']);
    assert("re"@ =~= seq!['r', 'e']);
}

proof fn lemma_headed(tok: Seq<char>, head: Seq<char>)
    requires
        head.len() > 0,
        forall|i: int| 0 <= i < head.len() ==> query::is_letter(#[trigger] head[i]),
    ensures
        is_headed(tok, head) ==> query::prefix_of(tok) == Some((head, tok.skip(head.len() as int + 1))),
        query::prefix_of(tok) matches Some((h, _)) ==> (h == head ==> is_headed(tok, head)),
{
    if is_headed(tok, head) {
        let front = tok.subrange(0, head.len() as int);
        assert forall|i: int| 0 <= i < head.len() implies query::is_letter(#[trigger] tok[i]) && tok[i] != ':' by {
            assert(front[i] == tok[i]);
            assert(query::is_letter(head[i]));
        }
        splitting::lemma_first_at(tok, ':', head.len() as int);
    }
    if query::prefix_of(tok) matches Some((h, _)) {
        splitting::lemma_first_at_found(tok, ':');
    }
}

proof fn lemma_all_headed(tok: Seq<char>)
    ensures
        is_headed(tok, "ext"@) ==> query::prefix_of(tok) == Some(("ext"@, tok.skip(4))),
        is_headed(tok, "size"@) ==> query::prefix_of(tok) == Some(("size"@, tok.skip(5))),
        is_headed(tok, "dir"@) ==> query::prefix_of(tok) == Some(("dir"@, tok.skip(4))),
        is_headed(tok, "file"@) ==> query::prefix_of(tok) == Some(("file"@, tok.skip(5))),
        is_headed(tok, "re"@) ==> query::prefix_of(tok) == Some(("re"@, tok.skip(3))),
        query::prefix_of(tok) matches Some((h, _)) ==> {
            &&& h == "ext"@ ==> is_headed(tok, "ext"@)
            &&& h == "size"@ ==> is_headed(tok, "size"@)
            &&& h == "dir"@ ==> is_headed(tok, "dir"@)
            &&& h == "file"@ ==> is_headed(tok, "file"@)
            &&& h == "re"@ ==> is_headed(tok, "re"@)
        },
        "ext"@ != "size"@,
        "ext"@ != "dir"@,
        "ext"@ != "file"@,
        "ext"@ != "re"@,
        "size"@ != "dir"@,
        "size"@ != "file"@,
        "size"@ != "re"@,
        "dir"@ != "file"@,
        "dir"@ != "re"@,
        "file"@ != "re"@,
{
    lemma_heads();
    lemma_headed(tok, "ext"@);
    lemma_headed(tok, "size"@);
    lemma_headed(tok, "dir"@);
    lemma_headed(tok, "file"@);
    lemma_headed(tok, "re"@);
    assert("ext"@[0] == 'e' && "dir"@[0] == 'd' && "size"@[0] == 's' && "file"@[0] == 'f' && "re"@[0] == 'r');
}

/// What each kind of token adds to what was asked before it, and what it leaves as
/// it was.
pub proof fn law_tokens_ask(r: Request, tok: Seq<char>)
    requires
        tok.len() > 0,
    ensures
        !is_filter(tok) ==> r.with_token(tok, false) == (Request { terms: r.terms.push(tok), ..r }),
        r.with_token(tok, true) == (Request { terms: r.terms.push(tok), ..r }),
        is_headed(tok, "dir"@) ==> r.with_token(tok, false) == (Request {
            kind: Some(Kind::Dir),
            terms: if tok.len() == 4 {
                r.terms
            } else {
                r.terms.push(tok.skip(4))
            },
            ..r
        }),
        is_headed(tok, "file"@) ==> r.with_token(tok, false) == (Request {
            kind: Some(Kind::File),
            terms: if tok.len() == 5 {
                r.terms
            } else {
                r.terms.push(tok.skip(5))
            },
            ..r
        }),
        is_headed(tok, "re"@) && outside::pattern_error(tok.skip(3)) is None ==> r.with_token(tok, false) == (Request {
            regex: Some(tok.skip(3)),
            regex_on_path: exists|i: int| 3 <= i < tok.len() && tok[i] == '/',
            ..r
        }),
        is_headed(tok, "re"@) && outside::pattern_error(tok.skip(3)) is Some ==> r.with_token(tok, false).error is Some,
        is_headed(tok, "size"@) ==> r.with_token(tok, false) == (match query::size_of(tok.skip(5)) {
            Ok(f) => Request { size: Some(f), ..r },
            Err(e) => Request { error: Some(e), ..r },
        }),
        is_headed(tok, "ext"@) ==> r.with_token(tok, false) == (Request {
            exts: r.exts + query::extensions_after(tok.skip(4), Seq::empty()),
            ..r
        }),
{
    lemma_heads();
    lemma_all_headed(tok);
    if is_headed(tok, "re"@) {
        let val = tok.skip(3);
        if val.contains('/') {
            let k = choose|k: int| 0 <= k < val.len() && val[k] == '/';
            assert(tok[k + 3] == '/');
        }
        if exists|i: int| 3 <= i < tok.len() && tok[i] == '/' {
            let i = choose|i: int| 3 <= i < tok.len() && tok[i] == '/';
            assert(val[i - 3] == '/');
        }
    }
}

/// What an input of words asks for, after its first `n` words.
proof fn lemma_with_words(words: Seq<Seq<char>>, n: int)
    requires
        0 <= n <= words.len(),
        are_words(words),
    ensures
        query::request_of(spaced(words)) == Request::nothing().with_tokens(query::tokens(spaced(words))),
        n > 0 ==> Request::nothing().with_tokens(query::tokens(spaced(words)).take(n))
            == Request::nothing().with_tokens(query::tokens(spaced(words)).take(n - 1)).with_token(words[n - 1], false),
        n == 0 ==> Request::nothing().with_tokens(query::tokens(spaced(words)).take(n)) == Request::nothing(),
        n == words.len() ==> Request::nothing().with_tokens(query::tokens(spaced(words)).take(n)) == query::request_of(
            spaced(words),
        ),
{
    law_words_are_tokens(words);
    let toks = query::tokens(spaced(words));
    if n > 0 {
        assert(toks.take(n).drop_last() =~= toks.take(n - 1));
        assert(toks.take(n).last() == toks[n - 1]);
        assert(toks[n - 1] == (words[n - 1], false));
    }
    assert(toks.take(toks.len() as int) =~= toks);
}

/// What an input of words asks for, before the last `words.len() - n` of them.
pub open spec fn asked_by(words: Seq<Seq<char>>, n: int) -> Request {
    Request::nothing().with_tokens(query::tokens(spaced(words)).take(n))
}

/// Words that are no filters are the terms, all of them and in order, and ask for
/// nothing else.
pub proof fn law_plain_words_are_terms(words: Seq<Seq<char>>, n: int)
    requires
        0 <= n <= words.len(),
        are_words(words),
        forall|k: int| 0 <= k < words.len() ==> !is_filter(#[trigger] words[k]),
    ensures
        asked_by(words, n) == (Request { terms: words.take(n), ..Request::nothing() }),
        n == words.len() ==> query::request_of(spaced(words)) == (Request { terms: words, ..Request::nothing() }),
    decreases n,
{
    lemma_with_words(words, n);
    if n > 0 {
        law_plain_words_are_terms(words, n - 1);
        assert(!is_filter(words[n - 1]));
        law_tokens_ask(asked_by(words, n - 1), words[n - 1]);
        assert(words.take(n - 1).push(words[n - 1]) =~= words.take(n));
    } else {
        assert(words.take(0) =~= Seq::empty());
    }
    assert(words.take(words.len() as int) =~= words);
}

/// A quoted phrase is a term, whatever stands in it.
pub proof fn law_quoted_phrase_is_a_term(phrase: Seq<char>)
    requires
        phrase.len() > 0,
        !phrase.contains('"'),
    ensures
        query::request_of(seq!['"'] + phrase + seq!['"']) == (Request {
            terms: seq![phrase],
            ..Request::nothing()
        }),
{
    law_quoted_phrase_is_a_token(phrase);
    let toks = seq![(phrase, true)];
    assert(toks.drop_last() =~= Seq::empty());
    assert(Request::nothing().with_tokens(toks.drop_last()) == Request::nothing());
    law_tokens_ask(Request::nothing(), phrase);
    assert(Seq::<Seq<char>>::empty().push(phrase) =~= seq![phrase]);
}

/// Of several tokens of one kind the last one counts, for sizes, kinds and patterns;
/// what other words stand around it changes nothing.
pub proof fn law_last_filter_counts(words: Seq<Seq<char>>, k: int, n: int)
    requires
        are_words(words),
        0 <= k < n <= words.len(),
    ensures
        is_headed(words[k], "size"@) && query::size_of(words[k].skip(5)) is Ok && (forall|j: int|
            k < j < words.len() ==> !is_headed(#[trigger] words[j], "size"@)) ==> asked_by(words, n).size == Some(
            query::size_of(words[k].skip(5))->Ok_0,
        ),
        is_headed(words[k], "dir"@) && (forall|j: int|
            k < j < words.len() ==> !is_headed(#[trigger] words[j], "dir"@) && !is_headed(words[j], "file"@))
            ==> asked_by(words, n).kind == Some(Kind::Dir),
        is_headed(words[k], "file"@) && (forall|j: int|
            k < j < words.len() ==> !is_headed(#[trigger] words[j], "dir"@) && !is_headed(words[j], "file"@))
            ==> asked_by(words, n).kind == Some(Kind::File),
        is_headed(words[k], "re"@) && outside::pattern_error(words[k].skip(3)) is None && (forall|j: int|
            k < j < words.len() ==> !is_headed(#[trigger] words[j], "re"@)) ==> {
            &&& asked_by(words, n).regex == Some(words[k].skip(3))
            &&& asked_by(words, n).regex_on_path == exists|i: int| 3 <= i < words[k].len() && words[k][i] == '/'
        },
        n == words.len() ==> asked_by(words, n) == query::request_of(spaced(words)),
    decreases n,
{
    lemma_with_words(words, n);
    let before = asked_by(words, n - 1);
    let tok = words[n - 1];
    assert(words[n - 1].len() > 0);
    law_tokens_ask(before, tok);
    lemma_all_headed(tok);
    if n - 1 > k {
        law_last_filter_counts(words, k, n - 1);
    }
}

/// Every word that is no filter is a term, and so is the value of `dir:` and `file:`.
pub proof fn law_every_word_is_asked_for(words: Seq<Seq<char>>, k: int, n: int)
    requires
        are_words(words),
        0 <= k < n <= words.len(),
    ensures
        !is_filter(words[k]) ==> asked_by(words, n).terms.contains(words[k]),
        is_headed(words[k], "dir"@) && words[k].len() > 4 ==> asked_by(words, n).terms.contains(words[k].skip(4)),
        is_headed(words[k], "file"@) && words[k].len() > 5 ==> asked_by(words, n).terms.contains(words[k].skip(5)),
        n == words.len() ==> asked_by(words, n) == query::request_of(spaced(words)),
    decreases n,
{
    lemma_with_words(words, n);
    let before = asked_by(words, n - 1);
    let after = asked_by(words, n);
    let tok = words[n - 1];
    assert(words[n - 1].len() > 0);
    law_tokens_ask(before, tok);
    lemma_all_headed(tok);
    if n - 1 > k {
        law_every_word_is_asked_for(words, k, n - 1);
        assert forall|t: Seq<char>| before.terms.contains(t) implies #[trigger] after.terms.contains(t) by {
            let j = choose|j: int| 0 <= j < before.terms.len() && before.terms[j] == t;
            assert(after.terms[j] == t);
        }
    } else {
        let last = after.terms.len() - 1;
        if !is_filter(tok) || (is_headed(tok, "dir"@) && tok.len() > 4) || (is_headed(tok, "file"@) && tok.len() > 5) {
            assert(after.terms.contains(after.terms[last]));
        }
    }
}

// ---- sizes ----------------------------------------------------------------------

/// The number of bytes that a unit stands for, in any mix of capitals and small letters.
pub open spec fn is_unit(unit: Seq<char>, factor: nat) -> bool {
    let u = text::lower_chars(unit);
    ||| (u == ""@ || u == "b"@) && factor == 1
    ||| (u == "k"@ || u == "kb"@ || u == "kib"@) && factor == 1024
    ||| (u == "m"@ || u == "mb"@ || u == "mib"@) && factor == 1_048_576
    ||| (u == "g"@ || u == "gb"@ || u == "gib"@) && factor == 1_073_741_824
    ||| (u == "t"@ || u == "tb"@ || u == "tib"@) && factor == 1_099_511_627_776
}

pub(crate) proof fn lemma_no_blank(s: Seq<char>)
    requires
        is_plain(s),
    ensures
        text::trim(s) == s,
{
    if s.len() > 0 {
        assert(!is_gap(s[0]) && !is_gap(s[s.len() - 1]));
        law_white_space(s[0]);
        law_white_space(s.last());
    }
}

proof fn lemma_number_end(s: Seq<char>, tail: Seq<char>)
    requires
        forall|i: int| 0 <= i < s.len() ==> decimal::is_digit(#[trigger] s[i]) || s[i] == '.',
        tail.len() > 0 ==> !decimal::is_digit(tail[0]) && tail[0] != '.',
    ensures
        query::number_end(s + tail) == s.len(),
    decreases s.len(),
{
    let all = s + tail;
    if s.len() > 0 {
        assert(all[0] == s[0]);
        assert(all.skip(1) =~= s.skip(1) + tail);
        lemma_number_end(s.skip(1), tail);
    } else {
        assert(all =~= tail);
    }
}

proof fn lemma_unit(unit: Seq<char>, factor: nat) -> (shift: nat)
    requires
        is_unit(unit, factor),
        is_plain(unit),
    ensures
        query::unit_shift(text::lower_chars(unit)) == Some(shift),
        vstd::arithmetic::power2::pow2(shift) == factor,
        unit.len() > 0 ==> !decimal::is_digit(unit[0]) && unit[0] != '.',
{
    vstd::arithmetic::power2::lemma2_to64();
    vstd::arithmetic::power2::lemma2_to64_rest();
    let u = text::lower_chars(unit);
    lemma_unit_letters();
    assert("b"@[0] == 'b');
    assert("k"@[0] == 'k' && "kb"@[0] == 'k' && "kib"@[0] == 'k');
    assert("m"@[0] == 'm' && "mb"@[0] == 'm' && "mib"@[0] == 'm');
    assert("g"@[0] == 'g' && "gb"@[0] == 'g' && "gib"@[0] == 'g');
    assert("t"@[0] == 't' && "tb"@[0] == 't' && "tib"@[0] == 't');
    if unit.len() > 0 {
        assert(u[0] == text::lower_char(unit[0]));
        assert('b' <= u[0] <= 't');
    }
    query::unit_shift(u)->0
}

proof fn lemma_unit_letters()
    ensures
        ""@.len() == 0,
        "b"@ == seq!['b'],
        "k"@ == seq!['k'],
        "kb"@ == seq!['k', 'b'],
        "kib"@ == seq!['k', 'i', 'b'],
        "m"@ == seq!['m'],
        "mb"@ == seq!['m', 'b'],
        "mib"@ == seq!['m', 'i', 'b'],
        "g"@ == seq!['g'],
        "gb"@ == seq!['g', 'b'],
        "gib"@ == seq!['g', 'i', 'b'],
        "t"@ == seq!['t'],
        "tb"@ == seq!['t', 'b'],
        "tib"@ == seq!['t', 'i', 'b'],
{
    reveal_strlit("");
    reveal_strlit("b");
    reveal_strlit("k");
    reveal_strlit("kb");
    reveal_strlit("kib");
    reveal_strlit("m");
    reveal_strlit("mb");
    reveal_strlit("mib");
    reveal_strlit("g");
    reveal_strlit("gb");
    reveal_strlit("gib");
    reveal_strlit("t");
    reveal_strlit("tb");
    reveal_strlit("tib");
    assert("b"@ =~= seq!['b']);
    assert("k"@ =~= seq!['k']);
    assert("kb"@ =~= seq!['k', 'b']);
    assert("kib"@ =~= seq!['k', 'i', 'b']);
    assert("m"@ =~= seq!['m']);
    assert("mb"@ =~= seq!['m', 'b']);
    assert("mib"@ =~= seq!['m', 'i', 'b']);
    assert("g"@ =~= seq!['g']);
    assert("gb"@ =~= seq!['g', 'b']);
    assert("gib"@ =~= seq!['g', 'i', 'b']);
    assert("t"@ =~= seq!['t']);
    assert("tb"@ =~= seq!['t', 'b']);
    assert("tib"@ =~= seq!['t', 'i', 'b']);
}

/// The size stands in the comparison that is written before a number.
pub open spec fn compares(comparison: Seq<char>, size: int, bytes: int) -> bool {
    ||| comparison == seq!['<'] && size < bytes
    ||| comparison == seq!['<', '='] && size <= bytes
    ||| comparison == seq!['>'] && size > bytes
    ||| comparison == seq!['>', '='] && size >= bytes
    ||| comparison == seq!['='] && size == bytes
    ||| comparison.len() == 0 && size >= bytes
}

pub open spec fn is_comparison(comparison: Seq<char>) -> bool {
    ||| comparison == seq!['<']
    ||| comparison == seq!['<', '=']
    ||| comparison == seq!['>']
    ||| comparison == seq!['>', '=']
    ||| comparison == seq!['=']
    ||| comparison.len() == 0
}

/// A size is a comparison, a decimal number and a unit: what it admits is what
/// compares so with that many bytes. The number is `whole` digits and, behind a dot if
/// there are any, `fraction` digits; that many bytes are a whole number below 2^53.
pub proof fn law_size_is_compared(
    comparison: Seq<char>,
    whole: Seq<char>,
    fraction: Seq<char>,
    unit: Seq<char>,
    factor: nat,
    bytes: nat,
    size: u64,
)
    requires
        is_comparison(comparison),
        decimal::all_digits(whole),
        decimal::all_digits(fraction),
        whole.len() > 0,
        is_plain(unit),
        is_unit(unit, factor),
        bytes * decimal::pow10(fraction.len()) == decimal::digits_value(whole + fraction) * factor,
        bytes < 0x20_0000_0000_0000,
    ensures
        ({
            let number = if fraction.len() == 0 {
                whole
            } else {
                whole + seq!['.'] + fraction
            };
            query::size_of(comparison + number + unit) matches Ok(f) && (f.admits(size) <==> compares(
                comparison,
                size as int,
                bytes as int,
            ))
        }),
{
    let number = if fraction.len() == 0 {
        whole
    } else {
        whole + seq!['.'] + fraction
    };
    let shift = lemma_unit(unit, factor);
    exact::lemma_number_parts(whole, fraction);
    assert forall|i: int| 0 <= i < number.len() implies decimal::is_digit(#[trigger] number[i]) || number[i] == '.' by {
        if i < whole.len() {
            assert(number[i] == whole[i]);
        } else if i > whole.len() {
            assert(number[i] == fraction[i - whole.len() - 1]);
        }
    }
    assert(number[0] == whole[0]);
    exact::law_whole_results_are_exact(number, shift, bytes);
    lemma_size_of(comparison, number, unit, shift);
    assert(seq!['<'][0] == '<' && seq!['>'][0] == '>' && seq!['='][0] == '=');
    assert(seq!['<', '='][0] == '<' && seq!['>', '='][0] == '>');
}

proof fn lemma_size_of(comparison: Seq<char>, number: Seq<char>, unit: Seq<char>, shift: nat)
    requires
        is_comparison(comparison),
        number.len() > 0,
        decimal::is_digit(number[0]),
        forall|i: int| 0 <= i < number.len() ==> decimal::is_digit(#[trigger] number[i]) || number[i] == '.',
        decimal::is_decimal(number),
        is_plain(unit),
        unit.len() > 0 ==> !decimal::is_digit(unit[0]) && unit[0] != '.',
        query::unit_shift(text::lower_chars(unit)) == Some(shift),
    ensures
        query::size_of(comparison + number + unit) == Ok::<SizeFilter, Seq<char>>(
            SizeFilter {
                op: query::operator_of(comparison + (number + unit)).0,
                bytes: decimal::scaled_whole(number, shift),
            },
        ),
        query::operator_of(comparison + (number + unit)).0 == (if comparison == seq!['<'] {
            Cmp::Lt
        } else if comparison == seq!['<', '='] {
            Cmp::Le
        } else if comparison == seq!['>'] {
            Cmp::Gt
        } else if comparison == seq!['='] {
            Cmp::Eq
        } else {
            Cmp::Ge
        }),
{
    let val = comparison + number + unit;
    let rest = number + unit;
    assert(rest[0] == number[0]);
    lemma_operator(comparison, rest);
    assert(comparison + rest =~= val);
    assert(is_plain(rest)) by {
        assert forall|i: int| 0 <= i < rest.len() implies !is_gap(#[trigger] rest[i]) && rest[i] != '"' by {
            if i < number.len() {
                assert(decimal::is_digit(number[i]) || number[i] == '.');
            } else {
                assert(rest[i] == unit[i - number.len()]);
            }
        }
    }
    lemma_no_blank(rest);
    lemma_number_end(number, unit);
    assert(rest.subrange(0, number.len() as int) =~= number);
    assert(rest.skip(number.len() as int) =~= unit);
    lemma_no_blank(unit);
}

proof fn lemma_operator(comparison: Seq<char>, rest: Seq<char>)
    requires
        is_comparison(comparison),
        rest.len() > 0,
        decimal::is_digit(rest[0]),
    ensures
        query::operator_of(comparison + rest).1 == rest,
        query::operator_of(comparison + rest).0 == (if comparison == seq!['<'] {
            Cmp::Lt
        } else if comparison == seq!['<', '='] {
            Cmp::Le
        } else if comparison == seq!['>'] {
            Cmp::Gt
        } else if comparison == seq!['='] {
            Cmp::Eq
        } else {
            Cmp::Ge
        }),
{
    let val = comparison + rest;
    let two = val.subrange(0, 2);
    let one = val.subrange(0, 1);
    assert(val[comparison.len() as int] == rest[0]);
    assert(val.skip(comparison.len() as int) =~= rest);
    if comparison.len() == 0 {
        assert(val =~= rest);
        assert(one[0] == rest[0]);
        assert(val.len() >= 2 ==> two[0] == rest[0]);
    } else if comparison.len() == 1 {
        assert(one =~= comparison);
        assert(two[1] == rest[0]);
        assert(one[0] == comparison[0] && two[0] == comparison[0]);
    } else {
        assert(two =~= comparison);
    }
}

// ---- extensions -------------------------------------------------------------------

/// The pieces with a comma between each two.
pub open spec fn listed(pieces: Seq<Seq<char>>) -> Seq<char>
    decreases pieces.len(),
{
    if pieces.len() == 0 {
        Seq::empty()
    } else if pieces.len() == 1 {
        pieces[0]
    } else {
        pieces[0] + seq![','] + listed(pieces.skip(1))
    }
}

proof fn lemma_piece_run(piece: Seq<char>, tail: Seq<char>, cur: Seq<char>)
    requires
        !piece.contains(','),
    ensures
        query::extensions_after(piece + tail, cur) == query::extensions_after(tail, cur + piece),
    decreases piece.len(),
{
    if piece.len() == 0 {
        assert(piece + tail =~= tail);
        assert(cur + piece =~= cur);
    } else {
        let all = piece + tail;
        assert(all[0] == piece[0]);
        assert(piece.contains(piece[0]));
        assert(all.skip(1) =~= piece.skip(1) + tail);
        assert(cur.push(piece[0]) + piece.skip(1) =~= cur + piece);
        assert(!piece.skip(1).contains(',')) by {
            if piece.skip(1).contains(',') {
                let k = choose|k: int| 0 <= k < piece.skip(1).len() && piece.skip(1)[k] == ',';
                assert(piece[k + 1] == ',');
            }
        }
        lemma_piece_run(piece.skip(1), tail, cur.push(piece[0]));
    }
}

/// A list of extensions asks for each of them, in lower case; one that is written with
/// dots before it is asked for without them.
pub proof fn law_listed_extensions(dots: Seq<Seq<char>>, pieces: Seq<Seq<char>>)
    requires
        dots.len() == pieces.len(),
        forall|k: int, i: int| 0 <= k < dots.len() && 0 <= i < dots[k].len() ==> #[trigger] dots[k][i] == '.',
        forall|k: int|
            0 <= k < pieces.len() ==> (#[trigger] pieces[k]).len() > 0 && pieces[k][0] != '.' && !pieces[k].contains(','),
    ensures
        ({
            let written = Seq::new(pieces.len(), |k: int| dots[k] + pieces[k]);
            let asked = query::extensions_after(listed(written), Seq::empty());
            &&& asked.len() == pieces.len()
            &&& forall|k: int| 0 <= k < pieces.len() ==> #[trigger] asked[k] == text::lower_chars(pieces[k])
        }),
    decreases pieces.len(),
{
    let written = Seq::new(pieces.len(), |k: int| dots[k] + pieces[k]);
    if pieces.len() > 0 {
        let first = dots[0] + pieces[0];
        assert(pieces[0].len() > 0 && pieces[0][0] != '.');
        assert(!first.contains(',')) by {
            if first.contains(',') {
                let k = choose|k: int| 0 <= k < first.len() && first[k] == ',';
                if k < dots[0].len() {
                    assert(dots[0][k] == '.');
                } else {
                    assert(pieces[0][k - dots[0].len()] == ',');
                }
            }
        }
        assert forall|i: int| 0 <= i < dots[0].len() implies #[trigger] dots[0][i] == '.' by {}
        lemma_dots(dots[0], pieces[0]);
        assert(Seq::<char>::empty() + first =~= first);
        if pieces.len() == 1 {
            lemma_piece_run(first, Seq::empty(), Seq::empty());
            assert(first + Seq::empty() =~= first);
            assert(listed(written) == first);
        } else {
            let more = pieces.skip(1);
            let more_dots = dots.skip(1);
            assert forall|k: int, i: int| 0 <= k < more_dots.len() && 0 <= i < more_dots[k].len() implies
                #[trigger] more_dots[k][i] == '.' by {
                assert(dots[k + 1][i] == '.');
            }
            assert forall|k: int| 0 <= k < more.len() implies (#[trigger] more[k]).len() > 0 && more[k][0] != '.'
                && !more[k].contains(',') by {
                assert(pieces[k + 1].len() > 0);
            }
            law_listed_extensions(more_dots, more);
            assert(Seq::new(more.len(), |k: int| more_dots[k] + more[k]) =~= written.skip(1));
            let tail = seq![','] + listed(written.skip(1));
            assert(listed(written) =~= first + tail);
            lemma_piece_run(first, tail, Seq::empty());
            assert(tail[0] == ',');
            assert(tail.skip(1) =~= listed(written.skip(1)));
            let rest = query::extensions_after(listed(written.skip(1)), Seq::empty());
            let asked = query::extensions_after(listed(written), Seq::empty());
            assert(asked == query::extension(first) + rest);
            assert forall|k: int| 0 <= k < pieces.len() implies #[trigger] asked[k] == text::lower_chars(pieces[k]) by {
                if k > 0 {
                    assert(asked[k] == rest[k - 1]);
                    assert(more[k - 1] == pieces[k]);
                }
            }
        }
    } else {
        assert(listed(written) =~= Seq::empty());
    }
}

proof fn lemma_dots(dots: Seq<char>, piece: Seq<char>)
    requires
        forall|i: int| 0 <= i < dots.len() ==> #[trigger] dots[i] == '.',
        piece.len() > 0,
        piece[0] != '.',
    ensures
        query::without_dots(dots + piece) == piece,
    decreases dots.len(),
{
    let all = dots + piece;
    if dots.len() > 0 {
        assert(all[0] == dots[0]);
        assert(all.skip(1) =~= dots.skip(1) + piece);
        lemma_dots(dots.skip(1), piece);
    } else {
        assert(all =~= piece);
    }
}

/// ASCII letters are put in lower case, one for one, and nothing else is changed.
pub proof fn law_lower_case(s: Seq<char>, i: int)
    requires
        0 <= i < s.len(),
    ensures
        text::lower_chars(s).len() == s.len(),
        'A' <= s[i] <= 'Z' ==> 'a' <= text::lower_chars(s)[i] <= 'z' && text::lower_chars(s)[i] as int - 'a' as int
            == s[i] as int - 'A' as int,
        !('A' <= s[i] <= 'Z') ==> text::lower_chars(s)[i] == s[i],
{
}

// ---- errors -----------------------------------------------------------------------

/// A size without a number, or with a unit that is none, is an error.
pub proof fn law_bad_sizes_are_errors(comparison: Seq<char>, number: Seq<char>, unit: Seq<char>)
    requires
        is_comparison(comparison),
        decimal::all_digits(number),
        is_plain(unit),
        unit.len() > 0 ==> !decimal::is_digit(unit[0]) && unit[0] != '.',
        number.len() == 0 ==> unit.len() == 0 || (unit[0] != '<' && unit[0] != '>' && unit[0] != '='),
        number.len() > 0 ==> forall|factor: nat| !#[trigger] is_unit(unit, factor),
    ensures
        query::size_of(comparison + number + unit) is Err,
{
    let rest = number + unit;
    let val = comparison + number + unit;
    assert(comparison + rest =~= val);
    assert(is_plain(rest)) by {
        assert forall|i: int| 0 <= i < rest.len() implies !is_gap(#[trigger] rest[i]) && rest[i] != '"' by {
            if i < number.len() {
                assert(decimal::is_digit(number[i]));
            } else {
                assert(rest[i] == unit[i - number.len()]);
            }
        }
    }
    lemma_no_blank(rest);
    lemma_number_end(number, unit);
    assert(rest.subrange(0, number.len() as int) =~= number);
    assert(rest.skip(number.len() as int) =~= unit);
    lemma_no_blank(unit);
    if number.len() > 0 {
        assert(rest[0] == number[0]);
        lemma_operator(comparison, rest);
        assert(!is_unit(unit, 1) && !is_unit(unit, 1024) && !is_unit(unit, 1_048_576) && !is_unit(unit, 1_073_741_824)
            && !is_unit(unit, 1_099_511_627_776));
    } else {
        assert(rest =~= unit);
        lemma_operator_alone(comparison, unit);
        exact::lemma_number_parts(number, number);
    }
}

proof fn lemma_operator_alone(comparison: Seq<char>, rest: Seq<char>)
    requires
        is_comparison(comparison),
        rest.len() == 0 || (rest[0] != '<' && rest[0] != '>' && rest[0] != '='),
    ensures
        query::operator_of(comparison + rest).1 == rest,
{
    let val = comparison + rest;
    let two = val.subrange(0, 2);
    let one = val.subrange(0, 1);
    assert(val.skip(comparison.len() as int) =~= rest);
    if comparison.len() == 0 {
        assert(val =~= rest);
        if rest.len() > 0 {
            assert(one[0] == rest[0]);
            assert(val.len() >= 2 ==> two[0] == rest[0]);
        }
    } else if comparison.len() == 1 {
        assert(one =~= comparison);
        if rest.len() > 0 {
            assert(two[1] == rest[0]);
        }
        assert(one[0] == comparison[0]);
        assert(val.len() >= 2 ==> two[0] == comparison[0]);
    } else {
        assert(two =~= comparison);
    }
}

/// An error in one word of an input is an error of the whole input.
pub proof fn law_errors_stay(words: Seq<Seq<char>>, k: int, n: int)
    requires
        are_words(words),
        0 <= k < n <= words.len(),
        (is_headed(words[k], "size"@) && query::size_of(words[k].skip(5)) is Err) || (is_headed(words[k], "re"@)
            && outside::pattern_error(words[k].skip(3)) is Some),
    ensures
        asked_by(words, n).error is Some,
        n == words.len() ==> query::request_of(spaced(words)).error is Some,
    decreases n,
{
    lemma_with_words(words, n);
    let tok = words[n - 1];
    assert(words[n - 1].len() > 0);
    law_tokens_ask(asked_by(words, n - 1), tok);
    lemma_all_headed(tok);
    if n - 1 > k {
        law_errors_stay(words, k, n - 1);
    }
}

// ---- quotes -----------------------------------------------------------------------

/// A quote may stand within a word; what it holds belongs to the word, blanks and all.
pub proof fn law_quotes_within_words(a: Seq<char>, b: Seq<char>, c: Seq<char>)
    requires
        is_plain(a),
        !b.contains('"'),
        is_plain(c),
    ensures
        query::tokens(a + seq!['"'] + b + seq!['"'] + c) == (if a.len() + b.len() + c.len() == 0 {
            Seq::<(Seq<char>, bool)>::empty()
        } else {
            seq![(a + b + c, true)]
        }),
        query::tokens(a + seq!['"'] + b) == (if a.len() + b.len() == 0 {
            Seq::<(Seq<char>, bool)>::empty()
        } else {
            seq![(a + b, true)]
        }),
{
    let none = Seq::<char>::empty();
    let quote = seq!['"'];
    // An open quote goes on to the end.
    let open = quote + b;
    assert(a + quote + b =~= a + open);
    lemma_run(a, open, none, false);
    assert(none + a =~= a);
    assert(open[0] == '"' && open.skip(1) =~= b);
    lemma_quoted_run(b, none, a);
    assert(b + none =~= b);
    assert(query::tokens_after(none, a + b, true, true) == query::finished(a + b, true));
    // A closed one ends, and the word goes on.
    let closed = quote + (b + (quote + c));
    assert(a + quote + b + quote + c =~= a + closed);
    lemma_run(a, closed, none, false);
    assert(closed[0] == '"' && closed.skip(1) =~= b + (quote + c));
    lemma_quoted_run(b, quote + c, a);
    let end = quote + c;
    assert(end[0] == '"' && end.skip(1) =~= c);
    lemma_run(c, none, a + b, true);
    assert(c + none =~= c);
    assert(query::tokens_after(none, a + b + c, true, false) == query::finished(a + b + c, true));
}

/// The number of quotes is even.
pub open spec fn is_balanced(s: Seq<char>) -> bool
    decreases s.len(),
{
    s.len() == 0 || (if s[0] == '"' {
        !is_balanced(s.skip(1))
    } else {
        is_balanced(s.skip(1))
    })
}

proof fn lemma_parts(s: Seq<char>, t: Seq<char>, cur: Seq<char>, quoted: bool, in_quote: bool)
    requires
        is_balanced(s) != in_quote,
    ensures
        query::tokens_after(s + seq![' '] + t, cur, quoted, in_quote) == query::tokens_after(s, cur, quoted, in_quote)
            + query::tokens(t),
    decreases s.len(),
{
    let all = s + seq![' '] + t;
    if s.len() == 0 {
        assert(all[0] == ' ' && all.skip(1) =~= t);
        law_white_space(' ');
    } else {
        assert(all[0] == s[0]);
        assert(all.skip(1) =~= s.skip(1) + seq![' '] + t);
        if s[0] == '"' {
            lemma_parts(s.skip(1), t, cur, true, !in_quote);
        } else if text::is_white(s[0]) && !in_quote {
            let none = Seq::<char>::empty();
            lemma_parts(s.skip(1), t, none, false, in_quote);
            assert(query::finished(cur, quoted) + (query::tokens_after(s.skip(1), none, false, in_quote)
                + query::tokens(t)) =~= query::finished(cur, quoted) + query::tokens_after(
                s.skip(1),
                none,
                false,
                in_quote,
            ) + query::tokens(t));
        } else {
            lemma_parts(s.skip(1), t, cur.push(s[0]), quoted, in_quote);
        }
    }
}

/// An input is read part by part: what stands before a blank, its quotes closed, gives
/// its tokens, and what stands behind it gives the rest.
pub proof fn law_inputs_are_read_in_parts(s: Seq<char>, t: Seq<char>)
    requires
        is_balanced(s),
    ensures
        query::tokens(s + seq![' '] + t) == query::tokens(s) + query::tokens(t),
{
    lemma_parts(s, t, Seq::empty(), false, false);
}

/// An empty piece of a list asks for nothing, and dots alone for the empty extension.
pub proof fn law_idle_pieces(s: Seq<char>, dots: Seq<char>)
    requires
        dots.len() > 0,
        forall|i: int| 0 <= i < dots.len() ==> #[trigger] dots[i] == '.',
    ensures
        query::extensions_after(Seq::empty(), Seq::empty()).len() == 0,
        query::extensions_after(seq![','] + s, Seq::empty()) == query::extensions_after(s, Seq::empty()),
        query::extensions_after(dots, Seq::empty()).len() == 1,
        query::extensions_after(dots, Seq::empty())[0].len() == 0,
{
    let none = Seq::<char>::empty();
    let all = seq![','] + s;
    assert(all[0] == ',' && all.skip(1) =~= s);
    assert(query::extension(none) + query::extensions_after(s, none) =~= query::extensions_after(s, none));
    assert(!dots.contains(',')) by {
        if dots.contains(',') {
            let i = choose|i: int| 0 <= i < dots.len() && dots[i] == ',';
            assert(dots[i] == '.');
        }
    }
    lemma_piece_run(dots, none, none);
    assert(dots + none =~= dots);
    assert(none + dots =~= dots);
    lemma_only_dots(dots);
}

proof fn lemma_only_dots(dots: Seq<char>)
    requires
        forall|i: int| 0 <= i < dots.len() ==> #[trigger] dots[i] == '.',
    ensures
        query::without_dots(dots).len() == 0,
    decreases dots.len(),
{
    if dots.len() > 0 {
        assert(dots[0] == '.');
        lemma_only_dots(dots.skip(1));
    }
}

} // verus!
