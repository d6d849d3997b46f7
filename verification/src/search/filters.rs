//! What a search finds, told over whole inputs and the entries' own data.

use vstd::prelude::*;

use crate::bytestr;
use crate::model::{flags, SearchResults};
use crate::outside;
use crate::query;
use crate::query::laws as inputs;
use crate::query::{Kind, Query, Request};
use crate::search;
use crate::search::prefilter;
use crate::search::ranking;
use crate::text;
use crate::tree::paths;
use crate::tree::IndexView;

verus! {

/// Every clause of a query has to hold of an entry, and nothing else: it is live, of the
/// kind, of a size that is admitted, its name ends in one of the extensions, every term
/// is found, and the pattern matches its name, or its path where it is on paths.
pub proof fn law_match_means_every_clause(v: IndexView, q: Query, i: int)
    ensures
        search::is_match(v, q, i) <==> {
            &&& 0 <= i < v.slots.len()
            &&& v.slots[i].flags & flags::DEAD == 0
            &&& q.kind == Some(Kind::Dir) ==> v.slots[i].flags & flags::DIR != 0
            &&& q.kind == Some(Kind::File) ==> v.slots[i].flags & flags::DIR == 0
            &&& q.size matches Some(f) ==> f.admits(v.slots[i].size)
            &&& q.exts@.len() > 0 ==> exists|k: int| 0 <= k < q.exts@.len() && #[trigger]
                ends_in(v.slots[i].name, vstd::utf8::encode_utf8(q.exts@[k]@))
            &&& forall|k: int| 0 <= k < q.terms@.len() ==> search::term_rank(v, i, #[trigger] q.terms@[k]) is Some
            &&& q.regex matches Some(re) ==> if q.regex_on_path {
                outside::regex_accepts(re, v.entry_path(i))
            } else {
                outside::regex_accepts(re, v.slots[i].name)
            }
        },
{
    let name = v.slots[i].name;
    assert forall|k: int| 0 <= k < q.exts@.len() implies #[trigger] query::ext_bytes(q.exts@)[k]
        == vstd::utf8::encode_utf8(q.exts@[k]@) by {}
    prefilter::lemma_last_exists(name, 46, name.len() as int);
    assert(bytestr::is_last_of(name, 46, search::last_dot(name)));
    if q.exts@.len() > 0 {
        lemma_has_ext(name, q.exts@);
    }
    if search::lone_byte(q) is Some {
        let t = q.terms@[0];
        assert(t.lower@ =~= seq![t.lower@[0]]);
        prefilter::lemma_rank_means_contained(name, t);
        assert(search::term_rank(v, i, q.terms@[0]) is Some <==> bytestr::contains_ci(name, t.lower@));
    }
}

/// The name ends in a dot, its last one, and the extension, up to ASCII case.
pub open spec fn ends_in(name: Seq<u8>, ext: Seq<u8>) -> bool {
    let dot = name.len() - ext.len() - 1;
    &&& dot >= 0
    &&& name[dot] as char == '.'
    &&& forall|k: int| 0 <= k < ext.len() ==> bytestr::lower(name[dot + 1 + k]) == bytestr::lower(#[trigger] ext[k])
    &&& forall|k: int| dot < k < name.len() ==> name[k] as char != '.'
}

proof fn lemma_has_ext(name: Seq<u8>, exts: Seq<String>)
    ensures
        search::has_ext(name, exts) <==> exists|k: int| 0 <= k < exts.len() && #[trigger]
            ends_in(name, vstd::utf8::encode_utf8(exts[k]@)),
{
    let all = query::ext_bytes(exts);
    prefilter::lemma_last_exists(name, 46, name.len() as int);
    assert(bytestr::is_last_of(name, 46, search::last_dot(name)));
    if search::has_ext(name, exts) {
        let dot = search::last_dot(name)->0;
        let k = choose|k: int| 0 <= k < exts.len() && bytestr::same_ci(#[trigger] all[k], name.skip(dot + 1));
        let ext = vstd::utf8::encode_utf8(exts[k]@);
        assert(all[k] == ext);
        let tail = name.skip(dot + 1);
        assert forall|j: int| 0 <= j < ext.len() implies bytestr::lower(name[dot + 1 + j]) == bytestr::lower(
            #[trigger] ext[j],
        ) by {
            assert(tail[j] == name[dot + 1 + j]);
            assert(bytestr::lower(all[k][j]) == bytestr::lower(tail[j]));
        }
        assert(ends_in(name, vstd::utf8::encode_utf8(exts[k]@)));
    }
    if exists|k: int| 0 <= k < exts.len() && #[trigger] ends_in(name, vstd::utf8::encode_utf8(exts[k]@)) {
        let k = choose|k: int| 0 <= k < exts.len() && #[trigger] ends_in(name, vstd::utf8::encode_utf8(exts[k]@));
        let ext = vstd::utf8::encode_utf8(exts[k]@);
        let dot = name.len() - ext.len() - 1;
        search::lemma_last_of(name, 46, Some(dot), search::last_dot(name));
        let tail = name.skip(dot + 1);
        assert(all[k] == ext);
        assert forall|j: int| 0 <= j < all[k].len() implies bytestr::lower(#[trigger] all[k][j]) == bytestr::lower(
            tail[j],
        ) by {
            assert(tail[j] == name[dot + 1 + j]);
            assert(bytestr::lower(name[dot + 1 + j]) == bytestr::lower(ext[j]));
        }
        assert(bytestr::same_ci(all[k], name.skip(dot + 1)));
    }
}

/// A hit shows the entry it stands for: its path, name, size, time and kind, and the
/// score with which the entry matches.
pub proof fn law_hit_shows_its_entry(v: IndexView, q: Query, ids: Seq<u32>, limit: nat, r: SearchResults, k: int)
    requires
        search::results_over(v, q, ids, limit, r),
        0 <= k < r.hits@.len(),
    ensures
        ({
            let i = r.hits@[k].id as int;
            let slot = v.slots[i];
            &&& search::is_match(v, q, i)
            &&& r.hits@[k].path@ == v.entry_path(i)
            &&& r.hits@[k].name@ == outside::lossy_text_of(slot.name)
            &&& r.hits@[k].size == slot.size
            &&& r.hits@[k].mtime == slot.mtime
            &&& r.hits@[k].is_dir == (slot.flags & flags::DIR != 0)
            &&& r.hits@[k].score == search::score(v, q, i)->0
        }),
{
    broadcast use vstd::seq_lib::group_to_multiset_ensures;

    let all = search::candidates(v, q, ids);
    let order = choose|order: Seq<search::topk::Ranked>| #[trigger]
        search::topk::best_of(order, limit, all) && r.hits@.len() == order.len() && forall|k: int|
            0 <= k < order.len() ==> search::shows(v, #[trigger] r.hits@[k], order[k]);
    assert(search::shows(v, r.hits@[k], order[k]));
    assert(order.contains(order[k]));
    assert(order.to_multiset().count(order[k]) > 0);
    search::laws::lemma_candidate_is_match(v, q, ids, order[k]);
    let i = r.hits@[k].id as int;
    search::complete::lemma_score_bound(v, q, i);
    search::complete::lemma_key(v, i, search::score(v, q, i)->0);
}

/// Every hit of an input with a size in it compares with that many bytes as the input
/// says; with no other word, every live entry that does so is a match.
pub proof fn law_size_hits(
    v: IndexView,
    q: Query,
    words: Seq<Seq<char>>,
    k: int,
    comparison: Seq<char>,
    whole: Seq<char>,
    fraction: Seq<char>,
    unit: Seq<char>,
    factor: nat,
    bytes: nat,
    i: int,
)
    requires
        inputs::are_words(words),
        0 <= k < words.len(),
        q.is_for(query::request_of(inputs::spaced(words))),
        inputs::is_comparison(comparison),
        crate::decimal::all_digits(whole),
        crate::decimal::all_digits(fraction),
        whole.len() > 0,
        inputs::is_plain(unit),
        inputs::is_unit(unit, factor),
        bytes * crate::decimal::pow10(fraction.len()) == crate::decimal::digits_value(whole + fraction) * factor,
        bytes < 0x20_0000_0000_0000,
        words[k] == seq!['s', 'i', 'z', 'e', ':'] + (comparison + (if fraction.len() == 0 {
            whole
        } else {
            whole + seq!['.'] + fraction
        }) + unit),
        forall|j: int| k < j < words.len() ==> !inputs::is_headed(#[trigger] words[j], "size"@),
    ensures
        search::is_match(v, q, i) ==> inputs::compares(comparison, v.slots[i].size as int, bytes as int),
        words.len() == 1 ==> (search::is_match(v, q, i) <==> v.is_live(i) && inputs::compares(
            comparison,
            v.slots[i].size as int,
            bytes as int,
        )),
{
    let head = seq!['s', 'i', 'z', 'e', ':'];
    let val = comparison + (if fraction.len() == 0 {
        whole
    } else {
        whole + seq!['.'] + fraction
    }) + unit;
    let tok = words[k];
    reveal_strlit("size");
    assert(tok.subrange(0, 4) =~= "size"@);
    assert(tok[4] == ':');
    assert(tok.skip(5) =~= val);
    assert(inputs::is_headed(tok, "size"@));
    inputs::law_size_is_compared(comparison, whole, fraction, unit, factor, bytes, v.slots[i].size);
    inputs::law_last_filter_counts(words, k, words.len() as int);
    law_match_means_every_clause(v, q, i);
    if words.len() == 1 {
        lemma_one_word(words);
        inputs::law_tokens_ask(Request::nothing(), tok);
        lemma_extension_count(q);
    }
}

/// Every hit of an input with a size in it is shown with a size that compares so; the
/// hits of `size:<N` are smaller than `N` bytes.
pub proof fn law_shown_sizes(
    v: IndexView,
    q: Query,
    words: Seq<Seq<char>>,
    k: int,
    comparison: Seq<char>,
    whole: Seq<char>,
    unit: Seq<char>,
    factor: nat,
    ids: Seq<u32>,
    limit: nat,
    r: SearchResults,
    h: int,
)
    requires
        inputs::are_words(words),
        0 <= k < words.len(),
        q.is_for(query::request_of(inputs::spaced(words))),
        inputs::is_comparison(comparison),
        crate::decimal::all_digits(whole),
        whole.len() > 0,
        inputs::is_plain(unit),
        inputs::is_unit(unit, factor),
        crate::decimal::digits_value(whole) * factor < 0x20_0000_0000_0000,
        words[k] == seq!['s', 'i', 'z', 'e', ':'] + (comparison + whole + unit),
        forall|j: int| k < j < words.len() ==> !inputs::is_headed(#[trigger] words[j], "size"@),
        search::results_over(v, q, ids, limit, r),
        0 <= h < r.hits@.len(),
    ensures
        inputs::compares(comparison, r.hits@[h].size as int, (crate::decimal::digits_value(whole) * factor) as int),
        comparison == seq!['<'] ==> r.hits@[h].size < crate::decimal::digits_value(whole) * factor,
{
    law_hit_shows_its_entry(v, q, ids, limit, r, h);
    let none = Seq::<char>::empty();
    assert(whole + none =~= whole);
    assert(crate::decimal::pow10(0) == 1);
    let bytes = crate::decimal::digits_value(whole) * factor;
    assert(bytes * 1 == bytes);
    law_size_hits(v, q, words, k, comparison, whole, none, unit, factor, bytes, r.hits@[h].id as int);
    assert(seq!['<'][0] == '<' && seq!['>'][0] == '>' && seq!['='][0] == '=');
    assert(seq!['<', '='].len() == 2 && seq!['>', '='].len() == 2);
}

/// A query has as many extensions as texts of extensions.
proof fn lemma_extension_count(q: Query)
    ensures
        query::string_views(q.exts@).len() == q.exts@.len(),
{
}

/// What one word asks for.
proof fn lemma_one_word(words: Seq<Seq<char>>)
    requires
        inputs::are_words(words),
        words.len() == 1,
    ensures
        query::request_of(inputs::spaced(words)) == Request::nothing().with_token(words[0], false),
{
    inputs::law_words_are_tokens(words);
    let toks = query::tokens(inputs::spaced(words));
    assert(toks[0] == (words[0], false));
    assert(toks.last() == toks[0]);
    assert(toks.drop_last() =~= Seq::empty());
    assert(Request::nothing().with_tokens(toks.drop_last()) == Request::nothing());
}

/// Every match of an input with a valid `re:PATTERN` in it is matched by the pattern: in
/// its path where the pattern has a slash in it, else in its name. With no other word,
/// every live entry that is so matched is a match.
pub proof fn law_pattern_hits(v: IndexView, q: Query, words: Seq<Seq<char>>, k: int, pattern: Seq<char>, i: int)
    requires
        inputs::are_words(words),
        0 <= k < words.len(),
        q.is_for(query::request_of(inputs::spaced(words))),
        words[k] == seq!['r', 'e', ':'] + pattern,
        outside::pattern_error(pattern) is None,
        forall|j: int| k < j < words.len() ==> !inputs::is_headed(#[trigger] words[j], "re"@),
    ensures
        search::is_match(v, q, i) ==> if exists|j: int| 0 <= j < pattern.len() && pattern[j] == '/' {
            outside::pattern_accepts(pattern, v.entry_path(i))
        } else {
            outside::pattern_accepts(pattern, v.slots[i].name)
        },
        words.len() == 1 ==> (search::is_match(v, q, i) <==> v.is_live(i) && if exists|j: int|
            0 <= j < pattern.len() && pattern[j] == '/' {
            outside::pattern_accepts(pattern, v.entry_path(i))
        } else {
            outside::pattern_accepts(pattern, v.slots[i].name)
        }),
{
    let tok = words[k];
    reveal_strlit("re");
    assert(tok.subrange(0, 2) =~= "re"@);
    assert(tok[2] == ':');
    assert(tok.skip(3) =~= pattern);
    assert(inputs::is_headed(tok, "re"@));
    inputs::law_last_filter_counts(words, k, words.len() as int);
    law_match_means_every_clause(v, q, i);
    if exists|j: int| 0 <= j < pattern.len() && pattern[j] == '/' {
        let j = choose|j: int| 0 <= j < pattern.len() && pattern[j] == '/';
        assert(tok[j + 3] == '/');
    }
    if exists|j: int| 3 <= j < tok.len() && tok[j] == '/' {
        let j = choose|j: int| 3 <= j < tok.len() && tok[j] == '/';
        assert(pattern[j - 3] == '/');
    }
    if words.len() == 1 {
        lemma_one_word(words);
        inputs::law_tokens_ask(Request::nothing(), tok);
        lemma_extension_count(q);
    }
}

/// The input that is `re:PATTERN` alone, read as it stands: exactly the live entries
/// match whose path, where the pattern has a slash in it, or else whose name the pattern
/// matches.
pub proof fn law_pattern_alone(v: IndexView, q: Query, pattern: Seq<char>, i: int)
    requires
        inputs::is_plain(pattern),
        q.is_for(query::request_of(seq!['r', 'e', ':'] + pattern)),
        outside::pattern_error(pattern) is None,
    ensures
        search::is_match(v, q, i) <==> v.is_live(i) && if exists|j: int| 0 <= j < pattern.len() && pattern[j] == '/' {
            outside::pattern_accepts(pattern, v.entry_path(i))
        } else {
            outside::pattern_accepts(pattern, v.slots[i].name)
        },
{
    let tok = seq!['r', 'e', ':'] + pattern;
    let words = seq![tok];
    assert forall|j: int| 0 <= j < tok.len() implies !inputs::is_gap(#[trigger] tok[j]) && tok[j] != '"' by {
        if j >= 3 {
            assert(tok[j] == pattern[j - 3]);
        }
    }
    assert(inputs::are_words(words));
    inputs::law_word_is_a_token(tok);
    let toks = seq![(tok, false)];
    assert(toks.drop_last() =~= Seq::empty());
    assert(Request::nothing().with_tokens(toks.drop_last()) == Request::nothing());
    lemma_one_word(words);
    assert(query::request_of(inputs::spaced(words)) == query::request_of(tok));
    law_pattern_hits(v, q, words, 0, pattern, i);
}

/// Every match of an input with `dir:` in it is a directory and of one with `file:` is
/// none; with no other word, every live entry of the kind is a match.
pub proof fn law_kind_hits(v: IndexView, q: Query, words: Seq<Seq<char>>, k: int, i: int)
    requires
        inputs::are_words(words),
        0 <= k < words.len(),
        q.is_for(query::request_of(inputs::spaced(words))),
        forall|j: int|
            k < j < words.len() ==> !inputs::is_headed(#[trigger] words[j], "dir"@) && !inputs::is_headed(
                words[j],
                "file"@,
            ),
    ensures
        inputs::is_headed(words[k], "dir"@) && search::is_match(v, q, i) ==> v.slots[i].flags & flags::DIR != 0,
        inputs::is_headed(words[k], "file"@) && search::is_match(v, q, i) ==> v.slots[i].flags & flags::DIR == 0,
        words.len() == 1 && inputs::is_headed(words[k], "dir"@) && words[k].len() == 4 ==> (search::is_match(v, q, i)
            <==> v.is_live(i) && v.slots[i].flags & flags::DIR != 0),
        words.len() == 1 && inputs::is_headed(words[k], "file"@) && words[k].len() == 5 ==> (search::is_match(v, q, i)
            <==> v.is_live(i) && v.slots[i].flags & flags::DIR == 0),
{
    inputs::law_last_filter_counts(words, k, words.len() as int);
    law_match_means_every_clause(v, q, i);
    if words.len() == 1 {
        lemma_one_word(words);
        inputs::law_tokens_ask(Request::nothing(), words[0]);
        lemma_extension_count(q);
    }
}

proof fn lemma_encoded_ascii(s: Seq<char>)
    requires
        vstd::utf8::is_ascii_chars(s),
    ensures
        vstd::utf8::encode_utf8(s).len() == s.len(),
        forall|k: int| 0 <= k < s.len() ==> #[trigger] vstd::utf8::encode_utf8(s)[k] == s[k] as u8,
{
    vstd::utf8::is_ascii_chars_encode_utf8(s);
}

/// The input `ext:LIST` alone, with ASCII extensions that have no dot, comma or blank in
/// them: exactly the live entries match whose name ends in a dot and one of the
/// extensions, in any case.
pub proof fn law_extension_hits(v: IndexView, q: Query, exts: Seq<Seq<char>>, i: int)
    requires
        exts.len() > 0,
        forall|k: int|
            0 <= k < exts.len() ==> (#[trigger] exts[k]).len() > 0 && inputs::is_plain(exts[k]) && !exts[k].contains('.')
                && !exts[k].contains(',') && vstd::utf8::is_ascii_chars(exts[k]),
        q.is_for(query::request_of(seq!['e', 'x', 't', ':'] + inputs::listed(exts))),
    ensures
        search::is_match(v, q, i) <==> v.is_live(i) && exists|k: int|
            0 <= k < exts.len() && name_ends_in(v.slots[i].name, #[trigger] exts[k]),
{
    let dots = Seq::new(exts.len(), |k: int| Seq::<char>::empty());
    assert forall|k: int| 0 <= k < exts.len() implies (#[trigger] exts[k]).len() > 0 && exts[k][0] != '.'
        && !exts[k].contains(',') by {
        assert(exts[k].contains(exts[k][0]));
    }
    inputs::law_listed_extensions(dots, exts);
    assert forall|k: int| 0 <= k < exts.len() implies #[trigger] (dots[k] + exts[k]) == exts[k] by {
        assert(dots[k] + exts[k] =~= exts[k]);
    }
    assert(Seq::new(exts.len(), |k: int| dots[k] + exts[k]) =~= exts);
    let list = inputs::listed(exts);
    let tok = seq!['e', 'x', 't', ':'] + list;
    lemma_listed_plain(exts);
    assert forall|j: int| 0 <= j < tok.len() implies !inputs::is_gap(#[trigger] tok[j]) && tok[j] != '"' by {
        if j >= 4 {
            assert(tok[j] == list[j - 4]);
        }
    }
    inputs::law_word_is_a_token(tok);
    let toks = seq![(tok, false)];
    assert(toks.drop_last() =~= Seq::empty());
    assert(Request::nothing().with_tokens(toks.drop_last()) == Request::nothing());
    reveal_strlit("ext");
    assert(tok.subrange(0, 3) =~= "ext"@);
    assert(tok[3] == ':');
    assert(inputs::is_headed(tok, "ext"@));
    assert(tok.skip(4) =~= list);
    inputs::law_tokens_ask(Request::nothing(), tok);
    let asked = query::extensions_after(list, Seq::empty());
    assert(Seq::<Seq<char>>::empty() + asked =~= asked);
    assert(query::string_views(q.exts@) == asked);
    law_match_means_every_clause(v, q, i);
    let name = v.slots[i].name;
    assert forall|k: int| 0 <= k < exts.len() implies (ends_in(name, vstd::utf8::encode_utf8(#[trigger] q.exts@[k]@))
        <==> name_ends_in(name, exts[k])) by {
        assert(query::string_views(q.exts@)[k] == q.exts@[k]@);
        assert(asked[k] == text::lower_chars(exts[k]));
        assert(exts[k].len() > 0);
        lemma_lowered_ext(name, exts[k]);
    }
    if exists|k: int| 0 <= k < exts.len() && name_ends_in(name, #[trigger] exts[k]) {
        let k = choose|k: int| 0 <= k < exts.len() && name_ends_in(name, #[trigger] exts[k]);
        assert(ends_in(name, vstd::utf8::encode_utf8(q.exts@[k]@)));
    }
    if exists|k: int| 0 <= k < q.exts@.len() && #[trigger] ends_in(name, vstd::utf8::encode_utf8(q.exts@[k]@)) {
        let k = choose|k: int| 0 <= k < q.exts@.len() && #[trigger]
            ends_in(name, vstd::utf8::encode_utf8(q.exts@[k]@));
        assert(name_ends_in(name, exts[k]));
    }
}

/// The name ends in a dot and the extension, in any case.
pub open spec fn name_ends_in(name: Seq<u8>, ext: Seq<char>) -> bool {
    let dot = name.len() - ext.len() - 1;
    &&& dot >= 0
    &&& name[dot] as char == '.'
    &&& forall|k: int|
        0 <= k < ext.len() ==> bytestr::lower(name[dot + 1 + k]) == bytestr::lower(#[trigger] ext[k] as u8)
}

proof fn lemma_lowered_ext(name: Seq<u8>, ext: Seq<char>)
    requires
        vstd::utf8::is_ascii_chars(ext),
        !ext.contains('.'),
    ensures
        ends_in(name, vstd::utf8::encode_utf8(text::lower_chars(ext))) <==> name_ends_in(name, ext),
{
    let low = text::lower_chars(ext);
    assert(vstd::utf8::is_ascii_chars(low)) by {
        assert forall|k: int| 0 <= k < low.len() implies '\0' <= #[trigger] low[k] <= '\u{7f}' by {
            assert('\0' <= ext[k] <= '\u{7f}');
        }
    }
    lemma_encoded_ascii(low);
    let b = vstd::utf8::encode_utf8(low);
    assert forall|k: int| 0 <= k < ext.len() implies bytestr::lower(#[trigger] b[k]) == bytestr::lower(ext[k] as u8) && b[k] == low[k] as u8
        && b[k] as char != '.' by {
        assert(b[k] == low[k] as u8);
        assert(low[k] == text::lower_char(ext[k]));
        assert('\0' <= ext[k] <= '\u{7f}');
        assert(ext.contains(ext[k]));
    }
    let dot = name.len() - ext.len() - 1;
    if name_ends_in(name, ext) {
        assert forall|k: int| 0 <= k < b.len() implies bytestr::lower(name[dot + 1 + k]) == bytestr::lower(
            #[trigger] b[k],
        ) by {
            assert(bytestr::lower(name[dot + 1 + k]) == bytestr::lower(ext[k] as u8));
        }
        assert forall|k: int| dot < k < name.len() implies name[k] as char != '.' by {
            let j = k - dot - 1;
            assert(bytestr::lower(name[dot + 1 + j]) == bytestr::lower(b[j]));
            assert(b[j] as char != '.');
        }
    }
    if ends_in(name, b) {
        assert forall|k: int| 0 <= k < ext.len() implies bytestr::lower(name[dot + 1 + k]) == bytestr::lower(
            #[trigger] ext[k] as u8,
        ) by {
            assert(bytestr::lower(name[dot + 1 + k]) == bytestr::lower(b[k]));
        }
    }
}

proof fn lemma_listed_plain(pieces: Seq<Seq<char>>)
    requires
        forall|k: int| 0 <= k < pieces.len() ==> inputs::is_plain(#[trigger] pieces[k]),
    ensures
        inputs::is_plain(inputs::listed(pieces)),
    decreases pieces.len(),
{
    if pieces.len() == 1 {
        assert(inputs::is_plain(pieces[0]));
    } else if pieces.len() > 1 {
        let rest = pieces.skip(1);
        assert forall|k: int| 0 <= k < rest.len() implies inputs::is_plain(#[trigger] rest[k]) by {
            assert(inputs::is_plain(pieces[k + 1]));
        }
        lemma_listed_plain(rest);
        let all = inputs::listed(pieces);
        assert(inputs::is_plain(pieces[0]));
        assert forall|j: int| 0 <= j < all.len() implies !inputs::is_gap(#[trigger] all[j]) && all[j] != '"' by {
            if j < pieces[0].len() {
                assert(all[j] == pieces[0][j]);
            } else if j > pieces[0].len() {
                assert(all[j] == inputs::listed(rest)[j - pieces[0].len() - 1]);
            }
        }
    }
}

/// The word stands somewhere in the bytes, in any case.
pub open spec fn holds_word(hay: Seq<u8>, word: Seq<char>) -> bool {
    exists|at: int| #[trigger] word_stands_at(hay, word, at)
}

pub open spec fn word_stands_at(hay: Seq<u8>, word: Seq<char>, at: int) -> bool {
    &&& 0 <= at
    &&& at + word.len() <= hay.len()
    &&& forall|j: int|
        0 <= j < word.len() ==> bytestr::lower(hay[at + j]) == bytestr::lower(#[trigger] word[j] as u8)
}

proof fn lemma_word_stands(hay: Seq<u8>, word: Seq<char>)
    requires
        vstd::utf8::is_ascii_chars(word),
    ensures
        bytestr::contains_ci(hay, query::needle_of(word)) <==> holds_word(hay, word),
{
    let needle = query::needle_of(word);
    assert forall|at: int| true implies (bytestr::occurs_ci(hay, needle, at) <==> #[trigger] word_stands_at(
        hay,
        word,
        at,
    )) by {
        ranking::lemma_occurs(hay, needle, at);
        assert forall|j: int| 0 <= j < word.len() implies bytestr::lower(#[trigger] needle[j]) == bytestr::lower(
            word[j] as u8,
        ) by {}
        if bytestr::occurs_ci(hay, needle, at) {
            assert forall|j: int| 0 <= j < word.len() implies bytestr::lower(hay[at + j]) == bytestr::lower(
                #[trigger] word[j] as u8,
            ) by {
                assert(bytestr::lower(hay[at + j]) == bytestr::lower(needle[j]));
            }
        }
        if word_stands_at(hay, word, at) {
            assert forall|j: int| 0 <= j < needle.len() implies bytestr::lower(hay[at + j]) == bytestr::lower(
                #[trigger] needle[j],
            ) by {
                assert(bytestr::lower(hay[at + j]) == bytestr::lower(word[j] as u8));
            }
        }
    }
    if bytestr::contains_ci(hay, needle) {
        let at = choose|at: int| bytestr::occurs_ci(hay, needle, at);
        assert(word_stands_at(hay, word, at));
    }
}

/// Words are ANDed: an input of ASCII words that are no filters and hold no slash is
/// matched by exactly the live entries whose names hold all of the words, in any case.
pub proof fn law_word_hits(v: IndexView, q: Query, words: Seq<Seq<char>>, i: int)
    requires
        inputs::are_words(words),
        forall|k: int|
            0 <= k < words.len() ==> !inputs::is_filter(#[trigger] words[k]) && vstd::utf8::is_ascii_chars(words[k])
                && !words[k].contains('/'),
        q.is_for(query::request_of(inputs::spaced(words))),
    ensures
        search::is_match(v, q, i) <==> v.is_live(i) && forall|k: int|
            0 <= k < words.len() ==> holds_word(v.slots[i].name, #[trigger] words[k]),
{
    inputs::law_plain_words_are_terms(words, words.len() as int);
    law_match_means_every_clause(v, q, i);
    lemma_extension_count(q);
    let name = v.slots[i].name;
    assert forall|k: int| 0 <= k < words.len() implies (search::term_rank(v, i, #[trigger] q.terms@[k]) is Some
        <==> holds_word(name, words[k])) by {
        let t = q.terms@[k];
        assert(t.is_of(words[k]));
        assert(!inputs::is_filter(words[k]));
        prefilter::lemma_rank_means_contained(name, t);
        lemma_word_stands(name, words[k]);
    }
    if v.is_live(i) && forall|k: int| 0 <= k < words.len() ==> holds_word(name, #[trigger] words[k]) {
        assert forall|k: int| 0 <= k < q.terms@.len() implies search::term_rank(v, i, #[trigger] q.terms@[k]) is Some by {
            assert(holds_word(name, words[k]));
        }
    }
    if search::is_match(v, q, i) {
        assert forall|k: int| 0 <= k < words.len() implies holds_word(name, #[trigger] words[k]) by {
            assert(search::term_rank(v, i, q.terms@[k]) is Some);
        }
    }
}

/// A quoted phrase of ASCII text without a slash is matched by exactly the live entries
/// whose names hold it, blanks included.
pub proof fn law_phrase_hits(v: IndexView, q: Query, phrase: Seq<char>, i: int)
    requires
        phrase.len() > 0,
        !phrase.contains('"'),
        !phrase.contains('/'),
        vstd::utf8::is_ascii_chars(phrase),
        q.is_for(query::request_of(seq!['"'] + phrase + seq!['"'])),
    ensures
        search::is_match(v, q, i) <==> v.is_live(i) && holds_word(v.slots[i].name, phrase),
{
    inputs::law_quoted_phrase_is_a_term(phrase);
    law_match_means_every_clause(v, q, i);
    lemma_extension_count(q);
    let t = q.terms@[0];
    assert(q.terms@[0].is_of(phrase));
    prefilter::lemma_rank_means_contained(v.slots[i].name, t);
    lemma_word_stands(v.slots[i].name, phrase);
    assert(search::term_rank(v, i, q.terms@[0]) is Some <==> holds_word(v.slots[i].name, phrase));
}

/// Words with a slash are looked for in paths: an ASCII word with a slash in it is
/// matched by exactly the live entries whose paths hold it, for names without slashes.
pub proof fn law_path_word_hits(v: IndexView, q: Query, word: Seq<char>, i: int)
    requires
        word.len() > 0,
        inputs::is_plain(word),
        !inputs::is_filter(word),
        vstd::utf8::is_ascii_chars(word),
        word.contains('/'),
        q.is_for(query::request_of(word)),
        v.dirs_wf(),
        0 <= i < v.slots.len(),
        v.is_dir(v.slots[i].dir),
        paths::plain_names(v, v.slots[i].dir),
        !v.slots[i].name.contains(47),
    ensures
        search::is_match(v, q, i) <==> v.is_live(i) && holds_word(v.entry_path(i), word),
{
    inputs::law_word_is_a_token(word);
    let toks = seq![(word, false)];
    assert(toks.drop_last() =~= Seq::empty());
    assert(Request::nothing().with_tokens(toks.drop_last()) == Request::nothing());
    inputs::law_tokens_ask(Request::nothing(), word);
    assert(Seq::<Seq<char>>::empty().push(word) =~= seq![word]);
    law_match_means_every_clause(v, q, i);
    lemma_extension_count(q);
    let t = q.terms@[0];
    assert(q.terms@[0].is_of(word));
    let at = choose|at: int| 0 <= at < word.len() && word[at] == '/';
    assert(t.lower@[at] == 47);
    search::laws::law_path_term_is_containment(v, i, t);
    lemma_word_stands(v.entry_path(i), word);
    assert(search::term_rank(v, i, q.terms@[0]) is Some <==> holds_word(v.entry_path(i), word));
}

/// Every word of an input counts, whatever filters stand beside it: an ASCII word without
/// a slash that is no filter is held by the name of every match.
pub proof fn law_every_word_hits(v: IndexView, q: Query, words: Seq<Seq<char>>, k: int, i: int)
    requires
        inputs::are_words(words),
        0 <= k < words.len(),
        !inputs::is_filter(words[k]),
        vstd::utf8::is_ascii_chars(words[k]),
        !words[k].contains('/'),
        q.is_for(query::request_of(inputs::spaced(words))),
        search::is_match(v, q, i),
    ensures
        holds_word(v.slots[i].name, words[k]),
{
    inputs::law_every_word_is_asked_for(words, k, words.len() as int);
    let asked = query::request_of(inputs::spaced(words));
    let j = choose|j: int| 0 <= j < asked.terms.len() && asked.terms[j] == words[k];
    assert(q.terms@[j].is_of(words[k]));
    law_match_means_every_clause(v, q, i);
    assert(search::term_rank(v, i, q.terms@[j]) is Some);
    prefilter::lemma_rank_means_contained(v.slots[i].name, q.terms@[j]);
    lemma_word_stands(v.slots[i].name, words[k]);
}

/// Lower case is taken character by character.
pub proof fn law_lowering_is_by_character(a: Seq<char>, b: Seq<char>, c: char)
    ensures
        search::lower_each(a + b) == search::lower_each(a) + search::lower_each(b),
        search::lower_each(seq![c]) == outside::lowercase_of_char(c),
        search::lower_each(Seq::empty()).len() == 0,
    decreases b.len(),
{
    assert(seq![c].drop_last() =~= Seq::empty());
    assert(search::lower_each(seq![c].drop_last()) =~= Seq::empty());
    assert(search::lower_each(seq![c]) =~= outside::lowercase_of_char(c));
    if b.len() == 0 {
        assert(a + b =~= a);
        assert(search::lower_each(a) + search::lower_each(b) =~= search::lower_each(a));
    } else {
        law_lowering_is_by_character(a, b.drop_last(), c);
        assert((a + b).drop_last() =~= a + b.drop_last());
        assert((a + b).last() == b.last());
        assert(search::lower_each(a + b) =~= search::lower_each(a) + search::lower_each(b));
    }
}

/// A word with other letters than ASCII is looked for in lower case: exactly the live
/// entries match whose names, in lower case, hold it.
pub proof fn law_unicode_word_hits(v: IndexView, q: Query, word: Seq<char>, i: int)
    requires
        word.len() > 0,
        inputs::is_plain(word),
        !inputs::is_filter(word),
        !vstd::utf8::is_ascii_chars(word),
        !word.contains('/'),
        q.is_for(query::request_of(word)),
    ensures
        search::is_match(v, q, i) <==> v.is_live(i) && exists|at: int| #[trigger]
            ranking::stands_at(
                vstd::utf8::encode_utf8(search::lower_each(outside::lossy_text_of(v.slots[i].name))),
                vstd::utf8::encode_utf8(outside::lowercase_of(word)),
                false,
                at,
            ),
{
    inputs::law_word_is_a_token(word);
    let toks = seq![(word, false)];
    assert(toks.drop_last() =~= Seq::empty());
    assert(Request::nothing().with_tokens(toks.drop_last()) == Request::nothing());
    inputs::law_tokens_ask(Request::nothing(), word);
    assert(Seq::<Seq<char>>::empty().push(word) =~= seq![word]);
    law_match_means_every_clause(v, q, i);
    lemma_extension_count(q);
    let t = q.terms@[0];
    assert(q.terms@[0].is_of(word));
    let hay = search::lower_name(v.slots[i].name);
    prefilter::lemma_rank_means_contained(hay, t);
    assert forall|at: int| true implies (bytestr::occurs(hay, t.lower@, at) <==> #[trigger] ranking::stands_at(
        hay,
        t.lower@,
        false,
        at,
    )) by {
        ranking::lemma_occurs(hay, t.lower@, at);
    }
    if bytestr::contains(hay, t.lower@) {
        let at = choose|at: int| bytestr::occurs(hay, t.lower@, at);
        assert(ranking::stands_at(hay, t.lower@, false, at));
    }
    assert(search::term_rank(v, i, q.terms@[0]) is Some <==> bytestr::contains(hay, t.lower@));
}

} // verus!
