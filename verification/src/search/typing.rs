//! What typing on does to a query.

use vstd::prelude::*;

use crate::bytestr;
use crate::engine;
use crate::engine::EngineView;
use crate::query;
use crate::query::laws as inputs;
use crate::query::{Query, Request};
use crate::search;
use crate::text;
use crate::tree;

verus! {

proof fn lemma_word_query(q: Query, word: Seq<char>)
    requires
        word.len() > 0,
        inputs::is_plain(word),
        !inputs::is_filter(word),
        !word.contains('/'),
        engine::asks(q, word),
    ensures
        q.terms@.len() == 1,
        q.terms@[0].is_of(word),
        q.only_name_terms(),
        !q.asks_nothing(),
        q.error is None,
{
    inputs::law_word_is_a_token(word);
    let toks = seq![(word, false)];
    assert(toks.drop_last() =~= Seq::empty());
    assert(Request::nothing().with_tokens(toks.drop_last()) == Request::nothing());
    inputs::law_tokens_ask(Request::nothing(), word);
    assert(Seq::<Seq<char>>::empty().push(word) =~= seq![word]);
    assert(query::request_of(word) == (Request { terms: seq![word], ..Request::nothing() }));
    assert(query::string_views(q.exts@).len() == q.exts@.len());
    assert(q.terms@[0].is_of(word));
    assert forall|i: int| 0 <= i < q.terms@.len() implies !(#[trigger] q.terms@[i]).on_path by {
        assert(i == 0);
    }
}

/// More letters typed behind a word of ASCII letters narrow the query, so the matches
/// that are remembered serve.
pub proof fn law_typing_on_narrows(q: Query, prev: Query, word: Seq<char>, more: Seq<char>)
    requires
        word.len() > 0,
        inputs::is_plain(word + more),
        vstd::utf8::is_ascii_chars(word + more),
        !(word + more).contains(':'),
        !(word + more).contains('/'),
        engine::asks(prev, word),
        engine::asks(q, word + more),
    ensures
        q.narrows(prev),
{
    let all = word + more;
    assert forall|i: int| 0 <= i < word.len() implies !inputs::is_gap(#[trigger] word[i]) && word[i] != '"' by {
        assert(all[i] == word[i]);
        assert(!inputs::is_gap(all[i]));
    }
    assert(!word.contains('/')) by {
        if word.contains('/') {
            let i = choose|i: int| 0 <= i < word.len() && word[i] == '/';
            assert(all[i] == '/');
        }
    }
    assert(!word.contains(':')) by {
        if word.contains(':') {
            let i = choose|i: int| 0 <= i < word.len() && word[i] == ':';
            assert(all[i] == ':');
        }
    }
    assert forall|i: int| 0 <= i < word.len() implies '\0' <= #[trigger] word[i] <= '\u{7f}' by {
        assert(all[i] == word[i]);
        assert('\0' <= all[i] <= '\u{7f}');
    }
    lemma_no_filter(word);
    lemma_no_filter(all);
    lemma_word_query(prev, word);
    lemma_word_query(q, all);
    let (long, short) = (q.terms@[0].lower@, prev.terms@[0].lower@);
    assert(long == query::needle_of(all) && short == query::needle_of(word));
    assert(long.subrange(0, short.len() as int) =~= short) by {
        assert forall|i: int| 0 <= i < short.len() implies long[i] == short[i] by {
            assert(all[i] == word[i]);
        }
    }
    assert(bytestr::occurs(long, short, 0));
    assert(bytestr::contains(long, short));
    assert(all.subrange(0, word.len() as int) =~= word);
    assert(text::begins(q.raw@, prev.raw@));
    assert forall|i: int| 0 <= i < prev.terms@.len() implies q.has_longer_term(#[trigger] prev.terms@[i]) by {
        assert(i == 0);
        assert(q.terms@[0].ascii == prev.terms@[0].ascii);
    }
}

proof fn lemma_no_filter(word: Seq<char>)
    requires
        !word.contains(':'),
    ensures
        !inputs::is_filter(word),
{
    if inputs::is_headed(word, "ext"@) {
        assert(word.contains(word["ext"@.len() as int]));
    }
    if inputs::is_headed(word, "size"@) {
        assert(word.contains(word["size"@.len() as int]));
    }
    if inputs::is_headed(word, "dir"@) {
        assert(word.contains(word["dir"@.len() as int]));
    }
    if inputs::is_headed(word, "file"@) {
        assert(word.contains(word["file"@.len() as int]));
    }
    if inputs::is_headed(word, "re"@) {
        assert(word.contains(word["re"@.len() as int]));
    }
}

/// A search that narrows the last one looks at the matches of that one alone; any other
/// looks at every live entry.
pub proof fn law_narrowed_searches_look_at_less(e: EngineView, q: Query, prev: Query)
    requires
        !search::is_void(q),
        e.cache_wf(),
    ensures
        e.cache is None ==> e.looked_at(q) == e.index.slots.len() - tree::dead_count(e.index.slots),
        (e.cache matches Some(c) && c.query == prev && c.generation == e.generation) && q.narrows(prev) ==> e.looked_at(q)
            == search::matching(e.index, prev, search::all_ids(e.index)).len(),
        (e.cache matches Some(c) && c.query == prev) && !q.narrows(prev) ==> e.looked_at(q) == e.index.slots.len()
            - tree::dead_count(e.index.slots),
        (e.cache matches Some(c) && c.generation != e.generation) ==> e.looked_at(q) == e.index.slots.len()
            - tree::dead_count(e.index.slots),
{
    tree::keeps::lemma_dead_count_bounds(e.index.slots);
}

/// The matches of a search are remembered, all of them, unless nothing was asked or they
/// are too many.
pub proof fn law_matches_are_remembered(e: EngineView, q: Query)
    ensures
        e.remembered(q) is Some <==> search::complete::is_asked(q) && search::matching(
            e.index,
            q,
            search::all_ids(e.index),
        ).len() <= 150_000,
        e.remembered(q) matches Some(c) ==> c.query == q && c.generation == e.generation && c.ids == search::matching(
            e.index,
            q,
            search::all_ids(e.index),
        ),
{
}

} // verus!
