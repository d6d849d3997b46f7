//! How far one request fixes its results: whatever was searched for it, the same
//! matches are counted, and the same keys come out in the same order.

use vstd::prelude::*;

use vstd::multiset::Multiset;

use crate::model::SearchResults;
use crate::query;
use crate::query::{Query, Request, Term};
use crate::search;
use crate::search::topk;
use crate::search::topk::Ranked;
use crate::tree::IndexView;

verus! {

/// Both queries ask for what one request says.
pub open spec fn ask_alike(a: Query, b: Query) -> bool {
    exists|r: Request| #[trigger] a.is_for(r) && b.is_for(r)
}

/// The key of the entry that stands at a place of the results.
#[verifier::opaque]
pub open spec fn key_at(v: IndexView, q: Query, r: SearchResults, k: int) -> u64 {
    search::candidate(v, q, r.hits@[k].id).0
}

/// The same matches are counted, the same is said of what was left out, and the
/// same keys, and so the same scores, stand in the same order.
pub open spec fn agree(v: IndexView, q: Query, a: SearchResults, b: SearchResults) -> bool {
    &&& a.total == b.total
    &&& a.truncated == b.truncated
    &&& a.hits@.len() == b.hits@.len()
    &&& forall|k: int|
        0 <= k < a.hits@.len() ==> #[trigger] key_at(v, q, a, k) == key_at(v, q, b, k)
    &&& forall|k: int|
        0 <= k < a.hits@.len() ==> (#[trigger] a.hits@[k]).score == b.hits@[k].score
}

// ---- one request, one score ---------------------------------------------------

proof fn lemma_term_rank(v: IndexView, i: int, s: Term, t: Term)
    requires
        s.lower@ == t.lower@,
        s.ascii == t.ascii,
        s.on_path == t.on_path,
    ensures
        search::term_rank(v, i, s) == search::term_rank(v, i, t),
{
}

spec fn read_alike(a: Seq<Term>, b: Seq<Term>) -> bool {
    &&& a.len() == b.len()
    &&& forall|k: int|
        0 <= k < a.len() ==> (#[trigger] a[k]).lower@ == b[k].lower@ && a[k].ascii == b[k].ascii
            && a[k].on_path == b[k].on_path
}

proof fn lemma_rank_sum(v: IndexView, i: int, a: Seq<Term>, b: Seq<Term>)
    requires
        read_alike(a, b),
    ensures
        search::rank_sum(v, i, a) == search::rank_sum(v, i, b),
        search::all_terms_match(v, i, a) == search::all_terms_match(v, i, b),
    decreases a.len(),
{
    if a.len() > 0 {
        lemma_rank_sum(v, i, a.drop_last(), b.drop_last());
        lemma_term_rank(v, i, a.last(), b.last());
    }
    assert forall|k: int| 0 <= k < a.len() implies search::term_rank(v, i, #[trigger] a[k])
        == search::term_rank(v, i, b[k]) by {
        lemma_term_rank(v, i, a[k], b[k]);
    }
    if search::all_terms_match(v, i, a) {
        assert forall|k: int| 0 <= k < b.len() implies search::term_rank(v, i, #[trigger] b[k]) is Some by {
            assert(search::term_rank(v, i, a[k]) is Some);
        }
    }
    if search::all_terms_match(v, i, b) {
        assert forall|k: int| 0 <= k < a.len() implies search::term_rank(v, i, #[trigger] a[k]) is Some by {
            assert(search::term_rank(v, i, b[k]) is Some);
        }
    }
}

proof fn lemma_exts(a: Query, b: Query, name: Seq<u8>)
    requires
        query::string_views(a.exts@) == query::string_views(b.exts@),
    ensures
        a.exts@.len() == b.exts@.len(),
        search::has_ext(name, a.exts@) == search::has_ext(name, b.exts@),
{
    let va = query::string_views(a.exts@);
    let vb = query::string_views(b.exts@);
    assert(va.len() == a.exts@.len() && vb.len() == b.exts@.len());
    assert forall|k: int| 0 <= k < a.exts@.len() implies query::ext_bytes(a.exts@)[k] == query::ext_bytes(
        b.exts@,
    )[k] by {
        assert(va[k] == a.exts@[k]@ && vb[k] == b.exts@[k]@);
    }
    assert(query::ext_bytes(a.exts@) =~= query::ext_bytes(b.exts@));
}

/// Queries that ask for the same give each entry the same score.
pub proof fn law_one_request_one_score(v: IndexView, a: Query, b: Query, i: int)
    requires
        ask_alike(a, b),
    ensures
        search::score(v, a, i) == search::score(v, b, i),
        search::is_void(a) == search::is_void(b),
{
    let r = choose|r: Request| #[trigger] a.is_for(r) && b.is_for(r);
    assert(read_alike(a.terms@, b.terms@)) by {
        assert forall|k: int| 0 <= k < a.terms@.len() implies (#[trigger] a.terms@[k]).lower@
            == b.terms@[k].lower@ && a.terms@[k].ascii == b.terms@[k].ascii && a.terms@[k].on_path
            == b.terms@[k].on_path by {
            assert(a.terms@[k].is_of(r.terms[k]));
            assert(b.terms@[k].is_of(r.terms[k]));
        }
    }
    lemma_rank_sum(v, i, a.terms@, b.terms@);
    lemma_exts(a, b, v.slots[i].name);
    assert(search::regex_fits(v, i, a) == search::regex_fits(v, i, b)) by {
        if r.regex is Some {
            let hay = if a.regex_on_path {
                v.entry_path(i)
            } else {
                v.slots[i].name
            };
            assert(crate::outside::regex_accepts(a.regex->0, hay) == crate::outside::pattern_accepts(
                r.regex->0,
                hay,
            ));
            assert(crate::outside::regex_accepts(b.regex->0, hay) == crate::outside::pattern_accepts(
                r.regex->0,
                hay,
            ));
        }
    }
    assert(search::lone_byte(a) == search::lone_byte(b)) by {
        if a.terms@.len() == 1 {
            assert(a.terms@[0].lower@ == b.terms@[0].lower@);
        }
    }
    assert(search::text_score(v, a, i) == search::text_score(v, b, i));
}

proof fn lemma_same_candidates(v: IndexView, a: Query, b: Query, ids: Seq<u32>)
    requires
        ask_alike(a, b),
    ensures
        search::matching(v, a, ids) == search::matching(v, b, ids),
        search::candidates(v, a, ids) == search::candidates(v, b, ids),
    decreases ids.len(),
{
    if ids.len() > 0 {
        lemma_same_candidates(v, a, b, ids.drop_last());
        law_one_request_one_score(v, a, b, ids.last() as int);
    }
}

// ---- one collection, one row of best keys -------------------------------------

/// No place holds a better key in one choice of the best than in another.
proof fn lemma_no_better_key(a: Seq<Ranked>, b: Seq<Ranked>, limit: nat, all: Multiset<Ranked>, i: int)
    requires
        topk::best_of(a, limit, all),
        topk::best_of(b, limit, all),
        0 <= i < a.len(),
    ensures
        a.len() == b.len(),
        a[i].0 <= b[i].0,
{
    broadcast use vstd::seq_lib::group_to_multiset_ensures;

    if a[i].0 > b[i].0 {
        let bar = a[i].0;
        let above = a.take(i + 1);
        let before = b.take(i);
        let kept_a = a.to_multiset();
        let kept_b = b.to_multiset();
        let most = above.to_multiset();
        let few = before.to_multiset();
        assert(a =~= above + a.skip(i + 1));
        assert(b =~= before + b.skip(i));
        vstd::seq_lib::lemma_multiset_commutative(above, a.skip(i + 1));
        vstd::seq_lib::lemma_multiset_commutative(before, b.skip(i));
        assert(kept_a == most.add(a.skip(i + 1).to_multiset()));
        assert(kept_b == few.add(b.skip(i).to_multiset()));
        assert(b.contains(b[i]));
        assert(kept_b.count(b[i]) > 0);
        assert forall|x: Ranked| most.count(x) <= few.count(x) by {
            if most.count(x) > 0 {
                assert(above.contains(x));
                let j = choose|j: int| 0 <= j < above.len() && above[j] == x;
                assert(a[j] == x);
                if j < i {
                    assert(topk::in_order(a[j], a[i]));
                }
                assert(x.0 >= bar);
                assert(kept_a.count(x) <= all.count(x));
                if all.count(x) > kept_b.count(x) {
                    assert(x.0 <= b[i].0);
                }
                assert(b.skip(i).to_multiset().count(x) == 0) by {
                    if b.skip(i).to_multiset().count(x) > 0 {
                        assert(b.skip(i).contains(x));
                        let m = choose|m: int| 0 <= m < b.skip(i).len() && b.skip(i)[m] == x;
                        assert(b[i + m] == x);
                        if m > 0 {
                            assert(topk::in_order(b[i], b[i + m]));
                        }
                    }
                }
            }
        }
        assert(most.subset_of(few));
        assert(few.sub(most).len() == few.len() - most.len());
        assert(most.len() == i + 1 && few.len() == i);
    }
}

/// Two choices of the best of one collection hold the same keys in the same
/// order. Where only some of several equal keys fit, they may keep different
/// ones.
pub proof fn law_best_keys(a: Seq<Ranked>, b: Seq<Ranked>, limit: nat, all: Multiset<Ranked>)
    requires
        topk::best_of(a, limit, all),
        topk::best_of(b, limit, all),
    ensures
        a.len() == b.len(),
        forall|i: int| 0 <= i < a.len() ==> (#[trigger] a[i]).0 == (#[trigger] b[i]).0,
{
    assert forall|i: int| 0 <= i < a.len() implies (#[trigger] a[i]).0 == (#[trigger] b[i]).0 by {
        lemma_no_better_key(a, b, limit, all, i);
        lemma_no_better_key(b, a, limit, all, i);
    }
}

proof fn lemma_candidate_of(v: IndexView, q: Query, ids: Seq<u32>, c: Ranked)
    requires
        search::candidates(v, q, ids).count(c) > 0,
    ensures
        c == search::candidate(v, q, c.1),
    decreases ids.len(),
{
    if ids.len() > 0 {
        if search::candidates(v, q, ids.drop_last()).count(c) > 0 {
            lemma_candidate_of(v, q, ids.drop_last(), c);
        }
    }
}

proof fn lemma_shown_keys(v: IndexView, q: Query, ids: Seq<u32>, limit: nat, r: SearchResults) -> (order: Seq<Ranked>)
    requires
        search::results_over(v, q, ids, limit, r),
        !search::is_void(q),
    ensures
        topk::best_of(order, limit, search::candidates(v, q, ids)),
        r.hits@.len() == order.len(),
        forall|k: int|
            0 <= k < order.len() ==> key_at(v, q, r, k) == (#[trigger] order[k]).0 && r.hits@[k].score
                == order[k].0 / 0x1_0000_0000_0000,
{
    broadcast use vstd::seq_lib::group_to_multiset_ensures;

    let all = search::candidates(v, q, ids);
    let order = choose|order: Seq<Ranked>| #[trigger]
        topk::best_of(order, limit, all) && r.hits@.len() == order.len() && forall|k: int|
            0 <= k < order.len() ==> search::shows(v, #[trigger] r.hits@[k], order[k]);
    assert forall|k: int| 0 <= k < order.len() implies key_at(v, q, r, k) == (#[trigger] order[k]).0
        && r.hits@[k].score == order[k].0 / 0x1_0000_0000_0000 by {
        reveal(key_at);
        assert(search::shows(v, r.hits@[k], order[k]));
        assert(order.contains(order[k]));
        assert(order.to_multiset().count(order[k]) > 0);
        lemma_candidate_of(v, q, ids, order[k]);
    }
    order
}

/// Rows of the same keys are shown alike.
proof fn lemma_rows_agree(
    v: IndexView,
    a: Query,
    b: Query,
    x: Seq<Ranked>,
    y: Seq<Ranked>,
    r: SearchResults,
    s: SearchResults,
)
    requires
        ask_alike(a, b),
        r.total == s.total,
        r.truncated == s.truncated,
        r.hits@.len() == x.len(),
        s.hits@.len() == x.len(),
        forall|k: int|
            0 <= k < x.len() ==> key_at(v, a, r, k) == (#[trigger] x[k]).0 && r.hits@[k].score == x[k].0
                / 0x1_0000_0000_0000,
        forall|k: int|
            0 <= k < x.len() ==> key_at(v, b, s, k) == (#[trigger] y[k]).0 && s.hits@[k].score == y[k].0
                / 0x1_0000_0000_0000,
        forall|k: int| 0 <= k < x.len() ==> (#[trigger] x[k]).0 == (#[trigger] y[k]).0,
    ensures
        agree(v, a, r, s),
{
    assert forall|k: int| 0 <= k < r.hits@.len() implies #[trigger] key_at(v, a, r, k) == key_at(v, a, s, k) by {
        assert(key_at(v, a, s, k) == key_at(v, b, s, k)) by {
            reveal(key_at);
            law_one_request_one_score(v, a, b, s.hits@[k].id as int);
        }
        assert(x[k].0 == y[k].0);
    }
    assert forall|k: int| 0 <= k < r.hits@.len() implies (#[trigger] r.hits@[k]).score == s.hits@[k].score by {
        assert(x[k].0 == y[k].0);
    }
}

/// Two results of one request over the same entries agree: the same total and
/// the same flag, and the same keys in the same order.
pub proof fn law_one_request_one_answer(
    v: IndexView,
    a: Query,
    b: Query,
    ids: Seq<u32>,
    limit: nat,
    r: SearchResults,
    s: SearchResults,
)
    requires
        ask_alike(a, b),
        search::results_over(v, a, ids, limit, r),
        search::results_over(v, b, ids, limit, s),
    ensures
        agree(v, a, r, s),
{
    lemma_same_candidates(v, a, b, ids);
    law_one_request_one_score(v, a, b, 0);
    if !search::is_void(a) {
        let x = lemma_shown_keys(v, a, ids, limit, r);
        let y = lemma_shown_keys(v, b, ids, limit, s);
        law_best_keys(x, y, limit, search::candidates(v, a, ids));
        lemma_rows_agree(v, a, b, x, y, r, s);
    } else {
        lemma_rows_agree(v, a, b, Seq::empty(), Seq::empty(), r, s);
    }
}

} // verus!
