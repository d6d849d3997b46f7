//! How matches are ranked, told over names and terms.

use vstd::prelude::*;

use crate::bytestr;
use crate::outside;
use crate::query::{Query, Term};
use crate::search;
use crate::search::prefilter;
use crate::tree::paths;
use crate::tree::IndexView;

verus! {

/// Letters of one alphabet: a capital and its small letter are alike, and every other
/// byte is like itself alone.
pub proof fn law_letter_case(a: u8, b: u8)
    ensures
        bytestr::lower(a) == bytestr::lower(b) <==> a == b || (65 <= a <= 90 && b == a + 32) || (65 <= b <= 90 && a
            == b + 32),
        65 <= a <= 90 ==> bytestr::lower(a) == a + 32,
        !(65 <= a <= 90) ==> bytestr::lower(a) == a,
{
}

/// The needle stands in `hay` at `at`: with capitals like small letters where it is
/// ASCII, else byte for byte.
pub open spec fn stands_at(hay: Seq<u8>, needle: Seq<u8>, ascii: bool, at: int) -> bool {
    &&& 0 <= at
    &&& at + needle.len() <= hay.len()
    &&& forall|k: int|
        0 <= k < needle.len() ==> (if ascii {
            bytestr::lower(hay[at + k]) == bytestr::lower(#[trigger] needle[k])
        } else {
            hay[at + k] == needle[k]
        })
}

/// The needle stands at `at` and nowhere before.
pub open spec fn stands_first_at(hay: Seq<u8>, needle: Seq<u8>, ascii: bool, at: int) -> bool {
    &&& stands_at(hay, needle, ascii, at)
    &&& forall|j: int| 0 <= j < at ==> !#[trigger] stands_at(hay, needle, ascii, j)
}

/// One of `_`, `-`, `.`, a space, `/`, `@`, `+` and `,`.
pub open spec fn parts_words(b: u8) -> bool {
    b as char == '_' || b as char == '-' || b as char == '.' || b as char == ' ' || b as char == '/' || b as char == '@'
        || b as char == '+' || b as char == ','
}

pub(crate) proof fn lemma_occurs(hay: Seq<u8>, needle: Seq<u8>, at: int)
    ensures
        bytestr::occurs_ci(hay, needle, at) <==> stands_at(hay, needle, true, at),
        bytestr::occurs(hay, needle, at) <==> stands_at(hay, needle, false, at),
{
    if 0 <= at && at + needle.len() <= hay.len() {
        let w = hay.subrange(at, at + needle.len());
        if bytestr::occurs_ci(hay, needle, at) {
            assert forall|k: int| 0 <= k < needle.len() implies bytestr::lower(hay[at + k]) == bytestr::lower(
                #[trigger] needle[k],
            ) by {
                assert(w[k] == hay[at + k]);
            }
        }
        if stands_at(hay, needle, true, at) {
            assert forall|k: int| 0 <= k < w.len() implies bytestr::lower(#[trigger] w[k]) == bytestr::lower(
                needle[k],
            ) by {
                assert(w[k] == hay[at + k]);
            }
        }
        if bytestr::occurs(hay, needle, at) {
            assert forall|k: int| 0 <= k < needle.len() implies hay[at + k] == #[trigger] needle[k] by {
                assert(w[k] == hay[at + k]);
            }
        }
        if stands_at(hay, needle, false, at) {
            assert(w =~= needle);
        }
    }
}

/// Where a term is found: at the leftmost place where it stands.
proof fn lemma_first(hay: Seq<u8>, t: Term) -> (at: Option<int>)
    ensures
        at == (if t.ascii {
            search::first_ci(hay, t.lower@)
        } else {
            search::first_exact(hay, t.lower@)
        }),
        match at {
            Some(a) => stands_first_at(hay, t.lower@, t.ascii, a),
            None => forall|a: int| !#[trigger] stands_at(hay, t.lower@, t.ascii, a),
        },
{
    let needle = t.lower@;
    prefilter::lemma_rank_means_contained(hay, t);
    assert forall|a: int| true implies (bytestr::occurs_ci(hay, needle, a) <==> #[trigger] stands_at(
        hay,
        needle,
        true,
        a,
    )) && (bytestr::occurs(hay, needle, a) <==> stands_at(hay, needle, false, a)) by {
        lemma_occurs(hay, needle, a);
    }
    assert forall|a: int| true implies (bytestr::occurs(hay, needle, a) <==> #[trigger] stands_at(
        hay,
        needle,
        false,
        a,
    )) by {
        lemma_occurs(hay, needle, a);
    }
    if t.ascii {
        prefilter::lemma_first_ci_exists(hay, needle, 0);
        assert(bytestr::is_first_ci(hay, needle, search::first_ci(hay, needle)));
        search::first_ci(hay, needle)
    } else {
        prefilter::lemma_first_exists(hay, needle, 0);
        assert(bytestr::is_first(hay, needle, search::first_exact(hay, needle)));
        search::first_exact(hay, needle)
    }
}

/// The tiers of a term in a name: 100 for the whole name, 95 for all of it before its
/// only extension, 80 for its beginning, 60 where it stands first at the beginning of a
/// word, 40 where it stands first inside one, and none where it does not occur.
pub proof fn law_tiers(hay: Seq<u8>, t: Term)
    ensures
        search::rank_in(hay, t) is None <==> forall|at: int| !#[trigger] stands_at(hay, t.lower@, t.ascii, at),
        search::rank_in(hay, t) == Some(100nat) <==> hay.len() == t.lower@.len() && stands_at(hay, t.lower@, t.ascii, 0),
        search::rank_in(hay, t) == Some(95nat) <==> stands_at(hay, t.lower@, t.ascii, 0) && hay.len() > t.lower@.len()
            && hay[t.lower@.len() as int] as char == '.' && (forall|j: int|
            t.lower@.len() < j < hay.len() ==> hay[j] as char != '.'),
        search::rank_in(hay, t) == Some(80nat) <==> stands_at(hay, t.lower@, t.ascii, 0) && hay.len() > t.lower@.len()
            && !(hay[t.lower@.len() as int] as char == '.' && (forall|j: int|
            t.lower@.len() < j < hay.len() ==> hay[j] as char != '.')),
        search::rank_in(hay, t) == Some(60nat) <==> exists|at: int|
            at > 0 && #[trigger] stands_first_at(hay, t.lower@, t.ascii, at) && parts_words(hay[at - 1]),
        search::rank_in(hay, t) == Some(40nat) <==> exists|at: int|
            at > 0 && #[trigger] stands_first_at(hay, t.lower@, t.ascii, at) && !parts_words(hay[at - 1]),
        search::rank_in(hay, t) matches Some(r) ==> r == 100 || r == 95 || r == 80 || r == 60 || r == 40,
{
    let needle = t.lower@;
    let n = needle.len() as int;
    let at = lemma_first(hay, t);
    prefilter::lemma_last_exists(hay, 46, hay.len() as int);
    assert(bytestr::is_last_of(hay, 46, search::last_dot(hay)));
    let ends = n < hay.len() && hay[n] == 46 && (forall|j: int| n < j < hay.len() ==> hay[j] != 46);
    if ends {
        search::lemma_last_of(hay, 46, Some(n), search::last_dot(hay));
    }
    match at {
        None => {},
        Some(a) => {
            assert(stands_first_at(hay, needle, t.ascii, a));
            assert forall|b: int| #[trigger] stands_first_at(hay, needle, t.ascii, b) implies b == a by {
                if a < b {
                    assert(!stands_at(hay, needle, t.ascii, a));
                } else if b < a {
                    assert(!stands_at(hay, needle, t.ascii, b));
                }
            }
            if a > 0 {
                assert(!stands_at(hay, needle, t.ascii, 0));
            }
        },
    }
}

/// A term without a slash is ranked in the name, a non-ASCII one in the name in lower
/// case.
pub proof fn law_terms_rank_in_names(v: IndexView, i: int, t: Term)
    requires
        !t.on_path,
    ensures
        t.ascii ==> search::term_rank(v, i, t) == search::rank_in(v.slots[i].name, t),
        !t.ascii ==> search::term_rank(v, i, t) == search::rank_in(search::lower_name(v.slots[i].name), t),
{
}

/// An ASCII term with a slash ranks 20 where the path of the directory, with its slash,
/// already holds it, 60 where only the path with the name behind it does, and does not
/// match where neither does.
pub proof fn law_path_tiers(v: IndexView, i: int, t: Term)
    requires
        v.dirs_wf(),
        0 <= i < v.slots.len(),
        v.is_dir(v.slots[i].dir),
        paths::plain_names(v, v.slots[i].dir),
        !v.slots[i].name.contains(47),
        t.ascii,
        t.on_path,
        t.lower@.contains(47),
    ensures
        search::term_rank(v, i, t) == Some(20nat) <==> exists|at: int| #[trigger]
            stands_at(v.dir_prefix(v.slots[i].dir), t.lower@, true, at),
        search::term_rank(v, i, t) == Some(60nat) <==> (exists|at: int| #[trigger]
            stands_at(v.entry_path(i), t.lower@, true, at)) && !(exists|at: int| #[trigger]
            stands_at(v.dir_prefix(v.slots[i].dir), t.lower@, true, at)),
        search::term_rank(v, i, t) is None <==> !(exists|at: int| #[trigger]
            stands_at(v.entry_path(i), t.lower@, true, at)),
{
    let needle = t.lower@;
    let p = v.dir_prefix(v.slots[i].dir);
    search::laws::law_path_term_is_containment(v, i, t);
    assert forall|a: int| true implies (bytestr::occurs_ci(p, needle, a) <==> #[trigger] stands_at(
        p,
        needle,
        true,
        a,
    )) by {
        lemma_occurs(p, needle, a);
    }
    assert forall|a: int| true implies (bytestr::occurs_ci(v.entry_path(i), needle, a) <==> #[trigger] stands_at(
        v.entry_path(i),
        needle,
        true,
        a,
    )) by {
        lemma_occurs(v.entry_path(i), needle, a);
    }
    if bytestr::contains_ci(p, needle) {
        let a = choose|a: int| bytestr::occurs_ci(p, needle, a);
        assert(stands_at(p, needle, true, a));
    }
    if bytestr::contains_ci(v.entry_path(i), needle) {
        let a = choose|a: int| bytestr::occurs_ci(v.entry_path(i), needle, a);
        assert(stands_at(v.entry_path(i), needle, true, a));
    }
}

// ---- scores -------------------------------------------------------------------

/// One term of a single letter or dot, and nothing else about the name: then only the
/// first letter of a name counts.
pub open spec fn is_one_letter(q: Query) -> bool {
    &&& q.terms@.len() == 1
    &&& q.exts@.len() == 0
    &&& q.regex is None
    &&& q.terms@[0].ascii
    &&& !q.terms@[0].on_path
    &&& q.terms@[0].lower@.len() == 1
    &&& 'a' <= q.terms@[0].lower@[0] as char <= 'z' || q.terms@[0].lower@[0] as char == '.'
}

/// The sum of a row of numbers.
pub open spec fn sum(ranks: Seq<nat>) -> nat
    decreases ranks.len(),
{
    if ranks.len() == 0 {
        0
    } else {
        sum(ranks.drop_last()) + ranks.last()
    }
}

proof fn lemma_rank_sum(v: IndexView, i: int, terms: Seq<Term>, ranks: Seq<nat>)
    requires
        ranks.len() == terms.len(),
        forall|k: int| 0 <= k < terms.len() ==> search::term_rank(v, i, #[trigger] terms[k]) == Some(ranks[k]),
    ensures
        search::rank_sum(v, i, terms) == sum(ranks),
    decreases terms.len(),
{
    if terms.len() > 0 {
        let (a, b) = (terms.drop_last(), ranks.drop_last());
        assert forall|k: int| 0 <= k < a.len() implies search::term_rank(v, i, #[trigger] a[k]) == Some(b[k]) by {
            assert(terms[k] == a[k]);
        }
        lemma_rank_sum(v, i, a, b);
        assert(search::term_rank(v, i, terms[terms.len() - 1]) == Some(ranks[ranks.len() - 1]));
    }
}

/// The ranks of the terms of a match.
proof fn lemma_ranks(v: IndexView, q: Query, i: int) -> (ranks: Seq<nat>)
    requires
        search::is_match(v, q, i),
    ensures
        ranks.len() == q.terms@.len(),
        forall|k: int| 0 <= k < ranks.len() ==> search::term_rank(v, i, #[trigger] q.terms@[k]) == Some(ranks[k]),
{
    let ranks = Seq::new(q.terms@.len(), |k: int| search::term_rank(v, i, q.terms@[k])->0);
    assert forall|k: int| 0 <= k < ranks.len() implies search::term_rank(v, i, #[trigger] q.terms@[k]) == Some(
        ranks[k],
    ) by {
        search::laws::law_every_term_matches(v, q, i, k);
    }
    ranks
}

/// The score of a match is the average of the ranks of its terms, cut to a whole number,
/// however many terms there are.
pub proof fn law_score_is_average(v: IndexView, q: Query, i: int, ranks: Seq<nat>)
    requires
        search::is_match(v, q, i),
        !is_one_letter(q),
        q.terms@.len() > 0,
        ranks.len() == q.terms@.len(),
        forall|k: int| 0 <= k < ranks.len() ==> search::term_rank(v, i, #[trigger] q.terms@[k]) == Some(ranks[k]),
    ensures
        ({
            let s = search::score(v, q, i)->0;
            s * ranks.len() <= sum(ranks) < (s + 1) * ranks.len()
        }),
{
    lemma_rank_sum(v, i, q.terms@, ranks);
    let n = ranks.len();
    let total = sum(ranks);
    vstd::arithmetic::div_mod::lemma_fundamental_div_mod(total as int, n as int);
    vstd::arithmetic::mul::lemma_mul_is_commutative(n as int, total as int / n as int);
    let s = search::score(v, q, i)->0;
    assert(s == total / n);
    assert((s + 1) * n == s * n + n) by (nonlinear_arith);
}

proof fn lemma_sum_grows(a: Seq<nat>, b: Seq<nat>)
    requires
        a.len() == b.len(),
        forall|k: int| 0 <= k < a.len() ==> #[trigger] a[k] >= b[k],
    ensures
        sum(a) >= sum(b),
    decreases a.len(),
{
    if a.len() > 0 {
        let (x, y) = (a.drop_last(), b.drop_last());
        assert forall|k: int| 0 <= k < x.len() implies #[trigger] x[k] >= y[k] by {
            assert(a[k] >= b[k]);
        }
        lemma_sum_grows(x, y);
        assert(a[a.len() - 1] >= b[b.len() - 1]);
    }
}

proof fn lemma_sum_of_same(a: Seq<nat>, r: nat)
    requires
        forall|k: int| 0 <= k < a.len() ==> #[trigger] a[k] == r,
    ensures
        sum(a) == r * a.len(),
    decreases a.len(),
{
    if a.len() > 0 {
        let x = a.drop_last();
        assert forall|k: int| 0 <= k < x.len() implies #[trigger] x[k] == r by {
            assert(a[k] == r);
        }
        lemma_sum_of_same(x, r);
        assert(a[a.len() - 1] == r);
        let n = x.len();
        assert(r * n + r == r * (n + 1)) by (nonlinear_arith);
    } else {
        assert(r * 0 == 0);
    }
}

/// What a one-letter query gives a name: 100 where it is that letter alone, 80 where it
/// begins with it, 40 where it stands further on.
pub proof fn law_one_letter_scores(v: IndexView, q: Query, i: int)
    requires
        is_one_letter(q),
        search::is_match(v, q, i),
    ensures
        ({
            let name = v.slots[i].name;
            let needle = q.terms@[0].lower@;
            let s = search::score(v, q, i)->0;
            &&& s == 100 <==> name.len() == 1 && stands_at(name, needle, true, 0)
            &&& s == 80 <==> name.len() > 1 && stands_at(name, needle, true, 0)
            &&& s == 40 <==> !stands_at(name, needle, true, 0) && exists|at: int| #[trigger]
                stands_at(name, needle, true, at)
            &&& s == 100 || s == 80 || s == 40
        }),
{
    let name = v.slots[i].name;
    let needle = q.terms@[0].lower@;
    let b = needle[0];
    assert(search::lone_byte(q) == Some(b));
    assert(needle =~= seq![b]);
    let at = choose|at: int| bytestr::occurs_ci(name, needle, at);
    assert(bytestr::occurs_ci(name, needle, at));
    lemma_occurs(name, needle, at);
    assert(bytestr::lower(b) == b);
    assert(stands_at(name, needle, true, 0) <==> bytestr::lower(name[0]) == bytestr::lower(needle[0]));
}

/// The rank of the letter of a one-letter query tells its score: of 95 and 80 it is 80,
/// of 60 and 40 it is 40.
proof fn lemma_one_letter(v: IndexView, q: Query, i: int, r: nat)
    requires
        is_one_letter(q),
        search::is_match(v, q, i),
        search::term_rank(v, i, q.terms@[0]) == Some(r),
    ensures
        ({
            let s = search::score(v, q, i)->0;
            &&& r == 100 ==> s == 100
            &&& r == 95 || r == 80 ==> s == 80
            &&& r == 60 || r == 40 ==> s == 40
            &&& r == 100 || r == 95 || r == 80 || r == 60 || r == 40
        }),
{
    law_one_letter_scores(v, q, i);
    law_tiers(v.slots[i].name, q.terms@[0]);
    let name = v.slots[i].name;
    let needle = q.terms@[0].lower@;
    if r == 60 {
        let at = choose|at: int|
            at > 0 && #[trigger] stands_first_at(name, needle, true, at) && parts_words(name[at - 1]);
        assert(!stands_at(name, needle, true, 0));
    }
    if r == 40 {
        let at = choose|at: int|
            at > 0 && #[trigger] stands_first_at(name, needle, true, at) && !parts_words(name[at - 1]);
        assert(!stands_at(name, needle, true, 0));
    }
}

/// An entry in which each term ranks at least as high as in another one has at least
/// the score of that one, for any number of terms.
pub proof fn law_score_grows_with_ranks(v: IndexView, q: Query, a: int, b: int)
    requires
        search::is_match(v, q, a),
        search::is_match(v, q, b),
        forall|k: int|
            0 <= k < q.terms@.len() ==> search::term_rank(v, a, #[trigger] q.terms@[k])->0 >= search::term_rank(
                v,
                b,
                q.terms@[k],
            )->0,
    ensures
        search::score(v, q, a)->0 >= search::score(v, q, b)->0,
{
    let ra = lemma_ranks(v, q, a);
    let rb = lemma_ranks(v, q, b);
    assert forall|k: int| 0 <= k < ra.len() implies #[trigger] ra[k] >= rb[k] by {
        assert(search::term_rank(v, a, q.terms@[k]) == Some(ra[k]));
        assert(search::term_rank(v, b, q.terms@[k]) == Some(rb[k]));
    }
    if is_one_letter(q) {
        assert(search::term_rank(v, a, q.terms@[0]) == Some(ra[0]));
        assert(search::term_rank(v, b, q.terms@[0]) == Some(rb[0]));
        lemma_one_letter(v, q, a, ra[0]);
        lemma_one_letter(v, q, b, rb[0]);
        assert(ra[0] >= rb[0]);
    } else if q.terms@.len() > 0 {
        law_score_is_average(v, q, a, ra);
        law_score_is_average(v, q, b, rb);
        lemma_sum_grows(ra, rb);
        let (x, y) = (search::score(v, q, a)->0, search::score(v, q, b)->0);
        let n = ra.len();
        assert(x >= y) by (nonlinear_arith)
            requires
                y * n < (x + 1) * n,
                n > 0,
        ;
    }
}

/// Terms that all rank alike give that rank as the score: a match of whole names scores
/// 100, one of beginnings 80, one inside words 40. A one-letter query scores whole
/// names, beginnings and the rest only.
pub proof fn law_equal_ranks_are_the_score(v: IndexView, q: Query, i: int, r: nat)
    requires
        search::is_match(v, q, i),
        q.terms@.len() > 0,
        forall|k: int| 0 <= k < q.terms@.len() ==> search::term_rank(v, i, #[trigger] q.terms@[k]) == Some(r),
        is_one_letter(q) ==> r != 95 && r != 60,
    ensures
        search::score(v, q, i) == Some(r),
{
    let ranks = lemma_ranks(v, q, i);
    assert forall|k: int| 0 <= k < ranks.len() implies #[trigger] ranks[k] == r by {
        assert(search::term_rank(v, i, q.terms@[k]) == Some(ranks[k]));
    }
    if is_one_letter(q) {
        assert(search::term_rank(v, i, q.terms@[0]) == Some(r));
        lemma_one_letter(v, q, i, r);
    } else {
        law_score_is_average(v, q, i, ranks);
        lemma_sum_of_same(ranks, r);
        let s = search::score(v, q, i)->0;
        let n = ranks.len();
        assert(s == r) by (nonlinear_arith)
            requires
                s * n <= r * n < (s + 1) * n,
                n > 0,
        ;
    }
}

/// A score lies between the lowest and the highest rank of the terms.
pub proof fn law_score_is_between_ranks(v: IndexView, q: Query, i: int, low: nat, high: nat)
    requires
        search::is_match(v, q, i),
        !is_one_letter(q),
        q.terms@.len() > 0,
        forall|k: int|
            0 <= k < q.terms@.len() ==> low <= search::term_rank(v, i, #[trigger] q.terms@[k])->0 <= high,
    ensures
        low <= search::score(v, q, i)->0 <= high,
{
    let ranks = lemma_ranks(v, q, i);
    let lows = Seq::new(ranks.len(), |k: int| low);
    let highs = Seq::new(ranks.len(), |k: int| high);
    assert forall|k: int| 0 <= k < ranks.len() implies low <= #[trigger] ranks[k] <= high by {
        assert(search::term_rank(v, i, q.terms@[k]) == Some(ranks[k]));
    }
    lemma_sum_grows(ranks, lows);
    lemma_sum_grows(highs, ranks);
    lemma_sum_of_same(lows, low);
    lemma_sum_of_same(highs, high);
    law_score_is_average(v, q, i, ranks);
    let s = search::score(v, q, i)->0;
    let n = ranks.len();
    assert(low <= s <= high) by (nonlinear_arith)
        requires
            s * n <= high * n,
            low * n < (s + 1) * n,
            n > 0,
    ;
}

/// Without terms, what a pattern matches scores 40 and what only a filter admits 0.
pub proof fn law_scores_without_terms(v: IndexView, q: Query, i: int)
    requires
        search::is_match(v, q, i),
        q.terms@.len() == 0,
    ensures
        search::score(v, q, i) == Some(
            if q.regex is Some {
                40nat
            } else {
                0nat
            },
        ),
{
}

/// The text of a path, or of a part of one, in lower case.
pub open spec fn in_lower_case(s: Seq<u8>) -> Seq<u8> {
    vstd::utf8::encode_utf8(outside::lowercase_of(outside::lossy_text_of(s)))
}

/// A term with a slash and other letters than ASCII is looked for in lower case: it ranks
/// 20 where the path of the directory holds it; 60 where it is the end of that path, up to
/// its own last slash, and the beginning of the name; else it does not match.
pub proof fn law_unicode_path_tiers(v: IndexView, i: int, t: Term, head: Seq<u8>, rest: Seq<u8>)
    requires
        v.is_dir(v.slots[i].dir),
        !t.ascii,
        t.on_path,
        t.lower@ == head + rest,
        head.len() > 0,
        head.last() as char == '/',
        forall|k: int| 0 <= k < rest.len() ==> #[trigger] rest[k] as char != '/',
    ensures
        ({
            let p = v.dir_prefix(v.slots[i].dir);
            let name = v.slots[i].name;
            let held = exists|at: int| #[trigger] stands_at(in_lower_case(p), t.lower@, false, at);
            let straddles = rest.len() > 0 && head.len() <= p.len() && in_lower_case(p.skip(p.len() - head.len())) == head
                && rest.len() <= name.len() && stands_at(in_lower_case(name), rest, false, 0);
            &&& search::term_rank(v, i, t) == Some(20nat) <==> held
            &&& search::term_rank(v, i, t) == Some(60nat) <==> !held && straddles
            &&& search::term_rank(v, i, t) is None <==> !held && !straddles
        }),
{
    let p = v.dir_prefix(v.slots[i].dir);
    let name = v.slots[i].name;
    let needle = t.lower@;
    let low = in_lower_case(p);
    assert(low == search::lower_path(p) && in_lower_case(name) == search::lower_path(name));
    assert(in_lower_case(p.skip(p.len() - head.len())) == search::lower_path(p.skip(p.len() - head.len())));
    assert forall|a: int| true implies (bytestr::occurs(low, needle, a) <==> #[trigger] stands_at(
        low,
        needle,
        false,
        a,
    )) by {
        lemma_occurs(low, needle, a);
    }
    if bytestr::contains(low, needle) {
        let a = choose|a: int| bytestr::occurs(low, needle, a);
        assert(stands_at(low, needle, false, a));
    }
    lemma_occurs(search::lower_path(name), rest, 0);
    let s = head.len() - 1;
    assert(needle[s] == 47);
    assert forall|j: int| s < j < needle.len() implies needle[j] != 47 by {
        assert(needle[j] == rest[j - head.len()]);
    }
    prefilter::lemma_last_exists(needle, 47, needle.len() as int);
    assert(bytestr::is_last_of(needle, 47, search::last_slash(needle)));
    search::lemma_last_of(needle, 47, Some(s), search::last_slash(needle));
    assert(search::head_of(needle) =~= head);
    assert(search::rest_of(needle) =~= rest);
}

} // verus!
