//! The prefilter loses no match, and decides lone letters by itself.

use vstd::prelude::*;

use crate::bytestr;
use crate::model;
use crate::outside;
use crate::query;
use crate::query::{Query, Term};
use crate::search;
use crate::tree::IndexView;

verus! {

/// A term that has a rank occurs, and one that occurs has a rank.
pub(crate) proof fn lemma_rank_means_contained(hay: Seq<u8>, t: Term)
    ensures
        t.ascii ==> (search::rank_in(hay, t) is Some <==> bytestr::contains_ci(hay, t.lower@)),
        !t.ascii ==> (search::rank_in(hay, t) is Some <==> bytestr::contains(hay, t.lower@)),
        search::rank_in(hay, t) matches Some(r) ==> r <= search::S_EXACT,
{
    if t.ascii {
        lemma_first_ci_exists(hay, t.lower@, 0);
        let at = search::first_ci(hay, t.lower@);
        assert(bytestr::is_first_ci(hay, t.lower@, at));
    } else {
        lemma_first_exists(hay, t.lower@, 0);
        let at = search::first_exact(hay, t.lower@);
        assert(bytestr::is_first(hay, t.lower@, at));
    }
}

pub(crate) proof fn lemma_first_ci_exists(hay: Seq<u8>, needle: Seq<u8>, from: int)
    requires
        0 <= from,
        forall|j: int| 0 <= j < from ==> !bytestr::occurs_ci(hay, needle, j),
    ensures
        exists|at: Option<int>| bytestr::is_first_ci(hay, needle, at),
    decreases hay.len() - from + 1,
{
    if from > hay.len() {
        assert(!bytestr::contains_ci(hay, needle));
        assert(bytestr::is_first_ci(hay, needle, None));
    } else if bytestr::occurs_ci(hay, needle, from) {
        assert(bytestr::is_first_ci(hay, needle, Some(from)));
    } else {
        lemma_first_ci_exists(hay, needle, from + 1);
    }
}

pub(crate) proof fn lemma_first_exists(hay: Seq<u8>, needle: Seq<u8>, from: int)
    requires
        0 <= from,
        forall|j: int| 0 <= j < from ==> !bytestr::occurs(hay, needle, j),
    ensures
        exists|at: Option<int>| bytestr::is_first(hay, needle, at),
    decreases hay.len() - from + 1,
{
    if from > hay.len() {
        assert(!bytestr::contains(hay, needle));
        assert(bytestr::is_first(hay, needle, None));
    } else if bytestr::occurs(hay, needle, from) {
        assert(bytestr::is_first(hay, needle, Some(from)));
    } else {
        lemma_first_exists(hay, needle, from + 1);
    }
}

/// The place of the last `b` exists, or there is none.
pub(crate) proof fn lemma_last_exists(s: Seq<u8>, b: u8, to: int)
    requires
        0 <= to <= s.len(),
        forall|j: int| to <= j < s.len() ==> s[j] != b,
    ensures
        exists|at: Option<int>| bytestr::is_last_of(s, b, at),
    decreases to,
{
    if to == 0 {
        assert(bytestr::is_last_of(s, b, None));
    } else if s[to - 1] == b {
        assert(bytestr::is_last_of(s, b, Some(to - 1)));
    } else {
        lemma_last_exists(s, b, to - 1);
    }
}

/// The bits of name terms that all occur in a name are bits of the name.
proof fn lemma_term_bits(terms: Seq<Term>, name: Seq<u8>)
    requires
        forall|k: int|
            0 <= k < terms.len() ==> (#[trigger] terms[k]).wf() && (!terms[k].on_path && terms[k].ascii
                ==> bytestr::contains_ci(name, terms[k].lower@)),
    ensures
        model::bits_within(query::term_bits(terms).0, model::signature_of(name)),
        model::bits_within2(query::term_bits(terms).1, model::signature2_of(name)),
    decreases terms.len(),
{
    let (sig, sig2) = (model::signature_of(name), model::signature2_of(name));
    if terms.len() == 0 {
        model::lemma_bits(sig, 0, 0);
        model::lemma_bits2(sig2, 0, 0);
    } else {
        let rest = terms.drop_last();
        assert forall|k: int| 0 <= k < rest.len() implies (#[trigger] rest[k]).wf() && (!rest[k].on_path
            && rest[k].ascii ==> bytestr::contains_ci(name, rest[k].lower@)) by {
            assert(rest[k] == terms[k]);
        }
        lemma_term_bits(rest, name);
        let t = terms[terms.len() - 1];
        if !t.on_path && t.ascii {
            model::law_prefilter_is_sound(name, t.lower@);
            model::lemma_bits(query::term_bits(rest).0, t.sig, sig);
            model::lemma_bits2(query::term_bits(rest).1, t.sig2, sig2);
        }
    }
}

/// An extension that fits occurs in the name, and so does a dot.
proof fn lemma_ext_bits(name: Seq<u8>, exts: Seq<String>)
    requires
        search::has_ext(name, exts),
    ensures
        model::bits_within(
            query::shared_sig(query::ext_bytes(exts)) | model::signature_of(seq![46u8]),
            model::signature_of(name),
        ),
        model::bits_within2(query::shared_sig2(query::ext_bytes(exts)), model::signature2_of(name)),
{
    lemma_last_exists(name, 46, name.len() as int);
    let dot = search::last_dot(name)->0;
    assert(bytestr::is_last_of(name, 46, search::last_dot(name)));
    let all = query::ext_bytes(exts);
    let k = choose|k: int| 0 <= k < exts.len() && bytestr::same_ci(#[trigger] all[k], name.skip(dot + 1));
    let e = all[k];
    let (sig, sig2) = (model::signature_of(name), model::signature2_of(name));
    assert(name.subrange(dot + 1, dot + 1 + e.len()) =~= name.skip(dot + 1));
    assert(bytestr::occurs_ci(name, e, dot + 1)) by {
        let tail = name.skip(dot + 1);
        assert forall|i: int| 0 <= i < tail.len() implies bytestr::lower(#[trigger] tail[i]) == bytestr::lower(
            e[i],
        ) by {
            assert(bytestr::lower(e[i]) == bytestr::lower(tail[i]));
        }
    }
    model::law_prefilter_is_sound(name, e);
    query::lemma_shared_within(all, k);
    model::lemma_bits(query::shared_sig(all), model::signature_of(e), sig);
    model::lemma_bits2(query::shared_sig2(all), model::signature2_of(e), sig2);
    assert(name.subrange(dot, dot + 1) =~= seq![46u8]);
    assert(bytestr::occurs_ci(name, seq![46u8], dot));
    model::law_prefilter_is_sound(name, seq![46u8]);
    model::lemma_bits(query::shared_sig(all), model::signature_of(seq![46u8]), sig);
}

/// Every match of a query passes the prefilter.
pub proof fn law_prefilter_loses_no_match(v: IndexView, q: Query, i: int)
    requires
        q.wf(),
        search::is_match(v, q, i),
    ensures
        model::bits_within(q.needed_bits().0, model::signature_of(v.slots[i].name)),
        model::bits_within2(q.needed_bits().1, model::signature2_of(v.slots[i].name)),
{
    let name = v.slots[i].name;
    let (sig, sig2) = (model::signature_of(name), model::signature2_of(name));
    assert forall|k: int| 0 <= k < q.terms@.len() implies (#[trigger] q.terms@[k]).wf() && (
    !q.terms@[k].on_path && q.terms@[k].ascii ==> bytestr::contains_ci(name, q.terms@[k].lower@)) by {
        let t = q.terms@[k];
        if !t.on_path && t.ascii {
            if search::lone_byte(q) is Some {
                assert(t.lower@ =~= seq![t.lower@[0]]);
            } else {
                assert(search::term_rank(v, i, t) is Some);
                lemma_rank_means_contained(name, t);
            }
        }
    }
    lemma_term_bits(q.terms@, name);
    let t = query::term_bits(q.terms@);
    let mut e = t;
    if q.exts@.len() > 0 {
        lemma_ext_bits(name, q.exts@);
        let shared = query::shared_sig(query::ext_bytes(q.exts@)) | model::signature_of(seq![46u8]);
        let shared2 = query::shared_sig2(query::ext_bytes(q.exts@));
        model::lemma_bits(t.0, shared, sig);
        model::lemma_bits2(t.1, shared2, sig2);
        e = (t.0 | shared, t.1 | shared2);
    }
    if !q.regex_on_path {
        let b = q.regex_bits();
        match q.regex {
            Some(re) => {
                assert(outside::regex_accepts(re, name));
            },
            None => {
                model::lemma_bits(sig, 0, 0);
                model::lemma_bits2(sig2, 0, 0);
            },
        }
        model::lemma_bits(e.0, b.0, sig);
        model::lemma_bits2(e.1, b.1, sig2);
    }
}

/// The bit of a letter is set only by that letter.
proof fn lemma_letter_bit(name: Seq<u8>, k: u8) -> (at: int)
    requires
        k < 26,
        model::bits_within(1u64 << k, model::signature_of(name)),
    ensures
        0 <= at < name.len(),
        model::byte_bit(name[at]) == k,
    decreases name.len(),
{
    if name.len() == 0 {
        assert(k < 26 ==> 0u64 & (1u64 << k) != (1u64 << k)) by (bit_vector);
        0
    } else if model::byte_bit(name.last()) == k {
        name.len() - 1
    } else {
        let rest = model::signature_of(name.drop_last());
        let j = model::byte_bit(name.last());
        if name.len() == 1 {
            assert(k < 26 && j < 32 && j != k && (rest | (1u64 << j)) & (1u64 << k) == (1u64 << k) ==> rest & (1u64
                << k) == (1u64 << k)) by (bit_vector);
        } else {
            let g = model::bigram_bit(name[name.len() - 2], name.last());
            model::lemma_bigram_bit_range(name[name.len() - 2], name.last());
            assert(k < 26 && j < 32 && j != k && 32 <= g < 64 && ((rest | (1u64 << j)) | (1u64 << g)) & (1u64 << k)
                == (1u64 << k) ==> rest & (1u64 << k) == (1u64 << k)) by (bit_vector);
        }
        let at = lemma_letter_bit(name.drop_last(), k);
        at
    }
}

/// A name that passes the prefilter for a lone letter contains it.
pub(crate) proof fn lemma_letter_is_contained(name: Seq<u8>, b: u8)
    requires
        97 <= b <= 122,
        model::bits_within(model::signature_of(seq![b]), model::signature_of(name)),
    ensures
        bytestr::contains_ci(name, seq![b]),
        name.len() > 0,
{
    let k = (b - 97) as u8;
    assert(97 <= b <= 122 ==> b | 0x20 == b) by (bit_vector);
    assert(model::byte_bit(b) == k);
    assert(seq![b].drop_last() =~= Seq::empty());
    let one = 1u64 << k;
    assert(0u64 | one == one) by (bit_vector);
    assert(model::signature_of(seq![b].drop_last()) == 0);
    assert(seq![b].last() == b);
    assert(model::signature_of(seq![b]) == one);
    let at = lemma_letter_bit(name, k);
    let x = name[at];
    assert(97 <= b <= 122 && x | 0x20 == b ==> x == b || x + 32 == b && 65 <= x <= 90) by (bit_vector);
    assert(name.subrange(at, at + 1) =~= seq![x]);
    assert(bytestr::occurs_ci(name, seq![b], at));
}

/// Folding and lower case agree on letters.
pub(crate) proof fn lemma_fold_letter(x: u8, b: u8)
    requires
        97 <= b <= 122,
    ensures
        model::fold(x) == b <==> bytestr::lower(x) == b,
{
    assert(97 <= b <= 122 && x | 0x20 == b ==> x == b || x + 32 == b && 65 <= x <= 90) by (bit_vector);
    assert(97 <= b <= 122 && x == b ==> x | 0x20 == b) by (bit_vector);
    assert(65 <= x <= 90 ==> x | 0x20 == x + 32) by (bit_vector);
}

/// The bits tell letters apart: a name has those of a letter exactly where the letter
/// occurs in it, in either case.
pub proof fn law_letters_are_told_apart(name: Seq<u8>, b: u8)
    requires
        97 <= b <= 122,
    ensures
        model::bits_within(model::signature_of(seq![b]), model::signature_of(name)) <==> exists|i: int|
            0 <= i < name.len() && bytestr::lower(#[trigger] name[i]) == b,
{
    let one = seq![b];
    if model::bits_within(model::signature_of(one), model::signature_of(name)) {
        lemma_letter_is_contained(name, b);
        let at = choose|at: int| bytestr::occurs_ci(name, one, at);
        let w = name.subrange(at, at + 1);
        assert(bytestr::lower(w[0]) == bytestr::lower(one[0]));
        assert(w[0] == name[at]);
    }
    if exists|i: int| 0 <= i < name.len() && bytestr::lower(#[trigger] name[i]) == b {
        let i = choose|i: int| 0 <= i < name.len() && bytestr::lower(#[trigger] name[i]) == b;
        let w = name.subrange(i, i + 1);
        assert(bytestr::same_ci(w, one));
        assert(bytestr::occurs_ci(name, one, i));
        model::law_signature_of_substring(name, i, i + 1);
        model::law_signature_ignores_case(w, one);
    }
}

} // verus!
