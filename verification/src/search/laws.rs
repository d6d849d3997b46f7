//! What holds of every search.

use vstd::prelude::*;

use crate::bytestr;
use crate::model::SearchResults;
use crate::query::{Query, Term};
use crate::search;
use crate::search::prefilter;
use crate::search::topk;
use crate::search::topk::Ranked;
use crate::tree::paths;
use crate::tree::IndexView;

verus! {

/// A tombstoned entry is never a match.
pub proof fn law_tombstones_never_match(v: IndexView, q: Query, i: int)
    requires
        v.is_dead(i),
    ensures
        !search::is_match(v, q, i),
{
}

/// Terms are ANDed: an entry that matches a query matches each of its terms.
pub proof fn law_every_term_matches(v: IndexView, q: Query, i: int, k: int)
    requires
        search::is_match(v, q, i),
        0 <= k < q.terms@.len(),
    ensures
        search::term_rank(v, i, q.terms@[k]) is Some,
{
    let t = q.terms@[k];
    if search::lone_byte(q) is Some {
        assert(t.lower@ =~= seq![t.lower@[0]]);
        prefilter::lemma_rank_means_contained(v.slots[i].name, t);
    }
}

/// What contains a byte string contains its parts.
proof fn lemma_contains_part(hay: Seq<u8>, big: Seq<u8>, small: Seq<u8>)
    requires
        bytestr::contains(big, small),
    ensures
        bytestr::contains_ci(hay, big) ==> bytestr::contains_ci(hay, small),
        bytestr::contains(hay, big) ==> bytestr::contains(hay, small),
{
    let b = choose|b: int| bytestr::occurs(big, small, b);
    assert(bytestr::occurs(big, small, b));
    if bytestr::contains_ci(hay, big) {
        let a = choose|a: int| bytestr::occurs_ci(hay, big, a);
        assert(bytestr::occurs_ci(hay, small, a + b)) by {
            let w = hay.subrange(a + b, a + b + small.len());
            assert forall|i: int| 0 <= i < w.len() implies bytestr::lower(#[trigger] w[i]) == bytestr::lower(
                small[i],
            ) by {
                assert(hay.subrange(a, a + big.len())[b + i] == w[i]);
                assert(big.subrange(b, b + small.len())[i] == big[b + i]);
                assert(bytestr::lower(hay.subrange(a, a + big.len())[b + i]) == bytestr::lower(big[b + i]));
            }
        }
    }
    if bytestr::contains(hay, big) {
        let a = choose|a: int| bytestr::occurs(hay, big, a);
        assert(bytestr::occurs(hay, small, a + b)) by {
            let w = hay.subrange(a + b, a + b + small.len());
            assert forall|i: int| 0 <= i < w.len() implies w[i] == small[i] by {
                assert(hay.subrange(a, a + big.len())[b + i] == w[i]);
                assert(big.subrange(b, b + small.len())[i] == big[b + i]);
            }
            assert(w =~= small);
        }
    }
}

/// Every match of a query that refines another is a match of that other.
pub proof fn law_refining_query_matches_less(v: IndexView, q: Query, prev: Query, i: int)
    requires
        q.narrows(prev),
        search::is_match(v, q, i),
    ensures
        search::is_match(v, prev, i),
{
    let name = v.slots[i].name;
    assert forall|k: int| 0 <= k < prev.terms@.len() implies search::term_rank(v, i, #[trigger] prev.terms@[k]) is Some by {
        let t = prev.terms@[k];
        assert(q.has_longer_term(prev.terms@[k]));
        let j = choose|j: int|
            0 <= j < q.terms@.len() && (#[trigger] q.terms@[j]).ascii == t.ascii && bytestr::contains(
                q.terms@[j].lower@,
                t.lower@,
            );
        let own = q.terms@[j];
        law_every_term_matches(v, q, i, j);
        let hay = if t.ascii {
            name
        } else {
            search::lower_name(name)
        };
        prefilter::lemma_rank_means_contained(hay, own);
        prefilter::lemma_rank_means_contained(hay, t);
        lemma_contains_part(hay, own.lower@, t.lower@);
    }
    match search::lone_byte(prev) {
        Some(b) => {
            let t = prev.terms@[0];
            assert(t.lower@ =~= seq![b]);
            assert(search::term_rank(v, i, prev.terms@[0]) is Some);
            prefilter::lemma_rank_means_contained(name, t);
        },
        None => {
            assert(search::all_terms_match(v, i, prev.terms@));
        },
    }
}

/// Looking for a refining query among the matches of the refined one finds what
/// looking among all entries finds.
pub proof fn law_refinement_matches_full_scan(v: IndexView, q: Query, prev: Query, ids: Seq<u32>)
    requires
        q.narrows(prev),
    ensures
        search::matching(v, q, search::matching(v, prev, ids)) == search::matching(v, q, ids),
        search::candidates(v, q, search::matching(v, prev, ids)) == search::candidates(v, q, ids),
    decreases ids.len(),
{
    if ids.len() > 0 {
        law_refinement_matches_full_scan(v, q, prev, ids.drop_last());
        let id = ids.last();
        let before = search::matching(v, prev, ids.drop_last());
        if search::is_match(v, q, id as int) {
            law_refining_query_matches_less(v, q, prev, id as int);
        }
        if search::is_match(v, prev, id as int) {
            assert(before.push(id).drop_last() =~= before);
        }
    }
}

/// A search among the remembered matches of a refined query gives results that
/// the search among all entries may give.
pub proof fn law_refined_results(v: IndexView, q: Query, prev: Query, limit: nat, r: SearchResults)
    requires
        q.narrows(prev),
    ensures
        search::results_over(v, q, search::matching(v, prev, search::all_ids(v)), limit, r)
            == search::results_over(v, q, search::all_ids(v), limit, r),
{
    law_refinement_matches_full_scan(v, q, prev, search::all_ids(v));
}

/// The matches among all entries are ascending.
proof fn lemma_matching_ascends(v: IndexView, q: Query, n: int)
    requires
        0 <= n <= v.slots.len() <= u32::MAX,
    ensures
        ({
            let found = search::matching(v, q, search::all_ids(v).subrange(0, n));
            &&& forall|i: int, j: int| 0 <= i < j < found.len() ==> found[i] < found[j]
            &&& forall|i: int| 0 <= i < found.len() ==> (#[trigger] found[i]) < n
        }),
    decreases n,
{
    let all = search::all_ids(v);
    if n > 0 {
        lemma_matching_ascends(v, q, n - 1);
        assert(all.subrange(0, n).drop_last() =~= all.subrange(0, n - 1));
        assert(all.subrange(0, n).last() == (n - 1) as u32);
        let before = search::matching(v, q, all.subrange(0, n - 1));
        let found = search::matching(v, q, all.subrange(0, n));
        assert forall|i: int, j: int| 0 <= i < j < found.len() implies found[i] < found[j] by {
            assert(found[i] == before[i]);
            if j < before.len() {
                assert(found[j] == before[j]);
            }
        }
        assert forall|i: int| 0 <= i < found.len() implies (#[trigger] found[i]) < n by {
            if i < before.len() {
                assert(found[i] == before[i]);
            }
        }
    } else {
        assert(all.subrange(0, 0).len() == 0);
    }
}

/// The ids that a search over all entries remembers are its matches, ascending.
pub proof fn law_remembered_ids_are_the_matches(v: IndexView, q: Query, out: Vec<u32>)
    requires
        v.slots.len() <= u32::MAX,
        search::ids_over(v, q, search::all_ids(v), Some(out)),
    ensures
        out@ == search::matching(v, q, search::all_ids(v)),
        forall|k: int| 0 <= k < out@.len() ==> (#[trigger] out@[k]) < v.slots.len(),
{
    let all = search::all_ids(v);
    let found = search::matching(v, q, all);
    assert(all.subrange(0, all.len() as int) =~= all);
    lemma_matching_ascends(v, q, v.slots.len() as int);
    let leq = |a: u32, b: u32| a <= b;
    assert(vstd::relations::sorted_by(out@, leq));
    assert(vstd::relations::sorted_by(found, leq));
    assert(vstd::relations::total_ordering(leq));
    vstd::seq_lib::lemma_sorted_unique(out@, found, leq);
}

pub(crate) proof fn lemma_candidate_is_match(v: IndexView, q: Query, ids: Seq<u32>, c: Ranked)
    requires
        search::candidates(v, q, ids).count(c) > 0,
    ensures
        search::is_match(v, q, c.1 as int),
        c == search::candidate(v, q, c.1),
        ids.contains(c.1),
    decreases ids.len(),
{
    if ids.len() > 0 {
        let rest = search::candidates(v, q, ids.drop_last());
        if rest.count(c) > 0 {
            lemma_candidate_is_match(v, q, ids.drop_last(), c);
            let k = choose|k: int| 0 <= k < ids.drop_last().len() && ids.drop_last()[k] == c.1;
            assert(ids[k] == c.1);
        } else {
            assert(c == search::candidate(v, q, ids.last()));
            assert(ids[ids.len() - 1] == c.1);
        }
    }
}

/// Every hit is an entry that was looked at and that matches, shown with its
/// path.
pub proof fn law_hits_are_matches(v: IndexView, q: Query, ids: Seq<u32>, limit: nat, r: SearchResults, k: int)
    requires
        search::results_over(v, q, ids, limit, r),
        0 <= k < r.hits@.len(),
    ensures
        ids.contains(r.hits@[k].id),
        search::is_match(v, q, r.hits@[k].id as int),
        r.hits@[k].path@ == v.entry_path(r.hits@[k].id as int),
        r.hits@.len() <= limit,
{
    broadcast use vstd::seq_lib::group_to_multiset_ensures;

    let all = search::candidates(v, q, ids);
    let order = choose|order: Seq<Ranked>| #[trigger]
        topk::best_of(order, limit, all) && r.hits@.len() == order.len() && forall|k: int|
            0 <= k < order.len() ==> search::shows(v, #[trigger] r.hits@[k], order[k]);
    assert(search::shows(v, r.hits@[k], order[k]));
    assert(order.contains(order[k]));
    assert(order.to_multiset().count(order[k]) > 0);
    lemma_candidate_is_match(v, q, ids, order[k]);
}

/// Hits come best score first; of equal scores the one with the shorter path;
/// of equally long ones the newer.
pub proof fn law_ranking_order(v: IndexView, a: int, b: int, sa: nat, sb: nat)
    ensures
        sa > sb ==> search::key_of(v, a, sa) > search::key_of(v, b, sb),
        ({
            let (x, y) = (v.slots[a], v.slots[b]);
            let ra = v.depth_of(x.dir) * 16 + x.name.len();
            let rb = v.depth_of(y.dir) * 16 + y.name.len();
            &&& sa == sb && ra < rb && ra < 0xFFFF ==> search::key_of(v, a, sa) > search::key_of(v, b, sb)
            &&& sa == sb && ra == rb && 0 <= y.mtime < x.mtime <= u32::MAX ==> search::key_of(v, a, sa)
                > search::key_of(v, b, sb)
        }),
{
}

/// With room for all of them, every match is a hit.
pub proof fn law_no_match_is_lost(v: IndexView, q: Query, ids: Seq<u32>, limit: nat, r: SearchResults)
    requires
        search::results_over(v, q, ids, limit, r),
        !search::is_void(q),
        r.total <= limit,
    ensures
        r.hits@.len() == r.total,
        !r.truncated,
{
    lemma_candidates_len(v, q, ids);
}

pub(crate) proof fn lemma_candidates_len(v: IndexView, q: Query, ids: Seq<u32>)
    ensures
        search::candidates(v, q, ids).len() == search::matching(v, q, ids).len(),
    decreases ids.len(),
{
    broadcast use vstd::multiset::group_multiset_axioms;

    if ids.len() > 0 {
        lemma_candidates_len(v, q, ids.drop_last());
    }
}

/// A path term of ASCII text matches an entry exactly when the entry's path
/// contains it, up to case, for names that hold no slash.
pub proof fn law_path_term_is_containment(v: IndexView, i: int, t: Term)
    requires
        v.dirs_wf(),
        0 <= i < v.slots.len(),
        paths::plain_names(v, v.slots[i].dir),
        !v.slots[i].name.contains(47),
        t.ascii,
        t.lower@.contains(47),
    ensures
        search::path_rank(v.dir_prefix(v.slots[i].dir), v.slots[i].name, t) is Some
            <==> bytestr::contains_ci(v.entry_path(i), t.lower@),
{
    let p = v.dir_prefix(v.slots[i].dir);
    let name = v.slots[i].name;
    let needle = t.lower@;
    let whole = v.entry_path(i);
    paths::law_entry_path_is_prefix_and_name(v, i);
    paths::law_dir_prefix_is_path(v, v.slots[i].dir);
    assert(whole == p + name);
    assert(p.len() > 0 && p.last() == 47);
    prefilter::lemma_last_exists(needle, 47, needle.len() as int);
    assert(bytestr::is_last_of(needle, 47, search::last_slash(needle)));
    let s = search::last_slash(needle)->0;
    let head = search::head_of(needle);
    let rest = search::rest_of(needle);
    assert(search::last_slash(needle) is Some) by {
        let k = choose|k: int| 0 <= k < needle.len() && needle[k] == 47;
        assert(needle[k] == 47);
    }
    assert(search::cut_of(needle) == s + 1);
    if bytestr::contains_ci(p, needle) {
        let at = choose|at: int| bytestr::occurs_ci(p, needle, at);
        assert(whole.subrange(at, at + needle.len()) =~= p.subrange(at, at + needle.len()));
        assert(bytestr::occurs_ci(whole, needle, at));
    } else if search::path_rank(p, name, t) is Some {
        let at = p.len() - head.len();
        let w = whole.subrange(at, at + needle.len());
        let tail = p.skip(p.len() - head.len());
        let front = name.subrange(0, rest.len() as int);
        assert forall|k: int| 0 <= k < w.len() implies bytestr::lower(#[trigger] w[k]) == bytestr::lower(
            needle[k],
        ) by {
            if k < head.len() {
                assert(w[k] == tail[k]);
                assert(head[k] == needle[k]);
                assert(bytestr::lower(tail[k]) == bytestr::lower(head[k]));
            } else {
                assert(w[k] == front[k - head.len()]);
                assert(rest[k - head.len()] == needle[k]);
                assert(bytestr::lower(front[k - head.len()]) == bytestr::lower(rest[k - head.len()]));
            }
        }
        assert(bytestr::occurs_ci(whole, needle, at));
    } else if bytestr::contains_ci(whole, needle) {
        let at = choose|at: int| bytestr::occurs_ci(whole, needle, at);
        let w = whole.subrange(at, at + needle.len());
        assert forall|k: int| 0 <= k < needle.len() implies bytestr::lower(whole[at + k]) == bytestr::lower(
            #[trigger] needle[k],
        ) by {
            assert(w[k] == whole[at + k]);
            assert(bytestr::lower(w[k]) == bytestr::lower(needle[k]));
        }
        if at + needle.len() <= p.len() {
            assert(p.subrange(at, at + needle.len()) =~= w);
            assert(bytestr::occurs_ci(p, needle, at));
        } else {
            // The last slash of the needle is the one that ends the directory.
            assert(bytestr::lower(whole[at + s]) == bytestr::lower(needle[s]));
            assert(whole[at + s] == 47);
            if at + s >= p.len() {
                assert(name[at + s - p.len()] == 47);
                assert(name.contains(47));
            }
            if at + s < p.len() - 1 {
                let k = p.len() - 1 - at;
                assert(s < k < needle.len());
                assert(bytestr::lower(whole[at + k]) == bytestr::lower(needle[k]));
                assert(whole[at + k] == 47);
                assert(needle[k] == 47);
            }
            assert(at + s == p.len() - 1);
            let tail = p.skip(p.len() - head.len());
            assert forall|k: int| 0 <= k < tail.len() implies bytestr::lower(#[trigger] tail[k]) == bytestr::lower(
                head[k],
            ) by {
                assert(tail[k] == whole[at + k]);
                assert(head[k] == needle[k]);
            }
            assert(search::path_ends(p, head, true));
            let front = name.subrange(0, rest.len() as int);
            assert forall|k: int| 0 <= k < front.len() implies bytestr::lower(#[trigger] front[k]) == bytestr::lower(
                rest[k],
            ) by {
                assert(front[k] == whole[at + head.len() + k]);
                assert(rest[k] == needle[head.len() + k]);
                assert(bytestr::lower(whole[at + (head.len() + k)]) == bytestr::lower(needle[head.len() + k]));
            }
            assert(search::name_begins(name, rest, true));
        }
    }
}

} // verus!
