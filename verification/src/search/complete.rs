//! Which matches a search shows, in what order, and how many it counts.

use vstd::prelude::*;

use crate::model::SearchResults;
use crate::query::Query;
use crate::search;
use crate::search::ranking;
use crate::search::topk;
use crate::search::topk::Ranked;
use crate::tree::IndexView;

verus! {

/// The query asks for something, and has no error in it.
pub open spec fn is_asked(q: Query) -> bool {
    &&& q.error is None
    &&& q.terms@.len() > 0 || q.exts@.len() > 0 || q.size is Some || q.kind is Some || q.regex is Some
}

pub(crate) proof fn lemma_score_bound(v: IndexView, q: Query, i: int)
    requires
        search::is_match(v, q, i),
    ensures
        search::score(v, q, i)->0 <= 100,
{
    if search::lone_byte(q) is None && q.terms@.len() > 0 {
        assert forall|k: int| 0 <= k < q.terms@.len() implies 0 <= search::term_rank(v, i, #[trigger] q.terms@[k])->0
            <= 100 by {
            search::laws::law_every_term_matches(v, q, i, k);
            let t = q.terms@[k];
            if !t.on_path {
                ranking::law_tiers(
                    if t.ascii {
                        v.slots[i].name
                    } else {
                        search::lower_name(v.slots[i].name)
                    },
                    t,
                );
            }
        }
        ranking::law_score_is_between_ranks(v, q, i, 0, 100);
    }
}

/// The parts of a key.
pub(crate) proof fn lemma_key(v: IndexView, i: int, s: nat)
    requires
        s <= 100,
    ensures
        0 <= search::key_of(v, i, s) <= u64::MAX,
        search::key_of(v, i, s) / 0x1_0000_0000_0000 == s,
        (search::key_of(v, i, s) as u64) / 0x1_0000_0000_0000 == s,
{
    let slot = v.slots[i];
    let reach = v.depth_of(slot.dir) * 16 + slot.name.len();
    assert(reach >= 0);
}

/// An input that asks for nothing, or has an error in it, finds nothing.
pub proof fn law_nothing_asked_nothing_found(v: IndexView, q: Query, ids: Seq<u32>, limit: nat, r: SearchResults)
    requires
        search::results_over(v, q, ids, limit, r),
        q.error is Some || (q.terms@.len() == 0 && q.exts@.len() == 0 && q.size is None && q.kind is None
            && q.regex is None),
    ensures
        r.hits@.len() == 0,
        r.total == 0,
        !r.truncated,
{
}

proof fn lemma_matches_below(v: IndexView, q: Query, n: int)
    requires
        0 <= n <= v.slots.len() <= u32::MAX,
    ensures
        Set::new(|i: int| 0 <= i < n && search::is_match(v, q, i)).finite(),
        Set::new(|i: int| 0 <= i < n && search::is_match(v, q, i)).len() == search::matching(
            v,
            q,
            search::all_ids(v).take(n),
        ).len(),
    decreases n,
{
    let here = Set::new(|i: int| 0 <= i < n && search::is_match(v, q, i));
    if n == 0 {
        assert(here =~= Set::empty());
    } else {
        lemma_matches_below(v, q, n - 1);
        let before = Set::new(|i: int| 0 <= i < n - 1 && search::is_match(v, q, i));
        let all = search::all_ids(v);
        assert(all.take(n).drop_last() =~= all.take(n - 1));
        assert(all.take(n).last() == (n - 1) as u32);
        if search::is_match(v, q, n - 1) {
            assert(here =~= before.insert(n - 1));
        } else {
            assert(here =~= before);
        }
    }
}

/// The total is the number of entries that match, whatever the limit, and the results
/// are truncated exactly where that is more than the limit.
pub proof fn law_total_counts_the_matches(v: IndexView, q: Query, limit: nat, r: SearchResults)
    requires
        v.slots.len() <= u32::MAX,
        search::results_over(v, q, search::all_ids(v), limit, r),
        is_asked(q),
    ensures
        Set::new(|i: int| search::is_match(v, q, i)).finite(),
        r.total == Set::new(|i: int| search::is_match(v, q, i)).len(),
        r.truncated <==> r.total > limit,
        r.hits@.len() == (if r.total < limit {
            r.total as nat
        } else {
            limit
        }),
{
    let n = v.slots.len() as int;
    lemma_matches_below(v, q, n);
    let all = search::all_ids(v);
    assert(all.take(n) =~= all);
    assert(Set::new(|i: int| search::is_match(v, q, i)) =~= Set::new(
        |i: int| 0 <= i < n && search::is_match(v, q, i),
    ));
    search::laws::lemma_candidates_len(v, q, all);
}

/// A match with its key is a candidate, and each is one only once.
proof fn lemma_candidate_count(v: IndexView, q: Query, n: int, i: int)
    requires
        0 <= n <= v.slots.len() <= u32::MAX,
        0 <= i < v.slots.len(),
    ensures
        search::candidates(v, q, search::all_ids(v).take(n)).count(search::candidate(v, q, i as u32)) == (if i < n
            && search::is_match(v, q, i) {
            1nat
        } else {
            0nat
        }),
    decreases n,
{
    broadcast use vstd::multiset::group_multiset_axioms;

    let all = search::all_ids(v);
    if n > 0 {
        lemma_candidate_count(v, q, n - 1, i);
        assert(all.take(n).drop_last() =~= all.take(n - 1));
        assert(all.take(n).last() == (n - 1) as u32);
        assert(search::candidate(v, q, (n - 1) as u32).1 == (n - 1) as u32);
        assert(search::candidate(v, q, i as u32).1 == i as u32);
    }
}

/// The ranked candidates behind the hits.
proof fn lemma_order(v: IndexView, q: Query, limit: nat, r: SearchResults) -> (order: Seq<Ranked>)
    requires
        v.slots.len() <= u32::MAX,
        search::results_over(v, q, search::all_ids(v), limit, r),
        is_asked(q),
    ensures
        topk::best_of(order, limit, search::candidates(v, q, search::all_ids(v))),
        r.hits@.len() == order.len(),
        forall|k: int|
            0 <= k < order.len() ==> {
                &&& (#[trigger] r.hits@[k]).id == order[k].1
                &&& search::is_match(v, q, order[k].1 as int)
                &&& order[k].0 == search::key_of(v, order[k].1 as int, search::score(v, q, order[k].1 as int)->0)
                &&& r.hits@[k].score == search::score(v, q, order[k].1 as int)->0
            },
{
    broadcast use vstd::seq_lib::group_to_multiset_ensures;

    let all = search::candidates(v, q, search::all_ids(v));
    let order = choose|order: Seq<Ranked>| #[trigger]
        topk::best_of(order, limit, all) && r.hits@.len() == order.len() && forall|k: int|
            0 <= k < order.len() ==> search::shows(v, #[trigger] r.hits@[k], order[k]);
    assert forall|k: int| 0 <= k < order.len() implies {
        &&& (#[trigger] r.hits@[k]).id == order[k].1
        &&& search::is_match(v, q, order[k].1 as int)
        &&& order[k].0 == search::key_of(v, order[k].1 as int, search::score(v, q, order[k].1 as int)->0)
        &&& r.hits@[k].score == search::score(v, q, order[k].1 as int)->0
    } by {
        assert(search::shows(v, r.hits@[k], order[k]));
        assert(order.contains(order[k]));
        assert(order.to_multiset().count(order[k]) > 0);
        search::laws::lemma_candidate_is_match(v, q, search::all_ids(v), order[k]);
        let i = order[k].1 as int;
        lemma_score_bound(v, q, i);
        lemma_key(v, i, search::score(v, q, i)->0);
    }
    order
}

/// With room for all of them, every entry that matches is a hit.
pub proof fn law_every_match_is_a_hit(v: IndexView, q: Query, limit: nat, r: SearchResults, i: int)
    requires
        v.slots.len() <= u32::MAX,
        search::results_over(v, q, search::all_ids(v), limit, r),
        is_asked(q),
        r.total <= limit,
        search::is_match(v, q, i),
    ensures
        exists|k: int| 0 <= k < r.hits@.len() && (#[trigger] r.hits@[k]).id == i,
{
    broadcast use {vstd::multiset::group_multiset_axioms, vstd::seq_lib::group_to_multiset_ensures};

    let ids = search::all_ids(v);
    let all = search::candidates(v, q, ids);
    let order = lemma_order(v, q, limit, r);
    search::laws::lemma_candidates_len(v, q, ids);
    let kept = order.to_multiset();
    let left = all.sub(kept);
    assert(kept.add(left) =~= all);
    assert(left.len() == 0);
    let c = search::candidate(v, q, i as u32);
    lemma_candidate_count(v, q, v.slots.len() as int, i);
    assert(ids.take(v.slots.len() as int) =~= ids);
    assert(all.count(c) == 1);
    if left.count(c) > 0 {
        assert(left.remove(c).insert(c) =~= left);
        assert(left.len() == left.remove(c).len() + 1);
    }
    assert(left.count(c) == 0);
    assert(kept.count(c) > 0);
    assert(order.contains(c));
    let k = choose|k: int| 0 <= k < order.len() && order[k] == c;
    assert(r.hits@[k].id == order[k].1);
}

/// No entry is shown twice.
pub proof fn law_hits_are_distinct(v: IndexView, q: Query, limit: nat, r: SearchResults, a: int, b: int)
    requires
        v.slots.len() <= u32::MAX,
        search::results_over(v, q, search::all_ids(v), limit, r),
        0 <= a < b < r.hits@.len(),
    ensures
        r.hits@[a].id != r.hits@[b].id,
{
    broadcast use vstd::seq_lib::group_to_multiset_ensures;

    let ids = search::all_ids(v);
    let order = lemma_order(v, q, limit, r);
    assert(r.hits@[a].id == order[a].1);
    assert(r.hits@[b].id == order[b].1);
    if order[a].1 == order[b].1 {
        let i = order[a].1 as int;
        assert(order[a] == order[b]);
        lemma_score_bound(v, q, i);
        lemma_key(v, i, search::score(v, q, i)->0);
        assert(order[a] == search::candidate(v, q, i as u32));
        lemma_candidate_count(v, q, v.slots.len() as int, i);
        assert(ids.take(v.slots.len() as int) =~= ids);
        lemma_twice(order, a, b);
        assert(order.to_multiset().count(order[a]) <= search::candidates(v, q, ids).count(order[a]));
    }
}

proof fn lemma_twice(s: Seq<Ranked>, a: int, b: int)
    requires
        0 <= a < b < s.len(),
        s[a] == s[b],
    ensures
        s.to_multiset().count(s[a]) >= 2,
{
    broadcast use {vstd::multiset::group_multiset_axioms, vstd::seq_lib::group_to_multiset_ensures};

    let rest = s.remove(b);
    assert(rest[a] == s[a]);
    assert(rest.contains(s[a]));
    assert(rest.to_multiset().count(s[a]) > 0);
    assert(rest.to_multiset() =~= s.to_multiset().remove(s[b]));
}

/// The first entry ranks above the second: by score, then by the shorter path, as its
/// depth and the length of its name tell, then by the newer time.
pub open spec fn ranks_above(v: IndexView, a: int, sa: int, b: int, sb: int) -> bool {
    let (x, y) = (v.slots[a], v.slots[b]);
    let (ra, rb) = (path_reach(v.depth_of(x.dir), x.name.len()), path_reach(v.depth_of(y.dir), y.name.len()));
    let (ta, tb) = (seconds_of(x.mtime), seconds_of(y.mtime));
    sa > sb || sa == sb && (ra < rb || ra == rb && ta > tb)
}

/// How long a path counts: sixteen for each directory above it and one for each byte of
/// the name, with all long ones alike.
pub open spec fn path_reach(depth: int, name: nat) -> int {
    if 16 * depth + name < 65535 {
        16 * depth + name
    } else {
        65535
    }
}

/// A time in seconds that counts from the epoch on for 32 bits.
pub open spec fn seconds_of(mtime: i64) -> int {
    if mtime <= 0 {
        0
    } else if mtime >= 4294967295 {
        4294967295
    } else {
        mtime as int
    }
}

proof fn lemma_keys_rank(v: IndexView, a: int, sa: nat, b: int, sb: nat)
    requires
        search::key_of(v, a, sa) >= search::key_of(v, b, sb),
    ensures
        !ranks_above(v, b, sb as int, a, sa as int),
        search::key_of(v, a, sa) == search::key_of(v, b, sb) || ranks_above(v, a, sa as int, b, sb as int),
{
}

/// Hits come in the order of their ranks, and of equally ranked ones the earlier entry
/// first.
pub proof fn law_hits_come_ranked(v: IndexView, q: Query, limit: nat, r: SearchResults, a: int, b: int)
    requires
        v.slots.len() <= u32::MAX,
        search::results_over(v, q, search::all_ids(v), limit, r),
        0 <= a < b < r.hits@.len(),
    ensures
        r.hits@[a].score >= r.hits@[b].score,
        !ranks_above(
            v,
            r.hits@[b].id as int,
            r.hits@[b].score as int,
            r.hits@[a].id as int,
            r.hits@[a].score as int,
        ),
        ranks_above(
            v,
            r.hits@[a].id as int,
            r.hits@[a].score as int,
            r.hits@[b].id as int,
            r.hits@[b].score as int,
        ) || r.hits@[a].id <= r.hits@[b].id,
{
    let order = lemma_order(v, q, limit, r);
    assert(r.hits@[a].id == order[a].1);
    assert(r.hits@[b].id == order[b].1);
    assert(topk::in_order(order[a], order[b]));
    let (i, j) = (order[a].1 as int, order[b].1 as int);
    lemma_keys_rank(v, i, search::score(v, q, i)->0, j, search::score(v, q, j)->0);
}

/// What the limit leaves out ranks above nothing that is shown.
pub proof fn law_left_out_matches_rank_no_higher(
    v: IndexView,
    q: Query,
    limit: nat,
    r: SearchResults,
    i: int,
    k: int,
)
    requires
        v.slots.len() <= u32::MAX,
        search::results_over(v, q, search::all_ids(v), limit, r),
        search::is_match(v, q, i),
        forall|j: int| 0 <= j < r.hits@.len() ==> (#[trigger] r.hits@[j]).id != i,
        0 <= k < r.hits@.len(),
    ensures
        r.hits@[k].score >= search::score(v, q, i)->0,
        !ranks_above(
            v,
            i,
            search::score(v, q, i)->0 as int,
            r.hits@[k].id as int,
            r.hits@[k].score as int,
        ),
{
    broadcast use {vstd::multiset::group_multiset_axioms, vstd::seq_lib::group_to_multiset_ensures};

    let ids = search::all_ids(v);
    let order = lemma_order(v, q, limit, r);
    let c = search::candidate(v, q, i as u32);
    lemma_candidate_count(v, q, v.slots.len() as int, i);
    assert(ids.take(v.slots.len() as int) =~= ids);
    if order.to_multiset().count(c) > 0 {
        assert(order.contains(c));
        let j = choose|j: int| 0 <= j < order.len() && order[j] == c;
        assert(r.hits@[j].id == order[j].1);
    }
    assert(r.hits@[k].id == order[k].1);
    assert(order.contains(order[k]));
    assert(order.to_multiset().count(order[k]) > 0);
    assert(c.0 <= order[k].0);
    lemma_score_bound(v, q, i);
    lemma_key(v, i, search::score(v, q, i)->0);
    let j = order[k].1 as int;
    lemma_keys_rank(v, j, search::score(v, q, j)->0, i, search::score(v, q, i)->0);
}

} // verus!
