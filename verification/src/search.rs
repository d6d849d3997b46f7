//! Parallel matcher, ranking and top-K selection.

use std::sync::Arc;

use vstd::multiset::Multiset;
use vstd::prelude::*;

use crate::bytestr;
use crate::bytestr::{eq_bytes, eq_ci_at, eq_ignore_case, find_ci, find_sub, starts_with};
use crate::index;
use crate::index::{DirPaths, Index};
use crate::model;
use crate::model::{flags, Entry, Hit, SearchResults};
use crate::outside;
use crate::outside::{char_lowercase, last_of, lossy_text, par_map, regex_is_match, sort_ids, str_lowercase, string_of};
use crate::query;
use crate::query::{Kind, Query, Term};
use crate::text::chars_of;
use crate::tree;
use crate::tree::IndexView;

pub mod agree;
pub mod complete;
pub mod filters;
pub mod laws;
pub mod prefilter;
pub mod ranking;
pub mod topk;
pub mod typing;

use crate::search::topk::{Ranked, TopK};

verus! {

const CHUNK: usize = 16384;

/// Ranking tiers, best first.
pub const S_EXACT: u32 = 100;

pub const S_PREFIX: u32 = 80;

pub const S_WORD: u32 = 60;

pub const S_SUB: u32 = 40;

pub const S_PATH: u32 = 20;

/// Cap on how many matching ids are remembered for incremental refinement.
///
/// Kept modest on purpose: collecting ids costs the scan real time, and a full
/// rescan is already fast enough that remembering a huge result set would cost
/// more than it saves.
pub const COLLECT_CAP: usize = 150_000;

// ---- what matches -----------------------------------------------------------

/// The leftmost place of `needle` in `hay`, up to ASCII case.
pub open spec fn first_ci(hay: Seq<u8>, needle: Seq<u8>) -> Option<int> {
    choose|at: Option<int>| bytestr::is_first_ci(hay, needle, at)
}

/// The leftmost place of `needle` in `hay`, byte for byte.
pub open spec fn first_exact(hay: Seq<u8>, needle: Seq<u8>) -> Option<int> {
    choose|at: Option<int>| bytestr::is_first(hay, needle, at)
}

/// The place of the last dot.
pub open spec fn last_dot(name: Seq<u8>) -> Option<int> {
    choose|at: Option<int>| bytestr::is_last_of(name, 46, at)
}

/// The place of the last slash.
pub open spec fn last_slash(s: Seq<u8>) -> Option<int> {
    choose|at: Option<int>| bytestr::is_last_of(s, 47, at)
}

/// A byte after which a word begins.
pub open spec fn is_boundary_byte(b: u8) -> bool {
    b == 95 || b == 45 || b == 46 || b == 32 || b == 47 || b == 64 || b == 43 || b == 44
}

/// The rank of a needle that stands in `hay` first at `at`: the whole name, all
/// of it before the extension, its beginning, the beginning of a word, or the
/// middle of one.
pub open spec fn tier(hay: Seq<u8>, needle: Seq<u8>, at: int) -> nat {
    if at == 0 {
        if hay.len() == needle.len() {
            S_EXACT as nat
        } else if last_dot(hay) == Some(needle.len() as int) {
            (S_EXACT - 5) as nat
        } else {
            S_PREFIX as nat
        }
    } else if is_boundary_byte(hay[at - 1]) {
        S_WORD as nat
    } else {
        S_SUB as nat
    }
}

/// The rank of a term in a name, or `None` where it does not occur.
pub open spec fn rank_in(hay: Seq<u8>, t: Term) -> Option<nat> {
    let at = if t.ascii {
        first_ci(hay, t.lower@)
    } else {
        first_exact(hay, t.lower@)
    };
    match at {
        Some(at) => Some(tier(hay, t.lower@, at)),
        None => None,
    }
}

/// The text with each character in lower case.
pub open spec fn lower_each(s: Seq<char>) -> Seq<char>
    decreases s.len(),
{
    if s.len() == 0 {
        Seq::empty()
    } else {
        lower_each(s.drop_last()) + outside::lowercase_of_char(s.last())
    }
}

/// A name as non-ASCII terms are looked for in it.
pub open spec fn lower_name(name: Seq<u8>) -> Seq<u8> {
    vstd::utf8::encode_utf8(lower_each(outside::lossy_text_of(name)))
}

/// A path, or a part of one, as non-ASCII terms are looked for in it.
pub open spec fn lower_path(p: Seq<u8>) -> Seq<u8> {
    vstd::utf8::encode_utf8(outside::lowercase_of(outside::lossy_text_of(p)))
}

/// The rank of a term in an entry's name.
pub open spec fn name_rank(name: Seq<u8>, t: Term) -> Option<nat> {
    rank_in(
        if t.ascii {
            name
        } else {
            lower_name(name)
        },
        t,
    )
}

/// Where a path term is cut: behind its last slash.
pub open spec fn cut_of(needle: Seq<u8>) -> int {
    match last_slash(needle) {
        Some(i) => i + 1,
        None => if needle.len() == 0 {
            0
        } else {
            1
        },
    }
}

pub open spec fn head_of(needle: Seq<u8>) -> Seq<u8> {
    needle.subrange(0, cut_of(needle))
}

pub open spec fn rest_of(needle: Seq<u8>) -> Seq<u8> {
    needle.skip(cut_of(needle))
}

/// The needle lies in the path.
pub open spec fn path_contains(p: Seq<u8>, needle: Seq<u8>, ascii: bool) -> bool {
    if ascii {
        bytestr::contains_ci(p, needle)
    } else {
        bytestr::contains(lower_path(p), needle)
    }
}

/// The path ends in `suffix`.
pub open spec fn path_ends(p: Seq<u8>, suffix: Seq<u8>, ascii: bool) -> bool {
    suffix.len() <= p.len() && {
        let tail = p.skip(p.len() - suffix.len());
        if ascii {
            bytestr::same_ci(tail, suffix)
        } else {
            lower_path(tail) == suffix
        }
    }
}

/// The name begins with `prefix`.
pub open spec fn name_begins(name: Seq<u8>, prefix: Seq<u8>, ascii: bool) -> bool {
    prefix.len() <= name.len() && if ascii {
        bytestr::same_ci(name.subrange(0, prefix.len() as int), prefix)
    } else {
        bytestr::occurs(lower_path(name), prefix, 0)
    }
}

/// The rank of a path term: low where the directory's path already holds it,
/// higher where it straddles the last separator.
pub open spec fn path_rank(prefix: Seq<u8>, name: Seq<u8>, t: Term) -> Option<nat> {
    if path_contains(prefix, t.lower@, t.ascii) {
        Some(S_PATH as nat)
    } else if rest_of(t.lower@).len() > 0 && path_ends(prefix, head_of(t.lower@), t.ascii) && name_begins(
        name,
        rest_of(t.lower@),
        t.ascii,
    ) {
        Some(S_WORD as nat)
    } else {
        None
    }
}

/// The rank of a term for an entry. No path term matches an entry whose directory
/// does not exist.
pub open spec fn term_rank(v: IndexView, i: int, t: Term) -> Option<nat> {
    if t.on_path && !v.is_dir(v.slots[i].dir) {
        None
    } else if t.on_path {
        path_rank(v.dir_prefix(v.slots[i].dir), v.slots[i].name, t)
    } else {
        name_rank(v.slots[i].name, t)
    }
}

/// Every term matches the entry.
pub open spec fn all_terms_match(v: IndexView, i: int, terms: Seq<Term>) -> bool {
    forall|k: int| 0 <= k < terms.len() ==> term_rank(v, i, #[trigger] terms[k]) is Some
}

/// The ranks of all terms together.
pub open spec fn rank_sum(v: IndexView, i: int, terms: Seq<Term>) -> nat
    decreases terms.len(),
{
    if terms.len() == 0 {
        0
    } else {
        rank_sum(v, i, terms.drop_last()) + (match term_rank(v, i, terms.last()) {
            Some(r) => r,
            None => 0,
        })
    }
}

/// The name ends in one of the extensions, behind its last dot.
pub open spec fn has_ext(name: Seq<u8>, exts: Seq<String>) -> bool {
    match last_dot(name) {
        Some(dot) => exists|k: int|
            0 <= k < exts.len() && bytestr::same_ci(
                #[trigger] query::ext_bytes(exts)[k],
                name.skip(dot + 1),
            ),
        None => false,
    }
}

pub open spec fn kind_fits(q: Query, f: u8) -> bool {
    match q.kind {
        Some(Kind::Dir) => model::has_dir_bit(f),
        Some(Kind::File) => !model::has_dir_bit(f),
        None => true,
    }
}

pub open spec fn size_fits(q: Query, size: u64) -> bool {
    match q.size {
        Some(f) => f.admits(size),
        None => true,
    }
}

/// A lone term of one byte that is a letter or a dot, which is ranked by the
/// first byte of a name alone.
pub open spec fn lone_byte(q: Query) -> Option<u8> {
    if q.terms@.len() == 1 && q.exts@.len() == 0 && q.regex is None && q.terms@[0].ascii
        && !q.terms@[0].on_path && q.terms@[0].lower@.len() == 1 && (97 <= q.terms@[0].lower@[0] <= 122
        || q.terms@[0].lower@[0] == 46) {
        Some(q.terms@[0].lower@[0])
    } else {
        None
    }
}

/// The rank of a lone byte.
pub open spec fn byte_rank(name: Seq<u8>, b: u8) -> Option<nat> {
    if !bytestr::contains_ci(name, seq![b]) {
        None
    } else if bytestr::lower(name[0]) == b {
        Some(
            (if name.len() == 1 {
                S_EXACT
            } else {
                S_PREFIX
            }) as nat,
        )
    } else {
        Some(S_SUB as nat)
    }
}

/// The regex, where there is one, matches the name, or the path where it is on
/// paths.
pub open spec fn regex_fits(v: IndexView, i: int, q: Query) -> bool {
    match q.regex {
        Some(re) => outside::regex_accepts(
            re,
            if q.regex_on_path {
                v.entry_path(i)
            } else {
                v.slots[i].name
            },
        ),
        None => true,
    }
}

/// The score of an entry by its name and path: the average rank of the terms, if
/// the extension, every term and the regex fit.
pub open spec fn text_score(v: IndexView, q: Query, i: int) -> Option<nat> {
    if q.exts@.len() > 0 && !has_ext(v.slots[i].name, q.exts@) {
        None
    } else if !all_terms_match(v, i, q.terms@) || !regex_fits(v, i, q) {
        None
    } else if q.terms@.len() == 0 {
        Some(
            if q.regex is Some {
                S_SUB as nat
            } else {
                0
            },
        )
    } else {
        Some(rank_sum(v, i, q.terms@) / q.terms@.len())
    }
}

/// The score of an entry that matches every clause of the query. `None` where it
/// does not match.
pub open spec fn score(v: IndexView, q: Query, i: int) -> Option<nat> {
    let slot = v.slots[i];
    if !v.is_live(i) || !kind_fits(q, slot.flags) || !size_fits(q, slot.size) {
        None
    } else {
        match lone_byte(q) {
            Some(b) => byte_rank(slot.name, b),
            None => text_score(v, q, i),
        }
    }
}

/// The entry is a result of the query.
pub open spec fn is_match(v: IndexView, q: Query, i: int) -> bool {
    score(v, q, i) is Some
}

/// The key that ranks a match: the score, then the shorter path, then the newer
/// time.
pub open spec fn key_of(v: IndexView, i: int, score: nat) -> int {
    let slot = v.slots[i];
    let reach = v.depth_of(slot.dir) * 16 + slot.name.len();
    let short = if reach > 0xFFFF {
        0int
    } else {
        0xFFFF - reach
    };
    let time = if slot.mtime < 0 {
        0int
    } else if slot.mtime > u32::MAX {
        u32::MAX as int
    } else {
        slot.mtime as int
    };
    score * 0x1_0000_0000_0000 + short * 0x1_0000_0000 + time
}

/// The matches among some entries, in order.
pub open spec fn matching(v: IndexView, q: Query, ids: Seq<u32>) -> Seq<u32>
    decreases ids.len(),
{
    if ids.len() == 0 {
        Seq::empty()
    } else {
        let rest = matching(v, q, ids.drop_last());
        if is_match(v, q, ids.last() as int) {
            rest.push(ids.last())
        } else {
            rest
        }
    }
}

/// A match with its key.
pub open spec fn candidate(v: IndexView, q: Query, id: u32) -> Ranked {
    (key_of(v, id as int, score(v, q, id as int)->0) as u64, id)
}

/// The matches among some entries, with their keys.
pub open spec fn candidates(v: IndexView, q: Query, ids: Seq<u32>) -> Multiset<Ranked>
    decreases ids.len(),
{
    if ids.len() == 0 {
        Multiset::empty()
    } else {
        let rest = candidates(v, q, ids.drop_last());
        if is_match(v, q, ids.last() as int) {
            rest.insert(candidate(v, q, ids.last()))
        } else {
            rest
        }
    }
}

/// All entry ids.
pub open spec fn all_ids(v: IndexView) -> Seq<u32> {
    Seq::new(v.slots.len(), |i: int| i as u32)
}

/// The hit shows the entry of a ranked candidate.
pub open spec fn shows(v: IndexView, h: Hit, c: Ranked) -> bool {
    let slot = v.slots[c.1 as int];
    &&& h.id == c.1
    &&& h.path@ == v.entry_path(c.1 as int)
    &&& h.name@ == outside::lossy_text_of(slot.name)
    &&& h.size == slot.size
    &&& h.mtime == slot.mtime
    &&& h.is_dir == model::has_dir_bit(slot.flags)
    &&& h.score == c.0 / 0x1_0000_0000_0000
}

/// The query can have no results: it asks for nothing, or has an error.
pub open spec fn is_void(q: Query) -> bool {
    q.asks_nothing() || q.error is Some
}

/// A search for the query looks at the paths of directories.
pub open spec fn reads_paths(q: Query) -> bool {
    !is_void(q) && q.some_path_term()
}

pub(crate) fn needs_paths(q: &Query) -> (r: bool)
    ensures
        r == reads_paths(*q),
{
    !q.is_empty() && q.error.is_none() && q.any_path_term()
}

/// The results of a query over some entries: the number of matches, and the best
/// of them, ranked, at most `limit` of them.
pub open spec fn results_over(v: IndexView, q: Query, ids: Seq<u32>, limit: nat, r: SearchResults) -> bool {
    if is_void(q) {
        r.hits@.len() == 0 && r.total == 0 && !r.truncated
    } else {
        &&& r.total == matching(v, q, ids).len()
        &&& r.truncated == (r.total > limit)
        &&& exists|order: Seq<Ranked>| #[trigger]
            topk::best_of(order, limit, candidates(v, q, ids)) && r.hits@.len() == order.len() && forall|k: int|
                0 <= k < order.len() ==> shows(v, #[trigger] r.hits@[k], order[k])
    }
}

/// The remembered ids of the matches, ascending; none where there are too many.
pub open spec fn ids_over(v: IndexView, q: Query, ids: Seq<u32>, r: Option<Vec<u32>>) -> bool {
    let found = matching(v, q, ids);
    match r {
        Some(out) => {
            &&& !is_void(q)
            &&& found.len() <= COLLECT_CAP
            &&& out@.to_multiset() == found.to_multiset()
            &&& forall|i: int, j: int| 0 <= i <= j < out@.len() ==> out@[i] <= out@[j]
        },
        None => is_void(q) || found.len() > COLLECT_CAP,
    }
}

// ---- ranks --------------------------------------------------------------------

pub(crate) proof fn lemma_first_ci(hay: Seq<u8>, needle: Seq<u8>, at: Option<int>)
    requires
        bytestr::is_first_ci(hay, needle, at),
    ensures
        first_ci(hay, needle) == at,
{
    let other = first_ci(hay, needle);
    assert(bytestr::is_first_ci(hay, needle, other));
    match (at, other) {
        (Some(a), Some(b)) => {
            if a < b {
                assert(!bytestr::occurs_ci(hay, needle, a));
            } else if b < a {
                assert(!bytestr::occurs_ci(hay, needle, b));
            }
        },
        (Some(a), None) => {
            assert(bytestr::contains_ci(hay, needle));
        },
        (None, Some(b)) => {
            assert(bytestr::contains_ci(hay, needle));
        },
        _ => {},
    }
}

pub(crate) proof fn lemma_first_exact(hay: Seq<u8>, needle: Seq<u8>, at: Option<int>)
    requires
        bytestr::is_first(hay, needle, at),
    ensures
        first_exact(hay, needle) == at,
{
    let other = first_exact(hay, needle);
    assert(bytestr::is_first(hay, needle, other));
    match (at, other) {
        (Some(a), Some(b)) => {
            if a < b {
                assert(!bytestr::occurs(hay, needle, a));
            } else if b < a {
                assert(!bytestr::occurs(hay, needle, b));
            }
        },
        (Some(a), None) => {
            assert(bytestr::contains(hay, needle));
        },
        (None, Some(b)) => {
            assert(bytestr::contains(hay, needle));
        },
        _ => {},
    }
}

pub(crate) proof fn lemma_last_of(s: Seq<u8>, b: u8, at: Option<int>, other: Option<int>)
    requires
        bytestr::is_last_of(s, b, at),
        bytestr::is_last_of(s, b, other),
    ensures
        at == other,
{
}

/// The place of the last `b`.
fn find_last(b: u8, s: &[u8]) -> (r: Option<usize>)
    ensures
        bytestr::is_last_of(s@, b, opt_int(r)),
        b == 46 ==> last_dot(s@) == opt_int(r),
        b == 47 ==> last_slash(s@) == opt_int(r),
{
    let r: Option<usize> = last_of(b, s);
    proof {
        assert(bytestr::is_last_of(s@, b, opt_int(r)));
        if b == 46 {
            lemma_last_of(s@, b, opt_int(r), last_dot(s@));
        }
        if b == 47 {
            lemma_last_of(s@, b, opt_int(r), last_slash(s@));
        }
    }
    r
}

pub open spec fn opt_int(r: Option<usize>) -> Option<int> {
    match r {
        Some(i) => Some(i as int),
        None => None,
    }
}

pub open spec fn opt_nat(r: Option<u32>) -> Option<nat> {
    match r {
        Some(i) => Some(i as nat),
        None => None,
    }
}

/// Whether a word begins behind this byte.
pub fn is_boundary(b: u8) -> (r: bool)
    ensures
        r == is_boundary_byte(b),
{
    b == 95 || b == 45 || b == 46 || b == 32 || b == 47 || b == 64 || b == 43 || b == 44
}

/// Rank tier for a single term against a name. Terms that are not ASCII are
/// looked for in a name that is in lower case already.
pub fn score_term(name: &[u8], t: &Term) -> (r: Option<u32>)
    requires
        t.wf(),
    ensures
        opt_nat(r) == rank_in(name@, *t),
        r matches Some(s) ==> s <= S_EXACT,
{
    let found: Option<usize> = if t.ascii {
        let f: Option<usize> = find_ci(name, t.lower.as_slice());
        proof {
            lemma_first_ci(name@, t.lower@, opt_int(f));
        }
        f
    } else {
        let f: Option<usize> = find_sub(name, t.lower.as_slice());
        proof {
            lemma_first_exact(name@, t.lower@, opt_int(f));
        }
        f
    };
    match found {
        None => None,
        Some(pos) => {
            if pos == 0 {
                if name.len() == t.lower.len() {
                    return Some(S_EXACT);
                }
                // Also treat "name matches everything before the extension" as
                // exact.
                if let Some(dot) = find_last(46, name) {
                    if dot == t.lower.len() {
                        return Some(S_EXACT - 5);
                    }
                }
                return Some(S_PREFIX);
            }
            if is_boundary(name[pos - 1]) {
                return Some(S_WORD);
            }
            Some(S_SUB)
        },
    }
}

/// Whether a name ends in one of the extensions.
pub fn ext_matches(name: &[u8], exts: &Vec<String>) -> (r: bool)
    ensures
        r == has_ext(name@, exts@),
{
    let dot: usize = match find_last(46, name) {
        None => {
            return false;
        },
        Some(dot) => dot,
    };
    let len: usize = name.len();
    let ext: &[u8] = vstd::slice::slice_subrange(name, dot + 1, len);
    assert(ext@ =~= name@.skip(dot + 1));
    let n: usize = exts.len();
    let mut k: usize = 0;
    while k < n
        invariant
            n == exts@.len(),
            k <= n,
            last_dot(name@) == Some(dot as int),
            ext@ == name@.skip(dot + 1),
            forall|j: int| 0 <= j < k ==> !bytestr::same_ci(#[trigger] query::ext_bytes(exts@)[j], ext@),
        decreases n - k,
    {
        let e: &[u8] = exts[k].as_str().as_bytes();
        assert(query::ext_bytes(exts@)[k as int] == e@);
        if eq_ignore_case(e, ext) {
            return true;
        }
        k += 1;
    }
    false
}

/// A name as non-ASCII terms are looked for in it.
fn lowered_name(name: &[u8]) -> (r: Vec<u8>)
    ensures
        r@ == lower_name(name@),
{
    let lossy: String = lossy_text(name);
    let chars: Vec<char> = chars_of(lossy.as_str());
    let n: usize = chars.len();
    let mut out: Vec<char> = Vec::new();
    let mut i: usize = 0;
    assert(chars@.subrange(0, 0).len() == 0);
    assert(out@ =~= lower_each(chars@.subrange(0, 0)));
    while i < n
        invariant
            n == chars@.len(),
            i <= n,
            out@ == lower_each(chars@.subrange(0, i as int)),
        decreases n - i,
    {
        let ghost before = out@;
        let mut low: Vec<char> = char_lowercase(chars[i]);
        let ghost added = low@;
        out.append(&mut low);
        proof {
            let next = chars@.subrange(0, i + 1);
            assert(next.drop_last() =~= chars@.subrange(0, i as int));
            assert(next.last() == chars@[i as int]);
            assert(out@ =~= before + added);
        }
        i += 1;
    }
    assert(chars@.subrange(0, n as int) =~= chars@);
    let s: String = string_of(out.as_slice());
    vstd::slice::slice_to_vec(s.as_str().as_bytes())
}

/// A path, or a part of one, as non-ASCII terms are looked for in it.
fn lowered_path(p: &[u8]) -> (r: Vec<u8>)
    ensures
        r@ == lower_path(p@),
{
    let s: String = str_lowercase(lossy_text(p).as_str());
    vstd::slice::slice_to_vec(s.as_str().as_bytes())
}

/// Whether the needle lies in the path.
fn contains_bytes(hay: &[u8], needle: &[u8], ascii: bool) -> (r: bool)
    requires
        ascii ==> bytestr::is_lower(needle@),
    ensures
        r == path_contains(hay@, needle@, ascii),
{
    if ascii {
        match find_ci(hay, needle) {
            Some(at) => {
                assert(bytestr::occurs_ci(hay@, needle@, at as int));
                true
            },
            None => false,
        }
    } else {
        // Unicode needle: compare against a lowercased copy of the haystack.
        let low: Vec<u8> = lowered_path(hay);
        match find_sub(low.as_slice(), needle) {
            Some(at) => {
                assert(bytestr::occurs(low@, needle@, at as int));
                true
            },
            None => false,
        }
    }
}

/// Whether the path ends in `suffix`.
fn ends_with_ci(hay: &[u8], suffix: &[u8], ascii: bool) -> (r: bool)
    ensures
        r == path_ends(hay@, suffix@, ascii),
{
    if hay.len() < suffix.len() {
        return false;
    }
    let len: usize = hay.len();
    let tail: &[u8] = vstd::slice::slice_subrange(hay, len - suffix.len(), len);
    assert(tail@ =~= hay@.skip(len - suffix@.len()));
    if ascii {
        eq_ignore_case(tail, suffix)
    } else {
        eq_bytes(lowered_path(tail).as_slice(), suffix)
    }
}

/// Whether the name begins with `prefix`.
fn starts_with_ci(hay: &[u8], prefix: &[u8], ascii: bool) -> (r: bool)
    ensures
        r == name_begins(hay@, prefix@, ascii),
{
    if hay.len() < prefix.len() {
        return false;
    }
    if ascii {
        assert(0 + prefix@.len() == prefix@.len());
        eq_ci_at(hay, 0, prefix)
    } else {
        starts_with(lowered_path(hay).as_slice(), prefix)
    }
}

// ---- path terms -------------------------------------------------------------------

/// Precomputed per-directory answers for one path term.
///
/// A match of a term containing `/` either lies entirely inside the directory
/// path (`dir_hit`) or straddles the last separator, in which case the directory
/// path must end with everything up to and including the term's last `/`
/// (`cross`) and the name must start with `rest`.
struct PathPlan {
    dir_hit: Vec<bool>,
    cross: Vec<bool>,
    rest: Vec<u8>,
    /// Folded first byte of `rest`, or 0 when there is nothing to check. Lets
    /// the scan reject a crossing candidate from the first-byte column.
    rest_first: u8,
    ascii: bool,
}

impl PathPlan {
    /// The answers are those for this term.
    spec fn fits(&self, v: IndexView, t: Term) -> bool {
        &&& self.dir_hit@.len() == v.dirs.len()
        &&& self.cross@.len() == v.dirs.len()
        &&& self.ascii == t.ascii
        &&& self.rest@ == rest_of(t.lower@)
        &&& self.rest_first != 0 ==> t.ascii && self.rest@.len() > 0 && self.rest_first == model::fold(
            self.rest@[0],
        )
        &&& forall|d: int|
            0 <= d < v.dirs.len() ==> #[trigger] self.dir_hit@[d] == path_contains(
                v.dir_prefix(d as u32),
                t.lower@,
                t.ascii,
            )
        &&& forall|d: int|
            0 <= d < v.dirs.len() ==> #[trigger] self.cross@[d] == (self.rest@.len() > 0 && path_ends(
                v.dir_prefix(d as u32),
                head_of(t.lower@),
                t.ascii,
            ))
    }

    fn build(index: &Index, term: &Term) -> (r: PathPlan)
        requires
            index.wf(),
            term.wf(),
        ensures
            r.fits(index@, *term),
    {
        let paths: Arc<DirPaths> = index.current_paths();
        let needle: &[u8] = term.lower.as_slice();
        let size: usize = needle.len();
        let cut: usize = match find_last(47, needle) {
            Some(i) => i + 1,
            None => if size == 0 {
                0
            } else {
                1
            },
        };
        let prefix: &[u8] = vstd::slice::slice_subrange(needle, 0, cut);
        let tail: &[u8] = vstd::slice::slice_subrange(needle, cut, size);
        assert(prefix@ =~= head_of(term.lower@));
        assert(tail@ =~= rest_of(term.lower@));
        let rest: Vec<u8> = vstd::slice::slice_to_vec(tail);
        let n: usize = paths.len();
        let ascii: bool = term.ascii;
        let table: &DirPaths = &*paths;
        let crossing: bool = !rest.is_empty();
        let ghost v = index@;
        let answer = |d: usize| -> (r: (bool, bool))
            requires
                d < n,
            ensures
                r.0 == path_contains(table@[d as int], needle@, ascii),
                r.1 == (crossing && path_ends(table@[d as int], prefix@, ascii)),
            {
                let p: &[u8] = table.get(d as u32);
                (contains_bytes(p, needle, ascii), crossing && ends_with_ci(p, prefix, ascii))
            };
        let answers: Vec<(bool, bool)> = par_map(n, answer);
        assert forall|i: int| 0 <= i < n implies {
            let a = #[trigger] answers@[i];
            &&& a.0 == path_contains(v.dir_prefix(i as u32), needle@, ascii)
            &&& a.1 == (crossing && path_ends(v.dir_prefix(i as u32), prefix@, ascii))
        } by {
            assert(call_ensures(answer, (i as usize,), answers@[(i as usize) as int]));
            assert(table@[i] == v.dir_prefix(i as u32));
        }
        let mut dir_hit: Vec<bool> = Vec::new();
        let mut cross: Vec<bool> = Vec::new();
        let mut d: usize = 0;
        while d < n
            invariant
                n == answers@.len(),
                n == v.dirs.len(),
                d <= n,
                dir_hit@.len() == d,
                cross@.len() == d,
                forall|i: int|
                    0 <= i < n ==> {
                        let a = #[trigger] answers@[i];
                        &&& a.0 == path_contains(v.dir_prefix(i as u32), needle@, ascii)
                        &&& a.1 == (crossing && path_ends(v.dir_prefix(i as u32), prefix@, ascii))
                    },
                forall|i: int|
                    0 <= i < d ==> #[trigger] dir_hit@[i] == path_contains(v.dir_prefix(i as u32), needle@, ascii),
                forall|i: int|
                    0 <= i < d ==> #[trigger] cross@[i] == (crossing && path_ends(
                        v.dir_prefix(i as u32),
                        prefix@,
                        ascii,
                    )),
            decreases n - d,
        {
            dir_hit.push(answers[d].0);
            cross.push(answers[d].1);
            d += 1;
        }
        let rest_first: u8 = if ascii && rest.len() > 0 {
            rest[0] | 0x20
        } else {
            0
        };
        PathPlan { dir_hit, cross, rest, rest_first, ascii }
    }
}

// ---- one entry ----------------------------------------------------------------------

/// The ranks of the path terms, or of the name terms, together.
spec fn part_sum(v: IndexView, i: int, terms: Seq<Term>, on_path: bool) -> nat
    decreases terms.len(),
{
    if terms.len() == 0 {
        0
    } else {
        part_sum(v, i, terms.drop_last(), on_path) + (if terms.last().on_path == on_path {
            match term_rank(v, i, terms.last()) {
                Some(r) => r,
                None => 0,
            }
        } else {
            0
        })
    }
}

proof fn lemma_part_sums(v: IndexView, i: int, terms: Seq<Term>)
    ensures
        rank_sum(v, i, terms) == part_sum(v, i, terms, true) + part_sum(v, i, terms, false),
    decreases terms.len(),
{
    if terms.len() > 0 {
        lemma_part_sums(v, i, terms.drop_last());
    }
}

/// No rank is better than that of an exact match.
proof fn lemma_rank_sum_bound(v: IndexView, i: int, terms: Seq<Term>)
    ensures
        rank_sum(v, i, terms) <= 100 * terms.len(),
    decreases terms.len(),
{
    if terms.len() > 0 {
        lemma_rank_sum_bound(v, i, terms.drop_last());
        let t = terms.last();
        if !t.on_path {
            let name = v.slots[i].name;
            prefilter::lemma_rank_means_contained(
                if t.ascii {
                    name
                } else {
                    lower_name(name)
                },
                t,
            );
        }
    }
}

proof fn lemma_no_name_terms(v: IndexView, i: int, terms: Seq<Term>)
    requires
        forall|k: int| 0 <= k < terms.len() ==> (#[trigger] terms[k]).on_path,
    ensures
        part_sum(v, i, terms, false) == 0,
    decreases terms.len(),
{
    if terms.len() > 0 {
        assert(terms[terms.len() - 1].on_path);
        assert forall|k: int| 0 <= k < terms.drop_last().len() implies (#[trigger] terms.drop_last()[k]).on_path by {
            assert(terms[k].on_path);
        }
        lemma_no_name_terms(v, i, terms.drop_last());
    }
}

struct Ctx<'a> {
    index: &'a Index,
    q: &'a Query,
    name_need: u64,
    name_need2: u32,
    /// For each term the plan for it, where it is a path term.
    plans: Vec<Option<PathPlan>>,
    /// Whether any name term is not ASCII.
    has_unicode: bool,
    /// Whether any clause actually needs the entry's name.
    needs_name: bool,
    /// Set for a lone single-letter term, whose presence the signature already
    /// proves; see [`single_byte`].
    single: Option<u8>,
}

impl<'a> Ctx<'a> {
    spec fn wf(&self) -> bool {
        let terms = self.q.terms@;
        &&& self.index.wf()
        &&& self.q.wf()
        &&& !is_void(*self.q)
        &&& (self.name_need, self.name_need2) == self.q.needed_bits()
        &&& self.plans@.len() == terms.len()
        &&& forall|k: int|
            0 <= k < terms.len() ==> match #[trigger] self.plans@[k] {
                Some(p) => terms[k].on_path && p.fits(self.index@, terms[k]),
                None => !terms[k].on_path,
            }
        &&& !self.has_unicode ==> forall|k: int|
            0 <= k < terms.len() ==> (#[trigger] terms[k]).on_path || terms[k].ascii
        &&& !self.needs_name ==> {
            &&& self.q.exts@.len() == 0
            &&& self.q.regex is None
            &&& forall|k: int| 0 <= k < terms.len() ==> (#[trigger] terms[k]).on_path
        }
        &&& self.single == lone_byte(*self.q)
    }

    /// The entry passes the prefilter, or is tombstoned.
    spec fn passes(&self, i: int) -> bool {
        self.index@.is_live(i) ==> {
            let name = self.index@.slots[i].name;
            &&& model::bits_within(self.name_need, model::signature_of(name))
            &&& model::bits_within2(self.name_need2, model::signature2_of(name))
        }
    }

    fn new(index: &'a Index, q: &'a Query) -> (r: Ctx<'a>)
        requires
            index.wf(),
            q.wf(),
            !is_void(*q),
        ensures
            r.wf(),
            r.index == index,
            r.q == q,
    {
        let (name_need, name_need2) = q.name_sig();
        let n: usize = q.terms.len();
        let mut plans: Vec<Option<PathPlan>> = Vec::new();
        let mut has_unicode: bool = false;
        let mut needs_name: bool = !q.exts.is_empty() || q.regex.is_some();
        let mut k: usize = 0;
        while k < n
            invariant
                index.wf(),
                q.wf(),
                n == q.terms@.len(),
                k <= n,
                plans@.len() == k,
                forall|j: int|
                    0 <= j < k ==> match #[trigger] plans@[j] {
                        Some(p) => q.terms@[j].on_path && p.fits(index@, q.terms@[j]),
                        None => !q.terms@[j].on_path,
                    },
                !has_unicode ==> forall|j: int|
                    0 <= j < k ==> (#[trigger] q.terms@[j]).on_path || q.terms@[j].ascii,
                !needs_name ==> q.exts@.len() == 0 && q.regex is None && forall|j: int|
                    0 <= j < k ==> (#[trigger] q.terms@[j]).on_path,
            decreases n - k,
        {
            let t: &Term = &q.terms[k];
            assert(q.terms@[k as int].wf());
            if t.on_path {
                plans.push(Some(PathPlan::build(index, t)));
            } else {
                plans.push(None);
                needs_name = true;
                if !t.ascii {
                    has_unicode = true;
                }
            }
            k += 1;
        }
        Ctx { index, q, name_need, name_need2, plans, has_unicode, needs_name, single: single_byte(q) }
    }

    /// Returns the rank score when the entry matches every clause.
    fn eval(&self, id: u32) -> (r: Option<u32>)
        requires
            self.wf(),
            id < self.index@.slots.len(),
            self.passes(id as int),
        ensures
            opt_nat(r) == score(self.index@, *self.q, id as int),
            r matches Some(s) ==> s <= S_EXACT,
    {
        let e: Entry = self.index.entry(id);
        if e.is_dead() {
            return None;
        }
        match self.q.kind {
            Some(Kind::Dir) => {
                if !e.is_dir() {
                    return None;
                }
            },
            Some(Kind::File) => {
                if e.is_dir() {
                    return None;
                }
            },
            None => {},
        }
        if let Some(f) = self.q.size {
            if !f.matches(e.size) {
                return None;
            }
        }
        match self.single {
            Some(b) => self.eval_byte(id, b, e.name_len),
            None => self.eval_text(id, e.dir),
        }
    }

    /// The score of a live entry by its name and path.
    fn eval_text(&self, id: u32, dir: u32) -> (r: Option<u32>)
        requires
            self.wf(),
            id < self.index@.slots.len(),
            self.index@.is_live(id as int),
            dir == self.index@.slots[id as int].dir,
        ensures
            opt_nat(r) == text_score(self.index@, *self.q, id as int),
            r matches Some(s) ==> s <= S_EXACT,
    {
        if !self.q.exts.is_empty() && !ext_matches(self.index.name(id), &self.q.exts) {
            return None;
        }
        match self.terms_total(id, dir) {
            None => None,
            Some(total) => {
                if !self.regex_hits(id) {
                    None
                } else if self.q.terms.is_empty() && self.q.regex.is_some() {
                    Some(S_SUB)
                } else {
                    Some(self.average(total))
                }
            },
        }
    }

    /// The ranks of all terms together, or `None` where one does not match.
    fn terms_total(&self, id: u32, dir: u32) -> (r: Option<u128>)
        requires
            self.wf(),
            id < self.index@.slots.len(),
            self.index@.is_live(id as int),
            dir == self.index@.slots[id as int].dir,
        ensures
            match r {
                Some(total) => {
                    &&& all_terms_match(self.index@, id as int, self.q.terms@)
                    &&& total == rank_sum(self.index@, id as int, self.q.terms@)
                    &&& total <= 100 * self.q.terms@.len()
                },
                None => !all_terms_match(self.index@, id as int, self.q.terms@),
            },
    {
        let ghost v = self.index@;
        let ghost i = id as int;
        let ghost terms = self.q.terms@;
        let path_total: u128 = match self.path_total(id, dir) {
            Some(t) => t,
            None => {
                return None;
            },
        };
        proof {
            lemma_part_sums(v, i, terms);
            lemma_rank_sum_bound(v, i, terms);
        }
        // Reading the name is a trip into the arena; queries made only of column
        // filters (`dir:`, `size:`, a path term satisfied by the directory
        // alone) must never pay for it.
        if !self.needs_name {
            proof {
                lemma_no_name_terms(v, i, terms);
            }
            return Some(path_total);
        }
        let n: usize = self.q.terms.len();
        assert(n == terms.len());
        match self.name_total(id, self.index.name(id)) {
            Some(name_total) => Some(path_total + name_total),
            None => None,
        }
    }

    /// The ranks of the path terms together, or `None` where one does not match.
    /// They are answered from the directory; the name is read only where one
    /// straddles the last separator.
    fn path_total(&self, id: u32, dir: u32) -> (r: Option<u128>)
        requires
            self.wf(),
            id < self.index@.slots.len(),
            self.index@.is_live(id as int),
            dir == self.index@.slots[id as int].dir,
        ensures
            ({
                let (v, terms) = (self.index@, self.q.terms@);
                match r {
                    Some(total) => {
                        &&& total == part_sum(v, id as int, terms, true)
                        &&& total <= 60 * terms.len()
                        &&& forall|j: int|
                            0 <= j < terms.len() && (#[trigger] terms[j]).on_path ==> term_rank(
                                v,
                                id as int,
                                terms[j],
                            ) is Some
                    },
                    None => !all_terms_match(v, id as int, terms),
                }
            }),
    {
        let ghost v = self.index@;
        let ghost i = id as int;
        let ghost terms = self.q.terms@;
        assert(v.slot_wf(i));
        let idx: &Index = self.index;
        let n: usize = self.q.terms.len();
        let d: usize = dir as usize;
        let mut total: u128 = 0;
        let mut k: usize = 0;
        assert(terms.subrange(0, 0).len() == 0);
        while k < n
            invariant
                self.wf(),
                v == self.index@,
                idx == self.index,
                id < v.slots.len(),
                i == id,
                d == dir,
                v.is_live(i),
                dir == v.slots[i].dir,
                terms == self.q.terms@,
                n == terms.len(),
                k <= n,
                total == part_sum(v, i, terms.subrange(0, k as int), true),
                total <= 60 * k,
                forall|j: int| 0 <= j < k && (#[trigger] terms[j]).on_path ==> term_rank(v, i, terms[j]) is Some,
            decreases n - k,
        {
            let ghost t = terms[k as int];
            proof {
                let next = terms.subrange(0, k + 1);
                assert(next.drop_last() =~= terms.subrange(0, k as int));
                assert(next.last() == t);
                assert(match self.plans@[k as int] {
                    Some(p) => t.on_path && p.fits(self.index@, t),
                    None => !t.on_path,
                });
            }
            match &self.plans[k] {
                None => {},
                Some(plan) => {
                    if d >= plan.dir_hit.len() {
                        assert(term_rank(v, i, terms[k as int]) is None);
                        return None;
                    }
                    assert(plan.dir_hit@[d as int] == path_contains(v.dir_prefix(dir), t.lower@, t.ascii));
                    assert(plan.cross@[d as int] == (plan.rest@.len() > 0 && path_ends(
                        v.dir_prefix(dir),
                        head_of(t.lower@),
                        t.ascii,
                    )));
                    if plan.dir_hit[d] {
                        total = total + S_PATH as u128;
                    } else {
                        let mut hit: bool = plan.cross[d];
                        if hit && plan.rest_first != 0 && idx.first_byte(id) != plan.rest_first {
                            proof {
                                lemma_first_byte_differs(v.slots[i].name, plan.rest@);
                            }
                            hit = false;
                        }
                        if !hit || !starts_with_ci(idx.name(id), plan.rest.as_slice(), plan.ascii) {
                            assert(term_rank(v, i, terms[k as int]) is None);
                            return None;
                        }
                        total = total + S_WORD as u128;
                    }
                },
            }
            k += 1;
        }
        assert(terms.subrange(0, n as int) =~= terms);
        Some(total)
    }

    /// The ranks of the name terms together, or `None` where one does not match.
    fn name_total(&self, id: u32, name: &[u8]) -> (r: Option<u128>)
        requires
            self.wf(),
            id < self.index@.slots.len(),
            name@ == self.index@.slots[id as int].name,
        ensures
            ({
                let (v, terms) = (self.index@, self.q.terms@);
                match r {
                    Some(total) => {
                        &&& total == part_sum(v, id as int, terms, false)
                        &&& total <= 100 * terms.len()
                        &&& forall|j: int|
                            0 <= j < terms.len() && !(#[trigger] terms[j]).on_path ==> term_rank(
                                v,
                                id as int,
                                terms[j],
                            ) is Some
                    },
                    None => !all_terms_match(v, id as int, terms),
                }
            }),
    {
        let ghost v = self.index@;
        let ghost i = id as int;
        let ghost terms = self.q.terms@;
        let lower: Vec<u8> = if self.has_unicode {
            lowered_name(name)
        } else {
            Vec::new()
        };
        let n: usize = self.q.terms.len();
        let mut total: u128 = 0;
        let mut k: usize = 0;
        assert(terms.subrange(0, 0).len() == 0);
        while k < n
            invariant
                self.wf(),
                v == self.index@,
                i == id,
                terms == self.q.terms@,
                n == terms.len(),
                k <= n,
                name@ == v.slots[i].name,
                self.has_unicode ==> lower@ == lower_name(name@),
                total == part_sum(v, i, terms.subrange(0, k as int), false),
                total <= 100 * k,
                forall|j: int| 0 <= j < k && !(#[trigger] terms[j]).on_path ==> term_rank(v, i, terms[j]) is Some,
            decreases n - k,
        {
            proof {
                let next = terms.subrange(0, k + 1);
                assert(next.drop_last() =~= terms.subrange(0, k as int));
                assert(next.last() == terms[k as int]);
                assert(terms[k as int].wf());
            }
            let t: &Term = &self.q.terms[k];
            if !t.on_path {
                let hay: &[u8] = if t.ascii {
                    name
                } else {
                    lower.as_slice()
                };
                match score_term(hay, t) {
                    Some(s) => {
                        total = total + s as u128;
                    },
                    None => {
                        assert(term_rank(v, i, terms[k as int]) is None);
                        return None;
                    },
                }
            }
            k += 1;
        }
        assert(terms.subrange(0, n as int) =~= terms);
        Some(total)
    }

    /// Whether the regex, where there is one, matches the name or the path.
    fn regex_hits(&self, id: u32) -> (r: bool)
        requires
            self.wf(),
            id < self.index@.slots.len(),
            self.index@.is_live(id as int),
        ensures
            r == regex_fits(self.index@, id as int, *self.q),
    {
        match &self.q.regex {
            None => true,
            Some(re) => {
                if self.q.regex_on_path {
                    assert(self.index@.slot_wf(id as int));
                    let path: Vec<u8> = self.index.path_of(id);
                    regex_is_match(re, path.as_slice())
                } else {
                    regex_is_match(re, self.index.name(id))
                }
            },
        }
    }

    /// The rank of an entry for a lone byte. A letter's presence is proved by the
    /// prefilter, so the name itself is not read; for a dot it is.
    fn eval_byte(&self, id: u32, b: u8, name_len: u16) -> (r: Option<u32>)
        requires
            self.wf(),
            id < self.index@.slots.len(),
            self.index@.is_live(id as int),
            self.passes(id as int),
            lone_byte(*self.q) == Some(b),
            name_len == self.index@.slots[id as int].name.len(),
        ensures
            opt_nat(r) == byte_rank(self.index@.slots[id as int].name, b),
            r matches Some(s) ==> s <= S_EXACT,
    {
        let ghost name = self.index@.slots[id as int].name;
        proof {
            let t = self.q.terms@[0];
            assert(t.wf());
            assert(t.lower@ =~= seq![b]);
        }
        if b == 46 {
            let bytes: &[u8] = self.index.name(id);
            match find_last(46, bytes) {
                None => {
                    proof {
                        if bytestr::contains_ci(name, seq![b]) {
                            let at = choose|at: int| bytestr::occurs_ci(name, seq![b], at);
                            let w = name.subrange(at, at + 1);
                            assert(bytestr::lower(w[0]) == bytestr::lower(seq![b][0]));
                            assert(name[at] == 46);
                        }
                    }
                    None
                },
                Some(at) => {
                    proof {
                        assert(name.subrange(at as int, at + 1) =~= seq![46u8]);
                        assert(bytestr::occurs_ci(name, seq![b], at as int));
                    }
                    if bytes[0] == 46 {
                        if name_len == 1 {
                            Some(S_EXACT)
                        } else {
                            Some(S_PREFIX)
                        }
                    } else {
                        Some(S_SUB)
                    }
                },
            }
        } else {
            proof {
                self.lemma_lone_letter(id as int, b);
                prefilter::lemma_letter_is_contained(name, b);
                prefilter::lemma_fold_letter(name[0], b);
            }
            if self.index.first_byte(id) == b {
                if name_len == 1 {
                    Some(S_EXACT)
                } else {
                    Some(S_PREFIX)
                }
            } else {
                Some(S_SUB)
            }
        }
    }

    /// What a lone letter needs is its own bits.
    proof fn lemma_lone_letter(&self, i: int, b: u8)
        requires
            self.wf(),
            self.index@.is_live(i),
            self.passes(i),
            lone_byte(*self.q) == Some(b),
        ensures
            model::bits_within(model::signature_of(seq![b]), model::signature_of(self.index@.slots[i].name)),
    {
        let q = *self.q;
        let t = q.terms@[0];
        assert(t.wf());
        assert(t.lower@ =~= seq![b]);
        assert(q.terms@.drop_last().len() == 0);
        assert(query::term_bits(q.terms@.drop_last()) == (0u64, 0u32));
        assert(q.terms@.last() == t);
        let sig = t.sig;
        model::lemma_bits(0, sig, 0);
        let one = query::term_bits(q.terms@).0;
        assert(one == 0 | sig);
        model::lemma_bits(one, q.regex_bits().0, 0);
        model::lemma_bits(sig, one, self.name_need);
        model::lemma_bits(sig, self.name_need, model::signature_of(self.index@.slots[i].name));
    }

    /// The average over the terms; the rank of each is at most that of an exact
    /// match.
    fn average(&self, total: u128) -> (r: u32)
        requires
            total <= 100 * self.q.terms@.len(),
        ensures
            r <= S_EXACT,
            r == (if self.q.terms@.len() == 0 {
                0
            } else {
                total as nat / self.q.terms@.len()
            }),
    {
        let n: usize = self.q.terms.len();
        if n == 0 {
            0
        } else {
            assert(total as int / n as int <= 100) by (nonlinear_arith)
                requires
                    0 <= total <= 100 * n,
                    n > 0,
            ;
            (total / n as u128) as u32
        }
    }

    fn sort_key(&self, id: u32, score: u32) -> (r: u64)
        requires
            self.index.wf(),
            id < self.index@.slots.len(),
            self.index@.is_live(id as int),
            score <= S_EXACT,
        ensures
            r == key_of(self.index@, id as int, score as nat),
            r / 0x1_0000_0000_0000 == score,
    {
        assert(self.index@.slot_wf(id as int));
        let e: Entry = self.index.entry(id);
        let depth: u64 = if (e.dir as usize) < self.index.dir_count() {
            self.index.dir_node(e.dir).depth as u64
        } else {
            0
        };
        let reach: u64 = depth * 16 + e.name_len as u64;
        let short: u64 = if reach > 0xFFFF {
            0
        } else {
            0xFFFF - reach
        };
        let time: u64 = if e.mtime < 0 {
            0
        } else if e.mtime > 0xFFFF_FFFF {
            0xFFFF_FFFF
        } else {
            e.mtime as u64
        };
        score as u64 * 0x1_0000_0000_0000 + short * 0x1_0000_0000 + time
    }
}

/// A name that begins with `rest`, up to case, has its first byte, folded.
proof fn lemma_first_byte_differs(name: Seq<u8>, rest: Seq<u8>)
    requires
        rest.len() > 0,
        index::first_byte_of(name) != model::fold(rest[0]),
    ensures
        !name_begins(name, rest, true),
{
    if name_begins(name, rest, true) {
        let w = name.subrange(0, rest.len() as int);
        assert(bytestr::lower(w[0]) == bytestr::lower(rest[0]));
        model::lemma_fold_ignores_case(name[0], rest[0]);
    }
}

/// A lone `a`–`z` or `.` term: the scan can rank straight from the first-byte
/// column, without looking for word starts. The first keystroke of a search is
/// exactly this case, and it is also the one that matches millions of entries.
/// The only cost is that word-start matches rank as plain substring matches for
/// one-character queries.
fn single_byte(q: &Query) -> (r: Option<u8>)
    ensures
        r == lone_byte(*q),
{
    if q.terms.len() != 1 || !q.exts.is_empty() || q.regex.is_some() {
        return None;
    }
    let t: &Term = &q.terms[0];
    if !t.ascii || t.on_path || t.lower.len() != 1 {
        return None;
    }
    let b: u8 = t.lower[0];
    if (b >= 97 && b <= 122) || b == 46 {
        Some(b)
    } else {
        None
    }
}

// ---- many entries ---------------------------------------------------------------------

/// A key holds the score above everything else.
proof fn lemma_key(v: IndexView, i: int, score: nat)
    requires
        score <= S_EXACT,
    ensures
        0 <= key_of(v, i, score) <= u64::MAX,
        key_of(v, i, score) / 0x1_0000_0000_0000 == score,
{
}

/// What a scan over some entries has found.
struct Part {
    top: TopK,
    total: usize,
    ids: Vec<u32>,
    overflow: bool,
}

impl Part {
    /// These are the findings over `ids`.
    spec fn is_for(&self, v: IndexView, q: Query, cap: nat, collect: bool, ids: Seq<u32>) -> bool {
        let found = matching(v, q, ids);
        &&& self.top.cap() == cap
        &&& self.top.holds_best_of(candidates(v, q, ids))
        &&& self.total == found.len()
        &&& self.overflow == (collect && found.len() > COLLECT_CAP)
        &&& collect && !self.overflow ==> self.ids@ == found
    }

    /// These are the findings over one chunk of the entries.
    spec fn is_for_chunk(
        &self,
        ctx: &Ctx,
        subset: Option<&[u32]>,
        n: usize,
        limit: usize,
        collect: bool,
        c: int,
    ) -> bool {
        self.is_for(
            ctx.index@,
            *ctx.q,
            cap_for(limit),
            collect,
            ids_of(ctx.index@, subset).subrange(chunk_start(c, n as int), chunk_start(c + 1, n as int)),
        )
    }

    fn new(limit: usize, Ghost(v): Ghost<IndexView>, Ghost(q): Ghost<Query>, collect: bool) -> (r: Part)
        ensures
            r.is_for(v, q, cap_for(limit), collect, Seq::empty()),
    {
        let r = Part { top: TopK::new(limit), total: 0, ids: Vec::new(), overflow: false };
        assert(r.ids@ =~= Seq::empty());
        r
    }

    /// Two scans, one behind the other.
    fn merge(
        self,
        b: Part,
        collect: bool,
        Ghost(v): Ghost<IndexView>,
        Ghost(q): Ghost<Query>,
        Ghost(cap): Ghost<nat>,
        Ghost(x): Ghost<Seq<u32>>,
        Ghost(y): Ghost<Seq<u32>>,
    ) -> (r: Part)
        requires
            self.is_for(v, q, cap, collect, x),
            b.is_for(v, q, cap, collect, y),
            x.len() + y.len() <= usize::MAX,
        ensures
            r.is_for(v, q, cap, collect, x + y),
    {
        proof {
            lemma_matching_concat(v, q, x, y);
            lemma_matching_short(v, q, x);
            lemma_matching_short(v, q, y);
        }
        let mut a: Part = self;
        a.top.merge(&b.top, Ghost(candidates(v, q, x)), Ghost(candidates(v, q, y)));
        a.total = a.total + b.total;
        if collect {
            if a.overflow || b.overflow || b.ids.len() > COLLECT_CAP - a.ids.len() {
                a.overflow = true;
                a.ids = Vec::new();
            } else {
                let mut more: Vec<u32> = b.ids;
                a.ids.append(&mut more);
                assert(a.ids@ =~= matching(v, q, x) + matching(v, q, y));
            }
        }
        a
    }
}

/// How many candidates a selection keeps for a limit.
pub open spec fn cap_for(limit: usize) -> nat {
    if limit == 0 {
        1
    } else {
        limit as nat
    }
}

pub(crate) proof fn lemma_matching_short(v: IndexView, q: Query, ids: Seq<u32>)
    ensures
        matching(v, q, ids).len() <= ids.len(),
    decreases ids.len(),
{
    if ids.len() > 0 {
        lemma_matching_short(v, q, ids.drop_last());
    }
}

/// The matches of two rows of entries are those of one, then those of the other.
pub(crate) proof fn lemma_matching_concat(v: IndexView, q: Query, x: Seq<u32>, y: Seq<u32>)
    ensures
        matching(v, q, x + y) == matching(v, q, x) + matching(v, q, y),
        candidates(v, q, x + y) == candidates(v, q, x).add(candidates(v, q, y)),
    decreases y.len(),
{
    if y.len() == 0 {
        assert(x + y =~= x);
        assert(matching(v, q, x) + matching(v, q, y) =~= matching(v, q, x));
        assert(candidates(v, q, x).add(candidates(v, q, y)) =~= candidates(v, q, x));
    } else {
        lemma_matching_concat(v, q, x, y.drop_last());
        assert((x + y).drop_last() =~= x + y.drop_last());
        assert((x + y).last() == y.last());
        assert(matching(v, q, x + y) =~= matching(v, q, x) + matching(v, q, y));
        assert(candidates(v, q, x + y) =~= candidates(v, q, x).add(candidates(v, q, y)));
    }
}

/// The entries that a search looks at.
pub open spec fn ids_of(v: IndexView, subset: Option<&[u32]>) -> Seq<u32> {
    match subset {
        Some(s) => s@,
        None => all_ids(v),
    }
}

/// Scans the entries from the `from`-th to the `to`-th.
fn scan(ctx: &Ctx, subset: Option<&[u32]>, from: usize, to: usize, limit: usize, collect: bool) -> (acc: Part)
    requires
        ctx.wf(),
        from <= to <= ids_of(ctx.index@, subset).len(),
        subset matches Some(s) ==> forall|k: int| 0 <= k < s@.len() ==> (#[trigger] s@[k]) < ctx.index@.slots.len(),
    ensures
        acc.is_for(
            ctx.index@,
            *ctx.q,
            cap_for(limit),
            collect,
            ids_of(ctx.index@, subset).subrange(from as int, to as int),
        ),
{
    let ghost v = ctx.index@;
    let ghost q = *ctx.q;
    let ghost all = ids_of(v, subset);
    let mut acc: Part = Part::new(limit, Ghost(v), Ghost(q), collect);
    let mut k: usize = from;
    assert(all.subrange(from as int, from as int) =~= Seq::empty());
    while k < to
        invariant
            ctx.wf(),
            v == ctx.index@,
            q == *ctx.q,
            all == ids_of(v, subset),
            v.slots.len() <= u32::MAX,
            from <= k <= to <= all.len(),
            subset matches Some(s) ==> forall|j: int| 0 <= j < s@.len() ==> (#[trigger] s@[j]) < v.slots.len(),
            acc.is_for(v, q, cap_for(limit), collect, all.subrange(from as int, k as int)),
        decreases to - k,
    {
        let id: u32 = match subset {
            Some(s) => s[k],
            None => k as u32,
        };
        let ghost seen = all.subrange(from as int, k as int);
        let ghost next = all.subrange(from as int, k + 1);
        proof {
            assert(next.drop_last() =~= seen);
            assert(next.last() == id);
            assert(next =~= seen.push(id));
            lemma_matching_short(v, q, seen);
        }
        let (sig, sig2) = ctx.index.signatures(id);
        if sig & ctx.name_need == ctx.name_need && sig2 & ctx.name_need2 == ctx.name_need2 {
            if let Some(score) = ctx.eval(id) {
                acc.take(ctx, id, score, collect, Ghost(seen));
            }
        } else {
            proof {
                if is_match(v, q, id as int) {
                    prefilter::law_prefilter_loses_no_match(v, q, id as int);
                }
            }
        }
        k += 1;
    }
    acc
}

impl Part {
    /// Takes one more match.
    fn take(&mut self, ctx: &Ctx, id: u32, score: u32, collect: bool, Ghost(seen): Ghost<Seq<u32>>)
        requires
            ctx.wf(),
            id < ctx.index@.slots.len(),
            crate::search::score(ctx.index@, *ctx.q, id as int) == Some(score as nat),
            score <= S_EXACT,
            seen.len() < usize::MAX,
            old(self).is_for(ctx.index@, *ctx.q, old(self).top.cap(), collect, seen),
        ensures
            final(self).is_for(ctx.index@, *ctx.q, old(self).top.cap(), collect, seen.push(id)),
    {
        let ghost v = ctx.index@;
        let ghost q = *ctx.q;
        let ghost all = candidates(v, q, seen);
        let ghost found = matching(v, q, seen);
        proof {
            assert(seen.push(id).drop_last() =~= seen);
            lemma_matching_short(v, q, seen);
            lemma_key(v, id as int, score as nat);
        }
        self.total = self.total + 1;
        // Building the sort key reads the time and the directory node; skip it
        // for entries that cannot beat the worst kept hit.
        if self.top.accepts(score) {
            let key: u64 = ctx.sort_key(id, score);
            self.top.push(key, id, Ghost(all));
        } else {
            proof {
                let key = key_of(v, id as int, score as nat) as u64;
                assert(key / 0x1_0000_0000_0000 == score);
                self.top.lemma_left_out(all, key, id);
            }
        }
        if collect {
            if self.overflow || self.ids.len() >= COLLECT_CAP {
                self.overflow = true;
            } else {
                self.ids.push(id);
                assert(self.ids@ =~= found.push(id));
            }
        }
    }
}

/// The scans of all chunks, merged.
fn scan_all(ctx: &Ctx, subset: Option<&[u32]>, n: usize, limit: usize, collect: bool) -> (acc: Part)
    requires
        ctx.wf(),
        n == ids_of(ctx.index@, subset).len(),
        subset matches Some(s) ==> forall|k: int| 0 <= k < s@.len() ==> (#[trigger] s@[k]) < ctx.index@.slots.len(),
    ensures
        acc.is_for(ctx.index@, *ctx.q, cap_for(limit), collect, ids_of(ctx.index@, subset)),
{
    let ghost v = ctx.index@;
    let ghost q = *ctx.q;
    let ghost all = ids_of(v, subset);
    let whole: usize = n / CHUNK;
    let chunks: usize = if n % CHUNK == 0 {
        whole
    } else {
        whole + 1
    };
    let work = |c: usize| -> (p: Part)
        requires
            c < chunks,
        ensures
            p.is_for_chunk(ctx, subset, n, limit, collect, c as int),
        {
            let from: usize = c * CHUNK;
            let to: usize = if n - from < CHUNK {
                n
            } else {
                from + CHUNK
            };
            scan(ctx, subset, from, to, limit, collect)
        };
    let mut parts: Vec<Part> = par_map(chunks, work);
    assert forall|i: int| 0 <= i < chunks implies (#[trigger] parts@[i]).is_for(
        v,
        q,
        cap_for(limit),
        collect,
        all.subrange(chunk_start(i, n as int), chunk_start(i + 1, n as int)),
    ) by {
        assert(call_ensures(work, (i as usize,), parts@[(i as usize) as int]));
    }
    let mut acc: Part = Part::new(limit, Ghost(v), Ghost(q), collect);
    let mut c: usize = chunks;
    assert(all.subrange(chunk_start(c as int, n as int), n as int) =~= Seq::empty());
    while c > 0
        invariant
            c <= chunks,
            parts@.len() == c,
            all.len() == n,
            chunks as int * CHUNK as int >= n,
            (chunks - 1) * (CHUNK as int) < n || chunks == 0,
            forall|i: int|
                0 <= i < c ==> (#[trigger] parts@[i]).is_for(
                    v,
                    q,
                    cap_for(limit),
                    collect,
                    all.subrange(chunk_start(i, n as int), chunk_start(i + 1, n as int)),
                ),
            acc.is_for(v, q, cap_for(limit), collect, all.subrange(chunk_start(c as int, n as int), n as int)),
        decreases c,
    {
        c -= 1;
        let ghost x = all.subrange(chunk_start(c as int, n as int), chunk_start(c + 1, n as int));
        let ghost y = all.subrange(chunk_start(c + 1, n as int), n as int);
        let ghost before = parts@;
        match parts.pop() {
            Some(p) => {
                assert(before[c as int] == p);
                assert(x + y =~= all.subrange(chunk_start(c as int, n as int), n as int));
                acc = p.merge(acc, collect, Ghost(v), Ghost(q), Ghost(cap_for(limit)), Ghost(x), Ghost(y));
            },
            None => {},
        }
        assert forall|i: int| 0 <= i < c implies (#[trigger] parts@[i]).is_for(
            v,
            q,
            cap_for(limit),
            collect,
            all.subrange(chunk_start(i, n as int), chunk_start(i + 1, n as int)),
        ) by {
            assert(parts@[i] == before[i]);
        }
    }
    assert(all.subrange(0, n as int) =~= all);
    acc
}

/// Where a chunk begins.
spec fn chunk_start(c: int, n: int) -> int {
    if c * CHUNK > n {
        n
    } else {
        c * CHUNK
    }
}

fn run(index: &Index, q: &Query, limit: usize, subset: Option<&[u32]>, collect: bool) -> (r: (
    SearchResults,
    Option<Vec<u32>>,
))
    requires
        index.wf(),
        q.wf(),
        subset matches Some(s) ==> forall|k: int| 0 <= k < s@.len() ==> (#[trigger] s@[k]) < index@.slots.len(),
    ensures
        results_over(index@, *q, ids_of(index@, subset), limit as nat, r.0),
        r.0.scanned == (if is_void(*q) {
            0
        } else {
            match subset {
                Some(s) => s@.len() as int,
                None => index@.slots.len() - tree::dead_count(index@.slots),
            }
        }),
        collect ==> ids_over(index@, *q, ids_of(index@, subset), r.1),
        !collect ==> r.1 is None,
{
    let ghost v = index@;
    let ghost all = ids_of(v, subset);
    if q.is_empty() || q.error.is_some() {
        return (SearchResults::default(), None);
    }
    let scanned: usize = match subset {
        Some(s) => s.len(),
        None => index.live_len(),
    };
    let n: usize = match subset {
        Some(s) => s.len(),
        None => index.len(),
    };
    let ctx: Ctx = Ctx::new(index, q);
    let found: Part = scan_all(&ctx, subset, n, limit, collect);
    let total: usize = found.total;
    let overflow: bool = found.overflow;
    let mut ids: Vec<u32> = found.ids;
    let order: Vec<Ranked> = found.top.into_sorted();
    let hits: Vec<Hit> = show_all(index, q, &order, limit, Ghost(all));
    let results: SearchResults = SearchResults { hits, total, truncated: total > limit, scanned };
    proof {
        lemma_cut(order@, limit, candidates(v, *q, all));
        let cut = cut_to(order@, limit as int);
        assert(topk::best_of(cut, limit as nat, candidates(v, *q, all)));
    }
    if collect && !overflow {
        sort_ids(&mut ids);
        (results, Some(ids))
    } else {
        (results, None)
    }
}

/// The first of the ranked candidates, at most `limit`.
spec fn cut_to(order: Seq<Ranked>, limit: int) -> Seq<Ranked> {
    if order.len() <= limit {
        order
    } else {
        order.subrange(0, limit)
    }
}

/// The best for a limit of at least one are the best for the limit, cut to it.
proof fn lemma_cut(order: Seq<Ranked>, limit: usize, all: Multiset<Ranked>)
    requires
        topk::best_of(order, cap_for(limit), all),
    ensures
        topk::best_of(cut_to(order, limit as int), limit as nat, all),
{
    broadcast use vstd::seq_lib::group_to_multiset_ensures;

    let cut = cut_to(order, limit as int);
    if limit == 0 {
        assert(cut.len() == 0);
        assert(cut.to_multiset() =~= Multiset::empty());
    } else {
        assert(cut == order);
    }
}

/// Every candidate is a live entry.
proof fn lemma_candidates_live(v: IndexView, q: Query, ids: Seq<u32>, c: Ranked)
    requires
        candidates(v, q, ids).count(c) > 0,
    ensures
        v.is_live(c.1 as int),
        is_match(v, q, c.1 as int),
    decreases ids.len(),
{
    if ids.len() > 0 {
        let rest = candidates(v, q, ids.drop_last());
        if rest.count(c) > 0 {
            lemma_candidates_live(v, q, ids.drop_last(), c);
        } else {
            assert(c == candidate(v, q, ids.last()));
        }
    }
}

/// The hits of the ranked candidates, at most `limit`.
fn show_all(index: &Index, q: &Query, order: &Vec<Ranked>, limit: usize, Ghost(ids): Ghost<Seq<u32>>) -> (r: Vec<
    Hit,
>)
    requires
        index.wf(),
        topk::best_of(order@, cap_for(limit), candidates(index@, *q, ids)),
    ensures
        r@.len() == cut_to(order@, limit as int).len(),
        forall|k: int| 0 <= k < r@.len() ==> shows(index@, #[trigger] r@[k], order@[k]),
{
    let n: usize = if order.len() <= limit {
        order.len()
    } else {
        limit
    };
    let ghost v = index@;
    let mut hits: Vec<Hit> = Vec::new();
    let mut k: usize = 0;
    while k < n
        invariant
            index.wf(),
            v == index@,
            n <= order@.len(),
            k <= n,
            topk::best_of(order@, cap_for(limit), candidates(v, *q, ids)),
            hits@.len() == k,
            forall|j: int| 0 <= j < k ==> shows(v, #[trigger] hits@[j], order@[j]),
        decreases n - k,
    {
        let (key, id) = order[k];
        proof {
            broadcast use vstd::seq_lib::group_to_multiset_ensures;

            assert(order@.contains(order@[k as int]));
            assert(order@.to_multiset().count(order@[k as int]) > 0);
            lemma_candidates_live(v, *q, ids, order@[k as int]);
            assert(v.slot_wf(id as int));
        }
        let e: Entry = index.entry(id);
        let hit: Hit = Hit {
            id,
            path: index.path_of(id),
            name: lossy_text(index.name(id)),
            size: e.size,
            mtime: e.mtime,
            is_dir: e.is_dir(),
            score: (key / 0x1_0000_0000_0000) as u32,
        };
        hits.push(hit);
        k += 1;
    }
    hits
}

pub fn search(index: &Index, q: &Query, limit: usize) -> (r: SearchResults)
    requires
        index.wf(),
        q.wf(),
    ensures
        results_over(index@, *q, all_ids(index@), limit as nat, r),
        r.scanned == (if is_void(*q) {
            0
        } else {
            index@.slots.len() - tree::dead_count(index@.slots)
        }),
{
    run(index, q, limit, None, false).0
}

/// Same as [`search`], but also returns every matching id (in ascending order)
/// when the match count stays below [`COLLECT_CAP`], so a follow-up query that
/// only narrows the result can be answered with [`search_within`].
pub fn search_collect(index: &Index, q: &Query, limit: usize) -> (r: (SearchResults, Option<Vec<u32>>))
    requires
        index.wf(),
        q.wf(),
    ensures
        results_over(index@, *q, all_ids(index@), limit as nat, r.0),
        r.0.scanned == (if is_void(*q) {
            0
        } else {
            index@.slots.len() - tree::dead_count(index@.slots)
        }),
        ids_over(index@, *q, all_ids(index@), r.1),
{
    run(index, q, limit, None, true)
}

/// Searches among some entries only.
pub fn search_within(index: &Index, q: &Query, subset: &[u32], limit: usize) -> (r: (
    SearchResults,
    Option<Vec<u32>>,
))
    requires
        index.wf(),
        q.wf(),
        forall|k: int| 0 <= k < subset@.len() ==> (#[trigger] subset@[k]) < index@.slots.len(),
    ensures
        results_over(index@, *q, subset@, limit as nat, r.0),
        r.0.scanned == (if is_void(*q) {
            0
        } else {
            subset@.len()
        }),
        ids_over(index@, *q, subset@, r.1),
{
    run(index, q, limit, Some(subset), true)
}

} // verus!
