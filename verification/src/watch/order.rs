//! The order of paths, component by component, and sorting by it.

use vstd::prelude::*;

use crate::path;

verus! {

/// One byte string comes before another, byte by byte.
pub open spec fn bytes_before(a: Seq<u8>, b: Seq<u8>) -> bool
    decreases a.len(),
{
    if b.len() == 0 {
        false
    } else if a.len() == 0 {
        true
    } else if a[0] != b[0] {
        a[0] < b[0]
    } else {
        bytes_before(a.skip(1), b.skip(1))
    }
}

/// The root comes before `.`, that before `..`, and that before all names.
pub open spec fn rank(c: Seq<u8>) -> int {
    if c.len() == 0 {
        0
    } else if c == path::cur_dir() {
        1
    } else if c == path::parent_dir() {
        2
    } else {
        3
    }
}

/// One component comes before another.
pub open spec fn component_before(a: Seq<u8>, b: Seq<u8>) -> bool {
    rank(a) < rank(b) || (rank(a) == rank(b) && bytes_before(a, b))
}

/// One path comes before another: the first components that differ decide.
pub open spec fn before(a: Seq<Seq<u8>>, b: Seq<Seq<u8>>) -> bool
    decreases a.len(),
{
    if b.len() == 0 {
        false
    } else if a.len() == 0 {
        true
    } else if a[0] != b[0] {
        component_before(a[0], b[0])
    } else {
        before(a.skip(1), b.skip(1))
    }
}

proof fn lemma_same(a: Seq<u8>, b: Seq<u8>)
    requires
        a.len() > 0,
        b.len() > 0,
        a[0] == b[0],
        a.skip(1) == b.skip(1),
    ensures
        a == b,
{
    assert(a.len() == a.skip(1).len() + 1);
    assert forall|i: int| 0 <= i < a.len() implies a[i] == b[i] by {
        if i > 0 {
            assert(a[i] == a.skip(1)[i - 1]);
            assert(b[i] == b.skip(1)[i - 1]);
        }
    }
    assert(a =~= b);
}

proof fn lemma_bytes_total(a: Seq<u8>, b: Seq<u8>)
    ensures
        a == b || bytes_before(a, b) || bytes_before(b, a),
        !bytes_before(a, a),
        !(bytes_before(a, b) && bytes_before(b, a)),
    decreases a.len(),
{
    if a.len() > 0 {
        lemma_bytes_total(a.skip(1), a.skip(1));
    }
    if a.len() == 0 && b.len() == 0 {
        assert(a =~= b);
    } else if a.len() > 0 && b.len() > 0 && a[0] == b[0] {
        lemma_bytes_total(a.skip(1), b.skip(1));
        if a.skip(1) == b.skip(1) {
            lemma_same(a, b);
        }
    }
}

proof fn lemma_bytes_transitive(a: Seq<u8>, b: Seq<u8>, c: Seq<u8>)
    requires
        bytes_before(a, b),
        bytes_before(b, c),
    ensures
        bytes_before(a, c),
    decreases a.len(),
{
    if a.len() > 0 && a[0] == b[0] && b[0] == c[0] {
        lemma_bytes_transitive(a.skip(1), b.skip(1), c.skip(1));
    }
}

proof fn lemma_component_total(a: Seq<u8>, b: Seq<u8>)
    ensures
        a == b || component_before(a, b) || component_before(b, a),
        !component_before(a, a),
        !(component_before(a, b) && component_before(b, a)),
{
    lemma_bytes_total(a, b);
}

proof fn lemma_component_transitive(a: Seq<u8>, b: Seq<u8>, c: Seq<u8>)
    requires
        component_before(a, b),
        component_before(b, c),
    ensures
        component_before(a, c),
{
    if rank(a) == rank(b) && rank(b) == rank(c) {
        lemma_bytes_transitive(a, b, c);
    }
}

/// Of two different paths exactly one comes before the other.
pub proof fn law_path_order_is_total(a: Seq<Seq<u8>>, b: Seq<Seq<u8>>)
    ensures
        a == b || before(a, b) || before(b, a),
        !before(a, a),
        !(before(a, b) && before(b, a)),
    decreases a.len(),
{
    if a.len() > 0 {
        law_path_order_is_total(a.skip(1), a.skip(1));
    }
    if a.len() == 0 && b.len() == 0 {
        assert(a =~= b);
    } else if a.len() > 0 && b.len() > 0 {
        lemma_component_total(a[0], b[0]);
        if a[0] == b[0] {
            law_path_order_is_total(a.skip(1), b.skip(1));
            if a.skip(1) == b.skip(1) {
                assert(a.len() == a.skip(1).len() + 1);
                assert forall|i: int| 0 <= i < a.len() implies a[i] == b[i] by {
                    if i > 0 {
                        assert(a.skip(1)[i - 1] == b.skip(1)[i - 1]);
                    }
                }
                assert(a =~= b);
            }
        }
    }
}

/// The order of paths is transitive.
pub proof fn law_path_order_is_transitive(a: Seq<Seq<u8>>, b: Seq<Seq<u8>>, c: Seq<Seq<u8>>)
    requires
        before(a, b),
        before(b, c),
    ensures
        before(a, c),
    decreases a.len(),
{
    if a.len() > 0 {
        lemma_component_total(a[0], b[0]);
        lemma_component_total(b[0], c[0]);
        lemma_component_total(a[0], c[0]);
        if a[0] == b[0] && b[0] == c[0] {
            law_path_order_is_transitive(a.skip(1), b.skip(1), c.skip(1));
        } else if a[0] != b[0] && b[0] != c[0] {
            lemma_component_transitive(a[0], b[0], c[0]);
        }
    }
}

fn bytes_come_before(a: &[u8], b: &[u8]) -> (r: bool)
    ensures
        r == bytes_before(a@, b@),
{
    let n: usize = a.len();
    let m: usize = b.len();
    let mut i: usize = 0;
    assert(a@.skip(0) =~= a@);
    assert(b@.skip(0) =~= b@);
    while i < n && i < m
        invariant
            n == a@.len(),
            m == b@.len(),
            i <= n,
            i <= m,
            bytes_before(a@.skip(i as int), b@.skip(i as int)) == bytes_before(a@, b@),
        decreases n - i,
    {
        assert(a@.skip(i as int).skip(1) =~= a@.skip(i + 1));
        assert(b@.skip(i as int).skip(1) =~= b@.skip(i + 1));
        if a[i] != b[i] {
            return a[i] < b[i];
        }
        i += 1;
    }
    i < m
}

fn rank_of(c: &[u8]) -> (r: u8)
    ensures
        r == rank(c@),
{
    let n: usize = c.len();
    if n == 0 {
        0
    } else if n == 1 && c[0] == path::DOT {
        assert(c@ =~= path::cur_dir());
        1
    } else if n == 2 && c[0] == path::DOT && c[1] == path::DOT {
        assert(c@ =~= path::parent_dir());
        2
    } else {
        3
    }
}

fn component_comes_before(a: &[u8], b: &[u8]) -> (r: bool)
    ensures
        r == component_before(a@, b@),
{
    let (x, y): (u8, u8) = (rank_of(a), rank_of(b));
    x < y || (x == y && bytes_come_before(a, b))
}

/// Whether a path comes before another; the paths are given by their components.
pub fn comes_before(a: &Vec<Vec<u8>>, b: &Vec<Vec<u8>>) -> (r: bool)
    ensures
        r == before(path::views(a@), path::views(b@)),
{
    let n: usize = a.len();
    let m: usize = b.len();
    let ghost x = path::views(a@);
    let ghost y = path::views(b@);
    let mut i: usize = 0;
    assert(x.skip(0) =~= x);
    assert(y.skip(0) =~= y);
    while i < n && i < m
        invariant
            n == a@.len(),
            m == b@.len(),
            x == path::views(a@),
            y == path::views(b@),
            i <= n,
            i <= m,
            before(x.skip(i as int), y.skip(i as int)) == before(x, y),
        decreases n - i,
    {
        assert(x.skip(i as int).skip(1) =~= x.skip(i + 1));
        assert(y.skip(i as int).skip(1) =~= y.skip(i + 1));
        assert(x.skip(i as int)[0] == a@[i as int]@);
        assert(y.skip(i as int)[0] == b@[i as int]@);
        proof {
            lemma_component_total(x[i as int], y[i as int]);
        }
        if component_comes_before(a[i].as_slice(), b[i].as_slice()) {
            return true;
        }
        if component_comes_before(b[i].as_slice(), a[i].as_slice()) {
            return false;
        }
        i += 1;
    }
    i < m
}

/// The components of each of some paths.
pub open spec fn key_views(keys: Seq<Vec<Vec<u8>>>) -> Seq<Seq<Seq<u8>>> {
    Seq::new(keys.len(), |i: int| path::views(keys[i]@))
}

/// In the order of paths, and among equal paths in the order of their places.
pub open spec fn place_before(keys: Seq<Seq<Seq<u8>>>, i: int, j: int) -> bool {
    before(keys[i], keys[j]) || (keys[i] == keys[j] && i < j)
}

/// The places of paths, sorted.
pub open spec fn is_sorted(keys: Seq<Seq<Seq<u8>>>, order: Seq<usize>) -> bool {
    forall|i: int, j: int|
        0 <= i < j < order.len() ==> place_before(keys, #[trigger] order[i] as int, #[trigger] order[j] as int)
}

/// Each place from `lo` to `hi` is there, and no other.
pub open spec fn is_range(order: Seq<usize>, lo: int, hi: int) -> bool {
    &&& order.len() == hi - lo
    &&& forall|i: int| 0 <= i < order.len() ==> lo <= #[trigger] order[i] < hi
    &&& forall|p: int| lo <= p < hi ==> #[trigger] order.contains(p as usize)
}

proof fn lemma_place_transitive(keys: Seq<Seq<Seq<u8>>>, i: int, j: int, k: int)
    requires
        place_before(keys, i, j),
        place_before(keys, j, k),
    ensures
        place_before(keys, i, k),
{
    if before(keys[i], keys[j]) && before(keys[j], keys[k]) {
        law_path_order_is_transitive(keys[i], keys[j], keys[k]);
    }
}

fn merge(keys: &Vec<Vec<Vec<u8>>>, a: &Vec<usize>, b: &Vec<usize>, Ghost(lo): Ghost<int>, Ghost(mid): Ghost<
    int,
>, Ghost(hi): Ghost<int>) -> (out: Vec<usize>)
    requires
        0 <= lo <= mid <= hi <= keys@.len(),
        is_range(a@, lo, mid),
        is_range(b@, mid, hi),
        is_sorted(key_views(keys@), a@),
        is_sorted(key_views(keys@), b@),
    ensures
        is_range(out@, lo, hi),
        is_sorted(key_views(keys@), out@),
{
    let ghost kv = key_views(keys@);
    let n: usize = a.len();
    let m: usize = b.len();
    let mut out: Vec<usize> = Vec::new();
    let mut i: usize = 0;
    let mut j: usize = 0;
    while i < n || j < m
        invariant
            0 <= lo <= mid <= hi <= keys@.len(),
            kv == key_views(keys@),
            n == a@.len(),
            m == b@.len(),
            i <= n,
            j <= m,
            is_range(a@, lo, mid),
            is_range(b@, mid, hi),
            is_sorted(kv, a@),
            is_sorted(kv, b@),
            is_sorted(kv, out@),
            out@.len() == i + j,
            forall|k: int| 0 <= k < out@.len() ==> lo <= #[trigger] out@[k] < hi,
            forall|k: int| 0 <= k < i ==> out@.contains(#[trigger] a@[k]),
            forall|k: int| 0 <= k < j ==> out@.contains(#[trigger] b@[k]),
            forall|k: int, l: int|
                0 <= k < out@.len() && i <= l < n ==> place_before(
                    kv,
                    #[trigger] out@[k] as int,
                    #[trigger] a@[l] as int,
                ),
            forall|k: int, l: int|
                0 <= k < out@.len() && j <= l < m ==> place_before(
                    kv,
                    #[trigger] out@[k] as int,
                    #[trigger] b@[l] as int,
                ),
        decreases n - i + m - j,
    {
        let ghost done = out@;
        let take_right: bool = if i < n && j < m {
            let x: usize = a[i];
            let y: usize = b[j];
            let r: bool = comes_before(&keys[y], &keys[x]);
            proof {
                law_path_order_is_total(kv[x as int], kv[y as int]);
            }
            r
        } else {
            j < m
        };
        if take_right {
            let y: usize = b[j];
            out.push(y);
            j += 1;
            proof {
                assert forall|l: int| i <= l < n implies place_before(kv, y as int, #[trigger] a@[l] as int) by {
                    if l > i {
                        lemma_place_transitive(kv, y as int, a@[i as int] as int, a@[l] as int);
                    }
                }
            }
        } else {
            let x: usize = a[i];
            out.push(x);
            i += 1;
            proof {
                assert forall|l: int| j <= l < m implies place_before(kv, x as int, #[trigger] b@[l] as int) by {
                    if l > j {
                        lemma_place_transitive(kv, x as int, b@[j as int] as int, b@[l] as int);
                    }
                }
            }
        }
        proof {
            assert(out@.drop_last() =~= done);
            assert(out@[done.len() as int] == out@.last());
            assert forall|v: usize| done.contains(v) implies #[trigger] out@.contains(v) by {
                let k = choose|k: int| 0 <= k < done.len() && done[k] == v;
                assert(out@[k] == v);
            }
        }
    }
    proof {
        assert forall|p: int| lo <= p < hi implies #[trigger] out@.contains(p as usize) by {
            if p < mid {
                assert(a@.contains(p as usize));
                let k = choose|k: int| 0 <= k < a@.len() && a@[k] == p as usize;
                assert(out@.contains(a@[k]));
            } else {
                assert(b@.contains(p as usize));
                let k = choose|k: int| 0 <= k < b@.len() && b@[k] == p as usize;
                assert(out@.contains(b@[k]));
            }
        }
    }
    out
}

fn sort_range(keys: &Vec<Vec<Vec<u8>>>, lo: usize, hi: usize) -> (order: Vec<usize>)
    requires
        lo <= hi <= keys@.len(),
    ensures
        is_range(order@, lo as int, hi as int),
        is_sorted(key_views(keys@), order@),
    decreases hi - lo,
{
    let mut order: Vec<usize> = Vec::new();
    if hi - lo == 0 {
        return order;
    }
    if hi - lo == 1 {
        order.push(lo);
        assert(order@[0] == lo);
        return order;
    }
    let mid: usize = lo + (hi - lo) / 2;
    let a: Vec<usize> = sort_range(keys, lo, mid);
    let b: Vec<usize> = sort_range(keys, mid, hi);
    merge(keys, &a, &b, Ghost(lo as int), Ghost(mid as int), Ghost(hi as int))
}

/// The places of some paths in the order of the paths; equal paths keep their
/// order.
pub fn sorted_places(keys: &Vec<Vec<Vec<u8>>>) -> (order: Vec<usize>)
    ensures
        is_range(order@, 0, keys@.len() as int),
        is_sorted(key_views(keys@), order@),
{
    sort_range(keys, 0, keys.len())
}

/// Where a place stands in the order.
pub(crate) proof fn lemma_place_of(places: Seq<usize>, n: int, m: int) -> (s: int)
    requires
        is_range(places, 0, n),
        0 <= m < n <= usize::MAX,
    ensures
        0 <= s < places.len(),
        places[s] == m,
{
    assert(places.contains(m as usize));
    choose|s: int| 0 <= s < places.len() && places[s] == m as usize
}

} // verus!
