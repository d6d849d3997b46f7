//! The order in which compaction walks the forest: every attached directory
//! once, each after its parent.

use vstd::prelude::*;

use crate::tree::{IndexView, NO_DIR};

verus! {

/// What lies in a subtree has at least its root's id.
pub(crate) proof fn lemma_subtree_above(v: IndexView, x: u32, top: u32)
    requires
        v.in_subtree(x, top),
    ensures
        top <= x,
        x != top ==> x < v.dirs.len() && v.dirs[x as int].parent < x && v.in_subtree(
            v.dirs[x as int].parent,
            top,
        ),
    decreases x,
{
    if x != top {
        lemma_subtree_above(v, v.dirs[x as int].parent, top);
    }
}

/// Of two subtrees that share a directory, one holds the other.
proof fn lemma_nested(v: IndexView, x: u32, a: u32, b: u32)
    requires
        v.in_subtree(x, a),
        v.in_subtree(x, b),
        a < b,
    ensures
        v.in_subtree(b, a),
    decreases x,
{
    lemma_subtree_above(v, x, a);
    lemma_subtree_above(v, x, b);
    if x != b {
        lemma_nested(v, v.dirs[x as int].parent, a, b);
    }
}

/// The subtrees of two siblings are disjoint.
pub(crate) proof fn lemma_siblings_disjoint(v: IndexView, x: u32, a: u32, b: u32)
    requires
        v.dirs_wf(),
        v.is_dir(a),
        v.is_dir(b),
        a != b,
        v.dirs[a as int].parent == v.dirs[b as int].parent,
        v.in_subtree(x, a),
    ensures
        !v.in_subtree(x, b),
{
    if v.in_subtree(x, b) {
        let (lo, hi) = if a < b {
            (a, b)
        } else {
            (b, a)
        };
        lemma_nested(v, x, lo, hi);
        lemma_subtree_above(v, hi, lo);
        assert(v.dir_wf(lo as int));
        lemma_subtree_above(v, v.dirs[hi as int].parent, lo);
    }
}

/// A list as `preorder_all` expects it: siblings above `above`.
pub open spec fn walkable(v: IndexView, above: int, list: Seq<u32>, parent: u32) -> bool {
    &&& v.siblings(list, parent)
    &&& parent == NO_DIR && above == -1 || parent < v.dirs.len() && above == parent
}

proof fn lemma_walkable_rest(v: IndexView, above: int, list: Seq<u32>, parent: u32)
    requires
        v.dirs_wf(),
        walkable(v, above, list, parent),
        list.len() > 0,
    ensures
        walkable(v, above, list.skip(1), parent),
        above < list[0] < v.dirs.len(),
        v.dirs[list[0] as int].parent == parent,
{
    assert(v.dir_wf(list[0] as int));
    let rest = list.skip(1);
    assert forall|i: int, j: int| 0 <= i < j < rest.len() implies rest[i] < rest[j] by {
        assert(list[i + 1] < list[j + 1]);
    }
    assert forall|i: int| 0 <= i < rest.len() implies (#[trigger] rest[i]) < v.dirs.len()
        && v.dirs[rest[i] as int].parent == parent by {
        assert(rest[i] == list[i + 1]);
    }
}

pub(crate) proof fn lemma_children_walkable(v: IndexView, d: u32)
    requires
        v.dirs_wf(),
        v.is_dir(d),
    ensures
        walkable(v, d as int, v.dirs[d as int].children, d),
{
    assert(v.dir_wf(d as int));
}

/// The walk of a list is made of the walks of its elements.
pub(crate) proof fn lemma_walk_contains(v: IndexView, above: int, list: Seq<u32>, parent: u32, x: u32)
    requires
        v.dirs_wf(),
        walkable(v, above, list, parent),
    ensures
        v.preorder_all(above, list).contains(x) <==> exists|i: int|
            0 <= i < list.len() && #[trigger] v.preorder(list[i]).contains(x),
    decreases list.len(),
{
    let all = v.preorder_all(above, list);
    if list.len() > 0 {
        lemma_walkable_rest(v, above, list, parent);
        let head = v.preorder(list[0]);
        let rest = list.skip(1);
        let tail = v.preorder_all(above, rest);
        lemma_walk_contains(v, above, rest, parent, x);
        assert(all == head + tail);
        if all.contains(x) {
            let k = choose|k: int| 0 <= k < all.len() && all[k] == x;
            if k < head.len() {
                assert(head[k] == x);
                assert(v.preorder(list[0]).contains(x));
            } else {
                assert(tail[k - head.len()] == x);
                assert(tail.contains(x));
                let i = choose|i: int| 0 <= i < rest.len() && #[trigger] v.preorder(rest[i]).contains(x);
                assert(v.preorder(list[i + 1]).contains(x));
            }
        }
        if exists|i: int| 0 <= i < list.len() && #[trigger] v.preorder(list[i]).contains(x) {
            let i = choose|i: int| 0 <= i < list.len() && #[trigger] v.preorder(list[i]).contains(x);
            if i == 0 {
                let k = choose|k: int| 0 <= k < head.len() && head[k] == x;
                assert(all[k] == x);
            } else {
                assert(rest[i - 1] == list[i]);
                assert(v.preorder(rest[i - 1]).contains(x));
                let k = choose|k: int| 0 <= k < tail.len() && tail[k] == x;
                assert(all[k + head.len()] == x);
            }
        }
    } else {
        assert(all.len() == 0);
    }
}

/// The walk of a directory holds only its subtree.
pub(crate) proof fn lemma_walk_in_subtree(v: IndexView, d: u32, x: u32)
    requires
        v.dirs_wf(),
        v.is_dir(d),
        v.preorder(d).contains(x),
    ensures
        v.in_subtree(x, d),
        x < v.dirs.len(),
    decreases v.dirs.len() - d,
{
    if x != d {
        lemma_children_walkable(v, d);
        let list = v.dirs[d as int].children;
        let all = v.preorder_all(d as int, list);
        let walk = v.preorder(d);
        let k = choose|k: int| 0 <= k < walk.len() && walk[k] == x;
        assert(walk == seq![d] + all);
        assert(all[k - 1] == x);
        assert(all.contains(x));
        lemma_walk_contains(v, d as int, list, d, x);
        let i = choose|i: int| 0 <= i < list.len() && #[trigger] v.preorder(list[i]).contains(x);
        let c = list[i];
        assert(v.dirs[c as int].parent == d);
        assert(v.dir_wf(c as int));
        lemma_walk_in_subtree(v, c, x);
        lemma_subtree_trans(v, x, c, d);
    }
}

/// A child's subtree lies in its parent's.
proof fn lemma_subtree_trans(v: IndexView, x: u32, c: u32, d: u32)
    requires
        v.in_subtree(x, c),
        c < v.dirs.len(),
        v.dirs[c as int].parent == d,
        d < c,
        v.dirs[d as int].children.contains(c),
    ensures
        v.in_subtree(x, d),
    decreases x,
{
    lemma_subtree_above(v, x, c);
    if x != c {
        lemma_subtree_trans(v, v.dirs[x as int].parent, c, d);
    } else {
        assert(v.in_subtree(d, d));
    }
}

/// The walk of a directory is closed under children.
proof fn lemma_walk_closed(v: IndexView, d: u32, p: u32, x: u32)
    requires
        v.dirs_wf(),
        v.is_dir(d),
        v.preorder(d).contains(p),
        p < v.dirs.len(),
        v.dirs[p as int].children.contains(x),
    ensures
        v.preorder(d).contains(x),
    decreases v.dirs.len() - d,
{
    lemma_children_walkable(v, d);
    let list = v.dirs[d as int].children;
    let all = v.preorder_all(d as int, list);
    let walk = v.preorder(d);
    assert(walk == seq![d] + all);
    lemma_walk_contains(v, d as int, list, d, x);
    if p == d {
        let i = choose|i: int| 0 <= i < list.len() && list[i] == x;
        assert(v.preorder(list[i])[0] == x);
        assert(v.preorder(list[i]).contains(x));
    } else {
        let k = choose|k: int| 0 <= k < walk.len() && walk[k] == p;
        assert(all[k - 1] == p);
        assert(all.contains(p));
        lemma_walk_contains(v, d as int, list, d, p);
        let i = choose|i: int| 0 <= i < list.len() && #[trigger] v.preorder(list[i]).contains(p);
        assert(v.dirs[list[i] as int].parent == d);
        assert(v.dir_wf(list[i] as int));
        lemma_walk_closed(v, list[i], p, x);
    }
    let k = choose|k: int| 0 <= k < all.len() && all[k] == x;
    assert(walk[k + 1] == x);
}

/// The walk of a directory holds all of its subtree.
pub(crate) proof fn lemma_subtree_in_walk(v: IndexView, d: u32, x: u32)
    requires
        v.dirs_wf(),
        v.is_dir(d),
        v.in_subtree(x, d),
    ensures
        v.preorder(d).contains(x),
    decreases x,
{
    if x == d {
        assert(v.preorder(d)[0] == d);
    } else {
        let p = v.dirs[x as int].parent;
        lemma_subtree_in_walk(v, d, p);
        lemma_walk_closed(v, d, p, x);
    }
}

/// The walk of a list visits no directory twice.
pub(crate) proof fn lemma_walk_distinct(v: IndexView, above: int, list: Seq<u32>, parent: u32)
    requires
        v.dirs_wf(),
        walkable(v, above, list, parent),
    ensures
        v.preorder_all(above, list).no_duplicates(),
    decreases v.dirs.len() - above, list.len(),
{
    if list.len() > 0 {
        lemma_walkable_rest(v, above, list, parent);
        let rest = list.skip(1);
        let c = list[0];
        lemma_walk_distinct(v, above, rest, parent);
        lemma_children_walkable(v, c);
        lemma_walk_distinct(v, c as int, v.dirs[c as int].children, c);
        let below = v.preorder_all(c as int, v.dirs[c as int].children);
        let head = v.preorder(c);
        let tail = v.preorder_all(above, rest);
        assert(head == seq![c] + below);
        assert(!below.contains(c)) by {
            if below.contains(c) {
                let ch = v.dirs[c as int].children;
                lemma_walk_contains(v, c as int, ch, c, c);
                let i = choose|i: int| 0 <= i < ch.len() && #[trigger] v.preorder(ch[i]).contains(c);
                assert(v.dirs[ch[i] as int].parent == c);
                assert(v.dir_wf(ch[i] as int));
                lemma_walk_in_subtree(v, ch[i], c);
                lemma_subtree_above(v, c, ch[i]);
            }
        }
        assert(head.no_duplicates()) by {
            assert forall|i: int, j: int| 0 <= i < head.len() && 0 <= j < head.len() && i != j implies head[i]
                != head[j] by {
                if i == 0 {
                    assert(head[j] == below[j - 1]);
                } else if j == 0 {
                    assert(head[i] == below[i - 1]);
                } else {
                    assert(head[i] == below[i - 1] && head[j] == below[j - 1]);
                }
            }
        }
        assert forall|x: u32| head.contains(x) implies !tail.contains(x) by {
            lemma_walk_in_subtree(v, c, x);
            if tail.contains(x) {
                lemma_walk_contains(v, above, rest, parent, x);
                let i = choose|i: int| 0 <= i < rest.len() && #[trigger] v.preorder(rest[i]).contains(x);
                assert(rest[i] == list[i + 1]);
                assert(list[0] < list[i + 1]);
                lemma_walk_in_subtree(v, rest[i], x);
                lemma_siblings_disjoint(v, x, c, rest[i]);
            }
        }
        let all = v.preorder_all(above, list);
        assert(all == head + tail);
        assert forall|i: int, j: int| 0 <= i < all.len() && 0 <= j < all.len() && i != j implies all[i]
            != all[j] by {
            if i < head.len() && j < head.len() {
                assert(head[i] != head[j]);
            } else if i >= head.len() && j >= head.len() {
                assert(tail[i - head.len()] != tail[j - head.len()]);
            } else if i < head.len() {
                assert(head.contains(all[i]));
                assert(tail[j - head.len()] == all[j]);
            } else {
                assert(head.contains(all[j]));
                assert(tail[i - head.len()] == all[i]);
            }
        }
    }
}

/// In the walk of a list every directory comes after its parent, or is a child
/// of the list's own parent.
pub(crate) proof fn lemma_walk_parents_first(v: IndexView, above: int, list: Seq<u32>, parent: u32)
    requires
        v.dirs_wf(),
        walkable(v, above, list, parent),
    ensures
        forall|k: int|
            0 <= k < v.preorder_all(above, list).len() ==> {
                let x = #[trigger] v.preorder_all(above, list)[k];
                &&& x < v.dirs.len()
                &&& v.dirs[x as int].parent == parent || exists|j: int|
                    0 <= j < k && v.preorder_all(above, list)[j] == v.dirs[x as int].parent
            },
    decreases v.dirs.len() - above, list.len(),
{
    if list.len() > 0 {
        lemma_walkable_rest(v, above, list, parent);
        let rest = list.skip(1);
        let c = list[0];
        lemma_walk_parents_first(v, above, rest, parent);
        lemma_children_walkable(v, c);
        lemma_walk_parents_first(v, c as int, v.dirs[c as int].children, c);
        let below = v.preorder_all(c as int, v.dirs[c as int].children);
        let head = v.preorder(c);
        let tail = v.preorder_all(above, rest);
        let all = v.preorder_all(above, list);
        assert(head == seq![c] + below);
        assert(all == head + tail);
        assert forall|k: int| 0 <= k < all.len() implies {
            let x = #[trigger] all[k];
            &&& x < v.dirs.len()
            &&& v.dirs[x as int].parent == parent || exists|j: int| 0 <= j < k && all[j] == v.dirs[x as int].parent
        } by {
            let x = all[k];
            if k == 0 {
                assert(x == c);
            } else if k < head.len() {
                assert(x == below[k - 1]);
                if v.dirs[x as int].parent == c {
                    assert(all[0] == c);
                } else {
                    let j = choose|j: int| 0 <= j < k - 1 && below[j] == v.dirs[x as int].parent;
                    assert(all[j + 1] == v.dirs[x as int].parent);
                }
            } else {
                assert(x == tail[k - head.len()]);
                if v.dirs[x as int].parent != parent {
                    let j = choose|j: int|
                        0 <= j < k - head.len() && tail[j] == v.dirs[x as int].parent;
                    assert(all[j + head.len()] == v.dirs[x as int].parent);
                }
            }
        }
    }
}

/// A walk has at most as many directories as there are.
proof fn lemma_short(s: Seq<u32>, n: nat)
    requires
        s.no_duplicates(),
        forall|k: int| 0 <= k < s.len() ==> (#[trigger] s[k]) < n,
    ensures
        s.len() <= n,
{
    let ids = vstd::set_lib::set_int_range(0, n as int);
    vstd::set_lib::lemma_int_range(0, n as int);
    let image = s.map_values(|x: u32| x as int);
    assert(image.no_duplicates());
    image.unique_seq_to_set();
    assert(image.to_set().subset_of(ids));
    vstd::set_lib::lemma_len_subset(image.to_set(), ids);
}

/// The forest visits every attached directory exactly once, each after its
/// parent, and nothing else.
pub proof fn law_forest_order(v: IndexView)
    requires
        v.dirs_wf(),
    ensures
        v.forest().no_duplicates(),
        v.forest().len() <= v.dirs.len(),
        forall|x: u32| #[trigger] v.forest().contains(x) <==> v.attached(x),
        forall|k: int|
            0 <= k < v.forest().len() ==> {
                let x = #[trigger] v.forest()[k];
                &&& x < v.dirs.len()
                &&& v.dirs[x as int].parent == NO_DIR || exists|j: int|
                    0 <= j < k && v.forest()[j] == v.dirs[x as int].parent
            },
{
    let order = v.forest();
    assert(walkable(v, -1, v.roots, NO_DIR));
    lemma_walk_distinct(v, -1, v.roots, NO_DIR);
    lemma_walk_parents_first(v, -1, v.roots, NO_DIR);
    assert forall|k: int| 0 <= k < order.len() implies (#[trigger] order[k]) < v.dirs.len() by {}
    lemma_short(order, v.dirs.len());
    assert forall|x: u32| #[trigger] order.contains(x) <==> v.attached(x) by {
        lemma_walk_contains(v, -1, v.roots, NO_DIR, x);
        if order.contains(x) {
            let i = choose|i: int| 0 <= i < v.roots.len() && #[trigger] v.preorder(v.roots[i]).contains(x);
            lemma_walk_in_subtree(v, v.roots[i], x);
            lemma_attached_below(v, x, v.roots[i]);
        }
        if v.attached(x) {
            lemma_attached_in_walk(v, x);
        }
    }
}

proof fn lemma_attached_below(v: IndexView, x: u32, root: u32)
    requires
        v.dirs_wf(),
        v.in_subtree(x, root),
        root < v.dirs.len(),
        v.dirs[root as int].parent == NO_DIR,
        v.roots.contains(root),
    ensures
        v.attached(x),
    decreases x,
{
    if x != root {
        lemma_attached_below(v, v.dirs[x as int].parent, root);
    }
}

proof fn lemma_attached_in_walk(v: IndexView, x: u32)
    requires
        v.dirs_wf(),
        v.attached(x),
    ensures
        v.forest().contains(x),
    decreases x,
{
    let p = v.dirs[x as int].parent;
    assert(walkable(v, -1, v.roots, NO_DIR));
    lemma_walk_contains(v, -1, v.roots, NO_DIR, x);
    if p == NO_DIR {
        let i = choose|i: int| 0 <= i < v.roots.len() && v.roots[i] == x;
        assert(v.preorder(v.roots[i])[0] == x);
        assert(v.preorder(v.roots[i]).contains(x));
    } else {
        lemma_attached_in_walk(v, p);
        lemma_walk_contains(v, -1, v.roots, NO_DIR, p);
        let i = choose|i: int| 0 <= i < v.roots.len() && #[trigger] v.preorder(v.roots[i]).contains(p);
        lemma_walk_closed(v, v.roots[i], p, x);
    }
}

/// What a stack of directories still has to walk, the last one first.
pub open spec fn pending(v: IndexView, stack: Seq<u32>) -> Seq<u32>
    decreases stack.len(),
{
    if stack.len() == 0 {
        Seq::empty()
    } else {
        v.preorder(stack.last()) + pending(v, stack.drop_last())
    }
}

/// A stack with a list on top, its first element uppermost.
pub open spec fn stacked(stack: Seq<u32>, list: Seq<u32>) -> Seq<u32> {
    stack + list.reverse()
}

/// Putting a list on the stack puts its walk before what was pending.
pub(crate) proof fn lemma_pending_stacked(v: IndexView, stack: Seq<u32>, above: int, list: Seq<u32>, parent: u32)
    requires
        v.dirs_wf(),
        walkable(v, above, list, parent),
    ensures
        pending(v, stacked(stack, list)) == v.preorder_all(above, list) + pending(v, stack),
    decreases list.len(),
{
    let s = stacked(stack, list);
    if list.len() == 0 {
        assert(s =~= stack);
        assert(v.preorder_all(above, list) + pending(v, stack) =~= pending(v, stack));
    } else {
        lemma_walkable_rest(v, above, list, parent);
        let rest = list.skip(1);
        lemma_pending_stacked(v, stack, above, rest, parent);
        assert(s.last() == list[0]);
        assert(s.drop_last() =~= stacked(stack, rest));
        assert(pending(v, s) =~= v.preorder_all(above, list) + pending(v, stack));
    }
}

} // verus!
