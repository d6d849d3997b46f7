//! Which directories are listed to be watched.

use vstd::prelude::*;

use crate::tree::IndexView;
use crate::watch::listing;

verus! {

/// The name of the directory is excluded.
pub open spec fn is_excluded_dir(v: IndexView, excludes: Seq<String>, d: u32) -> bool {
    exists|i: int|
        0 <= i < excludes.len() && v.dirs[d as int].name == vstd::utf8::encode_utf8((#[trigger] excludes[i])@)
}

/// `x` is `k` steps below `d`, through the lists of children, and no name on the way is
/// excluded.
pub open spec fn is_below(v: IndexView, excludes: Seq<String>, x: u32, d: u32, k: nat) -> bool
    decreases k,
{
    if k == 0 {
        x == d && d < v.dirs.len()
    } else {
        let p = v.dirs[x as int].parent;
        &&& x < v.dirs.len()
        &&& p < v.dirs.len()
        &&& v.dirs[p as int].children.contains(x)
        &&& !is_excluded_dir(v, excludes, x)
        &&& is_below(v, excludes, p, d, (k - 1) as nat)
    }
}

proof fn lemma_excluded(v: IndexView, excludes: Seq<String>, d: u32)
    ensures
        listing::is_left_out(v, excludes, d) <==> is_excluded_dir(v, excludes, d),
{
    if listing::is_left_out(v, excludes, d) {
        let i = choose|i: int|
            0 <= i < excludes.len() && vstd::utf8::encode_utf8((#[trigger] excludes[i])@) == v.dirs[d as int].name;
        assert(v.dirs[d as int].name == vstd::utf8::encode_utf8(excludes[i]@));
    }
    if is_excluded_dir(v, excludes, d) {
        let i = choose|i: int|
            0 <= i < excludes.len() && v.dirs[d as int].name == vstd::utf8::encode_utf8((#[trigger] excludes[i])@);
        assert(vstd::utf8::encode_utf8(excludes[i]@) == v.dirs[d as int].name);
    }
}

/// One step at the top of a way down.
proof fn lemma_step(v: IndexView, excludes: Seq<String>, x: u32, c: u32, d: u32, k: nat)
    requires
        v.dirs_wf(),
        d < v.dirs.len(),
        v.dirs[d as int].children.contains(c),
        !is_excluded_dir(v, excludes, c),
        is_below(v, excludes, x, c, k),
    ensures
        is_below(v, excludes, x, d, k + 1),
    decreases k,
{
    assert(v.dir_wf(d as int));
    let i = choose|i: int| 0 <= i < v.dirs[d as int].children.len() && v.dirs[d as int].children[i] == c;
    assert(v.dirs[v.dirs[d as int].children[i] as int].parent == d);
    if k > 0 {
        lemma_step(v, excludes, v.dirs[x as int].parent, c, d, (k - 1) as nat);
    } else {
        assert(is_below(v, excludes, d, d, 0));
    }
}

/// The child of the top that a way down goes through.
proof fn lemma_unstep(v: IndexView, excludes: Seq<String>, x: u32, d: u32, k: nat) -> (c: u32)
    requires
        v.dirs_wf(),
        is_below(v, excludes, x, d, k),
        k > 0,
    ensures
        d < v.dirs.len(),
        v.dirs[d as int].children.contains(c),
        c < v.dirs.len(),
        c > d,
        !is_excluded_dir(v, excludes, c),
        is_below(v, excludes, x, c, (k - 1) as nat),
    decreases k,
{
    let p = v.dirs[x as int].parent;
    if k == 1 {
        assert(is_below(v, excludes, p, d, 0));
        assert(v.dir_wf(x as int));
        x
    } else {
        lemma_unstep(v, excludes, p, d, (k - 1) as nat)
    }
}

/// A list of directories of which each is listed with what lies below it.
proof fn lemma_listing_all(v: IndexView, excludes: Seq<String>, above: u32, list: Seq<u32>, depth: nat, x: u32, k: nat)
    requires
        v.dirs_wf(),
        above < v.dirs.len(),
        forall|i: int| 0 <= i < list.len() ==> above < (#[trigger] list[i]) < v.dirs.len(),
    ensures
        listing::listing_all(v, excludes, above as int, list, depth).contains((x, depth + k)) <==> exists|i: int|
            0 <= i < list.len() && !is_excluded_dir(v, excludes, #[trigger] list[i]) && is_below(
                v,
                excludes,
                x,
                list[i],
                k,
            ),
        forall|j: int|
            0 <= j < listing::listing_all(v, excludes, above as int, list, depth).len() ==> (
            #[trigger] listing::listing_all(v, excludes, above as int, list, depth)[j]).1 >= depth,
    decreases v.dirs.len() - above, list.len(),
{
    let all = listing::listing_all(v, excludes, above as int, list, depth);
    if list.len() > 0 {
        let last = list.last();
        let rest = list.drop_last();
        assert(list[list.len() - 1] == last);
        assert forall|i: int| 0 <= i < rest.len() implies above < (#[trigger] rest[i]) < v.dirs.len() by {
            assert(rest[i] == list[i]);
        }
        lemma_excluded(v, excludes, last);
        lemma_listing_all(v, excludes, above, rest, depth, x, k);
        let tail = listing::listing_all(v, excludes, above as int, rest, depth);
        let front = if !listing::is_left_out(v, excludes, last) {
            listing::listing(v, excludes, last, depth)
        } else {
            Seq::empty()
        };
        assert(all == front + tail);
        if !listing::is_left_out(v, excludes, last) {
            law_listed_directories(v, excludes, last, depth, x, k);
        }
        if all.contains((x, depth + k)) {
            let j = choose|j: int| 0 <= j < all.len() && all[j] == (x, depth + k);
            if j < front.len() {
                assert(front[j] == all[j]);
                assert(front.contains((x, depth + k)));
                assert(!is_excluded_dir(v, excludes, list[list.len() - 1]));
            } else {
                assert(tail[j - front.len()] == all[j]);
                assert(tail.contains((x, depth + k)));
                let i = choose|i: int|
                    0 <= i < rest.len() && !is_excluded_dir(v, excludes, #[trigger] rest[i]) && is_below(
                        v,
                        excludes,
                        x,
                        rest[i],
                        k,
                    );
                assert(list[i] == rest[i]);
            }
        }
        if exists|i: int|
            0 <= i < list.len() && !is_excluded_dir(v, excludes, #[trigger] list[i]) && is_below(
                v,
                excludes,
                x,
                list[i],
                k,
            ) {
            let i = choose|i: int|
                0 <= i < list.len() && !is_excluded_dir(v, excludes, #[trigger] list[i]) && is_below(
                    v,
                    excludes,
                    x,
                    list[i],
                    k,
                );
            if i < rest.len() {
                assert(rest[i] == list[i]);
                assert(tail.contains((x, depth + k)));
                let j = choose|j: int| 0 <= j < tail.len() && tail[j] == (x, depth + k);
                assert(all[front.len() + j] == tail[j]);
            } else {
                assert(front.contains((x, depth + k)));
                let j = choose|j: int| 0 <= j < front.len() && front[j] == (x, depth + k);
                assert(all[j] == front[j]);
            }
        }
        assert forall|j: int| 0 <= j < all.len() implies (#[trigger] all[j]).1 >= depth by {
            if j < front.len() {
                assert(all[j] == front[j]);
            } else {
                assert(all[j] == tail[j - front.len()]);
            }
        }
    }
}

/// A directory is listed exactly where it is the top, or lies below it with no excluded
/// name on the way; with its depth.
pub proof fn law_listed_directories(v: IndexView, excludes: Seq<String>, d: u32, depth: nat, x: u32, k: nat)
    requires
        v.dirs_wf(),
        d < v.dirs.len(),
    ensures
        listing::listing(v, excludes, d, depth).contains((x, depth + k)) <==> is_below(v, excludes, x, d, k),
        forall|j: int|
            0 <= j < listing::listing(v, excludes, d, depth).len() ==> (#[trigger] listing::listing(
                v,
                excludes,
                d,
                depth,
            )[j]).1 >= depth,
    decreases v.dirs.len() - d, v.dirs[d as int].children.len() + 1,
{
    let list = v.dirs[d as int].children;
    let all = listing::listing(v, excludes, d, depth);
    let below = listing::listing_all(v, excludes, d as int, list, depth + 1);
    assert(v.dir_wf(d as int));
    assert forall|i: int| 0 <= i < list.len() implies d < (#[trigger] list[i]) < v.dirs.len() by {
        assert(v.dirs[list[i] as int].parent == d);
        assert(v.dir_wf(list[i] as int));
    }
    assert(all == seq![(d, depth)] + below);
    if k > 0 {
        let m = (k - 1) as nat;
        lemma_listing_all(v, excludes, d, list, depth + 1, x, m);
        if all.contains((x, depth + k)) {
            let j = choose|j: int| 0 <= j < all.len() && all[j] == (x, depth + k);
            assert(j > 0);
            assert(below[j - 1] == all[j]);
            assert(below.contains((x, depth + 1 + m)));
            let i = choose|i: int|
                0 <= i < list.len() && !is_excluded_dir(v, excludes, #[trigger] list[i]) && is_below(
                    v,
                    excludes,
                    x,
                    list[i],
                    m,
                );
            assert(list.contains(list[i]));
            lemma_step(v, excludes, x, list[i], d, m);
        }
        if is_below(v, excludes, x, d, k) {
            let c = lemma_unstep(v, excludes, x, d, k);
            let i = choose|i: int| 0 <= i < list.len() && list[i] == c;
            assert(!is_excluded_dir(v, excludes, list[i]));
            assert(below.contains((x, depth + 1 + m)));
            let j = choose|j: int| 0 <= j < below.len() && below[j] == (x, depth + 1 + m);
            assert(all[j + 1] == below[j]);
        }
    } else {
        lemma_listing_all(v, excludes, d, list, depth + 1, x, 0);
        if all.contains((x, depth)) {
            let j = choose|j: int| 0 <= j < all.len() && all[j] == (x, depth);
            if j > 0 {
                assert(below[j - 1] == all[j]);
                assert(below[j - 1].1 >= depth + 1);
            }
        }
        if x == d {
            assert(all[0] == (x, depth));
        }
    }
    assert forall|j: int| 0 <= j < all.len() implies (#[trigger] all[j]).1 >= depth by {
        if j > 0 {
            assert(all[j] == below[j - 1]);
            assert(below[j - 1].1 >= depth + 1);
        }
    }
}

/// A path is shown without the slash at its end, but the root keeps its own.
pub proof fn law_trailing_slash(p: Seq<u8>)
    ensures
        p.len() > 1 && p.last() as char == '/' ==> listing::without_slash(p) == p.take(p.len() - 1),
        p.len() > 0 && p.last() as char != '/' ==> listing::without_slash(p) == p,
        p.len() <= 1 ==> listing::without_slash(p) == p,
        p.len() > 1 ==> crate::path::same_path(listing::without_slash(p), p),
{
    if p.len() > 1 && p.last() == 47 {
        let front = p.drop_last();
        assert(front =~= p.take(p.len() - 1));
        assert(front + seq![crate::path::SLASH] =~= p);
        crate::path::laws::law_idle_parts(front, Seq::empty());
    }
}

} // verus!
