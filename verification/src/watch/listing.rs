//! The directories to watch, as the index knows them.

use std::sync::Arc;

use vstd::prelude::*;

use crate::bytestr::eq_bytes;
use crate::index;
use crate::index::{DirPaths, Index, NO_DIR};
use crate::path;
use crate::tree::paths;
use crate::tree::IndexView;

verus! {

/// A path without its trailing slash, unless it is the root.
pub open spec fn without_slash(p: Seq<u8>) -> Seq<u8> {
    if p.len() > 1 && p.last() == path::SLASH {
        p.drop_last()
    } else {
        p
    }
}

/// Trailing slash in, path out.
pub fn path_from_bytes(bytes: &[u8]) -> (r: Vec<u8>)
    ensures
        r@ == without_slash(bytes@),
{
    let n: usize = bytes.len();
    if n > 1 && bytes[n - 1] == path::SLASH {
        let kept: &[u8] = vstd::slice::slice_subrange(bytes, 0, n - 1);
        assert(kept@ =~= bytes@.drop_last());
        vstd::slice::slice_to_vec(kept)
    } else {
        vstd::slice::slice_to_vec(bytes)
    }
}

/// The directory's name is excluded.
pub open spec fn is_left_out(v: IndexView, excludes: Seq<String>, d: u32) -> bool {
    exists|i: int|
        0 <= i < excludes.len() && vstd::utf8::encode_utf8((#[trigger] excludes[i])@) == v.dirs[d as int].name
}

/// A directory and what lies below it, in pre-order with depths; directories with
/// excluded names are left out with all below them.
pub open spec fn listing(v: IndexView, excludes: Seq<String>, d: u32, depth: nat) -> Seq<(u32, nat)>
    decreases v.dirs.len() - d, v.dirs[d as int].children.len() + 1,
{
    if d >= v.dirs.len() {
        Seq::empty()
    } else {
        seq![(d, depth)] + listing_all(v, excludes, d as int, v.dirs[d as int].children, depth + 1)
    }
}

/// The listings of directories with ids above `above`, the last first.
pub open spec fn listing_all(v: IndexView, excludes: Seq<String>, above: int, list: Seq<u32>, depth: nat) -> Seq<
    (u32, nat),
>
    decreases v.dirs.len() - above, list.len(),
{
    if list.len() == 0 {
        Seq::empty()
    } else {
        (if above < list.last() < v.dirs.len() && !is_left_out(v, excludes, list.last()) {
            listing(v, excludes, list.last(), depth)
        } else {
            Seq::empty()
        }) + listing_all(v, excludes, above, list.drop_last(), depth)
    }
}

/// What is still to be listed: the directories on a stack, the topmost first.
spec fn to_list(v: IndexView, excludes: Seq<String>, stack: Seq<(u32, usize)>) -> Seq<(u32, nat)>
    decreases stack.len(),
{
    if stack.len() == 0 {
        Seq::empty()
    } else {
        listing(v, excludes, stack.last().0, stack.last().1 as nat) + to_list(v, excludes, stack.drop_last())
    }
}

fn leaves_out(index: &Index, excludes: &Vec<String>, d: u32) -> (r: bool)
    requires
        index.wf(),
        index@.is_dir(d),
    ensures
        r == is_left_out(index@, excludes@, d),
{
    let name: &[u8] = index.dir_name(d);
    let n: usize = excludes.len();
    let mut i: usize = 0;
    while i < n
        invariant
            n == excludes@.len(),
            i <= n,
            name@ == index@.dirs[d as int].name,
            forall|j: int| 0 <= j < i ==> vstd::utf8::encode_utf8((#[trigger] excludes@[j])@) != name@,
        decreases n - i,
    {
        if eq_bytes(excludes[i].as_str().as_bytes(), name) {
            assert(vstd::utf8::encode_utf8(excludes@[i as int]@) == name@);
            return true;
        }
        i += 1;
    }
    false
}

/// The paths and depths of listed directories.
pub open spec fn are_listed(v: IndexView, listed: Seq<(u32, nat)>, out: Seq<(Vec<u8>, usize)>) -> bool {
    &&& out.len() == listed.len()
    &&& forall|i: int|
        0 <= i < out.len() ==> {
            &&& (#[trigger] out[i]).0@ == without_slash(v.dir_prefix(listed[i].0))
            &&& out[i].1 == listed[i].1
        }
}

/// Directory list taken from the in-memory index, in pre-order with depths.
///
/// The index already holds the whole tree, so this avoids a second walk over
/// hundreds of thousands of directories at startup.
pub fn dirs_from_index(index: &Index, root: &[u8], excludes: &Vec<String>) -> (r: Option<Vec<(Vec<u8>, usize)>>)
    requires
        index.wf(),
    ensures
        match (r, index@.lookup(NO_DIR, path::named_components(root@))) {
            (Some(out), Some(top)) => are_listed(index@, listing(index@, excludes@, top, 0), out@),
            (None, None) => true,
            _ => false,
        },
{
    let ghost v = index@;
    proof {
        paths::lemma_lookup(v, NO_DIR, path::named_components(root@));
    }
    let top: u32 = match index.dir_by_path(root) {
        Some(top) => top,
        None => {
            return None;
        },
    };
    let dp: Arc<DirPaths> = index.current_paths();
    let ghost whole = listing(v, excludes@, top, 0);
    let ghost mut done: Seq<(u32, nat)> = Seq::empty();
    let mut out: Vec<(Vec<u8>, usize)> = Vec::new();
    let mut stack: Vec<(u32, usize)> = Vec::new();
    stack.push((top, 0));
    proof {
        assert(stack@.drop_last().len() == 0);
        assert(to_list(v, excludes@, stack@.drop_last()).len() == 0);
        assert(done + to_list(v, excludes@, stack@) =~= whole);
    }
    while stack.len() > 0
        invariant
            index.wf(),
            v == index@,
            index::paths_for(&*dp, v),
            done + to_list(v, excludes@, stack@) == whole,
            are_listed(v, done, out@),
            forall|i: int| 0 <= i < stack@.len() ==> (#[trigger] stack@[i]).0 < v.dirs.len() && stack@[i].1 <= stack@[i].0,
        decreases to_list(v, excludes@, stack@).len(),
    {
        let ghost before = stack@;
        let (dir, depth): (u32, usize) = match stack.pop() {
            Some(x) => x,
            None => (top, 0),
        };
        let ghost rest = stack@;
        let ghost children = v.dirs[dir as int].children;
        assert(before.last() == (dir, depth));
        assert(before[before.len() - 1] == (dir, depth));
        assert(v.dir_wf(dir as int));
        out.push((path_from_bytes(dp.get(dir)), depth));
        let list: &[u32] = index.dir_children(dir);
        let n: usize = list.len();
        let mut i: usize = 0;
        assert(listing_all(v, excludes@, dir as int, children.subrange(0, 0), (depth + 1) as nat).len() == 0);
        assert(Seq::<(u32, nat)>::empty() + to_list(v, excludes@, rest) =~= to_list(v, excludes@, rest));
        while i < n
            invariant
                index.wf(),
                v == index@,
                list@ == children,
                children == v.dirs[dir as int].children,
                dir < v.dirs.len(),
                depth <= dir,
                v.dir_wf(dir as int),
                n == list@.len(),
                i <= n,
                to_list(v, excludes@, stack@) == listing_all(
                    v,
                    excludes@,
                    dir as int,
                    children.subrange(0, i as int),
                    (depth + 1) as nat,
                ) + to_list(v, excludes@, rest),
                forall|k: int|
                    0 <= k < stack@.len() ==> (#[trigger] stack@[k]).0 < v.dirs.len() && stack@[k].1 <= stack@[k].0,
            decreases n - i,
        {
            let child: u32 = list[i];
            assert(children[i as int] == child);
            assert(v.dir_wf(child as int));
            assert(dir < child);
            let ghost some = children.subrange(0, i as int);
            let ghost next = children.subrange(0, i + 1);
            let ghost stacked = stack@;
            proof {
                assert(next.drop_last() =~= some);
                assert(next.last() == child);
            }
            if !leaves_out(index, excludes, child) {
                stack.push((child, depth + 1));
                proof {
                    assert(stack@.drop_last() =~= stacked);
                    assert(to_list(v, excludes@, stack@) =~= listing_all(
                        v,
                        excludes@,
                        dir as int,
                        next,
                        (depth + 1) as nat,
                    ) + to_list(v, excludes@, rest));
                }
            } else {
                assert(listing_all(v, excludes@, dir as int, next, (depth + 1) as nat) =~= listing_all(
                    v,
                    excludes@,
                    dir as int,
                    some,
                    (depth + 1) as nat,
                ));
            }
            i += 1;
        }
        proof {
            assert(children.subrange(0, n as int) =~= children);
            assert(before.drop_last() =~= rest);
            let more = to_list(v, excludes@, stack@);
            assert(to_list(v, excludes@, before) =~= seq![(dir, depth as nat)] + more);
            assert(done.push((dir, depth as nat)) + more =~= whole);
            done = done.push((dir, depth as nat));
        }
    }
    assert(done =~= whole);
    Some(out)
}

} // verus!
