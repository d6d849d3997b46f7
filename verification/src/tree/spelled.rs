//! How the paths of directories are spelled.

use vstd::prelude::*;

use crate::path::laws as spelling;
use crate::tree;
use crate::tree::paths;
use crate::tree::IndexView;

verus! {

/// The path through the root and some names is each of them behind a slash.
pub proof fn law_paths_are_spelled_with_slashes(names: Seq<Seq<u8>>)
    requires
        spelling::are_kept(names),
    ensures
        paths::join_all(Seq::empty(), seq![Seq::<u8>::empty()] + names) == spelling::spelled(names),
    decreases names.len(),
{
    let root = seq![Seq::<u8>::empty()];
    let all = root + names;
    lemma_join_all(Seq::empty(), root, names);
    assert(root.skip(1) =~= Seq::empty());
    assert(paths::join_all(Seq::empty(), root) =~= seq![47u8]) by {
        let first = tree::push_component(Seq::empty(), root[0]);
        assert(first =~= seq![47u8]);
        assert(paths::join_all(first, root.skip(1)) == first);
    }
    lemma_below_root(names);
}

proof fn lemma_join_all(out: Seq<u8>, a: Seq<Seq<u8>>, b: Seq<Seq<u8>>)
    ensures
        paths::join_all(out, a + b) == paths::join_all(paths::join_all(out, a), b),
    decreases a.len(),
{
    let all = a + b;
    if a.len() == 0 {
        assert(all =~= b);
    } else {
        assert(all[0] == a[0]);
        assert(all.skip(1) =~= a.skip(1) + b);
        lemma_join_all(tree::push_component(out, a[0]), a.skip(1), b);
    }
}

proof fn lemma_below_root(names: Seq<Seq<u8>>)
    requires
        spelling::are_kept(names),
    ensures
        paths::join_all(seq![47u8], names) == spelling::spelled(names),
        names.len() > 0 ==> paths::join_all(seq![47u8], names).last() != 47,
    decreases names.len(),
{
    if names.len() > 0 {
        let front = names.drop_last();
        let last = names.last();
        assert(spelling::is_kept(names[names.len() - 1]));
        assert forall|k: int| 0 <= k < front.len() implies spelling::is_kept(#[trigger] front[k]) by {
            assert(spelling::is_kept(names[k]));
        }
        lemma_below_root(front);
        assert(names =~= front + seq![last]);
        lemma_join_all(seq![47u8], front, seq![last]);
        let before = paths::join_all(seq![47u8], front);
        let one = seq![last];
        assert(one.skip(1) =~= Seq::empty());
        let after = tree::push_component(before, last);
        assert(paths::join_all(after, one.skip(1)) == after);
        assert(paths::join_all(before, one) == after);
        assert(last[last.len() - 1] as char != '/');
        if front.len() == 0 {
            assert(spelling::behind_slashes(front).len() == 0);
            assert(after =~= spelling::behind_slashes(names));
        } else {
            assert(after =~= spelling::behind_slashes(names));
        }
        assert(after.last() == last[last.len() - 1]);
    } else {
        assert(paths::join_all(seq![47u8], names) =~= seq![47u8]);
    }
}

/// The path of an entry is that of its directory, a slash unless that ends in one, and
/// its name.
pub proof fn law_entry_paths(v: IndexView, i: int)
    ensures
        ({
            let dir = v.dir_path(v.slots[i].dir);
            let name = v.slots[i].name;
            &&& dir.len() > 0 && dir.last() as char == '/' ==> v.entry_path(i) == dir + name
            &&& !(dir.len() > 0 && dir.last() as char == '/') ==> v.entry_path(i) == dir + seq!['/' as u8] + name
        }),
{
    let dir = v.dir_path(v.slots[i].dir);
    let name = v.slots[i].name;
    if !(dir.len() > 0 && dir.last() == 47) {
        assert(dir.push(47) + name =~= dir + seq![47u8] + name);
    }
}

/// A directory is one deeper than the one it lies in, as far as depths go.
pub proof fn law_depths(d: u16)
    ensures
        d < 65535 ==> tree::child_depth(d) == d + 1,
        tree::child_depth(65535) == 65535,
{
}

} // verus!
