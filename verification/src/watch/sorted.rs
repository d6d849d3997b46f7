//! What the order of paths is.

use vstd::prelude::*;

use crate::path;
use crate::watch::order;

verus! {

/// What begins alike comes in the order of the first byte that differs; a beginning comes
/// before what goes on.
pub proof fn law_bytes_are_ordered(common: Seq<u8>, a: Seq<u8>, b: Seq<u8>)
    ensures
        a.len() == 0 && b.len() > 0 ==> order::bytes_before(common + a, common + b),
        a.len() > 0 && b.len() > 0 && a[0] < b[0] ==> order::bytes_before(common + a, common + b),
        a.len() > 0 && b.len() > 0 && a[0] > b[0] ==> !order::bytes_before(common + a, common + b),
        !order::bytes_before(common + a, common),
    decreases common.len(),
{
    let (x, y) = (common + a, common + b);
    if common.len() > 0 {
        law_bytes_are_ordered(common.skip(1), a, b);
        assert(x.skip(1) =~= common.skip(1) + a);
        assert(y.skip(1) =~= common.skip(1) + b);
        assert(x[0] == common[0] && y[0] == common[0]);
    } else {
        assert(x =~= a);
        assert(y =~= b);
    }
}

/// A name like most: neither the root nor a dot nor two.
pub open spec fn is_ordinary(c: Seq<u8>) -> bool {
    c.len() > 2 || (c.len() > 0 && c[0] as char != '.')
}

/// A directory comes before what lies in it, and of two paths that lie in one directory
/// the names below it decide, byte by byte.
pub proof fn law_paths_are_ordered(common: Seq<Seq<u8>>, a: Seq<Seq<u8>>, b: Seq<Seq<u8>>)
    ensures
        a.len() == 0 && b.len() > 0 ==> order::before(common + a, common + b),
        !order::before(common + a, common),
        a.len() > 0 && b.len() > 0 && a[0] != b[0] && is_ordinary(a[0]) && is_ordinary(b[0]) ==> (order::before(
            common + a,
            common + b,
        ) <==> order::bytes_before(a[0], b[0])),
    decreases common.len(),
{
    let (x, y) = (common + a, common + b);
    if common.len() > 0 {
        law_paths_are_ordered(common.skip(1), a, b);
        assert(x.skip(1) =~= common.skip(1) + a);
        assert(y.skip(1) =~= common.skip(1) + b);
        assert(x[0] == common[0] && y[0] == common[0]);
    } else {
        assert(x =~= a);
        assert(y =~= b);
        assert(path::cur_dir()[0] == 46 && path::cur_dir().len() == 1);
        assert(path::parent_dir()[0] == 46 && path::parent_dir().len() == 2);
    }
}

/// The root comes before a dot, that before two dots, and those before all other names.
pub proof fn law_special_components(c: Seq<u8>)
    requires
        is_ordinary(c),
    ensures
        order::component_before(Seq::empty(), seq![path::DOT]),
        order::component_before(seq![path::DOT], seq![path::DOT, path::DOT]),
        order::component_before(seq![path::DOT, path::DOT], c),
        !order::component_before(c, seq![path::DOT, path::DOT]),
        !order::component_before(seq![path::DOT, path::DOT], seq![path::DOT]),
        !order::component_before(seq![path::DOT], Seq::empty()),
{
    assert(seq![path::DOT] =~= path::cur_dir());
    assert(seq![path::DOT, path::DOT] =~= path::parent_dir());
    assert(path::cur_dir()[0] == 46 && path::cur_dir().len() == 1);
    assert(path::parent_dir()[0] == 46 && path::parent_dir().len() == 2);
}

} // verus!
