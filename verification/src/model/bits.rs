//! What the bits of a flag byte tell.

use vstd::prelude::*;

use crate::db;
use crate::events;
use crate::model;
use crate::model::flags;
use crate::scan;

verus! {

/// Each bit is set exactly where what it stands for holds: the directory bit for
/// directories, the link bit for links, the hidden bit for names that begin with a dot;
/// a new entry is no tombstone.
pub proof fn law_flags_tell(is_symlink: bool, is_dir: bool, name: Seq<u8>)
    ensures
        scan::walked_flags(is_symlink, is_dir, name) & flags::DIR != 0 <==> is_dir,
        scan::walked_flags(is_symlink, is_dir, name) & flags::SYMLINK != 0 <==> is_symlink,
        scan::walked_flags(is_symlink, is_dir, name) & flags::HIDDEN != 0 <==> name.len() > 0 && name[0] as char == '.',
        scan::walked_flags(is_symlink, is_dir, name) & flags::DEAD == 0,
        events::new_flags(name, is_dir) & flags::DIR != 0 <==> is_dir,
        events::new_flags(name, is_dir) & flags::SYMLINK == 0,
        events::new_flags(name, is_dir) & flags::HIDDEN != 0 <==> name.len() > 0 && name[0] as char == '.',
        events::new_flags(name, is_dir) & flags::DEAD == 0,
{
    assert(0u8 | 1 == 1 && 2u8 | 1 == 3 && 0u8 | 8 == 8 && 1u8 | 8 == 9 && 2u8 | 8 == 10 && 3u8 | 8 == 11)
        by (bit_vector);
    assert(0u8 & 1 == 0 && 0u8 & 2 == 0 && 0u8 & 4 == 0 && 0u8 & 8 == 0
        && 1u8 & 1 == 1 && 1u8 & 2 == 0 && 1u8 & 4 == 0 && 1u8 & 8 == 0
        && 2u8 & 1 == 0 && 2u8 & 2 == 2 && 2u8 & 4 == 0 && 2u8 & 8 == 0
        && 3u8 & 1 == 1 && 3u8 & 2 == 2 && 3u8 & 4 == 0 && 3u8 & 8 == 0
        && 8u8 & 1 == 0 && 8u8 & 2 == 0 && 8u8 & 4 == 0 && 8u8 & 8 == 8
        && 9u8 & 1 == 1 && 9u8 & 2 == 0 && 9u8 & 4 == 0 && 9u8 & 8 == 8
        && 10u8 & 1 == 0 && 10u8 & 2 == 2 && 10u8 & 4 == 0 && 10u8 & 8 == 8
        && 11u8 & 1 == 1 && 11u8 & 2 == 2 && 11u8 & 4 == 0 && 11u8 & 8 == 8)
        by (bit_vector);
}

/// The directory bit and the tombstone bit are told apart.
pub proof fn law_bits_are_apart(f: u8)
    ensures
        model::has_dir_bit(f) <==> f % 2 == 1,
        model::has_dead_bit(f) <==> (f / 4) % 2 == 1,
{
    assert((f & 1 != 0 <==> f % 2 == 1) && (f & 4 != 0 <==> (f / 4) % 2 == 1)) by (bit_vector);
}

/// A stored flag byte is read back without the tombstone bit, and otherwise as it was;
/// a stored parent is read back, and so is that there is none.
pub proof fn law_stored_values_read_back(f: u8, p: u32)
    ensures
        db::read_flags(f as i64) & flags::DEAD == 0,
        f & flags::DEAD == 0 ==> db::read_flags(f as i64) == f,
        db::read_parent(db::stored_parent(p)) == p,
{
    db::laws::lemma_parent_round_trip(p);
    let g = f as i64;
    assert(g as u8 == f) by (bit_vector)
        requires
            g == f as i64,
    ;
    assert((f & !4u8) & 4 == 0 && (f & 4 == 0 ==> f & !4u8 == f)) by (bit_vector);
}

} // verus!
