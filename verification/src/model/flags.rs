//! The bits of an entry's flag byte.

use vstd::prelude::*;

verus! {

pub const DIR: u8 = 1;

pub const SYMLINK: u8 = 2;

/// Tombstone: slot is logically removed and waiting for compaction.
pub const DEAD: u8 = 4;

pub const HIDDEN: u8 = 8;

} // verus!
