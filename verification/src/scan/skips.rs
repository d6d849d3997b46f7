//! What a walk leaves out.

use vstd::prelude::*;

use crate::config::Config;
use crate::outside;
use crate::path;
use crate::scan;
use crate::scan::{WalkItem, WalkState};

verus! {

/// Excluded by its name, wherever it lies.
pub proof fn law_excluded_names_are_skipped(config: Config, i: int, name: Seq<u8>, place: Seq<u8>)
    requires
        0 <= i < config.scan_excludes@.len(),
        config.scan_excludes@[i]@ == outside::lossy_text_of(name),
    ensures
        scan::is_skipped(config, name, place),
{
}

/// Excluded by its path, however that is written.
pub proof fn law_excluded_paths_are_skipped(config: Config, i: int, name: Seq<u8>, place: Seq<u8>)
    requires
        0 <= i < config.exclude_paths@.len(),
        path::same_path(config.exclude_paths@[i]@, place),
    ensures
        scan::is_skipped(config, name, place),
{
}

/// Nothing is skipped but what is excluded; without excludes the walk is complete.
pub proof fn law_nothing_else_is_skipped(config: Config, name: Seq<u8>, place: Seq<u8>)
    requires
        forall|i: int|
            0 <= i < config.scan_excludes@.len() ==> (#[trigger] config.scan_excludes@[i])@ != outside::lossy_text_of(
                name,
            ),
        forall|i: int|
            0 <= i < config.exclude_paths@.len() ==> !path::same_path((#[trigger] config.exclude_paths@[i])@, place),
    ensures
        !scan::is_skipped(config, name, place),
{
}

/// Each result of a walk is counted as what it is: a directory, a file, or an error where
/// it could not be read or its directory is not known; the root itself is not counted.
pub proof fn law_walk_counts(s: WalkState, item: WalkItem)
    ensures
        ({
            let w = s.with_item(item);
            &&& item is Failed ==> w.errors == s.errors + 1 && w.dirs == s.dirs && w.files == s.files && w.index
                == s.index
            &&& item matches WalkItem::Found { depth, is_dir, .. } ==> {
                &&& depth == 0 ==> w == s
                &&& depth > s.open.len() ==> w.errors == s.errors + 1 && w.dirs == s.dirs && w.files == s.files
                    && w.index == s.index
                &&& 0 < depth <= s.open.len() && is_dir ==> w.dirs == s.dirs + 1 && w.files == s.files && w.errors
                    == s.errors
                &&& 0 < depth <= s.open.len() && !is_dir ==> w.files == s.files + 1 && w.dirs == s.dirs && w.errors
                    == s.errors
            }
        }),
{
}

} // verus!
