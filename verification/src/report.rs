//! Duplicate groups: the files that share one digest.

use crate::path::texts_of;
use vstd::prelude::*;

verus! {

/// The files that share one digest.
///
/// `files` holds their paths in the order in which they were found, and
/// `total_size` the sum of their byte lengths.
#[derive(Clone, Debug)]
pub struct DuplicateGroup {
    pub hash: String,
    pub files: Vec<String>,
    pub total_size: u64,
}

/// What a group says, as plain mathematics.
pub struct GroupView {
    pub hash: Seq<char>,
    pub files: Seq<Seq<char>>,
    pub total_size: nat,
}

impl View for DuplicateGroup {
    type V = GroupView;

    open spec fn view(&self) -> GroupView {
        GroupView {
            hash: self.hash@,
            files: texts_of(self.files@),
            total_size: self.total_size as nat,
        }
    }
}

/// The test that a group has at least two files: only such a group is
/// reported.
pub open spec fn is_duplicate() -> spec_fn(GroupView) -> bool {
    |g: GroupView| g.files.len() >= 2
}

/// The views of `groups`, in order.
pub open spec fn group_views(groups: Seq<DuplicateGroup>) -> Seq<GroupView> {
    groups.map_values(|g: DuplicateGroup| g@)
}

} // verus!
