//! What is known of one file when the pipeline runs.

use vstd::prelude::*;

verus! {

/// One file found under the scanned root, with what was read of it.
///
/// `size` is the byte count that a metadata lookup gave, and `content` the
/// bytes that a full read gave; each is `None` when the lookup or the read
/// failed.
#[derive(Clone, Debug)]
pub struct FileRecord {
    pub path: String,
    pub size: Option<u64>,
    pub content: Option<Vec<u8>>,
}

/// The records that a sequence of references points to.
pub open spec fn referents(files: Seq<&FileRecord>) -> Seq<FileRecord> {
    files.map_values(|f: &FileRecord| *f)
}

/// The paths of `files`, in order.
pub open spec fn paths_of(files: Seq<FileRecord>) -> Seq<Seq<char>> {
    files.map_values(|f: FileRecord| f.path@)
}

/// No two records of `files` name the same path.
pub open spec fn distinct_paths(files: Seq<FileRecord>) -> bool {
    forall|i: int, j: int| 0 <= i < j < files.len() ==> files[i].path@ != files[j].path@
}

} // verus!
