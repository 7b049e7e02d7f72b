//! Quarantine: where a file goes when it is set aside.

use crate::path::{base_name, base_name_of, join, joined, text_view};
use vstd::prelude::*;

verus! {

/// The place of `file` in the quarantine directory `dir`: the entry of `dir`
/// with the file's own name. There is none where `file` names no file.
pub open spec fn destination_of(file: Seq<char>, dir: Seq<char>) -> Option<Seq<char>> {
    match base_name_of(file) {
        Some(name) => Some(joined(dir, name)),
        None => None,
    }
}

/// The path under which `file` is to be kept in the quarantine directory
/// `dir`, or `None` where `file` names no file.
pub fn quarantine_destination(file: &str, dir: &str) -> (destination: Option<String>)
    ensures
        text_view(destination) == destination_of(file@, dir@),
{
    match base_name(file) {
        Some(name) => Some(join(dir, name.as_str())),
        None => None,
    }
}

} // verus!
