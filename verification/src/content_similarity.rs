//! Text similarity: the edit distance between the texts of two files.

use crate::file::FileRecord;
use strsim::levenshtein;
use vstd::prelude::*;
use vstd::utf8::{decode_utf8, valid_utf8};

verus! {

/// The least of three numbers.
pub open spec fn least(x: nat, y: nat, z: nat) -> nat {
    if x <= y && x <= z {
        x
    } else if y <= z {
        y
    } else {
        z
    }
}

/// The least number of single-character insertions, deletions and
/// substitutions that turn `a` into `b`.
///
/// Turning nothing into `b` takes one insertion for each character, and
/// turning `a` into nothing one deletion for each. Otherwise the last step
/// deletes the last character of `a`, inserts the last character of `b`, or
/// puts the one in place of the other, which costs nothing where they are
/// equal.
pub open spec fn edit_distance(a: Seq<char>, b: Seq<char>) -> nat
    decreases a.len() + b.len(),
{
    if a.len() == 0 {
        b.len()
    } else if b.len() == 0 {
        a.len()
    } else {
        let replace: nat = if a.last() == b.last() {
            0
        } else {
            1
        };
        least(
            edit_distance(a.drop_last(), b) + 1,
            edit_distance(a, b.drop_last()) + 1,
            edit_distance(a.drop_last(), b.drop_last()) + replace,
        )
    }
}

/// The text of a file: its content read as UTF-8, and none where the content
/// could not be read or is no valid UTF-8.
pub open spec fn text_of(file: FileRecord) -> Option<Seq<char>> {
    match file.content {
        Some(content) => if valid_utf8(content@) {
            Some(decode_utf8(content@))
        } else {
            None
        },
        None => None,
    }
}

/// The text score of two files: the edit distance of their texts, and none
/// where either has no text.
pub open spec fn text_score(first: FileRecord, second: FileRecord) -> Option<nat> {
    match (text_of(first), text_of(second)) {
        (Some(a), Some(b)) => Some(edit_distance(a, b)),
        _ => None,
    }
}

/// Calls `strsim::levenshtein`, which counts the insertions, deletions and
/// substitutions of single characters that it takes at least to turn one
/// string into the other.
///
/// Taken on trust: that this count is the edit distance of the two strings'
/// characters as `edit_distance` defines it.
#[verifier::external_body]
fn levenshtein_distance(a: &str, b: &str) -> (distance: usize)
    ensures
        distance == edit_distance(a@, b@),
{
    levenshtein(a, b)
}

/// Calls `core::str::from_utf8`, which accepts exactly the byte strings that
/// are valid UTF-8 and hands back the same bytes as text.
///
/// Taken on trust: that the standard library and `valid_utf8` agree on what
/// is valid, and that the text holds the characters that the bytes encode.
#[verifier::external_body]
fn decode_text(bytes: &[u8]) -> (text: Option<&str>)
    ensures
        text is Some <==> valid_utf8(bytes@),
        text matches Some(t) ==> t@ == decode_utf8(bytes@),
{
    core::str::from_utf8(bytes).ok()
}

/// The text of a file, where it has one.
fn file_text(file: &FileRecord) -> (text: Option<&str>)
    ensures
        text is Some <==> text_of(*file) is Some,
        text matches Some(t) ==> text_of(*file) == Some(t@),
{
    match &file.content {
        Some(content) => decode_text(content.as_slice()),
        None => None,
    }
}

/// The edit distance between the texts of two files.
///
/// There is no score where the content of either file could not be read or
/// is no valid UTF-8.
pub fn compare_text_files(first: &FileRecord, second: &FileRecord) -> (score: Option<usize>)
    ensures
        score is Some <==> text_score(*first, *second) is Some,
        score matches Some(d) ==> text_score(*first, *second) == Some(d as nat),
{
    match (file_text(first), file_text(second)) {
        (Some(a), Some(b)) => Some(levenshtein_distance(a, b)),
        _ => None,
    }
}

/// The edit distance does not depend on the order of the two texts.
pub proof fn lemma_edit_distance_symmetric(a: Seq<char>, b: Seq<char>)
    ensures
        edit_distance(a, b) == edit_distance(b, a),
    decreases a.len() + b.len(),
{
    if a.len() > 0 && b.len() > 0 {
        lemma_edit_distance_symmetric(a.drop_last(), b);
        lemma_edit_distance_symmetric(a, b.drop_last());
        lemma_edit_distance_symmetric(a.drop_last(), b.drop_last());
    }
}

/// The edit distance is 0 exactly between equal texts.
pub proof fn lemma_edit_distance_zero(a: Seq<char>, b: Seq<char>)
    ensures
        edit_distance(a, b) == 0 <==> a == b,
    decreases a.len() + b.len(),
{
    if a.len() == 0 || b.len() == 0 {
        if a.len() == 0 && b.len() == 0 {
            assert(a =~= b);
        }
    } else {
        lemma_edit_distance_zero(a.drop_last(), b.drop_last());
        if a == b {
            assert(a.drop_last() == b.drop_last());
        }
        if edit_distance(a, b) == 0 {
            assert(a.drop_last() == b.drop_last() && a.last() == b.last());
            assert(a =~= a.drop_last().push(a.last()));
            assert(b =~= b.drop_last().push(b.last()));
        }
    }
}

/// The text score of two files does not depend on their order.
pub proof fn lemma_text_score_symmetric(first: FileRecord, second: FileRecord)
    ensures
        text_score(first, second) == text_score(second, first),
{
    if text_of(first) is Some && text_of(second) is Some {
        lemma_edit_distance_symmetric(text_of(first)->0, text_of(second)->0);
    }
}

} // verus!
