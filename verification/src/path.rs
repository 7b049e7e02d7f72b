//! File paths as text.
//!
//! A path is a sequence of characters in which `/` separates components.
//! The file name is what follows the last separator, and the extension is
//! what follows the last dot of the file name.

use vstd::prelude::*;

verus! {

/// The separator between the components of a path.
pub const SEPARATOR: char = '/';

/// The character that introduces an extension.
pub const DOT: char = '.';

/// One past the position of the last `c` in `text`, or 0 if `c` does not occur.
pub open spec fn after_last(text: Seq<char>, c: char) -> int
    decreases text.len(),
{
    if text.len() == 0 {
        0
    } else if text.last() == c {
        text.len() as int
    } else {
        after_last(text.drop_last(), c)
    }
}

/// The last component of `path`: what follows its last separator.
pub open spec fn file_name_of(path: Seq<char>) -> Seq<char> {
    path.skip(after_last(path, SEPARATOR))
}

/// The extension of the file that `path` names.
///
/// There is none if the file name holds no dot, if its only dot is its first
/// character, or if the file name is `..`. Otherwise it is what follows the
/// last dot, which may be empty.
pub open spec fn extension_of(path: Seq<char>) -> Option<Seq<char>> {
    let name = file_name_of(path);
    let cut = after_last(name, DOT);
    if cut <= 1 || name =~= seq![DOT, DOT] {
        None
    } else {
        Some(name.skip(cut))
    }
}

/// The name of the file that `path` names: its last component, and none
/// where that is empty or one of the names `.` and `..`, which stand for
/// directories.
pub open spec fn base_name_of(path: Seq<char>) -> Option<Seq<char>> {
    let name = file_name_of(path);
    if name.len() == 0 || name =~= seq![DOT] || name =~= seq![DOT, DOT] {
        None
    } else {
        Some(name)
    }
}

/// `name` as an entry of the directory `dir`: a separator stands between
/// the two unless `dir` is empty or ends in one.
pub open spec fn joined(dir: Seq<char>, name: Seq<char>) -> Seq<char> {
    if dir.len() == 0 || dir.last() == SEPARATOR {
        dir + name
    } else {
        dir + seq![SEPARATOR] + name
    }
}

/// The texts of `items`, in order.
pub open spec fn texts_of(items: Seq<String>) -> Seq<Seq<char>> {
    items.map_values(|s: String| s@)
}

/// The view of an optional string.
pub open spec fn text_view(text: Option<String>) -> Option<Seq<char>> {
    match text {
        Some(t) => Some(t@),
        None => None,
    }
}

/// `after_last` never points outside the text, the character before the
/// position is `c`, and `c` does not occur from the position on.
pub proof fn lemma_after_last(text: Seq<char>, c: char)
    ensures
        0 <= after_last(text, c) <= text.len(),
        after_last(text, c) > 0 ==> text[after_last(text, c) - 1] == c,
        forall|i: int| after_last(text, c) <= i < text.len() ==> text[i] != c,
    decreases text.len(),
{
    if text.len() > 0 && text.last() != c {
        let front = text.drop_last();
        lemma_after_last(front, c);
        assert forall|i: int| after_last(text, c) <= i < text.len() implies text[i] != c by {
            if i < front.len() {
                assert(front[i] == text[i]);
            }
        }
    }
}

/// A file name holds no separator, and an extension neither a dot nor a
/// separator.
pub proof fn lemma_extension_is_plain(path: Seq<char>)
    ensures
        !file_name_of(path).contains(SEPARATOR),
        extension_of(path) matches Some(e) ==> !e.contains(DOT) && !e.contains(SEPARATOR),
{
    let name = file_name_of(path);
    lemma_after_last(path, SEPARATOR);
    lemma_after_last(name, DOT);
    let start = after_last(path, SEPARATOR);
    assert forall|i: int| 0 <= i < name.len() implies name[i] != SEPARATOR by {
        assert(name[i] == path[start + i]);
    }
    if extension_of(path) is Some {
        let cut = after_last(name, DOT);
        let e = name.skip(cut);
        assert forall|i: int| 0 <= i < e.len() implies e[i] != DOT && e[i] != SEPARATOR by {
            assert(e[i] == name[cut + i]);
        }
    }
}

/// The characters of `text`, in order.
pub fn characters(text: &str) -> (chars: Vec<char>)
    ensures
        chars@ == text@,
{
    let mut chars: Vec<char> = Vec::new();
    for c in it: text.chars()
        invariant
            it.seq() == text@,
            chars@ == text@.take(it.index() as int),
    {
        assert(text@.take(it.index() + 1) == text@.take(it.index() as int).push(c));
        chars.push(c);
    }
    assert(text@.take(text@.len() as int) == text@);
    chars
}

/// One past the position of the last `c` in what follows the first `from`
/// characters, counted from `from`.
fn position_after_last(chars: &Vec<char>, from: usize, c: char) -> (pos: usize)
    requires
        from <= chars.len(),
    ensures
        pos == after_last(chars@.skip(from as int), c),
        from + pos <= chars.len(),
{
    let mut pos: usize = 0;
    let mut i: usize = from;
    while i < chars.len()
        invariant
            from <= i <= chars.len(),
            from + pos <= i,
            pos == after_last(chars@.subrange(from as int, i as int), c),
        decreases chars.len() - i,
    {
        assert(chars@.subrange(from as int, i + 1).drop_last() == chars@.subrange(
            from as int,
            i as int,
        ));
        if chars[i] == c {
            pos = i + 1 - from;
        }
        i += 1;
    }
    assert(chars@.subrange(from as int, chars.len() as int) == chars@.skip(from as int));
    pos
}

/// The extension of the file that `path` names, if it has one.
pub fn extension(path: &str) -> (ext: Option<String>)
    ensures
        text_view(ext) == extension_of(path@),
{
    let chars = characters(path);
    let n = chars.len();
    assert(chars@.skip(0) == chars@);
    let start = position_after_last(&chars, 0, SEPARATOR);
    let cut = position_after_last(&chars, start, DOT);
    let ghost name = file_name_of(path@);
    if cut <= 1 {
        return None;
    }
    if n - start == 2 && chars[start] == DOT && chars[start + 1] == DOT {
        assert(name =~= seq![DOT, DOT]);
        return None;
    }
    assert(name.skip(cut as int) == path@.subrange(start + cut, n as int));
    Some(path.substring_char(start + cut, n).to_owned())
}

/// The name of the file that `path` names, if it names one.
pub fn base_name(path: &str) -> (name: Option<String>)
    ensures
        text_view(name) == base_name_of(path@),
{
    let chars = characters(path);
    let n = chars.len();
    assert(chars@.skip(0) == chars@);
    let start = position_after_last(&chars, 0, SEPARATOR);
    let ghost name = file_name_of(path@);
    if n - start == 0 {
        return None;
    }
    if n - start == 1 && chars[start] == DOT {
        assert(name =~= seq![DOT]);
        return None;
    }
    if n - start == 2 && chars[start] == DOT && chars[start + 1] == DOT {
        assert(name =~= seq![DOT, DOT]);
        return None;
    }
    assert(name == path@.subrange(start as int, n as int));
    assert(name[0] == chars@[start as int]);
    assert(name.len() == 2 ==> name[1] == chars@[start + 1]);
    assert(seq![DOT].len() == 1 && seq![DOT][0] == DOT);
    assert(seq![DOT, DOT].len() == 2 && seq![DOT, DOT][0] == DOT && seq![DOT, DOT][1] == DOT);
    Some(path.substring_char(start, n).to_owned())
}

/// `name` as an entry of the directory `dir`.
pub fn join(dir: &str, name: &str) -> (path: String)
    ensures
        path@ == joined(dir@, name@),
{
    let chars = characters(dir);
    let mut path = dir.to_owned();
    if chars.len() > 0 && chars[chars.len() - 1] != SEPARATOR {
        proof {
            reveal_strlit("/");
            assert("/"@ =~= seq![SEPARATOR]);
        }
        path.append("/");
    }
    path.append(name);
    path
}

} // verus!
