//! File-system paths, as strings, taken apart by `std::path::Path`.
//!
//! How a path is taken apart depends on the platform (which characters
//! separate components, what a prefix is).  The contracts state what holds of
//! the parts on every platform (they are pieces of the path), and, for a
//! plain path (`plain_path`: `/`-separated, with no `\`, no `:`, and no empty,
//! `.` or `..` component but a leading empty one), the result that std
//! documents.
use vstd::prelude::*;

verus! {

/// `part` occurs in `whole` as a contiguous piece.
pub open spec fn is_piece_of(part: Seq<char>, whole: Seq<char>) -> bool {
    exists|i: int| 0 <= i <= whole.len() - part.len() && #[trigger] whole.subrange(i, i + part.len()) == part
}

/// The index of the last `c` in `s`, if any.
pub open spec fn last_index_of(s: Seq<char>, c: char) -> Option<int>
    decreases s.len(),
{
    if s.len() == 0 {
        None
    } else if s.last() == c {
        Some(s.len() - 1)
    } else {
        last_index_of(s.drop_last(), c)
    }
}

/// The text after the last `/` of `p` (all of `p` when it has none).
pub open spec fn last_component(p: Seq<char>) -> Seq<char> {
    match last_index_of(p, '/') {
        Some(i) => p.skip(i + 1),
        None => p,
    }
}

/// The text of `p` before its last component: empty when `p` has no `/`,
/// `/` when its only `/` starts it, else the text before the last `/`.
pub open spec fn parent_text(p: Seq<char>) -> Seq<char> {
    match last_index_of(p, '/') {
        Some(i) => if i == 0 {
            seq!['/']
        } else {
            p.take(i)
        },
        None => Seq::<char>::empty(),
    }
}

/// `p` is a plain path: no `\` and no `:` in it; its last component is not
/// empty, `.` or `..`; and the text before its last `/` is empty, or is
/// itself a plain path.
pub open spec fn plain_path(p: Seq<char>) -> bool
    decreases p.len(),
{
    &&& !p.contains('\\')
    &&& !p.contains(':')
    &&& last_component(p).len() > 0
    &&& last_component(p) != seq!['.']
    &&& last_component(p) != seq!['.', '.']
    &&& match last_index_of(p, '/') {
        Some(i) => i == 0 || (0 < i < p.len() && plain_path(p.take(i))),
        None => true,
    }
}

/// The extension of a file name, as `Path::extension` documents it: the text
/// after the last `.`, when that `.` is not the first character.
pub open spec fn std_extension(name: Seq<char>) -> Option<Seq<char>> {
    match last_index_of(name, '.') {
        Some(i) => if i > 0 {
            Some(name.skip(i + 1))
        } else {
            None
        },
        None => None,
    }
}

/// The stem of a file name, as `Path::file_stem` documents it: the text
/// before the last `.` when that `.` is not the first character, else the
/// whole name.
pub open spec fn std_stem(name: Seq<char>) -> Seq<char> {
    match last_index_of(name, '.') {
        Some(i) => if i > 0 {
            name.take(i)
        } else {
            name
        },
        None => name,
    }
}

/// Calls `Path::file_name` (the final component), keeping it when it is valid
/// UTF-8.  A file name is a non-empty piece of the path; a plain path's is
/// its last component; the empty path and `/` have none.
#[verifier::external_body]
pub(crate) fn path_file_name(path: &str) -> (r: Option<String>)
    ensures
        r matches Some(n) ==> n@.len() > 0 && is_piece_of(n@, path@),
        plain_path(path@) ==> r.deep_view() == Some(last_component(path@)),
        path@.len() == 0 || path@ == seq!['/'] ==> r is None,
{
    std::path::Path::new(path).file_name().and_then(|n| n.to_str()).map(|n| n.to_string())
}

/// Calls `Path::file_stem` (the file name without its extension), keeping it
/// when it is valid UTF-8.  A stem is a non-empty piece of the path; a plain
/// path's is `std_stem` of its last component.
#[verifier::external_body]
pub(crate) fn path_file_stem(path: &str) -> (r: Option<String>)
    ensures
        r matches Some(n) ==> n@.len() > 0 && is_piece_of(n@, path@),
        plain_path(path@) ==> r.deep_view() == Some(std_stem(last_component(path@))),
{
    std::path::Path::new(path).file_stem().and_then(|n| n.to_str()).map(|n| n.to_string())
}

/// Calls `Path::extension` (what follows the last `.` of the file name),
/// keeping it when it is valid UTF-8.  An extension is a piece of the path
/// with no `.` in it; a plain path's is `std_extension` of its last
/// component.
#[verifier::external_body]
pub(crate) fn path_extension(path: &str) -> (r: Option<String>)
    ensures
        r matches Some(e) ==> is_piece_of(e@, path@) && !e@.contains('.'),
        plain_path(path@) ==> r.deep_view() == std_extension(last_component(path@)),
{
    std::path::Path::new(path).extension().and_then(|e| e.to_str()).map(|e| e.to_string())
}

/// Calls `Path::parent` (the path without its final component), keeping it
/// when it is valid UTF-8.  A parent is a shorter beginning of the path; a
/// plain path's is `parent_text` (std documents `foo/bar` -> `foo`, `foo` ->
/// ``, `/foo` -> `/`).
#[verifier::external_body]
pub(crate) fn path_parent(path: &str) -> (r: Option<String>)
    ensures
        r matches Some(p) ==> p@.len() < path@.len() && p@ == path@.take(p@.len() as int),
        plain_path(path@) ==> r.deep_view() == Some(parent_text(path@)),
{
    std::path::Path::new(path).parent().and_then(|p| p.to_str()).map(|p| p.to_string())
}

} // verus!
