//! Regular-expression matching, done by the `regex` and `fancy_regex` crates.
//!
//! Each wrapper compiles the pattern it is given and makes one call.  What a
//! call returns is named (matching semantics take pages to state); the only
//! facts stated beside the names are those the crates document: a match's
//! group 0 is the whole match, and the text before it, the match and the text
//! after it make up the searched text.
use vstd::prelude::*;

verus! {

/// One match of a pattern in a text, as plain strings: the text before the
/// match, the capture groups (group 0 is the whole match; a group that did
/// not take part is `None`), and the text after the match.
pub struct TextMatch {
    pub before: String,
    pub groups: Vec<Option<String>>,
    pub after: String,
}

/// The mathematical form of a `TextMatch`.
pub struct TextMatchView {
    pub before: Seq<char>,
    pub groups: Seq<Option<Seq<char>>>,
    pub after: Seq<char>,
}

impl DeepView for TextMatch {
    type V = TextMatchView;

    open spec fn deep_view(&self) -> TextMatchView {
        TextMatchView {
            before: self.before@,
            groups: self.groups.deep_view(),
            after: self.after@,
        }
    }
}

/// Capture group `i` of `m`, if it exists and took part in the match.
pub open spec fn group(m: TextMatchView, i: int) -> Option<Seq<char>> {
    if 0 <= i < m.groups.len() {
        m.groups[i]
    } else {
        None
    }
}

/// `m` is a match in `text`: group 0 is present and the text before it,
/// group 0 and the text after it make up `text`.
pub open spec fn is_match_in(m: TextMatchView, text: Seq<char>) -> bool {
    &&& m.groups.len() >= 1
    &&& m.groups[0] is Some
    &&& m.before + m.groups[0].unwrap() + m.after == text
}

/// What `regex::Regex::captures` finds for `pattern` in `text` (`None` also
/// when the pattern does not compile).
pub uninterp spec fn regex_captures_result(pattern: Seq<char>, text: Seq<char>) -> Option<
    TextMatchView,
>;

/// What `regex::Regex::is_match` returns for `pattern` and `text` (`false`
/// when the pattern does not compile).
pub uninterp spec fn regex_is_match_result(pattern: Seq<char>, text: Seq<char>) -> bool;

/// What `regex::Regex::replace_all` returns for `pattern`, `text` and
/// `replacement` (`text` itself when the pattern does not compile).
pub uninterp spec fn regex_replace_all_result(
    pattern: Seq<char>,
    text: Seq<char>,
    replacement: Seq<char>,
) -> Seq<char>;

/// The successful matches that `fancy_regex::Regex::captures_iter` yields for
/// `pattern` in `text`, in order (empty when the pattern does not compile).
pub uninterp spec fn fancy_captures_iter_result(pattern: Seq<char>, text: Seq<char>) -> Seq<
    TextMatchView,
>;

/// The first match that `fancy_regex::Regex::find` reports for `pattern` in
/// `text`, with the match as its only group (`None` when there is none, when
/// the search fails, or when the pattern does not compile).
pub uninterp spec fn fancy_find_result(pattern: Seq<char>, text: Seq<char>) -> Option<
    TextMatchView,
>;

/// Calls `regex::Regex::captures`.  The result is named; of a match the
/// contract states that group 0 is the whole match (regex documents
/// `get_match` as `get(0).unwrap()`) and that it splits the text.
#[verifier::external_body]
pub(crate) fn regex_captures(pattern: &str, text: &str) -> (res: Option<TextMatch>)
    ensures
        res.deep_view() == regex_captures_result(pattern@, text@),
        res matches Some(m) ==> is_match_in(m.deep_view(), text@),
{
    let re = match regex::Regex::new(pattern) {
        Ok(re) => re,
        Err(_) => return None,
    };
    re.captures(text).map(|caps| {
        let m = caps.get_match();
        TextMatch {
            before: text[..m.start()].to_string(),
            groups: caps.iter().map(|g| g.map(|g| g.as_str().to_string())).collect(),
            after: text[m.end()..].to_string(),
        }
    })
}

/// Calls `regex::Regex::is_match`; the result is named.
#[verifier::external_body]
pub(crate) fn regex_is_match(pattern: &str, text: &str) -> (res: bool)
    ensures
        res == regex_is_match_result(pattern@, text@),
{
    match regex::Regex::new(pattern) {
        Ok(re) => re.is_match(text),
        Err(_) => false,
    }
}

/// Calls `regex::Regex::replace_all`; the result is named.
#[verifier::external_body]
pub(crate) fn regex_replace_all(pattern: &str, text: &str, replacement: &str) -> (res: String)
    ensures
        res@ == regex_replace_all_result(pattern@, text@, replacement@),
{
    match regex::Regex::new(pattern) {
        Ok(re) => re.replace_all(text, replacement).into_owned(),
        Err(_) => text.to_string(),
    }
}

/// Calls `fancy_regex::Regex::captures_iter` and keeps the matches it yields
/// before its first error (after an error the iterator yields nothing more).
/// The result is named; of each match the contract states that group 0 is the
/// whole match and that it splits the text.
#[verifier::external_body]
pub(crate) fn fancy_captures_iter(pattern: &str, text: &str) -> (res: Vec<TextMatch>)
    ensures
        res.deep_view() == fancy_captures_iter_result(pattern@, text@),
        forall|i: int| 0 <= i < res@.len() ==> is_match_in(#[trigger] res@[i].deep_view(), text@),
{
    let mut out = Vec::new();
    if let Ok(re) = fancy_regex::Regex::new(pattern) {
        for caps in re.captures_iter(text).map_while(|item| item.ok()) {
            let m = caps.get(0).unwrap();
            out.push(TextMatch {
                before: text[..m.start()].to_string(),
                groups: caps.iter().map(|g| g.map(|g| g.as_str().to_string())).collect(),
                after: text[m.end()..].to_string(),
            });
        }
    }
    out
}

/// Calls `fancy_regex::Regex::find`; an error is reported as no match.  The
/// result is named; of a match the contract states that it splits the text.
#[verifier::external_body]
pub(crate) fn fancy_find(pattern: &str, text: &str) -> (res: Option<TextMatch>)
    ensures
        res.deep_view() == fancy_find_result(pattern@, text@),
        res matches Some(m) ==> is_match_in(m.deep_view(), text@),
{
    let re = match fancy_regex::Regex::new(pattern) {
        Ok(re) => re,
        Err(_) => return None,
    };
    match re.find(text) {
        Ok(Some(m)) => Some(TextMatch {
            before: text[..m.start()].to_string(),
            groups: vec![Some(m.as_str().to_string())],
            after: text[m.end()..].to_string(),
        }),
        _ => None,
    }
}

} // verus!
