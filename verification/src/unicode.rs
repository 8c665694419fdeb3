//! Unicode case mapping and classification, taken from the standard library.
//!
//! These functions are table-driven in std; the library names their results
//! and states only what std documents of them on ASCII.
use vstd::prelude::*;
use crate::text::{
    ascii_lower, ascii_lower_str, ascii_upper_str, is_ascii, is_ascii_alphanumeric, is_ascii_char,
};

verus! {

/// What `char::is_alphanumeric` returns for `c`.
pub uninterp spec fn alphanumeric(c: char) -> bool;

/// What `char::to_lowercase` yields for `c`, collected into a string.
pub uninterp spec fn char_lowercase(c: char) -> Seq<char>;

/// What `str::to_lowercase` returns for `s`.
pub uninterp spec fn str_lowercase(s: Seq<char>) -> Seq<char>;

/// What `str::to_uppercase` returns for `s`.
pub uninterp spec fn str_uppercase(s: Seq<char>) -> Seq<char>;

/// Calls `char::is_alphanumeric`; the result is the name `alphanumeric(c)`.
/// On an ASCII character it is `char::is_ascii_alphanumeric` (std documents
/// the ASCII methods as the ASCII part of these Unicode ones).
#[verifier::external_body]
pub(crate) fn is_alphanumeric(c: char) -> (r: bool)
    ensures
        r == alphanumeric(c),
        is_ascii_char(c) ==> r == is_ascii_alphanumeric(c),
{
    c.is_alphanumeric()
}

/// Calls `char::to_lowercase` and collects what it yields.  std documents
/// that the mapping yields one or more characters, and that on ASCII it does
/// what `to_ascii_lowercase` does; the contract states that and names the
/// rest.
#[verifier::external_body]
pub(crate) fn lowercase_char(c: char) -> (r: String)
    ensures
        r@ == char_lowercase(c),
        r@.len() >= 1,
        is_ascii_char(c) ==> r@ == seq![ascii_lower(c)],
{
    c.to_lowercase().collect()
}

/// Calls `str::to_lowercase`; the result is the name `str_lowercase(s@)`.
/// On an ASCII string it is what `to_ascii_lowercase` gives.
#[verifier::external_body]
pub(crate) fn to_lowercase(s: &str) -> (r: String)
    ensures
        r@ == str_lowercase(s@),
        is_ascii(s@) ==> r@ == ascii_lower_str(s@),
{
    s.to_lowercase()
}

/// Calls `str::to_uppercase`; the result is the name `str_uppercase(s@)`.
/// On an ASCII string it is what `to_ascii_uppercase` gives.
#[verifier::external_body]
pub(crate) fn to_uppercase(s: &str) -> (r: String)
    ensures
        r@ == str_uppercase(s@),
        is_ascii(s@) ==> r@ == ascii_upper_str(s@),
{
    s.to_uppercase()
}

} // verus!
