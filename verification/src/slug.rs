//! Slugs: the file-name-safe identifiers of question bases (`nazwa-bazy`).
use vstd::prelude::*;
use crate::model::BaseData;
use crate::paths::{is_piece_of, last_component, path_file_stem, plain_path, std_stem};
use crate::text::{
    ascii_lower, chars_of, is_ascii, is_ascii_alphanumeric, is_ascii_char, is_white_space,
    is_whitespace, string_of, string_result, sub_chars, trim, trim_chars, trim_end, trim_start,
};
use crate::unicode::{alphanumeric, char_lowercase, is_alphanumeric, lowercase_char};

verus! {

/// One step of slug building: an alphanumeric character adds its lower-case
/// form; whitespace, `-` or `_` adds one `-` when the slug is not empty and
/// does not already end in a separator; anything else is dropped.  The flag
/// records whether the slug ends in a separator.
pub open spec fn slug_step(state: (Seq<char>, bool), c: char) -> (Seq<char>, bool) {
    if alphanumeric(c) {
        (state.0 + char_lowercase(c), false)
    } else if (is_white_space(c) || c == '-' || c == '_') && state.0.len() > 0 && !state.1 {
        (state.0.push('-'), true)
    } else {
        state
    }
}

/// Slug building over all characters of `s`, from an empty slug.
pub open spec fn slug_scan(s: Seq<char>) -> (Seq<char>, bool)
    decreases s.len(),
{
    if s.len() == 0 {
        (Seq::<char>::empty(), false)
    } else {
        slug_step(slug_scan(s.drop_last()), s.last())
    }
}

/// `s` without leading `-`.
pub open spec fn strip_leading_dashes(s: Seq<char>) -> Seq<char>
    decreases s.len(),
{
    if s.len() > 0 && s[0] == '-' {
        strip_leading_dashes(s.drop_first())
    } else {
        s
    }
}

/// `s` without trailing `-`.
pub open spec fn strip_trailing_dashes(s: Seq<char>) -> Seq<char>
    decreases s.len(),
{
    if s.len() > 0 && s.last() == '-' {
        strip_trailing_dashes(s.drop_last())
    } else {
        s
    }
}

/// The slug of `value`: `value` trimmed, built into a slug step by step, and
/// without leading or trailing `-` (`str::trim_matches('-')`).
pub open spec fn slug_of(value: Seq<char>) -> Seq<char> {
    strip_trailing_dashes(strip_leading_dashes(slug_scan(trim(value)).0))
}

proof fn lemma_strip_leading_dashes(s: Seq<char>)
    ensures
        strip_leading_dashes(s).len() > 0 ==> strip_leading_dashes(s)[0] != '-',
        exists|k: int| 0 <= k <= s.len() && strip_leading_dashes(s) == s.skip(k),
    decreases s.len(),
{
    if s.len() > 0 && s[0] == '-' {
        lemma_strip_leading_dashes(s.drop_first());
        let k = choose|k: int|
            0 <= k <= s.drop_first().len() && strip_leading_dashes(s.drop_first()) == s.drop_first().skip(k);
        assert(s.drop_first().skip(k) =~= s.skip(k + 1));
    } else {
        assert(s.skip(0) =~= s);
    }
}

proof fn lemma_strip_trailing_dashes(s: Seq<char>)
    ensures
        strip_trailing_dashes(s).len() > 0 ==> strip_trailing_dashes(s).last() != '-',
        exists|k: int| 0 <= k <= s.len() && strip_trailing_dashes(s) == s.take(k),
        s.len() > 0 && s[0] != '-' && strip_trailing_dashes(s).len() > 0 ==> strip_trailing_dashes(s)[0] == s[0],
    decreases s.len(),
{
    if s.len() > 0 && s.last() == '-' {
        lemma_strip_trailing_dashes(s.drop_last());
        let k = choose|k: int|
            0 <= k <= s.drop_last().len() && strip_trailing_dashes(s.drop_last()) == s.drop_last().take(k);
        assert(s.drop_last().take(k) =~= s.take(k));
        if s.len() > 1 && s[0] != '-' {
            assert(s.drop_last()[0] == s[0]);
        }
    } else {
        assert(s.take(s.len() as int) =~= s);
    }
}

/// A slug never starts or ends with `-`.
pub proof fn lemma_slug_dashes(value: Seq<char>)
    ensures
        slug_of(value).len() > 0 ==> slug_of(value)[0] != '-' && slug_of(value).last() != '-',
{
    let t = strip_leading_dashes(slug_scan(trim(value)).0);
    lemma_strip_leading_dashes(slug_scan(trim(value)).0);
    lemma_strip_trailing_dashes(t);
}

/// A character that slug building keeps as it is: alphanumeric, its own
/// lower-case form, neither `-` nor whitespace.
pub open spec fn settled_char(d: char) -> bool {
    &&& alphanumeric(d)
    &&& char_lowercase(d) == seq![d]
    &&& d != '-'
    &&& !is_white_space(d)
}

/// The lower-case form of `c` is not empty and made of settled characters.
pub open spec fn lowercase_is_settled(c: char) -> bool {
    &&& char_lowercase(c).len() > 0
    &&& forall|j: int| 0 <= j < char_lowercase(c).len() ==> settled_char(#[trigger] char_lowercase(c)[j])
}

/// `s` has the shape of a slug under construction: settled characters and
/// single `-` separators, not starting with `-`.
pub open spec fn slug_shaped(s: Seq<char>) -> bool {
    &&& forall|i: int| 0 <= i < s.len() ==> #[trigger] s[i] == '-' || settled_char(s[i])
    &&& s.len() > 0 ==> s[0] != '-'
    &&& forall|i: int| 0 <= i < s.len() - 1 ==> !(#[trigger] s[i] == '-' && s[i + 1] == '-')
}

proof fn lemma_scan_shaped(p: Seq<char>)
    requires
        forall|i: int| 0 <= i < p.len() && alphanumeric(#[trigger] p[i]) ==> lowercase_is_settled(p[i]),
    ensures
        slug_shaped(slug_scan(p).0),
        slug_scan(p).1 == (slug_scan(p).0.len() > 0 && slug_scan(p).0.last() == '-'),
    decreases p.len(),
{
    if p.len() > 0 {
        let init = p.drop_last();
        assert forall|i: int| 0 <= i < init.len() && alphanumeric(#[trigger] init[i]) implies lowercase_is_settled(init[i]) by {
            assert(init[i] == p[i]);
        }
        lemma_scan_shaped(init);
        let (s0, f) = slug_scan(init);
        let c = p.last();
        assert(c == p[p.len() - 1]);
        if alphanumeric(c) {
            let l = char_lowercase(c);
            let s1 = s0 + l;
            assert(s1.len() > 0 && s1.last() == l[l.len() - 1]);
            assert(settled_char(l[l.len() - 1]));
            assert forall|i: int| 0 <= i < s1.len() implies #[trigger] s1[i] == '-' || settled_char(s1[i]) by {
                if i < s0.len() {
                    assert(s1[i] == s0[i]);
                } else {
                    assert(s1[i] == l[i - s0.len()]);
                }
            }
            if s0.len() == 0 {
                assert(s1[0] == l[0]);
                assert(settled_char(l[0]));
            } else {
                assert(s1[0] == s0[0]);
            }
            assert forall|i: int| 0 <= i < s1.len() - 1 implies !(#[trigger] s1[i] == '-' && s1[i + 1] == '-') by {
                if i + 1 < s0.len() {
                    assert(s1[i] == s0[i]);
                    assert(s1[i + 1] == s0[i + 1]);
                } else {
                    assert(s1[i + 1] == l[i + 1 - s0.len()]);
                    assert(settled_char(l[i + 1 - s0.len()]));
                }
            }
        } else if (is_white_space(c) || c == '-' || c == '_') && s0.len() > 0 && !f {
            let s1 = s0.push('-');
            assert forall|i: int| 0 <= i < s1.len() implies #[trigger] s1[i] == '-' || settled_char(s1[i]) by {
                if i < s0.len() {
                    assert(s1[i] == s0[i]);
                }
            }
            assert(s1[0] == s0[0]);
            assert forall|i: int| 0 <= i < s1.len() - 1 implies !(#[trigger] s1[i] == '-' && s1[i + 1] == '-') by {
                assert(s1[i] == s0[i]);
                if i + 1 < s0.len() {
                    assert(s1[i + 1] == s0[i + 1]);
                } else {
                    assert(s0[i] == s0.last());
                }
            }
        }
    }
}

proof fn lemma_shaped_prefix(s: Seq<char>)
    requires
        slug_shaped(s),
        s.len() > 0,
    ensures
        slug_shaped(s.drop_last()),
{
    let t = s.drop_last();
    assert forall|i: int| 0 <= i < t.len() implies #[trigger] t[i] == '-' || settled_char(t[i]) by {
        assert(t[i] == s[i]);
    }
    if t.len() > 0 {
        assert(t[0] == s[0]);
    }
    assert forall|i: int| 0 <= i < t.len() - 1 implies !(#[trigger] t[i] == '-' && t[i + 1] == '-') by {
        assert(t[i] == s[i]);
        assert(t[i + 1] == s[i + 1]);
    }
}

proof fn lemma_scan_of_shaped(s: Seq<char>)
    requires
        slug_shaped(s),
        !alphanumeric('-'),
    ensures
        slug_scan(s) == (s, s.len() > 0 && s.last() == '-'),
    decreases s.len(),
{
    if s.len() > 0 {
        let init = s.drop_last();
        lemma_shaped_prefix(s);
        lemma_scan_of_shaped(init);
        let c = s.last();
        assert(c == s[s.len() - 1]);
        if c == '-' {
            assert(s.len() > 1);
            assert(init.last() == s[s.len() - 2]);
            assert(init.push('-') =~= s);
        } else {
            assert(settled_char(c));
            assert(init + seq![c] =~= s);
        }
    } else {
        assert(s =~= Seq::<char>::empty());
    }
}

/// Normalizing a slug again changes nothing, provided the lower-case forms
/// of its alphanumeric characters are settled (their own lower-case form,
/// alphanumeric, neither `-` nor whitespace) and `-` is not alphanumeric.
/// (A character whose lower-case form carries a combining mark, such as
/// `İ`, breaks this: the mark is dropped the second time.)
pub proof fn law_slug_idempotent(value: Seq<char>)
    requires
        forall|i: int|
            0 <= i < value.len() && alphanumeric(#[trigger] value[i]) ==> lowercase_is_settled(
                value[i],
            ),
        !alphanumeric('-'),
    ensures
        slug_of(slug_of(value)) == slug_of(value),
{
    let t = trim(value);
    crate::text::lemma_trim_bounds(value);
    let (a, b) = choose|a: int, b: int| 0 <= a <= b <= value.len() && t == value.subrange(a, b);
    assert forall|i: int| 0 <= i < t.len() && alphanumeric(#[trigger] t[i]) implies lowercase_is_settled(t[i]) by {
        assert(t[i] == value[i + a]);
    }
    lemma_scan_shaped(t);
    let s0 = slug_scan(t).0;
    assert(strip_leading_dashes(s0) == s0);
    let r = strip_trailing_dashes(s0);
    if s0.len() > 0 && s0.last() == '-' {
        lemma_shaped_prefix(s0);
        let d = s0.drop_last();
        if d.len() > 0 {
            assert(d.last() == s0[s0.len() - 2]);
        }
        assert(strip_trailing_dashes(d) == d);
        assert(r == d);
    } else {
        assert(r == s0);
    }
    assert(slug_shaped(r));
    assert(slug_of(value) == r);
    // No whitespace in `r`, so trimming keeps it.
    assert(trim_start(r) == r);
    assert(trim_end(r) == r);
    lemma_scan_of_shaped(r);
    assert(strip_leading_dashes(r) == r);
}

/// What std documents of `char::is_alphanumeric` and `char::to_lowercase` on
/// ASCII holds for the ASCII characters of `t`.
pub open spec fn ascii_case_known(t: Seq<char>) -> bool {
    forall|i: int|
        0 <= i < t.len() && is_ascii_char(#[trigger] t[i]) ==> alphanumeric(t[i])
            == is_ascii_alphanumeric(t[i]) && (alphanumeric(t[i]) ==> char_lowercase(t[i])
            == seq![ascii_lower(t[i])])
}

/// `s` is made of `a`..`z`, `0`..`9` and single `-` separators.
pub open spec fn ascii_slug(s: Seq<char>) -> bool {
    &&& forall|i: int|
        0 <= i < s.len() ==> ('a' <= #[trigger] s[i] <= 'z' || '0' <= s[i] <= '9' || s[i] == '-')
    &&& forall|i: int| 0 <= i < s.len() - 1 ==> !(#[trigger] s[i] == '-' && s[i + 1] == '-')
}

/// `s` holds an ASCII letter or digit.
pub open spec fn has_ascii_alphanumeric(s: Seq<char>) -> bool {
    exists|i: int| 0 <= i < s.len() && is_ascii_alphanumeric(#[trigger] s[i])
}

proof fn lemma_scan_ascii(p: Seq<char>)
    requires
        is_ascii(p),
        ascii_case_known(p),
    ensures
        ascii_slug(slug_scan(p).0),
        slug_scan(p).1 == (slug_scan(p).0.len() > 0 && slug_scan(p).0.last() == '-'),
        slug_scan(p).0.len() > 0 ==> slug_scan(p).0[0] != '-',
        slug_scan(p).0.len() > 0 <==> has_ascii_alphanumeric(p),
    decreases p.len(),
{
    if p.len() > 0 {
        let init = p.drop_last();
        assert forall|i: int| 0 <= i < init.len() && is_ascii_char(#[trigger] init[i]) implies alphanumeric(
            init[i],
        ) == is_ascii_alphanumeric(init[i]) && (alphanumeric(init[i]) ==> char_lowercase(init[i])
            == seq![ascii_lower(init[i])]) by {
            assert(init[i] == p[i]);
        }
        assert forall|i: int| 0 <= i < init.len() implies is_ascii_char(#[trigger] init[i]) by {
            assert(init[i] == p[i]);
        }
        lemma_scan_ascii(init);
        let (s0, f) = slug_scan(init);
        let c = p.last();
        assert(c == p[p.len() - 1]);
        assert(is_ascii_char(c));
        assert(has_ascii_alphanumeric(p) <==> has_ascii_alphanumeric(init) || is_ascii_alphanumeric(c)) by {
            if has_ascii_alphanumeric(init) {
                let k = choose|k: int| 0 <= k < init.len() && is_ascii_alphanumeric(#[trigger] init[k]);
                assert(p[k] == init[k]);
            }
            if has_ascii_alphanumeric(p) {
                let k = choose|k: int| 0 <= k < p.len() && is_ascii_alphanumeric(#[trigger] p[k]);
                if k < init.len() {
                    assert(init[k] == p[k]);
                }
            }
        }
        if alphanumeric(c) {
            let l = seq![ascii_lower(c)];
            assert(char_lowercase(c) == l);
            let s1 = s0 + l;
            assert forall|i: int| 0 <= i < s1.len() implies ('a' <= #[trigger] s1[i] <= 'z' || '0'
                <= s1[i] <= '9' || s1[i] == '-') by {
                if i < s0.len() {
                    assert(s1[i] == s0[i]);
                } else {
                    assert(s1[i] == ascii_lower(c));
                }
            }
            assert forall|i: int| 0 <= i < s1.len() - 1 implies !(#[trigger] s1[i] == '-' && s1[i
                + 1] == '-') by {
                if i + 1 < s0.len() {
                    assert(s1[i] == s0[i]);
                    assert(s1[i + 1] == s0[i + 1]);
                } else {
                    assert(s1[i + 1] == ascii_lower(c));
                }
            }
            if s0.len() > 0 {
                assert(s1[0] == s0[0]);
            } else {
                assert(s1[0] == ascii_lower(c));
            }
            assert(s1.last() == ascii_lower(c));
        } else if (is_white_space(c) || c == '-' || c == '_') && s0.len() > 0 && !f {
            let s1 = s0.push('-');
            assert forall|i: int| 0 <= i < s1.len() implies ('a' <= #[trigger] s1[i] <= 'z' || '0'
                <= s1[i] <= '9' || s1[i] == '-') by {
                if i < s0.len() {
                    assert(s1[i] == s0[i]);
                }
            }
            assert forall|i: int| 0 <= i < s1.len() - 1 implies !(#[trigger] s1[i] == '-' && s1[i
                + 1] == '-') by {
                assert(s1[i] == s0[i]);
                if i + 1 < s0.len() {
                    assert(s1[i + 1] == s0[i + 1]);
                } else {
                    assert(s0[i] == s0.last());
                }
            }
            assert(s1[0] == s0[0]);
        }
    }
}

/// Trimming keeps every character that is not whitespace.
proof fn lemma_trim_keeps(s: Seq<char>)
    ensures
        forall|i: int| 0 <= i < s.len() && !is_white_space(#[trigger] s[i]) ==> trim(s).contains(s[i]),
{
    lemma_trim_start_keeps(s);
    let t = trim_start(s);
    lemma_trim_end_keeps(t);
    assert forall|i: int| 0 <= i < s.len() && !is_white_space(#[trigger] s[i]) implies trim(s).contains(s[i]) by {
        assert(t.contains(s[i]));
        let k = choose|k: int| 0 <= k < t.len() && t[k] == s[i];
        assert(!is_white_space(t[k]));
    }
}

proof fn lemma_trim_start_keeps(s: Seq<char>)
    ensures
        forall|i: int| 0 <= i < s.len() && !is_white_space(#[trigger] s[i]) ==> trim_start(s).contains(s[i]),
    decreases s.len(),
{
    if s.len() > 0 && is_white_space(s[0]) {
        lemma_trim_start_keeps(s.drop_first());
        assert forall|i: int| 0 <= i < s.len() && !is_white_space(#[trigger] s[i]) implies trim_start(s).contains(s[i]) by {
            assert(s.drop_first()[i - 1] == s[i]);
        }
    } else {
        assert forall|i: int| 0 <= i < s.len() && !is_white_space(#[trigger] s[i]) implies trim_start(s).contains(s[i]) by {
            assert(trim_start(s)[i] == s[i]);
        }
    }
}

proof fn lemma_trim_end_keeps(s: Seq<char>)
    ensures
        forall|i: int| 0 <= i < s.len() && !is_white_space(#[trigger] s[i]) ==> trim_end(s).contains(s[i]),
    decreases s.len(),
{
    if s.len() > 0 && is_white_space(s.last()) {
        lemma_trim_end_keeps(s.drop_last());
        assert forall|i: int| 0 <= i < s.len() && !is_white_space(#[trigger] s[i]) implies trim_end(s).contains(s[i]) by {
            assert(i < s.len() - 1);
            assert(s.drop_last()[i] == s[i]);
        }
    } else {
        assert forall|i: int| 0 <= i < s.len() && !is_white_space(#[trigger] s[i]) implies trim_end(s).contains(s[i]) by {
            assert(trim_end(s)[i] == s[i]);
        }
    }
}

/// On ASCII input whose characters std maps as it documents, a slug is made
/// of `a`..`z`, `0`..`9` and single inner `-`, and is empty exactly when the
/// input has no ASCII letter or digit.
proof fn lemma_slug_ascii(value: Seq<char>)
    requires
        is_ascii(value),
        ascii_case_known(trim(value)),
    ensures
        ascii_slug(slug_of(value)),
        slug_of(value).len() == 0 <==> !has_ascii_alphanumeric(value),
{
    let t = trim(value);
    crate::text::lemma_trim_bounds(value);
    let (a, b) = choose|a: int, b: int| 0 <= a <= b <= value.len() && t == value.subrange(a, b);
    assert forall|i: int| 0 <= i < t.len() implies is_ascii_char(#[trigger] t[i]) by {
        assert(t[i] == value[i + a]);
    }
    lemma_scan_ascii(t);
    lemma_trim_keeps(value);
    assert(has_ascii_alphanumeric(t) <==> has_ascii_alphanumeric(value)) by {
        if has_ascii_alphanumeric(value) {
            let k = choose|k: int| 0 <= k < value.len() && is_ascii_alphanumeric(#[trigger] value[k]);
            assert(!is_white_space(value[k]));
            assert(t.contains(value[k]));
            let j = choose|j: int| 0 <= j < t.len() && t[j] == value[k];
            assert(is_ascii_alphanumeric(t[j]));
        }
        if has_ascii_alphanumeric(t) {
            let k = choose|k: int| 0 <= k < t.len() && is_ascii_alphanumeric(#[trigger] t[k]);
            assert(value[k + a] == t[k]);
        }
    }
    let s0 = slug_scan(t).0;
    assert(strip_leading_dashes(s0) == s0);
    lemma_strip_trailing_dashes(s0);
    let r = strip_trailing_dashes(s0);
    let k = choose|k: int| 0 <= k <= s0.len() && r == s0.take(k);
    assert forall|i: int| 0 <= i < r.len() implies ('a' <= #[trigger] r[i] <= 'z' || '0' <= r[i]
        <= '9' || r[i] == '-') by {
        assert(r[i] == s0[i]);
    }
    assert forall|i: int| 0 <= i < r.len() - 1 implies !(#[trigger] r[i] == '-' && r[i + 1] == '-') by {
        assert(r[i] == s0[i]);
        assert(r[i + 1] == s0[i + 1]);
    }
    if s0.len() > 0 {
        lemma_strip_trailing_nonempty(s0);
    }
    assert(slug_of(value) == r);
}

/// `s` is a slug of ASCII letters and digits: `ascii_slug`, with no `-` at
/// either end.
pub open spec fn plain_ascii_slug(s: Seq<char>) -> bool {
    &&& ascii_slug(s)
    &&& s.len() > 0 ==> s[0] != '-' && s.last() != '-'
}

/// Slug building leaves an ASCII slug as it is, when std maps its
/// characters as it documents.
proof fn lemma_scan_ascii_slug(s: Seq<char>)
    requires
        ascii_slug(s),
        s.len() > 0 ==> s[0] != '-',
        ascii_case_known(s),
    ensures
        slug_scan(s) == (s, s.len() > 0 && s.last() == '-'),
    decreases s.len(),
{
    if s.len() > 0 {
        let init = s.drop_last();
        assert forall|i: int| 0 <= i < init.len() implies ('a' <= #[trigger] init[i] <= 'z' || '0'
            <= init[i] <= '9' || init[i] == '-') by {
            assert(init[i] == s[i]);
        }
        assert forall|i: int| 0 <= i < init.len() - 1 implies !(#[trigger] init[i] == '-' && init[i
            + 1] == '-') by {
            assert(init[i] == s[i]);
            assert(init[i + 1] == s[i + 1]);
        }
        assert forall|i: int| 0 <= i < init.len() && is_ascii_char(#[trigger] init[i]) implies alphanumeric(
            init[i],
        ) == is_ascii_alphanumeric(init[i]) && (alphanumeric(init[i]) ==> char_lowercase(init[i])
            == seq![ascii_lower(init[i])]) by {
            assert(init[i] == s[i]);
        }
        if init.len() > 0 {
            assert(init[0] == s[0]);
        }
        lemma_scan_ascii_slug(init);
        let c = s.last();
        assert(c == s[s.len() - 1]);
        assert(is_ascii_char(c));
        if c == '-' {
            assert(s.len() > 1);
            assert(init.last() == s[s.len() - 2]);
            assert(!alphanumeric(c));
            assert(init.push('-') =~= s);
        } else {
            assert(alphanumeric(c));
            assert(ascii_lower(c) == c);
            assert(init + seq![c] =~= s);
        }
    } else {
        assert(s =~= Seq::<char>::empty());
    }
}

/// An ASCII slug is its own slug, when std maps its characters as it
/// documents.
proof fn lemma_slug_of_ascii_slug(s: Seq<char>)
    requires
        plain_ascii_slug(s),
        ascii_case_known(s),
    ensures
        slug_of(s) == s,
{
    assert forall|i: int| 0 <= i < s.len() implies !is_white_space(#[trigger] s[i]) by {
        assert('a' <= s[i] <= 'z' || '0' <= s[i] <= '9' || s[i] == '-');
    }
    if s.len() > 0 {
        assert(!is_white_space(s[0]));
        assert(!is_white_space(s[s.len() - 1]));
    }
    assert(trim_start(s) == s);
    assert(trim_end(s) == s);
    lemma_scan_ascii_slug(s);
    assert(strip_leading_dashes(s) == s);
    assert(strip_trailing_dashes(s) == s);
}

proof fn lemma_strip_trailing_nonempty(s: Seq<char>)
    requires
        s.len() > 0,
        s[0] != '-',
    ensures
        strip_trailing_dashes(s).len() > 0,
    decreases s.len(),
{
    if s.last() == '-' {
        assert(s.len() > 1);
        assert(s.drop_last()[0] == s[0]);
        lemma_strip_trailing_nonempty(s.drop_last());
    }
}

/// The flag given for character `i`: `false` past the end of `alnums`.
pub open spec fn class_flag(alnums: Seq<bool>, i: int) -> bool {
    0 <= i < alnums.len() && alnums[i]
}

/// The lower-case form given for character `i`: empty past the end of
/// `lowers`.
pub open spec fn class_lower(lowers: Seq<Seq<char>>, i: int) -> Seq<char> {
    if 0 <= i < lowers.len() {
        lowers[i]
    } else {
        Seq::<char>::empty()
    }
}

/// Slug building over `t`, with the classes of its characters given.
pub open spec fn slug_scan_with(t: Seq<char>, alnums: Seq<bool>, lowers: Seq<Seq<char>>) -> (
    Seq<char>,
    bool,
)
    decreases t.len(),
{
    if t.len() == 0 {
        (Seq::<char>::empty(), false)
    } else {
        let state = slug_scan_with(t.drop_last(), alnums, lowers);
        let i = t.len() - 1;
        let c = t.last();
        if class_flag(alnums, i) {
            (state.0 + class_lower(lowers, i), false)
        } else if (is_white_space(c) || c == '-' || c == '_') && state.0.len() > 0 && !state.1 {
            (state.0.push('-'), true)
        } else {
            state
        }
    }
}

/// The slug of the trimmed `t`, with the classes of its characters given.
pub open spec fn slug_with(t: Seq<char>, alnums: Seq<bool>, lowers: Seq<Seq<char>>) -> Seq<char> {
    strip_trailing_dashes(strip_leading_dashes(slug_scan_with(t, alnums, lowers).0))
}

/// The classes given are those std gives for the characters of `t`.
pub open spec fn classes_known(t: Seq<char>, alnums: Seq<bool>, lowers: Seq<Seq<char>>) -> bool {
    forall|j: int|
        0 <= j < t.len() ==> class_flag(alnums, j) == alphanumeric(#[trigger] t[j]) && (class_flag(
            alnums,
            j,
        ) ==> class_lower(lowers, j) == char_lowercase(t[j]))
}

proof fn lemma_scan_with(t: Seq<char>, alnums: Seq<bool>, lowers: Seq<Seq<char>>)
    requires
        classes_known(t, alnums, lowers),
    ensures
        slug_scan_with(t, alnums, lowers) == slug_scan(t),
        slug_with(t, alnums, lowers) == strip_trailing_dashes(strip_leading_dashes(slug_scan(t).0)),
    decreases t.len(),
{
    if t.len() > 0 {
        let init = t.drop_last();
        assert forall|j: int| 0 <= j < init.len() implies class_flag(alnums, j) == alphanumeric(
            #[trigger] init[j],
        ) && (class_flag(alnums, j) ==> class_lower(lowers, j) == char_lowercase(init[j])) by {
            assert(init[j] == t[j]);
        }
        lemma_scan_with(init, alnums, lowers);
        assert(t.last() == t[t.len() - 1]);
    }
}

/// Builds the slug of `value`:
/// lower-cased alphanumerics, separators collapsed into single `-`, no `-` at
/// either end.  On ASCII input the slug is made of `a`..`z`, `0`..`9` and
/// single inner `-`, empty exactly when the input has no letter or digit; and
/// such a slug is given back unchanged, so normalizing is idempotent on ASCII
/// input.
pub fn normalize_slug(value: &str) -> (slug: String)
    ensures
        slug@ == slug_of(value@),
        slug@.len() > 0 ==> slug@[0] != '-' && slug@.last() != '-',
        is_ascii(value@) ==> ascii_slug(slug@) && (slug@.len() == 0 <==> !has_ascii_alphanumeric(
            value@,
        )),
        plain_ascii_slug(value@) ==> slug@ == value@,
{
    proof {
        lemma_slug_dashes(value@);
    }
    let all = chars_of(value);
    let t = trim_chars(&all);
    let mut alnums: Vec<bool> = Vec::new();
    let mut lowers: Vec<String> = Vec::new();
    let mut i: usize = 0;
    while i < t.len()
        invariant
            i <= t.len(),
            alnums.len() == i,
            lowers.len() == i,
            classes_known(t@.take(i as int), alnums@, lowers.deep_view()),
            forall|j: int|
                0 <= j < i && is_ascii_char(#[trigger] t@[j]) ==> alphanumeric(t@[j])
                    == is_ascii_alphanumeric(t@[j]) && (alphanumeric(t@[j]) ==> char_lowercase(
                    t@[j],
                ) == seq![ascii_lower(t@[j])]),
        decreases t.len() - i,
    {
        let c = t[i];
        let alnum = is_alphanumeric(c);
        let lower = if alnum {
            lowercase_char(c)
        } else {
            String::new()
        };
        let ghost lv = lowers.deep_view();
        let ghost av = alnums@;
        alnums.push(alnum);
        lowers.push(lower);
        proof {
            assert(lowers.deep_view() =~= lv.push(lower@));
            assert(alnums@ =~= av.push(alnum));
            let p = t@.take(i + 1);
            let q = t@.take(i as int);
            assert forall|j: int| 0 <= j < p.len() implies class_flag(alnums@, j) == alphanumeric(
                #[trigger] p[j],
            ) && (class_flag(alnums@, j) ==> class_lower(lowers.deep_view(), j) == char_lowercase(
                p[j],
            )) by {
                if j < i {
                    assert(p[j] == q[j]);
                    assert(class_flag(alnums@, j) == class_flag(av, j));
                    assert(class_lower(lowers.deep_view(), j) == class_lower(lv, j));
                    assert(class_flag(av, j) == alphanumeric(q[j]));
                } else {
                    assert(p[j] == c);
                }
            }
        }
        i = i + 1;
    }
    assert(t@.take(t.len() as int) =~= t@);
    proof {
        lemma_scan_with(t@, alnums@, lowers.deep_view());
        if is_ascii(value@) {
            assert(ascii_case_known(t@));
            lemma_slug_ascii(value@);
        }
        if plain_ascii_slug(value@) {
            assert forall|j: int| 0 <= j < value@.len() implies !is_white_space(#[trigger] value@[j]) by {
                assert('a' <= value@[j] <= 'z' || '0' <= value@[j] <= '9' || value@[j] == '-');
            }
            if value@.len() > 0 {
                assert(!is_white_space(value@[0]));
                assert(!is_white_space(value@[value@.len() - 1]));
            }
            assert(trim_start(value@) == value@);
            assert(trim_end(value@) == value@);
            assert(t@ == value@);
            assert(ascii_case_known(value@));
            lemma_slug_of_ascii_slug(value@);
        }
    }
    slug_from_classes(&t, &alnums, &lowers)
}

/// Builds a slug from the trimmed characters `t`, given for each whether it
/// is alphanumeric (`alnums`) and, when it is, its lower-case form
/// (`lowers`): what `char::is_alphanumeric` and `char::to_lowercase` gave.
pub fn slug_from_classes(t: &[char], alnums: &Vec<bool>, lowers: &Vec<String>) -> (slug: String)
    ensures
        slug@ == slug_with(t@, alnums@, lowers.deep_view()),
{
    let ghost lv = lowers.deep_view();
    let mut slug: Vec<char> = Vec::new();
    let mut last_was_separator = false;
    let mut i: usize = 0;
    assert(t@.take(0) =~= Seq::<char>::empty());
    while i < t.len()
        invariant
            i <= t.len(),
            lv == lowers.deep_view(),
            (slug@, last_was_separator) == slug_scan_with(t@.take(i as int), alnums@, lv),
        decreases t.len() - i,
    {
        let c = t[i];
        assert(t@.take(i + 1).drop_last() =~= t@.take(i as int));
        assert(t@.take(i + 1).last() == c);
        let alnum = i < alnums.len() && alnums[i];
        if alnum {
            let lc = if i < lowers.len() {
                chars_of(lowers[i].as_str())
            } else {
                Vec::new()
            };
            proof {
                if i >= lowers.len() {
                    assert(lc@ =~= Seq::<char>::empty());
                }
            }
            crate::text::append_chars(&mut slug, &lc);
            last_was_separator = false;
        } else if (is_whitespace(c) || c == '-' || c == '_') && slug.len() > 0 && !last_was_separator {
            slug.push('-');
            last_was_separator = true;
        }
        i = i + 1;
    }
    assert(t@.take(t.len() as int) =~= t@);
    let mut a: usize = 0;
    assert(slug@.skip(0) =~= slug@);
    while a < slug.len() && slug[a] == '-'
        invariant
            a <= slug.len(),
            strip_leading_dashes(slug@) == strip_leading_dashes(slug@.skip(a as int)),
        decreases slug.len() - a,
    {
        assert(slug@.skip(a as int).drop_first() =~= slug@.skip(a + 1));
        a = a + 1;
    }
    let mut b: usize = slug.len();
    let ghost lead = slug@.skip(a as int);
    assert(lead.take(lead.len() as int) =~= lead);
    while b > a && slug[b - 1] == '-'
        invariant
            a <= b <= slug.len(),
            lead == slug@.skip(a as int),
            strip_trailing_dashes(lead) == strip_trailing_dashes(lead.take(b - a)),
        decreases b,
    {
        assert(lead.take(b - a).drop_last() =~= lead.take(b - a - 1));
        assert(lead.take(b - a).last() == slug@[b - 1]);
        b = b - 1;
    }
    assert(lead.take(b - a) =~= slug@.subrange(a as int, b as int));
    let kept = sub_chars(&slug, a, b);
    string_of(&kept)
}

/// The error when no slug can be derived for an imported base.
pub const NO_SLUG_ERROR: &'static str = "Could not derive a valid slug for imported base";

/// The slug of the first candidate whose slug is not empty.
pub open spec fn first_slug(candidates: Seq<Seq<char>>) -> Option<Seq<char>>
    decreases candidates.len(),
{
    if candidates.len() == 0 {
        None
    } else if slug_of(candidates[0]).len() > 0 {
        Some(slug_of(candidates[0]))
    } else {
        first_slug(candidates.drop_first())
    }
}

/// The candidates for the slug of an imported base: its slug, name and
/// display name, then the stem of its file when there is one.
pub open spec fn slug_candidates(base: crate::model::BaseDataView, stem: Option<Seq<char>>) -> Seq<Seq<char>> {
    let fixed = seq![base.slug, base.name, base.display_name];
    match stem {
        Some(s) => fixed.push(s),
        None => fixed,
    }
}

/// The slug derived from the candidates, or the error `NO_SLUG_ERROR`.
pub open spec fn derived_slug(base: crate::model::BaseDataView, stem: Option<Seq<char>>) -> Result<Seq<char>, Seq<char>> {
    match first_slug(slug_candidates(base, stem)) {
        Some(s) => Ok(s),
        None => Err(NO_SLUG_ERROR@),
    }
}

/// The slug of an imported base when the stem of its file is `stem`: the
/// first non-empty slug of its slug, name, display name and file stem.
pub fn derive_slug_from_stem(base_data: &BaseData, stem: Option<&str>) -> (r: Result<String, String>)
    ensures
        string_result(r) == derived_slug(base_data.deep_view(), stem.deep_view()),
        r matches Ok(s) ==> s@.len() > 0,
{
    let ghost cands = slug_candidates(base_data.deep_view(), stem.deep_view());
    let s0 = normalize_slug(base_data.slug.as_str());
    if !s0.as_str().is_empty() {
        return Ok(s0);
    }
    let ghost c1 = cands.drop_first();
    assert(first_slug(cands) == first_slug(c1));
    let s1 = normalize_slug(base_data.name.as_str());
    if !s1.as_str().is_empty() {
        return Ok(s1);
    }
    let ghost c2 = c1.drop_first();
    assert(first_slug(c1) == first_slug(c2));
    let s2 = normalize_slug(base_data.display_name.as_str());
    if !s2.as_str().is_empty() {
        return Ok(s2);
    }
    let ghost c3 = c2.drop_first();
    assert(first_slug(c2) == first_slug(c3));
    if let Some(st) = stem {
        let s3 = normalize_slug(st);
        if !s3.as_str().is_empty() {
            return Ok(s3);
        }
        assert(first_slug(c3) == first_slug(c3.drop_first()));
    }
    Err(NO_SLUG_ERROR.to_owned())
}

/// The slug of an imported base read from the file at `file_path`: the
/// file's stem is the last
/// candidate.  Whatever the stem, a derived slug is the slug of one of the
/// candidates, tried in order.
pub fn derive_slug(base_data: &BaseData, file_path: &str) -> (r: Result<String, String>)
    ensures
        plain_path(file_path@) ==> string_result(r) == derived_slug(
            base_data.deep_view(),
            Some(std_stem(last_component(file_path@))),
        ),
        exists|stem: Option<Seq<char>>|
            (stem matches Some(s) ==> is_piece_of(s, file_path@)) && string_result(r)
                == #[trigger] derived_slug(base_data.deep_view(), stem),
{
    let stem = path_file_stem(file_path);
    let r = match &stem {
        Some(s) => derive_slug_from_stem(base_data, Some(s.as_str())),
        None => derive_slug_from_stem(base_data, None),
    };
    proof {
        let sv = stem.deep_view();
        assert(sv matches Some(s) ==> is_piece_of(s, file_path@));
        assert(string_result(r) == derived_slug(base_data.deep_view(), sv));
    }
    r
}

} // verus!
