//! The answer code on the first line of a question file: `X` followed by one
//! flag per answer, `1` marking a correct one (`X1010`: answers a and c).
use vstd::prelude::*;
use crate::text::{chars_of, push_char, sub_chars, trim, trim_str};
use crate::unicode::{str_uppercase, to_uppercase};

verus! {

/// The letter of answer number `i` (0 is `a`, 7 is `h`).
pub open spec fn option_letter(i: int) -> char {
    (97 + i) as char
}

/// The key of answer number `i`, as a one-letter string.
pub open spec fn option_key(i: int) -> Seq<char> {
    seq![option_letter(i)]
}

/// `s` without the leading copies of `c` (`str::trim_start_matches(c)`).
pub open spec fn strip_leading(s: Seq<char>, c: char) -> Seq<char>
    decreases s.len(),
{
    if s.len() > 0 && s[0] == c {
        strip_leading(s.drop_first(), c)
    } else {
        s
    }
}

/// An upper-cased code without the leading invisible characters U+FEFF,
/// U+200B, U+200C, U+200D and U+2060, removed in that order.
pub open spec fn strip_invisible(up: Seq<char>) -> Seq<char> {
    strip_leading(
        strip_leading(
            strip_leading(strip_leading(strip_leading(up, '\u{FEFF}'), '\u{200B}'), '\u{200C}'),
            '\u{200D}',
        ),
        '\u{2060}',
    )
}

/// The code made comparable: trimmed, upper-cased, and without the leading
/// invisible characters.
pub open spec fn clean_code(code: Seq<char>) -> Seq<char> {
    strip_invisible(str_uppercase(trim(code)))
}

/// The keys whose flag in `flags` is `'1'`, among the first eight flags.
pub open spec fn marked_keys(flags: Seq<char>) -> Seq<Seq<char>>
    decreases flags.len(),
{
    if flags.len() == 0 {
        Seq::<Seq<char>>::empty()
    } else {
        let init = marked_keys(flags.drop_last());
        let i = flags.len() - 1;
        if flags.last() == '1' && i < 8 {
            init.push(option_key(i))
        } else {
            init
        }
    }
}

/// The correct answers that a cleaned code names: after a leading `X`, each
/// flag `1` marks the answer of its place (`a` to `h`).  A code that does not
/// start with `X`, or that marks no answer, names answer `a`.
pub open spec fn clean_code_keys(c: Seq<char>) -> Seq<Seq<char>> {
    if !(c.len() > 0 && c[0] == 'X') {
        seq![option_key(0)]
    } else {
        let ks = marked_keys(c.drop_first());
        if ks.len() == 0 {
            seq![option_key(0)]
        } else {
            ks
        }
    }
}

/// The correct answers that an answer code names.
pub open spec fn answer_code_keys(code: Seq<char>) -> Seq<Seq<char>> {
    clean_code_keys(clean_code(code))
}

/// `keys` are one-letter keys `a`..`h` in strictly increasing order.
pub open spec fn ascending_keys(keys: Seq<Seq<char>>) -> bool {
    &&& forall|k: int|
        0 <= k < keys.len() ==> (#[trigger] keys[k]).len() == 1 && 'a' <= keys[k][0] <= 'h'
    &&& forall|k1: int, k2: int|
        0 <= k1 < k2 < keys.len() ==> (#[trigger] keys[k1])[0] < (#[trigger] keys[k2])[0]
}

proof fn lemma_marked_keys_ascending(flags: Seq<char>)
    ensures
        ascending_keys(marked_keys(flags)),
        forall|k: int|
            0 <= k < marked_keys(flags).len() ==> ((#[trigger] marked_keys(flags)[k])[0] as u32)
                < 97 + flags.len(),
    decreases flags.len(),
{
    if flags.len() > 0 {
        lemma_marked_keys_ascending(flags.drop_last());
    }
}

/// Every answer code names at least one correct answer, and names keys
/// `a`..`h` in increasing order without repetition.
pub proof fn lemma_answer_code_keys_ascending(code: Seq<char>)
    ensures
        answer_code_keys(code).len() >= 1,
        ascending_keys(answer_code_keys(code)),
{
    let c = clean_code(code);
    lemma_marked_keys_ascending(c.drop_first());
}

/// The key of answer number `i` as a string.
pub fn key_string(i: usize) -> (s: String)
    requires
        i < 8,
    ensures
        s@ == option_key(i as int),
{
    let u: u8 = 97 + i as u8;
    let c = u as char;
    let mut s = String::new();
    push_char(&mut s, c);
    assert(s@ =~= option_key(i as int));
    s
}

/// `s` without its leading copies of `c`.
fn strip_leading_chars(s: &[char], c: char) -> (t: Vec<char>)
    ensures
        t@ == strip_leading(s@, c),
{
    let mut a: usize = 0;
    assert(s@.skip(0) =~= s@);
    while a < s.len() && s[a] == c
        invariant
            a <= s.len(),
            strip_leading(s@, c) == strip_leading(s@.skip(a as int), c),
        decreases s.len() - a,
    {
        assert(s@.skip(a as int).drop_first() =~= s@.skip(a + 1));
        a = a + 1;
    }
    sub_chars(s, a, s.len())
}

/// The keys of the correct answers named by an answer code that is already
/// trimmed and upper-cased: `upper` is cleaned of its leading invisible
/// characters and its flags are read.
pub fn upper_code_keys(upper: &str) -> (keys: Vec<String>)
    ensures
        keys.deep_view() == clean_code_keys(strip_invisible(upper@)),
{
    let c0 = chars_of(upper);
    let c1 = strip_leading_chars(&c0, '\u{FEFF}');
    let c2 = strip_leading_chars(&c1, '\u{200B}');
    let c3 = strip_leading_chars(&c2, '\u{200C}');
    let c4 = strip_leading_chars(&c3, '\u{200D}');
    let c = strip_leading_chars(&c4, '\u{2060}');
    if !(c.len() > 0 && c[0] == 'X') {
        let keys = vec![key_string(0)];
        assert(keys.deep_view() =~= seq![option_key(0)]);
        return keys;
    }
    let ghost flags = c@.drop_first();
    let mut keys: Vec<String> = Vec::new();
    let mut j: usize = 1;
    assert(flags.take(0) =~= Seq::<char>::empty());
    assert(keys.deep_view() =~= Seq::<Seq<char>>::empty());
    while j < c.len()
        invariant
            1 <= j <= c.len(),
            flags == c@.drop_first(),
            keys.deep_view() == marked_keys(flags.take(j - 1)),
        decreases c.len() - j,
    {
        let i = j - 1;
        assert(flags.take(j as int).drop_last() =~= flags.take(i as int));
        assert(flags.take(j as int).last() == c@[j as int]);
        if c[j] == '1' && i < 8 {
            let ghost before = keys.deep_view();
            keys.push(key_string(i));
            assert(keys.deep_view() =~= before.push(option_key(i as int)));
        }
        j = j + 1;
    }
    assert(flags.take(c.len() - 1) =~= flags);
    if keys.len() == 0 {
        let keys = vec![key_string(0)];
        assert(keys.deep_view() =~= seq![option_key(0)]);
        return keys;
    }
    keys
}

/// The keys of the correct answers named by an answer code such as `X1010`.
pub fn parse_answer_code(code: &str) -> (keys: Vec<String>)
    ensures
        keys.deep_view() == answer_code_keys(code@),
        keys@.len() >= 1,
        ascending_keys(keys.deep_view()),
{
    proof {
        lemma_answer_code_keys_ascending(code@);
    }
    let trimmed = trim_str(code);
    let upper = to_uppercase(trimmed.as_str());
    upper_code_keys(upper.as_str())
}

} // verus!
