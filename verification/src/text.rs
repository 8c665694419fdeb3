//! Character-level text handling: whitespace, trimming, line splitting and
//! joining, ASCII case folding and simple replacements, all stated over the
//! `Seq<char>` view of strings.
use vstd::prelude::*;
use vstd::utf8::{encode_scalar, encode_utf8};

verus! {

// ---------------------------------------------------------------------------
// Specifications
// ---------------------------------------------------------------------------

/// The Unicode `White_Space` property: the code points U+0009..U+000D, U+0020,
/// U+0085, U+00A0, U+1680, U+2000..U+200A, U+2028, U+2029, U+202F, U+205F and
/// U+3000.  This is the set that `char::is_whitespace` and `str::trim` use.
pub open spec fn is_white_space(c: char) -> bool {
    let u = c as u32;
    ||| 0x09 <= u <= 0x0D
    ||| u == 0x20
    ||| u == 0x85
    ||| u == 0xA0
    ||| u == 0x1680
    ||| 0x2000 <= u <= 0x200A
    ||| u == 0x2028
    ||| u == 0x2029
    ||| u == 0x202F
    ||| u == 0x205F
    ||| u == 0x3000
}

/// `s` without its leading whitespace.
pub open spec fn trim_start(s: Seq<char>) -> Seq<char>
    decreases s.len(),
{
    if s.len() > 0 && is_white_space(s[0]) {
        trim_start(s.drop_first())
    } else {
        s
    }
}

/// `s` without its trailing whitespace.
pub open spec fn trim_end(s: Seq<char>) -> Seq<char>
    decreases s.len(),
{
    if s.len() > 0 && is_white_space(s.last()) {
        trim_end(s.drop_last())
    } else {
        s
    }
}

/// `s` without leading and trailing whitespace (`str::trim`).
pub open spec fn trim(s: Seq<char>) -> Seq<char> {
    trim_end(trim_start(s))
}

/// Every character of `s` is whitespace (so `s.trim()` is empty).
pub open spec fn is_blank(s: Seq<char>) -> bool {
    forall|i: int| 0 <= i < s.len() ==> is_white_space(#[trigger] s[i])
}

/// The ASCII lower-case form of `c`; other characters are unchanged.
pub open spec fn ascii_lower(c: char) -> char {
    if 'A' <= c <= 'Z' {
        ((c as u32) + 32) as char
    } else {
        c
    }
}

/// The ASCII upper-case form of `c`; other characters are unchanged.
pub open spec fn ascii_upper(c: char) -> char {
    if 'a' <= c <= 'z' {
        ((c as u32) - 32) as char
    } else {
        c
    }
}

/// `c` is an ASCII character.
pub open spec fn is_ascii_char(c: char) -> bool {
    (c as u32) < 128
}

/// `s` holds ASCII characters only.
pub open spec fn is_ascii(s: Seq<char>) -> bool {
    forall|i: int| 0 <= i < s.len() ==> is_ascii_char(#[trigger] s[i])
}

/// `c` is an ASCII letter or digit.
pub open spec fn is_ascii_alphanumeric(c: char) -> bool {
    ||| 'a' <= c <= 'z'
    ||| 'A' <= c <= 'Z'
    ||| '0' <= c <= '9'
}

/// `s` with each character in its ASCII lower-case form.
pub open spec fn ascii_lower_str(s: Seq<char>) -> Seq<char> {
    Seq::new(s.len(), |i: int| ascii_lower(s[i]))
}

/// `s` with each character in its ASCII upper-case form.
pub open spec fn ascii_upper_str(s: Seq<char>) -> Seq<char> {
    Seq::new(s.len(), |i: int| ascii_upper(s[i]))
}

/// `a` and `b` are equal up to ASCII case (`str::eq_ignore_ascii_case`).
pub open spec fn eq_ignore_ascii_case(a: Seq<char>, b: Seq<char>) -> bool {
    &&& a.len() == b.len()
    &&& forall|i: int| 0 <= i < a.len() ==> ascii_lower(#[trigger] a[i]) == ascii_lower(b[i])
}

/// The pieces of `s` between occurrences of `sep` (`str::split`); there is
/// always one more piece than there are separators.
pub open spec fn split_on(s: Seq<char>, sep: char) -> Seq<Seq<char>>
    decreases s.len(),
{
    if s.len() == 0 {
        seq![Seq::<char>::empty()]
    } else {
        let init = split_on(s.drop_last(), sep);
        if s.last() == sep {
            init.push(Seq::<char>::empty())
        } else {
            init.update(init.len() - 1, init.last().push(s.last()))
        }
    }
}

/// The pieces of `parts` that are not blank, in order.
pub open spec fn keep_nonblank(parts: Seq<Seq<char>>) -> Seq<Seq<char>>
    decreases parts.len(),
{
    if parts.len() == 0 {
        Seq::<Seq<char>>::empty()
    } else if is_blank(parts.last()) {
        keep_nonblank(parts.drop_last())
    } else {
        keep_nonblank(parts.drop_last()).push(parts.last())
    }
}

/// The non-blank lines of `s`, splitting on `'\n'`.
pub open spec fn nonblank_lines(s: Seq<char>) -> Seq<Seq<char>> {
    keep_nonblank(split_on(s, '\n'))
}

/// `parts` joined with `sep` between consecutive parts (`[&str]::join`).
pub open spec fn join_with(parts: Seq<Seq<char>>, sep: Seq<char>) -> Seq<char>
    decreases parts.len(),
{
    if parts.len() == 0 {
        Seq::<char>::empty()
    } else if parts.len() == 1 {
        parts[0]
    } else {
        join_with(parts.drop_last(), sep) + sep + parts.last()
    }
}

/// Every `"\r\n"` and every other `'\r'` of `s` replaced by `'\n'`: the result
/// of `s.replace("\r\n", "\n").replace('\r', "\n")`.
pub open spec fn unify_newlines(s: Seq<char>) -> Seq<char>
    decreases s.len(),
{
    if s.len() == 0 {
        s
    } else if s[0] == '\r' && s.len() >= 2 && s[1] == '\n' {
        seq!['\n'] + unify_newlines(s.skip(2))
    } else if s[0] == '\r' {
        seq!['\n'] + unify_newlines(s.drop_first())
    } else {
        seq![s[0]] + unify_newlines(s.drop_first())
    }
}

/// Every occurrence of `from` in `s` replaced by `to` (`str::replace` with a
/// single-character pattern).
pub open spec fn replace_char(s: Seq<char>, from: char, to: Seq<char>) -> Seq<char>
    decreases s.len(),
{
    if s.len() == 0 {
        s
    } else if s.last() == from {
        replace_char(s.drop_last(), from, to) + to
    } else {
        replace_char(s.drop_last(), from, to).push(s.last())
    }
}

/// `c` occurs in `s`.
pub open spec fn has_char(s: Seq<char>, c: char) -> bool {
    exists|i: int| 0 <= i < s.len() && s[i] == c
}

/// The mathematical form of a result carrying strings.
pub open spec fn string_result(r: Result<String, String>) -> Result<Seq<char>, Seq<char>> {
    match r {
        Ok(s) => Ok(s@),
        Err(e) => Err(e@),
    }
}

// ---------------------------------------------------------------------------
// Lemmas
// ---------------------------------------------------------------------------

/// The deep view of a vector of characters is its view.
pub broadcast proof fn lemma_char_vec_deep_view(x: Vec<char>)
    ensures
        #[trigger] x.deep_view() == x@,
{
    assert(x.deep_view() =~= x@);
}

/// Pushing onto a vector pushes onto its deep view.
pub proof fn lemma_deep_view_push<T: DeepView>(v: Vec<T>, w: Vec<T>, x: T)
    requires
        w@ == v@.push(x),
    ensures
        w.deep_view() == v.deep_view().push(x.deep_view()),
{
    assert(w.deep_view() =~= v.deep_view().push(x.deep_view()));
}

/// Pushing onto a vector of character vectors pushes onto its deep view.
pub proof fn lemma_push_deep_view(v: Vec<Vec<char>>, w: Vec<Vec<char>>, x: Vec<char>)
    requires
        w@ == v@.push(x),
    ensures
        w.deep_view() == v.deep_view().push(x@),
{
    lemma_deep_view_push(v, w, x);
    lemma_char_vec_deep_view(x);
}

/// Trimming leading whitespace can start after any all-whitespace prefix.
pub proof fn lemma_trim_start_skip(s: Seq<char>, k: int)
    requires
        0 <= k <= s.len(),
        forall|i: int| 0 <= i < k ==> is_white_space(#[trigger] s[i]),
    ensures
        trim_start(s) == trim_start(s.skip(k)),
    decreases k,
{
    if k > 0 {
        assert(s.skip(1).skip(k - 1) =~= s.skip(k));
        assert(s.drop_first() =~= s.skip(1));
        lemma_trim_start_skip(s.drop_first(), k - 1);
    } else {
        assert(s.skip(0) =~= s);
    }
}

/// Trimming trailing whitespace can start before any all-whitespace suffix.
pub proof fn lemma_trim_end_take(s: Seq<char>, k: int)
    requires
        0 <= k <= s.len(),
        forall|i: int| k <= i < s.len() ==> is_white_space(#[trigger] s[i]),
    ensures
        trim_end(s) == trim_end(s.take(k)),
    decreases s.len() - k,
{
    if k < s.len() {
        assert(s.drop_last().take(k) =~= s.take(k));
        lemma_trim_end_take(s.drop_last(), k);
    } else {
        assert(s.take(k) =~= s);
    }
}

/// A string is blank exactly when trimming leaves nothing.
pub proof fn lemma_blank_iff_trim_empty(s: Seq<char>)
    ensures
        is_blank(s) <==> trim(s).len() == 0,
    decreases s.len(),
{
    if s.len() > 0 {
        if is_white_space(s[0]) {
            lemma_blank_iff_trim_empty(s.drop_first());
            assert(is_blank(s) <==> is_blank(s.drop_first())) by {
                if is_blank(s.drop_first()) {
                    assert forall|i: int| 0 <= i < s.len() implies is_white_space(#[trigger] s[i]) by {
                        if i > 0 {
                            assert(s[i] == s.drop_first()[i - 1]);
                        }
                    }
                }
                if is_blank(s) {
                    assert forall|i: int| 0 <= i < s.drop_first().len() implies is_white_space(
                        #[trigger] s.drop_first()[i],
                    ) by {
                        assert(s.drop_first()[i] == s[i + 1]);
                    }
                }
            }
        } else {
            lemma_trim_end_keeps_first(s);
        }
    }
}

/// Trimming the end of a string whose first character is not whitespace
/// keeps that first character.
pub proof fn lemma_trim_end_keeps_first(s: Seq<char>)
    requires
        s.len() > 0,
        !is_white_space(s[0]),
    ensures
        trim_end(s).len() > 0,
        trim_end(s)[0] == s[0],
    decreases s.len(),
{
    if is_white_space(s.last()) {
        if s.len() > 1 {
            lemma_trim_end_keeps_first(s.drop_last());
        }
    }
}

/// The result of `trim` neither starts nor ends with whitespace, and is a
/// contiguous part of the input.
pub proof fn lemma_trim_bounds(s: Seq<char>)
    ensures
        trim(s).len() > 0 ==> !is_white_space(trim(s)[0]) && !is_white_space(trim(s).last()),
        exists|a: int, b: int| 0 <= a <= b <= s.len() && trim(s) == s.subrange(a, b),
{
    lemma_trim_start_sub(s);
    let t = trim_start(s);
    let (a, b) = choose|a: int, b: int| 0 <= a <= b <= s.len() && t == s.subrange(a, b);
    lemma_trim_end_sub(t);
    let (c, d) = choose|c: int, d: int| 0 <= c <= d <= t.len() && trim_end(t) == t.subrange(c, d);
    assert(trim(s) =~= s.subrange(a + c, a + d));
    if trim(s).len() > 0 {
        lemma_trim_end_keeps_first(t);
        lemma_trim_end_last(t);
    }
}

/// Trimming twice is trimming once.
pub proof fn lemma_trim_idempotent(s: Seq<char>)
    ensures
        trim(trim(s)) == trim(s),
{
    let t = trim(s);
    lemma_trim_bounds(s);
    if t.len() > 0 {
        assert(trim_start(t) == t);
        assert(trim_end(t) == t);
    } else {
        assert(trim_start(t) == t);
    }
}

proof fn lemma_trim_start_sub(s: Seq<char>)
    ensures
        exists|a: int, b: int| 0 <= a <= b <= s.len() && trim_start(s) == s.subrange(a, b),
        trim_start(s).len() > 0 ==> !is_white_space(trim_start(s)[0]),
    decreases s.len(),
{
    if s.len() > 0 && is_white_space(s[0]) {
        lemma_trim_start_sub(s.drop_first());
        let (a, b) = choose|a: int, b: int|
            0 <= a <= b <= s.drop_first().len() && trim_start(s.drop_first()) == s.drop_first().subrange(a, b);
        assert(s.drop_first().subrange(a, b) =~= s.subrange(a + 1, b + 1));
    } else {
        assert(s.subrange(0, s.len() as int) =~= s);
    }
}

proof fn lemma_trim_end_sub(s: Seq<char>)
    ensures
        exists|a: int, b: int| 0 <= a <= b <= s.len() && trim_end(s) == s.subrange(a, b),
    decreases s.len(),
{
    if s.len() > 0 && is_white_space(s.last()) {
        lemma_trim_end_sub(s.drop_last());
        let (a, b) = choose|a: int, b: int|
            0 <= a <= b <= s.drop_last().len() && trim_end(s.drop_last()) == s.drop_last().subrange(a, b);
        assert(s.drop_last().subrange(a, b) =~= s.subrange(a, b));
    } else {
        assert(s.subrange(0, s.len() as int) =~= s);
    }
}

proof fn lemma_trim_end_last(s: Seq<char>)
    ensures
        trim_end(s).len() > 0 ==> !is_white_space(trim_end(s).last()),
    decreases s.len(),
{
    if s.len() > 0 && is_white_space(s.last()) {
        lemma_trim_end_last(s.drop_last());
    }
}

/// Splitting around one separator splits each side.
pub proof fn lemma_split_on_append(a: Seq<char>, b: Seq<char>, sep: char)
    ensures
        split_on(a + seq![sep] + b, sep) == split_on(a, sep) + split_on(b, sep),
    decreases b.len(),
{
    let x = a + seq![sep] + b;
    if b.len() == 0 {
        assert(x =~= a.push(sep));
        assert(x.drop_last() =~= a);
        assert(split_on(b, sep) == seq![Seq::<char>::empty()]);
        assert(split_on(a, sep).push(Seq::<char>::empty()) =~= split_on(a, sep) + seq![
            Seq::<char>::empty(),
        ]);
    } else {
        let b1 = b.drop_last();
        lemma_split_on_append(a, b1, sep);
        assert(x.drop_last() =~= a + seq![sep] + b1);
        assert(x.last() == b.last());
        let l = split_on(a, sep);
        let r1 = split_on(b1, sep);
        lemma_split_on_nonempty(b1, sep);
        if b.last() == sep {
            assert((l + r1).push(Seq::<char>::empty()) =~= l + r1.push(Seq::<char>::empty()));
        } else {
            let lr = l + r1;
            assert(lr.last() == r1.last());
            assert(lr.update(lr.len() - 1, lr.last().push(b.last())) =~= l + r1.update(
                r1.len() - 1,
                r1.last().push(b.last()),
            ));
        }
    }
}

/// Keeping the non-blank pieces of two sequences keeps those of each.
pub proof fn lemma_keep_nonblank_append(x: Seq<Seq<char>>, y: Seq<Seq<char>>)
    ensures
        keep_nonblank(x + y) == keep_nonblank(x) + keep_nonblank(y),
    decreases y.len(),
{
    if y.len() == 0 {
        assert(x + y =~= x);
        assert(keep_nonblank(x) + keep_nonblank(y) =~= keep_nonblank(x));
    } else {
        lemma_keep_nonblank_append(x, y.drop_last());
        assert((x + y).drop_last() =~= x + y.drop_last());
        assert((x + y).last() == y.last());
        if !is_blank(y.last()) {
            assert((keep_nonblank(x) + keep_nonblank(y.drop_last())).push(y.last()) =~= keep_nonblank(
                x,
            ) + keep_nonblank(y.drop_last()).push(y.last()));
        }
    }
}

/// A doubled line end only adds a blank line: the non-blank lines stay.
pub proof fn lemma_nonblank_lines_double(a: Seq<char>, b: Seq<char>)
    ensures
        nonblank_lines(a + seq!['\n', '\n'] + b) == nonblank_lines(a + seq!['\n'] + b),
{
    let nl = seq!['\n'];
    let e = Seq::<char>::empty();
    assert(a + seq!['\n', '\n'] + b =~= a + nl + (nl + b));
    lemma_split_on_append(a, nl + b, '\n');
    assert(nl + b =~= e + nl + b);
    lemma_split_on_append(e, b, '\n');
    lemma_split_on_append(a, b, '\n');
    assert(split_on(e, '\n') == seq![e]);
    let sa = split_on(a, '\n');
    let sb = split_on(b, '\n');
    lemma_keep_nonblank_append(sa, seq![e] + sb);
    lemma_keep_nonblank_append(seq![e], sb);
    lemma_keep_nonblank_append(sa, sb);
    assert(seq![e].drop_last() =~= Seq::<Seq<char>>::empty());
    assert(is_blank(e));
    assert(seq![e].last() == e);
    assert(keep_nonblank(Seq::<Seq<char>>::empty()) =~= Seq::<Seq<char>>::empty());
    assert(keep_nonblank(seq![e]) == keep_nonblank(seq![e].drop_last()));
    assert(keep_nonblank(seq![e]) =~= Seq::<Seq<char>>::empty());
    assert(keep_nonblank(seq![e]) + keep_nonblank(sb) =~= keep_nonblank(sb));
}

/// `s` with line ends unified, except that each `"\r\n"` gives two `'\n'`.
pub open spec fn unify_doubling(s: Seq<char>) -> Seq<char>
    decreases s.len(),
{
    if s.len() == 0 {
        s
    } else if s[0] == '\r' && s.len() >= 2 && s[1] == '\n' {
        seq!['\n', '\n'] + unify_doubling(s.skip(2))
    } else if s[0] == '\r' {
        seq!['\n'] + unify_doubling(s.drop_first())
    } else {
        seq![s[0]] + unify_doubling(s.drop_first())
    }
}

/// Writing each `'\n'` as `"\r\n"` and then unifying line ends doubles the
/// line ends that were `"\r\n"` already.
pub proof fn lemma_unify_crlf_doubling(s: Seq<char>)
    ensures
        unify_newlines(replace_char(s, '\n', seq!['\r', '\n'])) == unify_doubling(s),
    decreases s.len(),
{
    let crlf = seq!['\r', '\n'];
    if s.len() > 0 {
        let rest = s.drop_first();
        assert(s =~= seq![s[0]] + rest);
        lemma_replace_char_prepend(s[0], rest, '\n', crlf);
        let w = replace_char(s, '\n', crlf);
        if s[0] == '\r' && s.len() >= 2 && s[1] == '\n' {
            let r2 = s.skip(2);
            assert(rest =~= seq!['\n'] + r2);
            lemma_replace_char_prepend('\n', r2, '\n', crlf);
            lemma_unify_crlf_doubling(r2);
            let c2 = replace_char(r2, '\n', crlf);
            assert(w =~= seq!['\r', '\r', '\n'] + c2);
            assert(w.drop_first() =~= seq!['\r', '\n'] + c2);
            assert(w.drop_first().skip(2) =~= c2);
            assert(unify_newlines(w) == seq!['\n'] + unify_newlines(w.drop_first()));
            assert(unify_newlines(w.drop_first()) == seq!['\n'] + unify_newlines(c2));
            assert(seq!['\n'] + (seq!['\n'] + unify_doubling(r2)) =~= seq!['\n', '\n']
                + unify_doubling(r2));
        } else if s[0] == '\r' {
            lemma_unify_crlf_doubling(rest);
            let c1 = replace_char(rest, '\n', crlf);
            assert(w =~= seq!['\r'] + c1);
            assert(w.drop_first() =~= c1);
            if rest.len() > 0 {
                assert(rest =~= seq![rest[0]] + rest.drop_first());
                lemma_replace_char_prepend(rest[0], rest.drop_first(), '\n', crlf);
                assert(rest[0] == s[1]);
                assert(c1[0] == rest[0]);
            } else {
                assert(c1 =~= Seq::<char>::empty());
            }
        } else if s[0] == '\n' {
            lemma_unify_crlf_doubling(rest);
            let c1 = replace_char(rest, '\n', crlf);
            assert(w =~= seq!['\r', '\n'] + c1);
            assert(w.skip(2) =~= c1);
        } else {
            lemma_unify_crlf_doubling(rest);
            let c1 = replace_char(rest, '\n', crlf);
            assert(w =~= seq![s[0]] + c1);
            assert(w.drop_first() =~= c1);
        }
    }
}

/// After any prefix, doubled line ends leave the same non-blank lines.
pub proof fn lemma_doubling_same_lines(p: Seq<char>, s: Seq<char>)
    ensures
        nonblank_lines(p + unify_doubling(s)) == nonblank_lines(p + unify_newlines(s)),
    decreases s.len(),
{
    if s.len() > 0 {
        if s[0] == '\r' && s.len() >= 2 && s[1] == '\n' {
            let r2 = s.skip(2);
            lemma_doubling_same_lines(p + seq!['\n', '\n'], r2);
            assert(p + unify_doubling(s) =~= p + seq!['\n', '\n'] + unify_doubling(r2));
            lemma_nonblank_lines_double(p, unify_newlines(r2));
            assert(p + unify_newlines(s) =~= p + seq!['\n'] + unify_newlines(r2));
        } else {
            let x = if s[0] == '\r' {
                '\n'
            } else {
                s[0]
            };
            lemma_doubling_same_lines(p + seq![x], s.drop_first());
            assert(p + unify_doubling(s) =~= p + seq![x] + unify_doubling(s.drop_first()));
            assert(p + unify_newlines(s) =~= p + seq![x] + unify_newlines(s.drop_first()));
        }
    }
}

/// Replacing a character by one character keeps the length and changes
/// exactly the places that held it.
pub proof fn lemma_replace_char_by_char(s: Seq<char>, from: char, to: char)
    ensures
        replace_char(s, from, seq![to]).len() == s.len(),
        forall|i: int|
            0 <= i < s.len() ==> #[trigger] replace_char(s, from, seq![to])[i] == if s[i] == from {
                to
            } else {
                s[i]
            },
    decreases s.len(),
{
    if s.len() > 0 {
        let init = s.drop_last();
        lemma_replace_char_by_char(init, from, to);
        let r = replace_char(init, from, seq![to]);
        let t = replace_char(s, from, seq![to]);
        if s.last() == from {
            assert(t == r + seq![to]);
        } else {
            assert(t == r.push(s.last()));
        }
        assert forall|i: int| 0 <= i < s.len() implies #[trigger] t[i] == if s[i] == from {
            to
        } else {
            s[i]
        } by {
            if i < init.len() {
                assert(t[i] == r[i]);
                assert(init[i] == s[i]);
            }
        }
    }
}

/// Replacing in a sequence that starts with `c` replaces `c` first.
pub proof fn lemma_replace_char_prepend(c: char, s: Seq<char>, from: char, to: Seq<char>)
    ensures
        replace_char(seq![c] + s, from, to) == (if c == from {
            to
        } else {
            seq![c]
        }) + replace_char(s, from, to),
    decreases s.len(),
{
    let head = if c == from {
        to
    } else {
        seq![c]
    };
    let t = seq![c] + s;
    if s.len() == 0 {
        assert(t =~= seq![c]);
        assert(t.drop_last() =~= Seq::<char>::empty());
        assert(replace_char(t.drop_last(), from, to) =~= Seq::<char>::empty());
        assert(replace_char(s, from, to) =~= Seq::<char>::empty());
        assert(head + replace_char(s, from, to) =~= head);
        assert(t.last() == c);
        if c == from {
            assert(Seq::<char>::empty() + to =~= to);
        } else {
            assert(Seq::<char>::empty().push(c) =~= seq![c]);
        }
    } else {
        lemma_replace_char_prepend(c, s.drop_last(), from, to);
        assert(t.drop_last() =~= seq![c] + s.drop_last());
        assert(t.last() == s.last());
        let r = replace_char(s.drop_last(), from, to);
        if s.last() == from {
            assert(head + r + to =~= head + (r + to));
        } else {
            assert((head + r).push(s.last()) =~= head + r.push(s.last()));
        }
    }
}

/// A split always has at least one piece.
pub proof fn lemma_split_on_nonempty(s: Seq<char>, sep: char)
    ensures
        split_on(s, sep).len() >= 1,
    decreases s.len(),
{
    if s.len() > 0 {
        lemma_split_on_nonempty(s.drop_last(), sep);
    }
}

// ---------------------------------------------------------------------------
// Executable functions
// ---------------------------------------------------------------------------

/// Appends one character to `s` (std `String::push`).
#[verifier::external_body]
pub(crate) fn push_char(s: &mut String, c: char)
    ensures
        final(s)@ == old(s)@.push(c),
{
    s.push(c);
}

/// The characters of `s`, in order.
pub fn chars_of(s: &str) -> (v: Vec<char>)
    ensures
        v@ == s@,
{
    let mut v: Vec<char> = Vec::new();
    for c in it: s.chars()
        invariant
            v@ == it.seq().take(it.index() as int),
            it.seq() == s@,
    {
        v.push(c);
    }
    v
}

/// The string made of the characters of `v`.
pub fn string_of(v: &[char]) -> (s: String)
    ensures
        s@ == v@,
{
    let mut s = String::new();
    let mut i: usize = 0;
    while i < v.len()
        invariant
            i <= v.len(),
            s@ == v@.take(i as int),
        decreases v.len() - i,
    {
        push_char(&mut s, v[i]);
        i = i + 1;
        assert(v@.take(i as int) =~= v@.take(i - 1).push(v@[i - 1]));
    }
    assert(v@.take(v.len() as int) =~= v@);
    s
}

/// `s[a..b]` as a new vector.
pub fn sub_chars(s: &[char], a: usize, b: usize) -> (v: Vec<char>)
    requires
        a <= b <= s.len(),
    ensures
        v@ == s@.subrange(a as int, b as int),
{
    let mut v: Vec<char> = Vec::new();
    let mut i: usize = a;
    while i < b
        invariant
            a <= i <= b <= s.len(),
            v@ == s@.subrange(a as int, i as int),
        decreases b - i,
    {
        v.push(s[i]);
        i = i + 1;
        assert(s@.subrange(a as int, i as int) =~= s@.subrange(a as int, i - 1).push(s@[i - 1]));
    }
    v
}

/// Appends the characters of `b` to `a`.
pub fn append_chars(a: &mut Vec<char>, b: &[char])
    ensures
        final(a)@ == old(a)@ + b@,
{
    let mut i: usize = 0;
    while i < b.len()
        invariant
            i <= b.len(),
            a@ == old(a)@ + b@.take(i as int),
        decreases b.len() - i,
    {
        a.push(b[i]);
        i = i + 1;
        assert(b@.take(i as int) =~= b@.take(i - 1).push(b@[i - 1]));
    }
    assert(b@.take(b.len() as int) =~= b@);
}

/// Whether `c` is whitespace (`char::is_whitespace`).
pub fn is_whitespace(c: char) -> (r: bool)
    ensures
        r == is_white_space(c),
{
    let u = c as u32;
    (0x09 <= u && u <= 0x0D) || u == 0x20 || u == 0x85 || u == 0xA0 || u == 0x1680 || (0x2000
        <= u && u <= 0x200A) || u == 0x2028 || u == 0x2029 || u == 0x202F || u == 0x205F || u
        == 0x3000
}

/// `s` without leading and trailing whitespace.
pub fn trim_chars(s: &[char]) -> (t: Vec<char>)
    ensures
        t@ == trim(s@),
{
    let mut a: usize = 0;
    while a < s.len() && is_whitespace(s[a])
        invariant
            a <= s.len(),
            forall|i: int| 0 <= i < a ==> is_white_space(#[trigger] s@[i]),
        decreases s.len() - a,
    {
        a = a + 1;
    }
    proof {
        lemma_trim_start_skip(s@, a as int);
        if a < s.len() {
            assert(!is_white_space(s@.skip(a as int)[0]));
        }
        assert(trim_start(s@) == s@.skip(a as int));
    }
    let mut b: usize = s.len();
    while b > a && is_whitespace(s[b - 1])
        invariant
            a <= b <= s.len(),
            forall|i: int| b <= i < s.len() ==> is_white_space(#[trigger] s@[i]),
        decreases b,
    {
        b = b - 1;
    }
    proof {
        let t = s@.skip(a as int);
        assert forall|i: int| b - a <= i < t.len() implies is_white_space(#[trigger] t[i]) by {
            assert(t[i] == s@[i + a]);
        }
        lemma_trim_end_take(t, b - a);
        assert(t.take(b - a) =~= s@.subrange(a as int, b as int));
        if b > a {
            assert(!is_white_space(t.take(b - a).last()));
        }
        assert(trim_end(t.take(b - a)) == t.take(b - a));
    }
    sub_chars(s, a, b)
}

/// `s.trim()` as a new string.
pub fn trim_str(s: &str) -> (t: String)
    ensures
        t@ == trim(s@),
{
    let v = chars_of(s);
    let w = trim_chars(&v);
    string_of(&w)
}

/// Whether every character of `s` is whitespace.
pub fn chars_blank(s: &[char]) -> (r: bool)
    ensures
        r == is_blank(s@),
{
    let mut i: usize = 0;
    while i < s.len()
        invariant
            i <= s.len(),
            forall|j: int| 0 <= j < i ==> is_white_space(#[trigger] s@[j]),
        decreases s.len() - i,
    {
        if !is_whitespace(s[i]) {
            return false;
        }
        i = i + 1;
    }
    true
}

/// The ASCII lower-case form of `c`.
pub fn to_ascii_lower(c: char) -> (r: char)
    ensures
        r == ascii_lower(c),
{
    if 'A' <= c && c <= 'Z' {
        let u = (c as u32) + 32;
        proof {
            assert(0x61 <= u <= 0x7A);
        }
        char_from_ascii(u)
    } else {
        c
    }
}

/// The character with the given ASCII code.
fn char_from_ascii(u: u32) -> (c: char)
    requires
        u < 128,
    ensures
        c == u as char,
{
    let b: u8 = u as u8;
    b as char
}

/// Whether `a` and `b` are equal up to ASCII case (`str::eq_ignore_ascii_case`).
pub fn chars_eq_ignore_ascii_case(a: &[char], b: &[char]) -> (r: bool)
    ensures
        r == eq_ignore_ascii_case(a@, b@),
{
    if a.len() != b.len() {
        return false;
    }
    let mut i: usize = 0;
    while i < a.len()
        invariant
            a.len() == b.len(),
            i <= a.len(),
            forall|j: int| 0 <= j < i ==> ascii_lower(#[trigger] a@[j]) == ascii_lower(b@[j]),
        decreases a.len() - i,
    {
        if to_ascii_lower(a[i]) != to_ascii_lower(b[i]) {
            return false;
        }
        i = i + 1;
    }
    true
}

/// The pieces of `s` between occurrences of `sep`.
pub fn split_chars(s: &[char], sep: char) -> (parts: Vec<Vec<char>>)
    ensures
        parts.deep_view() == split_on(s@, sep),
{
    let mut parts: Vec<Vec<char>> = Vec::new();
    let mut cur: Vec<char> = Vec::new();
    let mut i: usize = 0;
    assert(s@.take(0) =~= Seq::<char>::empty());
    while i < s.len()
        invariant
            i <= s.len(),
            parts.deep_view().push(cur@) == split_on(s@.take(i as int), sep),
        decreases s.len() - i,
    {
        let ghost prev = s@.take(i as int);
        assert(s@.take(i + 1).drop_last() =~= prev);
        if s[i] == sep {
            let done = cur;
            let ghost old_parts = parts;
            let ghost done_view = done;
            parts.push(done);
            cur = Vec::new();
            proof {
                lemma_push_deep_view(old_parts, parts, done_view);
                lemma_char_vec_deep_view(cur);
            }
            assert(parts.deep_view() =~= split_on(prev, sep));
        } else {
            let ghost before = parts.deep_view().push(cur@);
            cur.push(s[i]);
            assert(parts.deep_view().push(cur@) =~= before.update(before.len() - 1, before.last().push(s@[i as int])));
        }
        i = i + 1;
    }
    assert(s@.take(s.len() as int) =~= s@);
    let ghost old_parts = parts;
    let ghost last = cur;
    parts.push(cur);
    proof {
        lemma_push_deep_view(old_parts, parts, last);
    }
    parts
}

/// The non-blank pieces of `parts`, in order.
pub fn keep_nonblank_chars(parts: Vec<Vec<char>>) -> (kept: Vec<Vec<char>>)
    ensures
        kept.deep_view() == keep_nonblank(parts.deep_view()),
{
    let mut kept: Vec<Vec<char>> = Vec::new();
    let n = parts.len();
    let mut i: usize = 0;
    let ghost all = parts.deep_view();
    assert(all.take(0) =~= Seq::<Seq<char>>::empty());
    while i < n
        invariant
            n == parts.len(),
            all == parts.deep_view(),
            i <= n,
            kept.deep_view() == keep_nonblank(all.take(i as int)),
        decreases n - i,
    {
        assert(all.take(i + 1).drop_last() =~= all.take(i as int));
        assert(all.take(i + 1).last() == all[i as int]);
        let blank = chars_blank(&parts[i]);
        if !blank {
            let piece = sub_chars(&parts[i], 0, parts[i].len());
            assert(piece@ =~= parts[i as int]@);
            let ghost old_kept = kept;
            let ghost pv = piece;
            kept.push(piece);
            proof {
                lemma_push_deep_view(old_kept, kept, pv);
                lemma_char_vec_deep_view(parts[i as int]);
                assert(all[i as int] == parts[i as int]@);
            }
            assert(kept.deep_view() =~= keep_nonblank(all.take(i as int)).push(all[i as int]));
        }
        i = i + 1;
    }
    assert(all.take(n as int) =~= all);
    kept
}

/// The non-blank lines of `s`.
pub fn nonblank_lines_of(s: &[char]) -> (lines: Vec<Vec<char>>)
    ensures
        lines.deep_view() == nonblank_lines(s@),
{
    let parts = split_chars(s, '\n');
    keep_nonblank_chars(parts)
}

/// `parts[from..to]` joined with `sep`.
pub fn join_chars(parts: &Vec<Vec<char>>, from: usize, to: usize, sep: &[char]) -> (j: Vec<char>)
    requires
        from <= to <= parts.len(),
    ensures
        j@ == join_with(parts.deep_view().subrange(from as int, to as int), sep@),
{
    let mut j: Vec<char> = Vec::new();
    let mut i: usize = from;
    let ghost all = parts.deep_view();
    assert(all.subrange(from as int, from as int) =~= Seq::<Seq<char>>::empty());
    while i < to
        invariant
            from <= i <= to <= parts.len(),
            all == parts.deep_view(),
            j@ == join_with(all.subrange(from as int, i as int), sep@),
        decreases to - i,
    {
        let ghost sub = all.subrange(from as int, i + 1);
        assert(sub.drop_last() =~= all.subrange(from as int, i as int));
        assert(sub.last() == parts[i as int]@);
        if i > from {
            append_chars(&mut j, sep);
        } else {
            assert(sub =~= seq![parts[i as int]@]);
        }
        append_chars(&mut j, &parts[i]);
        i = i + 1;
    }
    j
}

/// `s` with `"\r\n"` and lone `'\r'` turned into `'\n'`.
pub fn unify_newlines_chars(s: &[char]) -> (t: Vec<char>)
    ensures
        t@ == unify_newlines(s@),
{
    let mut t: Vec<char> = Vec::new();
    let mut i: usize = 0;
    assert(s@.skip(0) =~= s@);
    while i < s.len()
        invariant
            i <= s.len(),
            unify_newlines(s@) == t@ + unify_newlines(s@.skip(i as int)),
        decreases s.len() - i,
    {
        let ghost rest = s@.skip(i as int);
        if s[i] == '\r' && i + 1 < s.len() && s[i + 1] == '\n' {
            t.push('\n');
            assert(rest.skip(2) =~= s@.skip(i + 2));
            i = i + 2;
        } else if s[i] == '\r' {
            t.push('\n');
            assert(rest.drop_first() =~= s@.skip(i + 1));
            i = i + 1;
        } else {
            t.push(s[i]);
            assert(rest.drop_first() =~= s@.skip(i + 1));
            i = i + 1;
        }
        assert(unify_newlines(s@) =~= t@ + unify_newlines(s@.skip(i as int)));
    }
    assert(s@.skip(i as int) =~= Seq::<char>::empty());
    assert(t@ + Seq::<char>::empty() =~= t@);
    t
}

/// `s` with every `from` replaced by `to`.
pub fn replace_char_chars(s: &[char], from: char, to: &[char]) -> (t: Vec<char>)
    ensures
        t@ == replace_char(s@, from, to@),
{
    let mut t: Vec<char> = Vec::new();
    let mut i: usize = 0;
    assert(s@.take(0) =~= Seq::<char>::empty());
    while i < s.len()
        invariant
            i <= s.len(),
            t@ == replace_char(s@.take(i as int), from, to@),
        decreases s.len() - i,
    {
        assert(s@.take(i + 1).drop_last() =~= s@.take(i as int));
        if s[i] == from {
            append_chars(&mut t, to);
        } else {
            t.push(s[i]);
        }
        i = i + 1;
    }
    assert(s@.take(s.len() as int) =~= s@);
    t
}

/// The number of bytes of the UTF-8 encoding of `c`.
fn utf8_width(c: char) -> (w: usize)
    ensures
        w == encode_scalar(c as u32).len(),
        1 <= w <= 4,
{
    let u = c as u32;
    if u < 0x80 {
        1
    } else if u < 0x800 {
        2
    } else if u < 0x10000 {
        3
    } else {
        4
    }
}

/// The number of bytes of the UTF-8 encoding of `s`, if it is at most `cap`.
pub fn utf8_len_within(s: &[char], cap: usize) -> (r: Option<usize>)
    ensures
        r matches Some(n) ==> n == encode_utf8(s@).len() && n <= cap,
        r is None ==> encode_utf8(s@).len() > cap,
{
    let mut rem: usize = cap;
    let mut i: usize = 0;
    assert(s@.skip(0) =~= s@);
    while i < s.len()
        invariant
            i <= s.len(),
            rem <= cap,
            encode_utf8(s@).len() == (cap - rem) + encode_utf8(s@.skip(i as int)).len(),
        decreases s.len() - i,
    {
        let ghost rest = s@.skip(i as int);
        assert(rest.drop_first() =~= s@.skip(i + 1));
        assert(rest[0] == s@[i as int]);
        let w = utf8_width(s[i]);
        if w > rem {
            return None;
        }
        rem = rem - w;
        i = i + 1;
    }
    assert(s@.skip(i as int) =~= Seq::<char>::empty());
    Some(cap - rem)
}

/// Whether `c` occurs in `s`.
pub fn contains_char(s: &[char], c: char) -> (r: bool)
    ensures
        r == has_char(s@, c),
{
    let mut i: usize = 0;
    while i < s.len()
        invariant
            i <= s.len(),
            forall|j: int| 0 <= j < i ==> s@[j] != c,
        decreases s.len() - i,
    {
        if s[i] == c {
            return true;
        }
        i = i + 1;
    }
    false
}

} // verus!
