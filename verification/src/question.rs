//! The text format of one question file:
//!
//! ```text
//! X1010
//! Question text...
//! [img]question_image.png[/img]
//! a) Answer A
//! b) [img]answer_b.jpg[/img]
//! c) Answer C
//! ```
//!
//! The first non-blank line is the answer code; the rest holds the question
//! and its answers.  Answers are found by pattern first (`a)`, `b.`, `c:` ...);
//! when that finds fewer than two, the last lines are taken as the answers,
//! one per flag of the answer code.  The question's image is an `[img]` tag
//! at the very start of the rest or, failing that, the first tag in the
//! question's text (typically the line after the question).
use vstd::prelude::*;
use vstd::utf8::encode_utf8;
use crate::decode::{ascii_bytes, ascii_text, lemma_ascii_encode};
use crate::answer_code::{
    answer_code_keys, ascending_keys, key_string, lemma_answer_code_keys_ascending, option_key,
    parse_answer_code,
};
use crate::model::{Answer, AnswerView, Question, QuestionView};
use crate::pattern::{
    fancy_captures_iter, fancy_captures_iter_result, fancy_find, fancy_find_result, group,
    regex_captures, regex_captures_result, regex_replace_all, regex_replace_all_result,
    TextMatch, TextMatchView,
};
use crate::text::{
    ascii_lower, ascii_lower_str, is_ascii, is_ascii_char, lemma_doubling_same_lines,
    lemma_trim_idempotent, lemma_unify_crlf_doubling, replace_char, unify_doubling, chars_of, join_chars, join_with, nonblank_lines, nonblank_lines_of, string_of, trim,
    trim_chars, trim_str, unify_newlines, unify_newlines_chars, utf8_len_within,
};
use crate::unicode::to_lowercase;

verus! {

/// An `[img]...[/img]` tag at the very start of the question text; group 1
/// is the image file name.
pub const MAIN_IMAGE_PATTERN: &'static str = r"(?i)^\[img\](.*?)\[/img\]";

/// One lettered answer: group 1 is the letter, group 2 the answer (an image
/// tag or text up to the next lettered line).
pub const ANSWER_PATTERN: &'static str = r"(?is)(?:^|\n)\s*([a-hA-H])\s*[\)\.\:]\s*(\[img\].*?\[/img\]|.+?)(?=\n\s*[a-hA-H]\s*[\)\.\:]|\z)";

/// An image tag; group 1 is the image file name.
pub const IMAGE_PATTERN: &'static str = r"(?i)\[img\](.*?)\[/img\]";

/// An image tag, to be removed from text.
pub const IMAGE_TAG_PATTERN: &'static str = r"(?i)\[img\].*?\[/img\]";

/// A question number at the start of the text (`12.`, `3)`), to be removed.
pub const NUMBER_PREFIX_PATTERN: &'static str = r"(?i)^\d+[\.\)\:]?\s*";

/// An answer letter at the start of a line (`a)`, `B.`), to be removed.
pub const LETTER_PREFIX_PATTERN: &'static str = r"(?i)^[a-hA-H][\)\.\:]\s*";

/// The empty replacement.
pub const NOTHING: &'static str = "";

// ---------------------------------------------------------------------------
// Specification
// ---------------------------------------------------------------------------

/// Capture group `i` of a match, when there is a match.
pub open spec fn match_group(m: Option<TextMatchView>, i: int) -> Option<Seq<char>> {
    match m {
        Some(m) => group(m, i),
        None => None,
    }
}

/// The image file name in the first image tag of `s`, if any.
pub open spec fn image_in(s: Seq<char>) -> Option<Seq<char>> {
    match_group(regex_captures_result(IMAGE_PATTERN@, s), 1)
}

/// The answer with key `key`, given the image its content names (if any) and
/// its content with the stripped parts removed: an image answer when there
/// is an image, else a text answer made of the stripped content, trimmed; no
/// answer when that text is empty.
pub open spec fn answer_from_parts(key: Seq<char>, img: Option<Seq<char>>, stripped: Seq<char>) -> Option<
    AnswerView,
> {
    match img {
        Some(i) => Some(AnswerView { key, text: None, image: Some(i) }),
        None => {
            let t = trim(stripped);
            if t.len() > 0 {
                Some(AnswerView { key, text: Some(t), image: None })
            } else {
                None
            }
        },
    }
}

/// The answer with key `key` made of `content`: an image answer when the
/// content holds an image tag, else a text answer made of the content without
/// the matches of `strip`, trimmed; no answer when that text is empty.
pub open spec fn answer_of(key: Seq<char>, content: Seq<char>, strip: Seq<char>) -> Option<
    AnswerView,
> {
    answer_from_parts(key, image_in(content), regex_replace_all_result(strip, content, NOTHING@))
}

/// `s` with `a` appended when there is one.
pub open spec fn push_some(s: Seq<AnswerView>, a: Option<AnswerView>) -> Seq<AnswerView> {
    match a {
        Some(x) => s.push(x),
        None => s,
    }
}

/// `k` is one answer letter, `a`..`h` in either case: what group 1 of
/// `ANSWER_PATTERN` holds.
pub open spec fn answer_letter(k: Seq<char>) -> bool {
    k.len() == 1 && ('a' <= k[0] <= 'h' || 'A' <= k[0] <= 'H')
}

/// The answers found by `ANSWER_PATTERN`: each match gives the lower-cased
/// letter as key and the trimmed group 2 as content.  A match whose group 1
/// is not one answer letter (which the pattern does not produce) gives none.
pub open spec fn matched_answers(ms: Seq<TextMatchView>) -> Seq<AnswerView>
    decreases ms.len(),
{
    if ms.len() == 0 {
        Seq::<AnswerView>::empty()
    } else {
        let init = matched_answers(ms.drop_last());
        let m = ms.last();
        match (group(m, 1), group(m, 2)) {
            (Some(k), Some(c)) => if answer_letter(k) {
                push_some(init, answer_of(ascii_lower_str(k), trim(c), IMAGE_TAG_PATTERN@))
            } else {
                init
            },
            _ => init,
        }
    }
}

/// The answers made of whole lines: line `i` (for `i < 8`) gives the answer
/// with key number `i`, its content without a leading letter.
pub open spec fn line_answers(lines: Seq<Seq<char>>) -> Seq<AnswerView>
    decreases lines.len(),
{
    if lines.len() == 0 {
        Seq::<AnswerView>::empty()
    } else {
        let init = line_answers(lines.drop_last());
        let i = lines.len() - 1;
        if i < 8 {
            push_some(init, answer_of(option_key(i), lines.last(), LETTER_PREFIX_PATTERN@))
        } else {
            init
        }
    }
}

/// Question text without a leading number and without image tags, trimmed.
pub open spec fn clean_question_text(raw: Seq<char>) -> Seq<char> {
    trim(
        regex_replace_all_result(
            IMAGE_TAG_PATTERN@,
            regex_replace_all_result(NUMBER_PREFIX_PATTERN@, raw, NOTHING@),
            NOTHING@,
        ),
    )
}

/// The image named at the very start of `body`, and the text after it
/// (trimmed); `body` itself when it does not start with an image tag.
pub open spec fn leading_image(body: Seq<char>) -> (Seq<Seq<char>>, Seq<char>) {
    leading_from(body, regex_captures_result(MAIN_IMAGE_PATTERN@, body))
}

/// The leading image of `body` and the text after it, given the match `m`
/// of `MAIN_IMAGE_PATTERN` in it.
pub open spec fn leading_from(body: Seq<char>, m: Option<TextMatchView>) -> (Seq<Seq<char>>, Seq<char>) {
    match m {
        Some(m) => match group(m, 1) {
            Some(img) => (seq![img], trim(m.after)),
            None => (Seq::<Seq<char>>::empty(), body),
        },
        None => (Seq::<Seq<char>>::empty(), body),
    }
}

/// The raw question text when answers were found by pattern: what comes
/// before the first answer (all of `rest` when the search finds none),
/// trimmed.
pub open spec fn text_before_answers(rest: Seq<char>) -> Seq<char> {
    before_first(rest, fancy_find_result(ANSWER_PATTERN@, rest))
}

/// The text of `rest` before the first answer, given the first match `m` of
/// `ANSWER_PATTERN` in it, trimmed; all of `rest` trimmed when there is none.
pub open spec fn before_first(rest: Seq<char>, m: Option<TextMatchView>) -> Seq<char> {
    match m {
        Some(m) => trim(m.before),
        None => trim(rest),
    }
}

/// The raw question text and the answers taken line by line: when the
/// answer code has `n > 0` flags (its byte length minus one) and there are
/// more than `n` lines, the last `n` lines are the answers and the others the
/// question; otherwise the first line is the question and the others the
/// answers.
pub open spec fn line_question(rest: Seq<char>, code: Seq<char>) -> (Seq<char>, Seq<AnswerView>) {
    let ls = nonblank_lines(rest);
    let len = encode_utf8(trim(code)).len();
    if len >= 2 && ls.len() >= len {
        let q = ls.len() - (len - 1);
        (join_with(ls.take(q), seq!['\n']), line_answers(ls.skip(q)))
    } else {
        (
            if ls.len() > 0 {
                ls[0]
            } else {
                Seq::<char>::empty()
            },
            if ls.len() > 1 {
                line_answers(ls.skip(1))
            } else {
                Seq::<AnswerView>::empty()
            },
        )
    }
}

/// Some answer of `answers` has key `k`.
pub open spec fn has_key(answers: Seq<AnswerView>, k: Seq<char>) -> bool {
    exists|j: int| 0 <= j < answers.len() && (#[trigger] answers[j]).key == k
}

/// The keys of `correct` that some answer has, in order.
pub open spec fn keys_present(correct: Seq<Seq<char>>, answers: Seq<AnswerView>) -> Seq<Seq<char>>
    decreases correct.len(),
{
    if correct.len() == 0 {
        Seq::<Seq<char>>::empty()
    } else {
        let init = keys_present(correct.drop_last(), answers);
        if has_key(answers, correct.last()) {
            init.push(correct.last())
        } else {
            init
        }
    }
}

/// The correct keys that name an answer; the first answer's key when none
/// does.
pub open spec fn valid_correct(correct: Seq<Seq<char>>, answers: Seq<AnswerView>) -> Seq<Seq<char>> {
    let kept = keys_present(correct, answers);
    if kept.len() == 0 {
        seq![answers[0].key]
    } else {
        kept
    }
}

/// The images of the question: the one at the very start of the body, else
/// the first image tag in the raw question text (typically on the line
/// after the question's text).
pub open spec fn question_images(leading: Seq<Seq<char>>, raw: Seq<char>) -> Seq<Seq<char>> {
    images_from(leading, image_in(raw))
}

/// The images of the question, given the leading image and the image named
/// in the raw question text.
pub open spec fn images_from(leading: Seq<Seq<char>>, img: Option<Seq<char>>) -> Seq<Seq<char>> {
    if leading.len() > 0 {
        leading
    } else {
        match img {
            Some(i) => seq![i],
            None => Seq::<Seq<char>>::empty(),
        }
    }
}

/// The question with id `id`, text `text`, images `images` and answers
/// `answers`, whose answer code names `correct`: `None` when it has neither
/// text nor image, or fewer than two answers.
pub open spec fn finished_question(
    id: Seq<char>,
    correct: Seq<Seq<char>>,
    text: Seq<char>,
    images: Seq<Seq<char>>,
    answers: Seq<AnswerView>,
) -> Option<QuestionView> {
    if text.len() == 0 && images.len() == 0 {
        None
    } else if answers.len() < 2 {
        None
    } else {
        Some(
            QuestionView {
                id,
                question: text,
                images,
                answers,
                correct: valid_correct(correct, answers),
            },
        )
    }
}

/// The question that the content of a question file describes, with id `id`;
/// `None` when it has fewer than two non-blank lines, neither text nor image,
/// or fewer than two answers.
pub open spec fn parsed_question(content: Seq<char>, id: Seq<char>) -> Option<QuestionView> {
    let lines = nonblank_lines(unify_newlines(content));
    if lines.len() < 2 {
        None
    } else {
        let code = trim(lines[0]);
        let correct = answer_code_keys(code);
        let (leading, rest) = leading_image(join_with(lines.skip(1), seq!['\n']));
        let found = matched_answers(fancy_captures_iter_result(ANSWER_PATTERN@, rest));
        let (raw, answers) = if found.len() < 2 {
            line_question(rest, code)
        } else {
            (text_before_answers(rest), found)
        };
        let text = clean_question_text(raw);
        let images = question_images(leading, raw);
        finished_question(id, correct, text, images, answers)
    }
}

/// `key` is one of the answer keys `a`..`h`.
pub open spec fn key_letter(key: Seq<char>) -> bool {
    key.len() == 1 && 'a' <= key[0] <= 'h'
}

/// An answer has a key `a`..`h`, and either a non-empty, trimmed text or an
/// image, not both.
pub open spec fn answer_well_formed(a: AnswerView) -> bool {
    &&& key_letter(a.key)
    &&& match (a.text, a.image) {
        (Some(t), None) => t.len() > 0 && trim(t) == t,
        (None, Some(_)) => true,
        _ => false,
    }
}

/// What every parsed question satisfies: at least two well-formed answers
/// (keys `a`..`h`), at least one correct key and every correct key naming an
/// answer, the correct keys being letters `a`..`h` in increasing order, a
/// text or an image, and at most one question image.
pub open spec fn question_well_formed(q: QuestionView) -> bool {
    &&& q.answers.len() >= 2
    &&& forall|i: int| 0 <= i < q.answers.len() ==> answer_well_formed(#[trigger] q.answers[i])
    &&& q.correct.len() >= 1
    &&& forall|i: int| 0 <= i < q.correct.len() ==> has_key(q.answers, #[trigger] q.correct[i])
    &&& ascending_keys(q.correct)
    &&& q.question.len() > 0 || q.images.len() > 0
    &&& q.images.len() <= 1
}

// ---------------------------------------------------------------------------
// Lemmas
// ---------------------------------------------------------------------------

proof fn lemma_answer_of_well_formed(key: Seq<char>, content: Seq<char>, strip: Seq<char>)
    requires
        key_letter(key),
    ensures
        answer_of(key, content, strip) matches Some(a) ==> answer_well_formed(a) && a.key == key,
{
    lemma_trim_idempotent(regex_replace_all_result(strip, content, NOTHING@));
}

/// The keys of an ascending sequence that some answer has are ascending, and
/// each is one of the sequence's keys.
proof fn lemma_keys_present_ascending(correct: Seq<Seq<char>>, answers: Seq<AnswerView>)
    requires
        ascending_keys(correct),
    ensures
        ascending_keys(keys_present(correct, answers)),
        forall|i: int|
            0 <= i < keys_present(correct, answers).len() ==> correct.contains(
                #[trigger] keys_present(correct, answers)[i],
            ),
    decreases correct.len(),
{
    if correct.len() > 0 {
        let init = correct.drop_last();
        assert(ascending_keys(init)) by {
            assert forall|k1: int, k2: int| 0 <= k1 < k2 < init.len() implies (#[trigger] init[k1])[0]
                < (#[trigger] init[k2])[0] by {
                assert(init[k1] == correct[k1] && init[k2] == correct[k2]);
            }
        }
        lemma_keys_present_ascending(init, answers);
        let kp = keys_present(init, answers);
        assert forall|i: int| 0 <= i < kp.len() implies correct.contains(#[trigger] kp[i]) by {
            let j = choose|j: int| 0 <= j < init.len() && init[j] == kp[i];
            assert(correct[j] == kp[i]);
        }
        if has_key(answers, correct.last()) {
            let r = kp.push(correct.last());
            assert(correct[correct.len() - 1] == correct.last());
            assert forall|i: int| 0 <= i < r.len() implies correct.contains(#[trigger] r[i]) by {
                if i < kp.len() {
                    assert(r[i] == kp[i]);
                }
            }
            assert forall|k: int| 0 <= k < r.len() implies (#[trigger] r[k]).len() == 1 && 'a'
                <= r[k][0] <= 'h' by {
                let j = choose|j: int| 0 <= j < correct.len() && correct[j] == r[k];
                assert(correct[j] == r[k]);
            }
            assert forall|k1: int, k2: int| 0 <= k1 < k2 < r.len() implies (#[trigger] r[k1])[0]
                < (#[trigger] r[k2])[0] by {
                if k2 < kp.len() {
                    assert(r[k1] == kp[k1] && r[k2] == kp[k2]);
                } else {
                    assert(r[k1] == kp[k1]);
                    let j = choose|j: int| 0 <= j < init.len() && init[j] == kp[k1];
                    assert(correct[j] == kp[k1]);
                    assert(r[k2] == correct[correct.len() - 1]);
                }
            }
        }
    }
}

proof fn lemma_matched_answers_well_formed(ms: Seq<TextMatchView>)
    ensures
        forall|i: int|
            0 <= i < matched_answers(ms).len() ==> answer_well_formed(
                #[trigger] matched_answers(ms)[i],
            ),
    decreases ms.len(),
{
    if ms.len() > 0 {
        lemma_matched_answers_well_formed(ms.drop_last());
        let init = matched_answers(ms.drop_last());
        let m = ms.last();
        match (group(m, 1), group(m, 2)) {
            (Some(k), Some(c)) => if answer_letter(k) {
                let key = ascii_lower_str(k);
                assert(key[0] == ascii_lower(k[0]));
                assert(key_letter(key));
                lemma_answer_of_well_formed(key, trim(c), IMAGE_TAG_PATTERN@);
            },
            _ => {},
        }
        assert forall|i: int| 0 <= i < matched_answers(ms).len() implies answer_well_formed(
            #[trigger] matched_answers(ms)[i],
        ) by {
            if i < init.len() {
                assert(matched_answers(ms)[i] == init[i]);
            }
        }
    }
}

/// The answers taken line by line are well formed and carry the keys of
/// their lines, in increasing order.
pub proof fn lemma_line_answers_well_formed(lines: Seq<Seq<char>>)
    ensures
        forall|i: int|
            0 <= i < line_answers(lines).len() ==> answer_well_formed(
                #[trigger] line_answers(lines)[i],
            ),
        line_answers(lines).len() <= lines.len(),
        line_answers(lines).len() <= 8,
    decreases lines.len(),
{
    if lines.len() > 0 {
        lemma_line_answers_well_formed(lines.drop_last());
        let i = lines.len() - 1;
        if i < 8 {
            assert(key_letter(option_key(i)));
            lemma_answer_of_well_formed(option_key(i), lines.last(), LETTER_PREFIX_PATTERN@);
        }
    }
}

/// A line has content as an answer: it names an image, or something is left
/// of it once a leading answer letter is stripped and it is trimmed.
pub open spec fn line_has_content(line: Seq<char>) -> bool {
    image_in(line) is Some || trim(regex_replace_all_result(LETTER_PREFIX_PATTERN@, line, NOTHING@)).len()
        > 0
}

/// Taken line by line, each of the first eight lines that has content gives
/// one answer, keyed by its place (`a` for the first, `b` for the second,
/// ...): the image it names, or its text without the leading letter,
/// trimmed.  Lines after the eighth give none.
pub proof fn law_line_answers(lines: Seq<Seq<char>>)
    requires
        forall|i: int| 0 <= i < lines.len() ==> line_has_content(#[trigger] lines[i]),
    ensures
        line_answers(lines).len() == if lines.len() < 8 {
            lines.len() as int
        } else {
            8
        },
        forall|i: int|
            0 <= i < line_answers(lines).len() ==> {
                let a = #[trigger] line_answers(lines)[i];
                &&& a.key == seq![(97 + i) as char]
                &&& match image_in(lines[i]) {
                    Some(img) => a.image == Some(img) && a.text is None,
                    None => a.image is None && a.text == Some(
                        trim(regex_replace_all_result(LETTER_PREFIX_PATTERN@, lines[i], NOTHING@)),
                    ),
                }
            },
    decreases lines.len(),
{
    if lines.len() > 0 {
        let init = lines.drop_last();
        assert forall|i: int| 0 <= i < init.len() implies line_has_content(#[trigger] init[i]) by {
            assert(init[i] == lines[i]);
        }
        law_line_answers(init);
        let n = lines.len() - 1;
        assert(lines.last() == lines[n]);
        assert(line_has_content(lines[n]));
        let r = line_answers(lines);
        let ri = line_answers(init);
        assert forall|i: int| 0 <= i < r.len() implies {
            let a = #[trigger] r[i];
            &&& a.key == seq![(97 + i) as char]
            &&& match image_in(lines[i]) {
                Some(img) => a.image == Some(img) && a.text is None,
                None => a.image is None && a.text == Some(
                    trim(regex_replace_all_result(LETTER_PREFIX_PATTERN@, lines[i], NOTHING@)),
                ),
            }
        } by {
            if i < ri.len() {
                assert(r[i] == ri[i]);
                assert(init[i] == lines[i]);
            } else {
                assert(n < 8);
                assert(i == n);
                assert(option_key(n) =~= seq![(97 + i) as char]);
            }
        }
    }
}

proof fn lemma_keys_present(correct: Seq<Seq<char>>, answers: Seq<AnswerView>)
    ensures
        forall|i: int|
            0 <= i < keys_present(correct, answers).len() ==> has_key(
                answers,
                #[trigger] keys_present(correct, answers)[i],
            ),
    decreases correct.len(),
{
    if correct.len() > 0 {
        lemma_keys_present(correct.drop_last(), answers);
        let init = keys_present(correct.drop_last(), answers);
        assert forall|i: int| 0 <= i < keys_present(correct, answers).len() implies has_key(
            answers,
            #[trigger] keys_present(correct, answers)[i],
        ) by {
            if i < init.len() {
                assert(keys_present(correct, answers)[i] == init[i]);
            }
        }
    }
}

/// Every question that the parser returns is well formed and carries the id
/// it was given.
pub proof fn lemma_parsed_question_well_formed(content: Seq<char>, id: Seq<char>)
    ensures
        parsed_question(content, id) matches Some(q) ==> question_well_formed(q) && q.id == id,
{
    let lines = nonblank_lines(unify_newlines(content));
    if lines.len() >= 2 {
        let code = trim(lines[0]);
        let correct = answer_code_keys(code);
        let (leading, rest) = leading_image(join_with(lines.skip(1), seq!['\n']));
        let found = matched_answers(fancy_captures_iter_result(ANSWER_PATTERN@, rest));
        lemma_matched_answers_well_formed(fancy_captures_iter_result(ANSWER_PATTERN@, rest));
        let ls = nonblank_lines(rest);
        let len = encode_utf8(trim(code)).len();
        if len >= 2 && ls.len() >= len {
            lemma_line_answers_well_formed(ls.skip(ls.len() - (len - 1)));
        } else {
            lemma_line_answers_well_formed(ls.skip(1));
        }
        let (raw, answers) = if found.len() < 2 {
            line_question(rest, code)
        } else {
            (text_before_answers(rest), found)
        };
        if answers.len() >= 2 {
            lemma_keys_present(correct, answers);
            lemma_answer_code_keys_ascending(code);
            lemma_keys_present_ascending(correct, answers);
            let vc = valid_correct(correct, answers);
            assert(answer_well_formed(answers[0]));
            if keys_present(correct, answers).len() == 0 {
                assert(has_key(answers, vc[0])) by {
                    assert(answers[0].key == vc[0]);
                }
            }
        }
    }
}

/// Line ends do not matter: a question file with each `'\n'` written as
/// `"\r\n"` parses as the file itself.
pub proof fn law_crlf_line_ends(content: Seq<char>, id: Seq<char>)
    ensures
        parsed_question(replace_char(content, '\n', seq!['\r', '\n']), id) == parsed_question(
            content,
            id,
        ),
{
    let e = Seq::<char>::empty();
    lemma_unify_crlf_doubling(content);
    lemma_doubling_same_lines(e, content);
    assert(e + unify_doubling(content) =~= unify_doubling(content));
    assert(e + unify_newlines(content) =~= unify_newlines(content));
}

/// Writing `'\n'` as `"\r\n"` keeps an ASCII text ASCII.
proof fn lemma_crlf_ascii(s: Seq<char>)
    requires
        is_ascii(s),
    ensures
        is_ascii(replace_char(s, '\n', seq!['\r', '\n'])),
    decreases s.len(),
{
    if s.len() > 0 {
        let init = s.drop_last();
        assert forall|i: int| 0 <= i < init.len() implies is_ascii_char(#[trigger] init[i]) by {
            assert(init[i] == s[i]);
        }
        lemma_crlf_ascii(init);
        let r = replace_char(init, '\n', seq!['\r', '\n']);
        assert(is_ascii_char(s[s.len() - 1]));
        let t = replace_char(s, '\n', seq!['\r', '\n']);
        assert forall|i: int| 0 <= i < t.len() implies is_ascii_char(#[trigger] t[i]) by {
            if i < r.len() {
                if s.last() == '\n' {
                    assert(t[i] == (r + seq!['\r', '\n'])[i]);
                } else {
                    assert(t[i] == r.push(s.last())[i]);
                }
            }
        }
    }
}

/// Line ends do not matter in a file either: an ASCII question file with
/// each `'\n'` written as `"\r\n"` is ASCII too, and its bytes, read back as
/// text (which is what `decode_with_fallback` gives for ASCII bytes), parse
/// as the file itself.
pub proof fn law_crlf_ascii_file(s: Seq<char>, id: Seq<char>)
    requires
        is_ascii(s),
    ensures
        ascii_bytes(encode_utf8(s)),
        ascii_bytes(encode_utf8(replace_char(s, '\n', seq!['\r', '\n']))),
        parsed_question(ascii_text(encode_utf8(replace_char(s, '\n', seq!['\r', '\n']))), id)
            == parsed_question(ascii_text(encode_utf8(s)), id),
{
    lemma_crlf_ascii(s);
    lemma_ascii_encode(s);
    lemma_ascii_encode(replace_char(s, '\n', seq!['\r', '\n']));
    law_crlf_line_ends(s, id);
}

// ---------------------------------------------------------------------------
// Executable functions
// ---------------------------------------------------------------------------

/// Capture group `i` of `m`, copied.
fn group_of(m: &TextMatch, i: usize) -> (r: Option<String>)
    ensures
        r.deep_view() == group(m.deep_view(), i as int),
{
    if i < m.groups.len() {
        match &m.groups[i] {
            Some(g) => Some(g.clone()),
            None => None,
        }
    } else {
        None
    }
}

/// The answer with key `key` made of `content`, removing `strip` from text.
fn answer_with(key: String, content: &str, strip: &str) -> (r: Option<Answer>)
    ensures
        r.deep_view() == answer_of(key@, content@, strip@),
{
    let im = regex_captures(IMAGE_PATTERN, content);
    let has_image = match &im {
        Some(m) => match group_of(m, 1) {
            Some(_) => true,
            None => false,
        },
        None => false,
    };
    if has_image {
        answer_from(key, &im, String::new())
    } else {
        let stripped = regex_replace_all(strip, content, NOTHING);
        answer_from(key, &im, stripped)
    }
}

/// The answer with key `key`, given the match of `IMAGE_PATTERN` in its
/// content and the content with the stripped parts removed.
pub fn answer_from(key: String, image_match: &Option<TextMatch>, stripped: String) -> (r: Option<
    Answer,
>)
    ensures
        r.deep_view() == answer_from_parts(key@, match_group(image_match.deep_view(), 1), stripped@),
{
    let img = match image_match {
        Some(m) => group_of(m, 1),
        None => None,
    };
    match img {
        Some(g) => Some(Answer { key, text: None, image: Some(g) }),
        None => {
            let t = trim_str(stripped.as_str());
            if t.as_str().is_empty() {
                None
            } else {
                Some(Answer { key, text: Some(t), image: None })
            }
        },
    }
}

/// Whether `k` is one answer letter.
fn is_answer_letter(k: &str) -> (r: bool)
    ensures
        r == answer_letter(k@),
{
    let v = chars_of(k);
    v.len() == 1 && (('a' <= v[0] && v[0] <= 'h') || ('A' <= v[0] && v[0] <= 'H'))
}

/// The answers given by the matches `ms` of `ANSWER_PATTERN`: the
/// lower-cased letter of each as key, its trimmed group 2 as content.
pub fn answers_from_matches(ms: &Vec<TextMatch>) -> (answers: Vec<Answer>)
    ensures
        answers.deep_view() == matched_answers(ms.deep_view()),
{
    let ghost msv = ms.deep_view();
    let mut answers: Vec<Answer> = Vec::new();
    let mut i: usize = 0;
    assert(msv.take(0) =~= Seq::<TextMatchView>::empty());
    while i < ms.len()
        invariant
            i <= ms.len(),
            msv == ms.deep_view(),
            answers.deep_view() == matched_answers(msv.take(i as int)),
        decreases ms.len() - i,
    {
        assert(msv.take(i + 1).drop_last() =~= msv.take(i as int));
        assert(msv.take(i + 1).last() == ms[i as int].deep_view());
        let k = group_of(&ms[i], 1);
        let c = group_of(&ms[i], 2);
        match (k, c) {
            (Some(k), Some(c)) => {
                if is_answer_letter(k.as_str()) {
                    let key = to_lowercase(k.as_str());
                    proof {
                        assert(is_ascii(k@)) by {
                            assert(is_ascii_char(k@[0]));
                        }
                    }
                    let content = trim_str(c.as_str());
                    let a = answer_with(key, content.as_str(), IMAGE_TAG_PATTERN);
                    match a {
                        Some(a) => {
                            let ghost before = answers.deep_view();
                            answers.push(a);
                            assert(answers.deep_view() =~= before.push(a.deep_view()));
                        },
                        None => {},
                    }
                }
            },
            _ => {},
        }
        i = i + 1;
    }
    assert(msv.take(ms.len() as int) =~= msv);
    answers
}

/// The answers that `ANSWER_PATTERN` finds in `rest`.
fn pattern_answers(rest: &str) -> (answers: Vec<Answer>)
    ensures
        answers.deep_view() == matched_answers(fancy_captures_iter_result(ANSWER_PATTERN@, rest@)),
{
    let ms = fancy_captures_iter(ANSWER_PATTERN, rest);
    answers_from_matches(&ms)
}

/// The answers made of `lines[from..]`, one per line.
fn answers_from_lines(lines: &Vec<Vec<char>>, from: usize) -> (answers: Vec<Answer>)
    requires
        from <= lines.len(),
    ensures
        answers.deep_view() == line_answers(lines.deep_view().skip(from as int)),
{
    let ghost sub = lines.deep_view().skip(from as int);
    let mut answers: Vec<Answer> = Vec::new();
    let mut i: usize = 0;
    let n = lines.len() - from;
    assert(sub.take(0) =~= Seq::<Seq<char>>::empty());
    while i < n
        invariant
            from <= lines.len(),
            n == lines.len() - from,
            i <= n,
            sub == lines.deep_view().skip(from as int),
            answers.deep_view() == line_answers(sub.take(i as int)),
        decreases n - i,
    {
        assert(sub.take(i + 1).drop_last() =~= sub.take(i as int));
        proof {
            crate::text::lemma_char_vec_deep_view(lines[from + i]);
        }
        assert(sub.take(i + 1).last() == lines[from + i]@);
        if i < 8 {
            let line = string_of(&lines[from + i]);
            let a = answer_with(key_string(i), line.as_str(), LETTER_PREFIX_PATTERN);
            match a {
                Some(a) => {
                    let ghost before = answers.deep_view();
                    answers.push(a);
                    assert(answers.deep_view() =~= before.push(a.deep_view()));
                },
                None => {},
            }
        }
        i = i + 1;
    }
    assert(sub.take(n as int) =~= sub);
    answers
}

/// Question text without a leading number and without image tags, trimmed.
fn clean_text(raw: &str) -> (t: String)
    ensures
        t@ == clean_question_text(raw@),
{
    let a = regex_replace_all(NUMBER_PREFIX_PATTERN, raw, NOTHING);
    let b = regex_replace_all(IMAGE_TAG_PATTERN, a.as_str(), NOTHING);
    trim_str(b.as_str())
}

/// The raw question text and answers of `rest`, taken line by line.
fn question_from_lines(rest: &str, code: &[char]) -> (r: (String, Vec<Answer>))
    ensures
        (r.0@, r.1.deep_view()) == line_question(rest@, code@),
{
    let rc = chars_of(rest);
    let ls = nonblank_lines_of(&rc);
    let tc = trim_chars(code);
    let within = utf8_len_within(&tc, ls.len());
    match within {
        Some(len) if len >= 2 => {
            let q = ls.len() - (len - 1);
            let nl = vec!['\n'];
            assert(nl@ =~= seq!['\n']);
            let raw = join_chars(&ls, 0, q, &nl);
            proof {
                assert(ls.deep_view().subrange(0, q as int) =~= ls.deep_view().take(q as int));
            }
            let raw_s = string_of(&raw);
            let answers = answers_from_lines(&ls, q);
            (raw_s, answers)
        },
        _ => {
            let text = if ls.len() > 0 {
                let first = string_of(&ls[0]);
                proof {
                    crate::text::lemma_char_vec_deep_view(ls[0]);
                }
                first
            } else {
                NOTHING.to_owned()
            };
            proof {
                if ls.len() == 0 {
                    assert(NOTHING@ == Seq::<char>::empty()) by {
                        reveal_strlit("");
                    }
                }
            }
            let answers = if ls.len() > 1 {
                answers_from_lines(&ls, 1)
            } else {
                Vec::new()
            };
            proof {
                if ls.len() <= 1 {
                    assert(answers.deep_view() =~= Seq::<AnswerView>::empty());
                }
            }
            (text, answers)
        },
    }
}

/// The image at the very start of `body` and the text after it.
fn split_leading_image(body: String) -> (r: (Vec<String>, String))
    ensures
        (r.0.deep_view(), r.1@) == leading_image(body@),
{
    let m = regex_captures(MAIN_IMAGE_PATTERN, body.as_str());
    leading_image_from(body, m)
}

/// The leading image of `body` and the text after it, given the match of
/// `MAIN_IMAGE_PATTERN` in it.
pub fn leading_image_from(body: String, m: Option<TextMatch>) -> (r: (Vec<String>, String))
    ensures
        (r.0.deep_view(), r.1@) == leading_from(body@, m.deep_view()),
{
    match m {
        Some(m) => match group_of(&m, 1) {
            Some(img) => {
                let images = vec![img];
                assert(images.deep_view() =~= seq![img@]);
                (images, trim_str(m.after.as_str()))
            },
            None => {
                let images: Vec<String> = Vec::new();
                assert(images.deep_view() =~= Seq::<Seq<char>>::empty());
                (images, body)
            },
        },
        None => {
            let images: Vec<String> = Vec::new();
            assert(images.deep_view() =~= Seq::<Seq<char>>::empty());
            (images, body)
        },
    }
}

/// The raw question text before the first pattern answer.
fn text_before_first_answer(rest: &str) -> (t: String)
    ensures
        t@ == text_before_answers(rest@),
{
    let f = fancy_find(ANSWER_PATTERN, rest);
    text_before_match(rest, &f)
}

/// The raw question text of `rest`, given the first match of
/// `ANSWER_PATTERN` in it.
pub fn text_before_match(rest: &str, m: &Option<TextMatch>) -> (t: String)
    ensures
        t@ == before_first(rest@, m.deep_view()),
{
    match m {
        Some(m) => trim_str(m.before.as_str()),
        None => trim_str(rest),
    }
}

/// The images of the question, given the leading image and the raw text.
fn images_of(leading: Vec<String>, raw: &str) -> (r: Vec<String>)
    ensures
        r.deep_view() == question_images(leading.deep_view(), raw@),
{
    if leading.len() > 0 {
        assert(leading.deep_view() == images_from(leading.deep_view(), image_in(raw@)));
        return leading;
    }
    let im = regex_captures(IMAGE_PATTERN, raw);
    images_from_match(leading, &im)
}

/// The images of the question, given the leading image and the match of
/// `IMAGE_PATTERN` in the raw question text.
pub fn images_from_match(leading: Vec<String>, m: &Option<TextMatch>) -> (r: Vec<String>)
    ensures
        r.deep_view() == images_from(leading.deep_view(), match_group(m.deep_view(), 1)),
{
    if leading.len() > 0 {
        return leading;
    }
    let img = match m {
        Some(m) => group_of(m, 1),
        None => None,
    };
    match img {
        Some(g) => {
            let v = vec![g];
            assert(v.deep_view() =~= seq![v[0]@]);
            v
        },
        None => {
            let v: Vec<String> = Vec::new();
            assert(v.deep_view() =~= Seq::<Seq<char>>::empty());
            v
        },
    }
}

/// Whether some answer has key `k`.
fn answers_have_key(answers: &Vec<Answer>, k: &String) -> (r: bool)
    ensures
        r == has_key(answers.deep_view(), k@),
{
    let mut j: usize = 0;
    while j < answers.len()
        invariant
            j <= answers.len(),
            forall|i: int| 0 <= i < j ==> (#[trigger] answers.deep_view()[i]).key != k@,
        decreases answers.len() - j,
    {
        if answers[j].key == *k {
            assert(answers.deep_view()[j as int].key == k@);
            return true;
        }
        j = j + 1;
    }
    false
}

/// The correct keys that name an answer, or the first answer's key.
fn filter_correct(correct: &Vec<String>, answers: &Vec<Answer>) -> (r: Vec<String>)
    requires
        answers.len() >= 1,
    ensures
        r.deep_view() == valid_correct(correct.deep_view(), answers.deep_view()),
{
    let ghost cv = correct.deep_view();
    let mut kept: Vec<String> = Vec::new();
    let mut i: usize = 0;
    assert(cv.take(0) =~= Seq::<Seq<char>>::empty());
    while i < correct.len()
        invariant
            i <= correct.len(),
            cv == correct.deep_view(),
            kept.deep_view() == keys_present(cv.take(i as int), answers.deep_view()),
        decreases correct.len() - i,
    {
        assert(cv.take(i + 1).drop_last() =~= cv.take(i as int));
        assert(cv.take(i + 1).last() == correct[i as int]@);
        if answers_have_key(answers, &correct[i]) {
            let ghost before = kept.deep_view();
            kept.push(correct[i].clone());
            assert(kept.deep_view() =~= before.push(correct[i as int]@));
        }
        i = i + 1;
    }
    assert(cv.take(correct.len() as int) =~= cv);
    if kept.len() == 0 {
        let first = vec![answers[0].key.clone()];
        assert(first.deep_view() =~= seq![answers.deep_view()[0].key]);
        first
    } else {
        kept
    }
}

/// The question assembled from its parts, once the text is cleaned, the
/// images found and the answers read: `None` when it has neither text nor
/// image, or fewer than two answers; else its correct keys are those of
/// `correct` that name an answer, or the first answer's key.
pub fn finish_question(
    id: &str,
    correct: &Vec<String>,
    text: String,
    images: Vec<String>,
    answers: Vec<Answer>,
) -> (r: Option<Question>)
    ensures
        r.deep_view() == finished_question(
            id@,
            correct.deep_view(),
            text@,
            images.deep_view(),
            answers.deep_view(),
        ),
{
    if text.as_str().is_empty() && images.len() == 0 {
        return None;
    }
    if answers.len() < 2 {
        return None;
    }
    let valid = filter_correct(correct, &answers);
    Some(Question { id: id.to_owned(), question: text, images, answers, correct: valid })
}

/// Parses the content of a question file into a question with id `id` (the
/// file's stem).  `None` when the content has fewer than two non-blank lines,
/// no question text or image, or fewer than two answers.
pub fn parse_question(content: &str, id: &str) -> (r: Option<Question>)
    ensures
        r.deep_view() == parsed_question(content@, id@),
        r matches Some(q) ==> question_well_formed(q.deep_view()),
{
    proof {
        lemma_parsed_question_well_formed(content@, id@);
    }
    let raw = chars_of(content);
    let unified = unify_newlines_chars(&raw);
    let lines = nonblank_lines_of(&unified);
    if lines.len() < 2 {
        return None;
    }
    proof {
        crate::text::lemma_char_vec_deep_view(lines[0]);
    }
    let code = trim_chars(&lines[0]);
    let code_s = string_of(&code);
    let correct = parse_answer_code(code_s.as_str());
    let nl = vec!['\n'];
    assert(nl@ =~= seq!['\n']);
    let body = join_chars(&lines, 1, lines.len(), &nl);
    proof {
        assert(lines.deep_view().subrange(1, lines.len() as int) =~= lines.deep_view().skip(1));
    }
    let body_s = string_of(&body);
    let (leading, rest) = split_leading_image(body_s);
    let found = pattern_answers(rest.as_str());
    let (raw, answers) = if found.len() < 2 {
        question_from_lines(rest.as_str(), &code)
    } else {
        (text_before_first_answer(rest.as_str()), found)
    };
    let text = clean_text(raw.as_str());
    let images = images_of(leading, raw.as_str());
    finish_question(id, &correct, text, images, answers)
}

} // verus!
