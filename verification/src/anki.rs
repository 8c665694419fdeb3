//! Export of a base to Anki: one card per question, `front<TAB>back`, cards
//! separated by newlines; images are copied to `media/` under the name
//! `<slug>_<question id>_<image name>` (with `/` and `\` of the image name
//! turned into `_`).
use vstd::prelude::*;
use crate::model::{Answer, AnswerView, BaseData, BaseDataView, Question, QuestionView};
use crate::text::{
    append_chars, chars_of, join_with, replace_char, replace_char_chars, string_of,
    trim, trim_chars,
};
use crate::unicode::{str_uppercase, to_uppercase};

verus! {

pub const BOLD_OPEN: &'static str = "<b>";

pub const BOLD_CLOSE: &'static str = "</b>";

pub const IMG_OPEN: &'static str = "<img src=\"";

pub const IMG_CLOSE: &'static str = "\">";

pub const MISSING_OPEN: &'static str = "[obrazek: ";

pub const MISSING_CLOSE: &'static str = "]";

pub const LABEL_SEP: &'static str = ") ";

pub const LINE_BREAK: &'static str = "<br>";

pub const NAME_SEP: &'static str = "_";

/// One image to copy into the media directory: the image's name in the
/// base's image directory, and the name it gets in `media/`.
pub struct MediaCopy {
    pub image: String,
    pub file_name: String,
}

/// An exported deck: the text of the deck file, and the images to copy.
pub struct AnkiDeck {
    pub text: String,
    pub copies: Vec<MediaCopy>,
}

impl DeepView for MediaCopy {
    type V = (Seq<char>, Seq<char>);

    open spec fn deep_view(&self) -> (Seq<char>, Seq<char>) {
        (self.image@, self.file_name@)
    }
}

// ---------------------------------------------------------------------------
// Specification
// ---------------------------------------------------------------------------

/// `img` with `/` and `\` turned into `_`.
pub open spec fn safe_image_name(img: Seq<char>) -> Seq<char> {
    replace_char(replace_char(img, '/', seq!['_']), '\\', seq!['_'])
}

/// The name an image of question `id` gets in `media/`.
pub open spec fn media_name(slug: Seq<char>, id: Seq<char>, img: Seq<char>) -> Seq<char> {
    slug + NAME_SEP@ + id + NAME_SEP@ + safe_image_name(img)
}

/// How an image shows on a card: an `<img>` tag naming the copied file when
/// the image exists, else a note naming the missing image.
pub open spec fn shown_image(slug: Seq<char>, id: Seq<char>, img: Seq<char>, existing: Seq<Seq<char>>) -> Seq<char> {
    if existing.contains(img) {
        IMG_OPEN@ + media_name(slug, id, img) + IMG_CLOSE@
    } else {
        MISSING_OPEN@ + img + MISSING_CLOSE@
    }
}

/// The line of an answer on a card, after `label`: its image, or its text.
pub open spec fn answer_line(
    label: Seq<char>,
    a: AnswerView,
    slug: Seq<char>,
    id: Seq<char>,
    existing: Seq<Seq<char>>,
) -> Option<Seq<char>> {
    match a.image {
        Some(img) => Some(label + LABEL_SEP@ + shown_image(slug, id, img, existing)),
        None => match a.text {
            Some(t) => Some(label + LABEL_SEP@ + t),
            None => None,
        },
    }
}

/// `s` with `x` appended when there is one.
pub open spec fn push_line(s: Seq<Seq<char>>, x: Option<Seq<char>>) -> Seq<Seq<char>> {
    match x {
        Some(l) => s.push(l),
        None => s,
    }
}

/// The lines of the question's images.
pub open spec fn image_lines(q: QuestionView, slug: Seq<char>, existing: Seq<Seq<char>>) -> Seq<
    Seq<char>,
> {
    Seq::new(q.images.len(), |i: int| shown_image(slug, q.id, q.images[i], existing))
}

/// The lines of the first `n` answers, each labelled with its upper-cased key.
pub open spec fn answer_lines(q: QuestionView, n: int, slug: Seq<char>, existing: Seq<Seq<char>>) -> Seq<
    Seq<char>,
>
    decreases n,
{
    if n <= 0 {
        Seq::<Seq<char>>::empty()
    } else {
        let a = q.answers[n - 1];
        push_line(
            answer_lines(q, n - 1, slug, existing),
            answer_line(str_uppercase(a.key), a, slug, q.id, existing),
        )
    }
}

/// The first answer whose key is `k`.
pub open spec fn first_with_key(answers: Seq<AnswerView>, k: Seq<char>) -> Option<AnswerView>
    decreases answers.len(),
{
    if answers.len() == 0 {
        None
    } else if answers[0].key == k {
        Some(answers[0])
    } else {
        first_with_key(answers.drop_first(), k)
    }
}

/// The back lines for the first `n` correct keys: the answer with that key,
/// labelled with the upper-cased key, or the upper-cased key alone when no
/// answer has it.
pub open spec fn back_lines(q: QuestionView, n: int, slug: Seq<char>, existing: Seq<Seq<char>>) -> Seq<
    Seq<char>,
>
    decreases n,
{
    if n <= 0 {
        Seq::<Seq<char>>::empty()
    } else {
        let c = q.correct[n - 1];
        let init = back_lines(q, n - 1, slug, existing);
        match first_with_key(q.answers, c) {
            Some(a) => push_line(init, answer_line(str_uppercase(c), a, slug, q.id, existing)),
            None => init.push(str_uppercase(c)),
        }
    }
}

/// The bold question text, when it is not blank.
pub open spec fn title_lines(q: QuestionView) -> Seq<Seq<char>> {
    if trim(q.question).len() > 0 {
        seq![BOLD_OPEN@ + trim(q.question) + BOLD_CLOSE@]
    } else {
        Seq::<Seq<char>>::empty()
    }
}

/// The lines of the front of the card: title, images, an empty line, answers.
pub open spec fn front_lines(q: QuestionView, slug: Seq<char>, existing: Seq<Seq<char>>) -> Seq<
    Seq<char>,
> {
    title_lines(q) + image_lines(q, slug, existing) + seq![Seq::<char>::empty()] + answer_lines(
        q,
        q.answers.len() as int,
        slug,
        existing,
    )
}

/// Lines joined with `<br>`, tabs turned into spaces.
pub open spec fn card_side(lines: Seq<Seq<char>>) -> Seq<char> {
    replace_char(join_with(lines, LINE_BREAK@), '\t', seq![' '])
}

/// The card of a question: front and back separated by a tab.
pub open spec fn card_of(q: QuestionView, slug: Seq<char>, existing: Seq<Seq<char>>) -> Seq<char> {
    card_side(front_lines(q, slug, existing)) + seq!['\t'] + card_side(
        back_lines(q, q.correct.len() as int, slug, existing),
    )
}

/// The copies for the first `n` images of a question that exist.
pub open spec fn image_copies(q: QuestionView, n: int, slug: Seq<char>, existing: Seq<Seq<char>>) -> Seq<
    (Seq<char>, Seq<char>),
>
    decreases n,
{
    if n <= 0 {
        Seq::<(Seq<char>, Seq<char>)>::empty()
    } else {
        let init = image_copies(q, n - 1, slug, existing);
        let img = q.images[n - 1];
        if existing.contains(img) {
            init.push((img, media_name(slug, q.id, img)))
        } else {
            init
        }
    }
}

/// The copies for the images of the first `n` answers that exist.
pub open spec fn answer_copies(q: QuestionView, n: int, slug: Seq<char>, existing: Seq<Seq<char>>) -> Seq<
    (Seq<char>, Seq<char>),
>
    decreases n,
{
    if n <= 0 {
        Seq::<(Seq<char>, Seq<char>)>::empty()
    } else {
        let init = answer_copies(q, n - 1, slug, existing);
        match q.answers[n - 1].image {
            Some(img) => if existing.contains(img) {
                init.push((img, media_name(slug, q.id, img)))
            } else {
                init
            },
            None => init,
        }
    }
}

/// The images a question's card shows that exist, as copies to make.
pub open spec fn question_copies(q: QuestionView, slug: Seq<char>, existing: Seq<Seq<char>>) -> Seq<
    (Seq<char>, Seq<char>),
> {
    image_copies(q, q.images.len() as int, slug, existing) + answer_copies(
        q,
        q.answers.len() as int,
        slug,
        existing,
    )
}

/// The cards of the first `n` questions.
pub open spec fn deck_cards(b: BaseDataView, n: int, slug: Seq<char>, existing: Seq<Seq<char>>) -> Seq<
    Seq<char>,
> {
    Seq::new(n as nat, |i: int| card_of(b.questions[i], slug, existing))
}

/// The copies for the first `n` questions, in order.
pub open spec fn deck_copies(b: BaseDataView, n: int, slug: Seq<char>, existing: Seq<Seq<char>>) -> Seq<
    (Seq<char>, Seq<char>),
>
    decreases n,
{
    if n <= 0 {
        Seq::<(Seq<char>, Seq<char>)>::empty()
    } else {
        deck_copies(b, n - 1, slug, existing) + question_copies(b.questions[n - 1], slug, existing)
    }
}

// ---------------------------------------------------------------------------
// Laws
// ---------------------------------------------------------------------------

/// Replacing every `from` by a text without `from` leaves no `from`.
pub proof fn lemma_replace_char_removes(s: Seq<char>, from: char, to: Seq<char>)
    requires
        !to.contains(from),
    ensures
        !replace_char(s, from, to).contains(from),
    decreases s.len(),
{
    if s.len() > 0 {
        lemma_replace_char_removes(s.drop_last(), from, to);
        let r = replace_char(s.drop_last(), from, to);
        if s.last() == from {
            assert forall|i: int| 0 <= i < (r + to).len() implies (r + to)[i] != from by {
                if i < r.len() {
                    assert((r + to)[i] == r[i]);
                } else {
                    assert((r + to)[i] == to[i - r.len()]);
                }
            }
        } else {
            assert forall|i: int| 0 <= i < r.push(s.last()).len() implies r.push(s.last())[i] != from by {
                if i < r.len() {
                    assert(r.push(s.last())[i] == r[i]);
                }
            }
        }
    }
}

/// Each card has exactly one tab, between its front and its back.
pub proof fn law_card_one_tab(q: QuestionView, slug: Seq<char>, existing: Seq<Seq<char>>)
    ensures
        exists|front: Seq<char>, back: Seq<char>|
            !front.contains('\t') && !back.contains('\t') && #[trigger] card_of(q, slug, existing)
                == front + seq!['\t'] + back,
{
    let f = card_side(front_lines(q, slug, existing));
    let b = card_side(back_lines(q, q.correct.len() as int, slug, existing));
    assert(!seq![' '].contains('\t')) by {
        assert forall|i: int| 0 <= i < seq![' '].len() implies seq![' '][i] != '\t' by {}
    }
    lemma_replace_char_removes(join_with(front_lines(q, slug, existing), LINE_BREAK@), '\t', seq![' ']);
    lemma_replace_char_removes(
        join_with(back_lines(q, q.correct.len() as int, slug, existing), LINE_BREAK@),
        '\t',
        seq![' '],
    );
    assert(card_of(q, slug, existing) == f + seq!['\t'] + b);
}

/// A media file name never holds `/` or `\` in the part taken from the image
/// name.
pub proof fn law_safe_image_name(img: Seq<char>)
    ensures
        !safe_image_name(img).contains('/'),
        !safe_image_name(img).contains('\\'),
{
    assert(!seq!['_'].contains('/')) by {
        assert forall|i: int| 0 <= i < seq!['_'].len() implies seq!['_'][i] != '/' by {}
    }
    assert(!seq!['_'].contains('\\')) by {
        assert forall|i: int| 0 <= i < seq!['_'].len() implies seq!['_'][i] != '\\' by {}
    }
    let once = replace_char(img, '/', seq!['_']);
    lemma_replace_char_removes(img, '/', seq!['_']);
    lemma_replace_char_removes(once, '\\', seq!['_']);
    lemma_replace_keeps_absent(once, '\\', seq!['_'], '/');
}

/// How the image `img` of question `id` shows on a card of the deck `slug`:
/// an `<img>` tag naming `<slug>_<id>_<img>` (with `/` and `\` of the image
/// name turned into `_`) when the image exists, else a note naming it.
pub open spec fn image_shown(slug: Seq<char>, id: Seq<char>, img: Seq<char>, existing: Seq<Seq<char>>) -> Seq<
    char,
> {
    if existing.contains(img) {
        "<img src=\""@ + slug + "_"@ + id + "_"@ + safe_image_name(img) + "\">"@
    } else {
        "[obrazek: "@ + img + "]"@
    }
}

/// The front of a card starts with the bold question text (when it is not
/// blank), then shows every image of the question, in order, one per line,
/// then an empty line; and every image of the question that exists is
/// copied, under its media name.  Only existing images are copied.
pub proof fn law_card_images(q: QuestionView, slug: Seq<char>, existing: Seq<Seq<char>>)
    ensures
        ({
            let f = front_lines(q, slug, existing);
            let t: int = if trim(q.question).len() > 0 {
                1
            } else {
                0
            };
            &&& f.len() >= t + q.images.len() + 1
            &&& t == 1 ==> f[0] == "<b>"@ + trim(q.question) + "</b>"@
            &&& forall|i: int|
                0 <= i < q.images.len() ==> #[trigger] f[t + i] == image_shown(
                    slug,
                    q.id,
                    q.images[i],
                    existing,
                )
            &&& f[t + q.images.len()] == Seq::<char>::empty()
        }),
        forall|i: int|
            0 <= i < q.images.len() && existing.contains(#[trigger] q.images[i])
                ==> question_copies(q, slug, existing).contains(
                (q.images[i], slug + "_"@ + q.id + "_"@ + safe_image_name(q.images[i])),
            ),
        forall|j: int|
            0 <= j < question_copies(q, slug, existing).len() ==> existing.contains(
                (#[trigger] question_copies(q, slug, existing)[j]).0,
            ),
{
    reveal_strlit("<img src=\"");
    reveal_strlit("\">");
    reveal_strlit("[obrazek: ");
    reveal_strlit("]");
    reveal_strlit("<b>");
    reveal_strlit("</b>");
    reveal_strlit("_");
    let f = front_lines(q, slug, existing);
    let tl = title_lines(q);
    let il = image_lines(q, slug, existing);
    let al = answer_lines(q, q.answers.len() as int, slug, existing);
    let t: int = tl.len() as int;
    assert(f == tl + il + seq![Seq::<char>::empty()] + al);
    assert forall|i: int| 0 <= i < q.images.len() implies #[trigger] f[t + i] == image_shown(
        slug,
        q.id,
        q.images[i],
        existing,
    ) by {
        assert(f[t + i] == il[i]);
        assert(IMG_OPEN@ =~= "<img src=\""@);
        assert(IMG_CLOSE@ =~= "\">"@);
        assert(MISSING_OPEN@ =~= "[obrazek: "@);
        assert(MISSING_CLOSE@ =~= "]"@);
        assert(NAME_SEP@ =~= "_"@);
        assert(IMG_OPEN@ + media_name(slug, q.id, q.images[i]) + IMG_CLOSE@ =~= "<img src=\""@
            + slug + "_"@ + q.id + "_"@ + safe_image_name(q.images[i]) + "\">"@);
    }
    assert(f[t + q.images.len()] == Seq::<char>::empty());
    if t == 1 {
        assert(BOLD_OPEN@ =~= "<b>"@);
        assert(BOLD_CLOSE@ =~= "</b>"@);
    }
    lemma_image_copies(q, q.images.len() as int, slug, existing);
    lemma_answer_copies_existing(q, q.answers.len() as int, slug, existing);
    let ic = image_copies(q, q.images.len() as int, slug, existing);
    let ac = answer_copies(q, q.answers.len() as int, slug, existing);
    let qc = question_copies(q, slug, existing);
    assert(qc == ic + ac);
    assert forall|i: int| 0 <= i < q.images.len() && existing.contains(#[trigger] q.images[i])
        implies qc.contains((q.images[i], slug + "_"@ + q.id + "_"@ + safe_image_name(q.images[i]))) by {
        assert(NAME_SEP@ =~= "_"@);
        assert(media_name(slug, q.id, q.images[i]) =~= slug + "_"@ + q.id + "_"@ + safe_image_name(
            q.images[i],
        ));
        let k = choose|k: int| 0 <= k < ic.len() && ic[k] == (q.images[i], media_name(slug, q.id, q.images[i]));
        assert(qc[k] == ic[k]);
    }
    assert forall|j: int| 0 <= j < qc.len() implies existing.contains((#[trigger] qc[j]).0) by {
        if j < ic.len() {
            assert(qc[j] == ic[j]);
        } else {
            assert(qc[j] == ac[j - ic.len()]);
        }
    }
}

/// The deck holds one card per question, in order, and copies every image
/// that the card of any of its questions copies.
pub proof fn law_deck(b: BaseDataView, slug: Seq<char>, existing: Seq<Seq<char>>)
    ensures
        deck_cards(b, b.questions.len() as int, slug, existing).len() == b.questions.len(),
        forall|m: int|
            0 <= m < b.questions.len() ==> #[trigger] deck_cards(
                b,
                b.questions.len() as int,
                slug,
                existing,
            )[m] == card_of(b.questions[m], slug, existing),
        forall|m: int, j: int|
            0 <= m < b.questions.len() && 0 <= j < question_copies(b.questions[m], slug, existing).len()
                ==> deck_copies(b, b.questions.len() as int, slug, existing).contains(
                #[trigger] question_copies(b.questions[m], slug, existing)[j],
            ),
{
    lemma_deck_copies(b, b.questions.len() as int, slug, existing);
}

proof fn lemma_deck_copies(b: BaseDataView, n: int, slug: Seq<char>, existing: Seq<Seq<char>>)
    ensures
        forall|m: int, j: int|
            0 <= m < n && 0 <= j < question_copies(b.questions[m], slug, existing).len()
                ==> deck_copies(b, n, slug, existing).contains(
                #[trigger] question_copies(b.questions[m], slug, existing)[j],
            ),
    decreases n,
{
    if n > 0 {
        lemma_deck_copies(b, n - 1, slug, existing);
        let init = deck_copies(b, n - 1, slug, existing);
        let last = question_copies(b.questions[n - 1], slug, existing);
        let r = deck_copies(b, n, slug, existing);
        assert(r == init + last);
        assert forall|m: int, j: int|
            0 <= m < n && 0 <= j < question_copies(b.questions[m], slug, existing).len()
                implies r.contains(#[trigger] question_copies(b.questions[m], slug, existing)[j]) by {
            let x = question_copies(b.questions[m], slug, existing)[j];
            if m < n - 1 {
                let k = choose|k: int| 0 <= k < init.len() && init[k] == x;
                assert(r[k] == init[k]);
            } else {
                assert(r[init.len() + j] == last[j]);
            }
        }
    }
}

/// The copies for the first `n` question images: one per existing image, and
/// only those.
proof fn lemma_image_copies(q: QuestionView, n: int, slug: Seq<char>, existing: Seq<Seq<char>>)
    requires
        0 <= n <= q.images.len(),
    ensures
        forall|i: int|
            0 <= i < n && existing.contains(#[trigger] q.images[i]) ==> exists|k: int|
                0 <= k < image_copies(q, n, slug, existing).len() && image_copies(q, n, slug, existing)[k]
                    == (q.images[i], media_name(slug, q.id, q.images[i])),
        forall|j: int|
            0 <= j < image_copies(q, n, slug, existing).len() ==> existing.contains(
                (#[trigger] image_copies(q, n, slug, existing)[j]).0,
            ),
    decreases n,
{
    if n > 0 {
        lemma_image_copies(q, n - 1, slug, existing);
        let init = image_copies(q, n - 1, slug, existing);
        let r = image_copies(q, n, slug, existing);
        let img = q.images[n - 1];
        assert forall|i: int| 0 <= i < n && existing.contains(#[trigger] q.images[i]) implies exists|k: int|
            0 <= k < r.len() && r[k] == (q.images[i], media_name(slug, q.id, q.images[i])) by {
            if i < n - 1 {
                let k = choose|k: int| 0 <= k < init.len() && init[k] == (q.images[i], media_name(slug, q.id, q.images[i]));
                if existing.contains(img) {
                    assert(r[k] == init[k]);
                } else {
                    assert(r == init);
                }
            } else {
                assert(r[init.len() as int] == (img, media_name(slug, q.id, img)));
            }
        }
        assert forall|j: int| 0 <= j < r.len() implies existing.contains((#[trigger] r[j]).0) by {
            if j < init.len() {
                if existing.contains(img) {
                    assert(r[j] == init[j]);
                }
            }
        }
    }
}

/// The copies for answer images are of existing images only.
proof fn lemma_answer_copies_existing(q: QuestionView, n: int, slug: Seq<char>, existing: Seq<Seq<char>>)
    ensures
        forall|j: int|
            0 <= j < answer_copies(q, n, slug, existing).len() ==> existing.contains(
                (#[trigger] answer_copies(q, n, slug, existing)[j]).0,
            ),
    decreases n,
{
    if n > 0 {
        lemma_answer_copies_existing(q, n - 1, slug, existing);
        let init = answer_copies(q, n - 1, slug, existing);
        let r = answer_copies(q, n, slug, existing);
        assert forall|j: int| 0 <= j < r.len() implies existing.contains((#[trigger] r[j]).0) by {
            if j < init.len() {
                assert(r[j] == init[j]);
            }
        }
    }
}

/// Replacing a character by a text without `c` does not bring `c` in.
pub proof fn lemma_replace_keeps_absent(s: Seq<char>, from: char, to: Seq<char>, c: char)
    requires
        !s.contains(c),
        !to.contains(c),
    ensures
        !replace_char(s, from, to).contains(c),
    decreases s.len(),
{
    if s.len() > 0 {
        assert(!s.drop_last().contains(c)) by {
            assert forall|i: int| 0 <= i < s.drop_last().len() implies s.drop_last()[i] != c by {
                assert(s.drop_last()[i] == s[i]);
            }
        }
        lemma_replace_keeps_absent(s.drop_last(), from, to, c);
        let r = replace_char(s.drop_last(), from, to);
        if s.last() == from {
            assert forall|i: int| 0 <= i < (r + to).len() implies (r + to)[i] != c by {
                if i < r.len() {
                    assert((r + to)[i] == r[i]);
                } else {
                    assert((r + to)[i] == to[i - r.len()]);
                }
            }
        } else {
            assert(s[s.len() - 1] != c);
            assert forall|i: int| 0 <= i < r.push(s.last()).len() implies r.push(s.last())[i] != c by {
                if i < r.len() {
                    assert(r.push(s.last())[i] == r[i]);
                }
            }
        }
    }
}

// ---------------------------------------------------------------------------
// Executable
// ---------------------------------------------------------------------------

/// Whether `img` is among `existing`.
fn image_exists(existing: &Vec<String>, img: &String) -> (r: bool)
    ensures
        r == existing.deep_view().contains(img@),
{
    let mut i: usize = 0;
    while i < existing.len()
        invariant
            i <= existing.len(),
            forall|j: int| 0 <= j < i ==> existing.deep_view()[j] != img@,
        decreases existing.len() - i,
    {
        if existing[i] == *img {
            assert(existing.deep_view()[i as int] == img@);
            return true;
        }
        i = i + 1;
    }
    false
}

/// The name an image of question `id` gets in `media/`.
fn media_file_name(slug: &[char], id: &String, img: &String) -> (r: Vec<char>)
    ensures
        r@ == media_name(slug@, id@, img@),
{
    let us = vec!['_'];
    assert(us@ =~= seq!['_']);
    let ic = chars_of(img.as_str());
    let once = replace_char_chars(&ic, '/', &us);
    let safe = replace_char_chars(&once, '\\', &us);
    let sep = chars_of(NAME_SEP);
    let mut r = Vec::new();
    append_chars(&mut r, slug);
    append_chars(&mut r, &sep);
    append_chars(&mut r, &chars_of(id.as_str()));
    append_chars(&mut r, &sep);
    append_chars(&mut r, &safe);
    assert(r@ =~= media_name(slug@, id@, img@));
    r
}

/// How `img` shows on a card, and the copy to make when it exists.
fn show_image(slug: &[char], id: &String, img: &String, existing: &Vec<String>) -> (r: (
    Vec<char>,
    Option<MediaCopy>,
))
    ensures
        r.0@ == shown_image(slug@, id@, img@, existing.deep_view()),
        r.1 matches Some(c) ==> c.deep_view() == (img@, media_name(slug@, id@, img@)),
        r.1 is Some <==> existing.deep_view().contains(img@),
{
    let mut out = Vec::new();
    if image_exists(existing, img) {
        let name = media_file_name(slug, id, img);
        append_chars(&mut out, &chars_of(IMG_OPEN));
        append_chars(&mut out, &name);
        append_chars(&mut out, &chars_of(IMG_CLOSE));
        assert(out@ =~= IMG_OPEN@ + media_name(slug@, id@, img@) + IMG_CLOSE@);
        let copy = MediaCopy { image: img.clone(), file_name: string_of(&name) };
        (out, Some(copy))
    } else {
        append_chars(&mut out, &chars_of(MISSING_OPEN));
        append_chars(&mut out, &chars_of(img.as_str()));
        append_chars(&mut out, &chars_of(MISSING_CLOSE));
        assert(out@ =~= MISSING_OPEN@ + img@ + MISSING_CLOSE@);
        (out, None)
    }
}

/// The line of answer `a` after `label`, and the copy its image needs.
fn show_answer(
    label: &[char],
    a: &Answer,
    slug: &[char],
    id: &String,
    existing: &Vec<String>,
) -> (r: (Option<Vec<char>>, Option<MediaCopy>))
    ensures
        r.0.deep_view() == answer_line(label@, a.deep_view(), slug@, id@, existing.deep_view()),
        r.1 matches Some(c) ==> a.image matches Some(img) && c.deep_view() == (
            img@,
            media_name(slug@, id@, img@),
        ),
        r.1 is Some <==> (a.image matches Some(img) && existing.deep_view().contains(img@)),
{
    let mut line = Vec::new();
    append_chars(&mut line, label);
    append_chars(&mut line, &chars_of(LABEL_SEP));
    match &a.image {
        Some(img) => {
            let (shown, copy) = show_image(slug, id, img, existing);
            append_chars(&mut line, &shown);
            proof {
                crate::text::lemma_char_vec_deep_view(line);
            }
            (Some(line), copy)
        },
        None => match &a.text {
            Some(t) => {
                append_chars(&mut line, &chars_of(t.as_str()));
                proof {
                    crate::text::lemma_char_vec_deep_view(line);
                }
                (Some(line), None)
            },
            None => (None, None),
        },
    }
}

/// The upper-cased form of a key, as characters.
fn upper_label(key: &String) -> (r: Vec<char>)
    ensures
        r@ == str_uppercase(key@),
{
    let u = to_uppercase(key.as_str());
    chars_of(u.as_str())
}

/// The first answer whose key is `k`.
fn find_answer<'a>(answers: &'a Vec<Answer>, k: &String) -> (r: Option<&'a Answer>)
    ensures
        match r {
            Some(a) => first_with_key(answers.deep_view(), k@) == Some(a.deep_view()),
            None => first_with_key(answers.deep_view(), k@) is None,
        },
{
    let ghost av = answers.deep_view();
    let mut i: usize = 0;
    assert(av.skip(0) =~= av);
    while i < answers.len()
        invariant
            i <= answers.len(),
            av == answers.deep_view(),
            first_with_key(av, k@) == first_with_key(av.skip(i as int), k@),
        decreases answers.len() - i,
    {
        assert(av.skip(i as int)[0] == answers[i as int].deep_view());
        if answers[i].key == *k {
            return Some(&answers[i]);
        }
        assert(av.skip(i as int).drop_first() =~= av.skip(i + 1));
        i = i + 1;
    }
    None
}

/// `lines` joined with `<br>`, tabs turned into spaces.
fn side_text(lines: &Vec<Vec<char>>) -> (r: Vec<char>)
    ensures
        r@ == card_side(lines.deep_view()),
{
    let br = chars_of(LINE_BREAK);
    let joined = crate::text::join_chars(lines, 0, lines.len(), &br);
    assert(lines.deep_view().subrange(0, lines.len() as int) =~= lines.deep_view());
    let sp = vec![' '];
    assert(sp@ =~= seq![' ']);
    replace_char_chars(&joined, '\t', &sp)
}

/// The card of question `q`, and the copies its images need.
fn question_card(q: &Question, slug: &[char], existing: &Vec<String>) -> (r: (
    Vec<char>,
    Vec<MediaCopy>,
))
    ensures
        r.0@ == card_of(q.deep_view(), slug@, existing.deep_view()),
        r.1.deep_view() == question_copies(q.deep_view(), slug@, existing.deep_view()),
{
    let ghost qv = q.deep_view();
    let ghost ex = existing.deep_view();
    let mut front: Vec<Vec<char>> = Vec::new();
    let mut copies: Vec<MediaCopy> = Vec::new();
    let qc = chars_of(q.question.as_str());
    let title = trim_chars(&qc);
    if title.len() > 0 {
        let mut t = Vec::new();
        append_chars(&mut t, &chars_of(BOLD_OPEN));
        append_chars(&mut t, &title);
        append_chars(&mut t, &chars_of(BOLD_CLOSE));
        let ghost fv = front;
        let ghost tv = t;
        front.push(t);
        proof {
            crate::text::lemma_push_deep_view(fv, front, tv);
        }
    }
    assert(front.deep_view() =~= title_lines(qv));
    let ghost t0 = front.deep_view();
    let mut i: usize = 0;
    assert(copies.deep_view() =~= image_copies(qv, 0, slug@, ex));
    while i < q.images.len()
        invariant
            i <= q.images.len(),
            qv == q.deep_view(),
            ex == existing.deep_view(),
            front.deep_view() =~= t0 + image_lines(qv, slug@, ex).take(i as int),
            copies.deep_view() == image_copies(qv, i as int, slug@, ex),
        decreases q.images.len() - i,
    {
        let (shown, copy) = show_image(slug, &q.id, &q.images[i], existing);
        let ghost fv = front;
        let ghost sv = shown;
        front.push(shown);
        proof {
            crate::text::lemma_push_deep_view(fv, front, sv);
        }
        assert(image_lines(qv, slug@, ex).take(i + 1) =~= image_lines(qv, slug@, ex).take(
            i as int,
        ).push(shown_image(slug@, qv.id, qv.images[i as int], ex)));
        match copy {
            Some(c) => {
                let ghost cv = copies.deep_view();
                copies.push(c);
                assert(copies.deep_view() =~= cv.push(c.deep_view()));
            },
            None => {},
        }
        i = i + 1;
    }
    assert(image_lines(qv, slug@, ex).take(q.images.len() as int) =~= image_lines(qv, slug@, ex));
    let empty: Vec<char> = Vec::new();
    let ghost fv0 = front;
    let ghost ev = empty;
    front.push(empty);
    proof {
        crate::text::lemma_push_deep_view(fv0, front, ev);
    }
    let ghost t1 = front.deep_view();
    let ghost c1 = copies.deep_view();
    assert(t1 =~= title_lines(qv) + image_lines(qv, slug@, ex) + seq![Seq::<char>::empty()]);
    let mut j: usize = 0;
    assert(c1 + answer_copies(qv, 0, slug@, ex) =~= c1);
    assert(t1 + answer_lines(qv, 0, slug@, ex) =~= t1);
    while j < q.answers.len()
        invariant
            j <= q.answers.len(),
            qv == q.deep_view(),
            ex == existing.deep_view(),
            front.deep_view() == t1 + answer_lines(qv, j as int, slug@, ex),
            copies.deep_view() == c1 + answer_copies(qv, j as int, slug@, ex),
        decreases q.answers.len() - j,
    {
        let a = &q.answers[j];
        let label = upper_label(&a.key);
        let (line, copy) = show_answer(&label, a, slug, &q.id, existing);
        assert(a.deep_view() == qv.answers[j as int]);
        match line {
            Some(l) => {
                let ghost fv = front;
                let ghost lv = l;
                front.push(l);
                proof {
                    crate::text::lemma_push_deep_view(fv, front, lv);
                }
                assert(front.deep_view() =~= t1 + answer_lines(qv, j + 1, slug@, ex));
            },
            None => {},
        }
        match copy {
            Some(c) => {
                let ghost cv = copies.deep_view();
                copies.push(c);
                assert(copies.deep_view() =~= cv.push(c.deep_view()));
                assert(copies.deep_view() =~= c1 + answer_copies(qv, j + 1, slug@, ex));
            },
            None => {},
        }
        j = j + 1;
    }
    let mut back: Vec<Vec<char>> = Vec::new();
    let mut k: usize = 0;
    while k < q.correct.len()
        invariant
            k <= q.correct.len(),
            qv == q.deep_view(),
            ex == existing.deep_view(),
            back.deep_view() == back_lines(qv, k as int, slug@, ex),
        decreases q.correct.len() - k,
    {
        let c = &q.correct[k];
        let label = upper_label(c);
        assert(c@ == qv.correct[k as int]);
        match find_answer(&q.answers, c) {
            Some(a) => {
                let (line, _) = show_answer(&label, a, slug, &q.id, existing);
                match line {
                    Some(l) => {
                        let ghost bv = back;
                        let ghost lv = l;
                        back.push(l);
                        proof {
                            crate::text::lemma_push_deep_view(bv, back, lv);
                        }
                    },
                    None => {},
                }
            },
            None => {
                let ghost bv = back;
                let ghost lv = label;
                back.push(label);
                proof {
                    crate::text::lemma_push_deep_view(bv, back, lv);
                }
            },
        }
        k = k + 1;
    }
    let f = side_text(&front);
    let b = side_text(&back);
    let mut card = f;
    card.push('\t');
    append_chars(&mut card, &b);
    assert(card@ =~= card_side(front_lines(qv, slug@, ex)) + seq!['\t'] + card_side(
        back_lines(qv, qv.correct.len() as int, slug@, ex),
    ));
    (card, copies)
}

/// The Anki deck of `base` exported under `slug`: the deck text (one card
/// per question, separated by newlines) and the images to copy into
/// `media/`; `existing` names the images found in the base's image
/// directory.  This is the computing part of exporting to Anki.
pub fn build_anki_deck(slug: &str, base: &BaseData, existing: &Vec<String>) -> (r: AnkiDeck)
    ensures
        r.text@ == join_with(
            deck_cards(base.deep_view(), base.questions.len() as int, slug@, existing.deep_view()),
            seq!['\n'],
        ),
        r.copies.deep_view() == deck_copies(
            base.deep_view(),
            base.questions.len() as int,
            slug@,
            existing.deep_view(),
        ),
{
    let ghost bv = base.deep_view();
    let ghost ex = existing.deep_view();
    let sc = chars_of(slug);
    let mut cards: Vec<Vec<char>> = Vec::new();
    let mut copies: Vec<MediaCopy> = Vec::new();
    let mut i: usize = 0;
    assert(copies.deep_view() =~= deck_copies(bv, 0, slug@, ex));
    while i < base.questions.len()
        invariant
            i <= base.questions.len(),
            bv == base.deep_view(),
            ex == existing.deep_view(),
            sc@ == slug@,
            cards.deep_view() =~= deck_cards(bv, i as int, slug@, ex),
            copies.deep_view() == deck_copies(bv, i as int, slug@, ex),
        decreases base.questions.len() - i,
    {
        let (card, qcopies) = question_card(&base.questions[i], &sc, existing);
        let ghost cv = cards;
        let ghost kv = card;
        cards.push(card);
        proof {
            crate::text::lemma_push_deep_view(cv, cards, kv);
        }
        let ghost before = copies.deep_view();
        let mut rest = qcopies;
        let ghost qc = rest.deep_view();
        let m = rest.len();
        let mut j: usize = 0;
        assert(qc.skip(0) =~= qc);
        while j < m
            invariant
                j <= m,
                rest.len() == m - j,
                qc.len() == m,
                rest.deep_view() == qc.skip(j as int),
                copies.deep_view() == before + qc.take(j as int),
            decreases m - j,
        {
            let ghost br = rest;
            let c = rest.remove(0);
            proof {
                assert(c.deep_view() == br.deep_view()[0]);
                assert forall|k: int| 0 <= k < rest.len() implies #[trigger] rest.deep_view()[k]
                    == qc.skip(j + 1)[k] by {
                    assert(rest@[k] == br@[k + 1]);
                    assert(br.deep_view()[k + 1] == qc.skip(j as int)[k + 1]);
                }
                assert(rest.deep_view() =~= qc.skip(j + 1));
            }
            let ghost cvv = copies.deep_view();
            copies.push(c);
            assert(copies.deep_view() =~= cvv.push(c.deep_view()));
            assert(before + qc.take(j + 1) =~= (before + qc.take(j as int)).push(qc[j as int]));
            j = j + 1;
        }
        assert(qc.take(m as int) =~= qc);
        i = i + 1;
    }
    let nl = vec!['\n'];
    assert(nl@ =~= seq!['\n']);
    let text = crate::text::join_chars(&cards, 0, cards.len(), &nl);
    assert(cards.deep_view().subrange(0, cards.len() as int) =~= cards.deep_view());
    AnkiDeck { text: string_of(&text), copies }
}

} // verus!
