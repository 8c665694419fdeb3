//! The data of a question base, and of the index of bases.
use vstd::prelude::*;

verus! {

/// One answer of a question: its key (`"a"`..`"h"`), and either a text or an
/// image file name.
#[derive(Clone, Debug)]
pub struct Answer {
    pub key: String,
    pub text: Option<String>,
    pub image: Option<String>,
}

/// The mathematical form of an `Answer`.
pub struct AnswerView {
    pub key: Seq<char>,
    pub text: Option<Seq<char>>,
    pub image: Option<Seq<char>>,
}

impl DeepView for Answer {
    type V = AnswerView;

    open spec fn deep_view(&self) -> AnswerView {
        AnswerView { key: self.key@, text: self.text.deep_view(), image: self.image.deep_view() }
    }
}

/// One question: its id, its text, the images shown with it, its answers and
/// the keys of the correct answers.
#[derive(Clone, Debug)]
pub struct Question {
    pub id: String,
    pub question: String,
    pub images: Vec<String>,
    pub answers: Vec<Answer>,
    pub correct: Vec<String>,
}

/// The mathematical form of a `Question`.
pub struct QuestionView {
    pub id: Seq<char>,
    pub question: Seq<char>,
    pub images: Seq<Seq<char>>,
    pub answers: Seq<AnswerView>,
    pub correct: Seq<Seq<char>>,
}

impl DeepView for Question {
    type V = QuestionView;

    open spec fn deep_view(&self) -> QuestionView {
        QuestionView {
            id: self.id@,
            question: self.question@,
            images: self.images.deep_view(),
            answers: self.answers.deep_view(),
            correct: self.correct.deep_view(),
        }
    }
}

/// A question base as stored in `<slug>.json`.
#[derive(Clone, Debug)]
pub struct BaseData {
    pub name: String,
    pub slug: String,
    pub display_name: String,
    pub description: String,
    pub question_count: usize,
    pub questions: Vec<Question>,
}

/// The mathematical form of a `BaseData`.
pub struct BaseDataView {
    pub name: Seq<char>,
    pub slug: Seq<char>,
    pub display_name: Seq<char>,
    pub description: Seq<char>,
    pub question_count: usize,
    pub questions: Seq<QuestionView>,
}

impl DeepView for BaseData {
    type V = BaseDataView;

    open spec fn deep_view(&self) -> BaseDataView {
        BaseDataView {
            name: self.name@,
            slug: self.slug@,
            display_name: self.display_name@,
            description: self.description@,
            question_count: self.question_count,
            questions: self.questions.deep_view(),
        }
    }
}

/// One entry of the index of bases (`bases.json`).
#[derive(Clone, Debug)]
pub struct BaseIndex {
    pub slug: String,
    pub name: String,
    pub display_name: String,
    pub description: String,
    pub question_count: usize,
}

/// The mathematical form of a `BaseIndex`.
pub struct BaseIndexView {
    pub slug: Seq<char>,
    pub name: Seq<char>,
    pub display_name: Seq<char>,
    pub description: Seq<char>,
    pub question_count: usize,
}

impl DeepView for BaseIndex {
    type V = BaseIndexView;

    open spec fn deep_view(&self) -> BaseIndexView {
        BaseIndexView {
            slug: self.slug@,
            name: self.name@,
            display_name: self.display_name@,
            description: self.description@,
            question_count: self.question_count,
        }
    }
}

/// The index of bases: the content of `bases.json`.
#[derive(Debug)]
pub struct BasesIndexFile {
    pub bases: Vec<BaseIndex>,
}

} // verus!
