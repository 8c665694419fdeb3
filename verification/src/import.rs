//! Assembling an imported base: its name and slug, the ids of its questions
//! and the data stored for it.
use vstd::prelude::*;
use crate::model::{BaseData, BaseDataView, Question, QuestionView};
use crate::paths::{is_piece_of, last_component, path_file_stem, plain_path, std_stem};
use crate::pattern::{regex_is_match, regex_is_match_result};
use crate::slug::{derived_slug, derive_slug_from_stem, normalize_slug, slug_of};
use crate::sources::IMPORTED_BASE;
use crate::text::{append_chars, chars_of, replace_char, replace_char_chars, string_of, trim, trim_str};

verus! {

/// The error when the selected directory is not a directory.
pub const NOT_A_DIRECTORY_ERROR: &'static str = "Path is not a valid directory";

/// The error when the selected file is not a file.
pub const NOT_A_FILE_ERROR: &'static str = "Path is not a valid file";

/// The error when no question directory was found.
pub const NO_SOURCES_ERROR: &'static str = "No valid questions found. Expected one of: selected/baza/*.txt, selected/*.txt, selected/<base>/baza/*.txt, or selected/<base>/*.txt";

/// The error when the base name gives an empty slug.
pub const NO_DIRECTORY_SLUG_ERROR: &'static str = "Could not derive a valid slug from base directory name";

/// The error when no question file could be parsed.
pub const NO_QUESTIONS_ERROR: &'static str = "No valid questions found after scanning detected directories. Expected .txt files in selected/baza, selected root, or one-level wrapped base directory.";

/// The error when the base to export does not exist.
pub const BASE_NOT_FOUND_ERROR: &'static str = "Base not found";

/// The file names of images that are copied with an old-format base.
pub const IMAGE_FILE_PATTERN: &'static str = r"(?i)\.(png|jpg|jpeg|gif|webp)$";

/// Whether the file at `path` is an image copied with an old-format base:
/// its path ends in `.png`, `.jpg`, `.jpeg`, `.gif` or `.webp`, in any case.
pub fn is_image_file(path: &str) -> (r: bool)
    ensures
        r == regex_is_match_result(IMAGE_FILE_PATTERN@, path@),
{
    regex_is_match(IMAGE_FILE_PATTERN, path)
}

/// The name of an old-format base: the resolved name, or, when that is blank,
/// the selected directory's name (or `imported-base`).
pub open spec fn old_base_name(resolved_name: Seq<char>, dir_name: Option<Seq<char>>) -> Seq<char> {
    if trim(resolved_name).len() == 0 {
        match dir_name {
            Some(n) => n,
            None => IMPORTED_BASE@,
        }
    } else {
        resolved_name
    }
}

/// The name and slug of an old-format base, or the error that stops the
/// import: no question directory, or a name that gives an empty slug.
pub open spec fn old_base_plan(resolved_name: Seq<char>, dir_count: nat, dir_name: Option<Seq<char>>) -> Result<
    (Seq<char>, Seq<char>),
    Seq<char>,
> {
    if dir_count == 0 {
        Err(NO_SOURCES_ERROR@)
    } else {
        let name = old_base_name(resolved_name, dir_name);
        if slug_of(name).len() == 0 {
            Err(NO_DIRECTORY_SLUG_ERROR@)
        } else {
            Ok((name, slug_of(name)))
        }
    }
}

/// The mathematical form of a planned import.
pub open spec fn plan_result(r: Result<(String, String), String>) -> Result<(Seq<char>, Seq<char>), Seq<char>> {
    match r {
        Ok((n, s)) => Ok((n@, s@)),
        Err(e) => Err(e@),
    }
}

/// The name and slug of an old-format base whose question directories were
/// resolved to `dir_count` directories under the name `resolved_name`;
/// `dir_name` is the selected directory's name.
pub fn plan_old_base(resolved_name: &str, dir_count: usize, dir_name: Option<&str>) -> (r: Result<
    (String, String),
    String,
>)
    ensures
        plan_result(r) == old_base_plan(resolved_name@, dir_count as nat, dir_name.deep_view()),
        r matches Ok((_, s)) ==> s@.len() > 0,
{
    if dir_count == 0 {
        return Err(NO_SOURCES_ERROR.to_owned());
    }
    let t = trim_str(resolved_name);
    let name = if t.as_str().is_empty() {
        match dir_name {
            Some(n) => n.to_owned(),
            None => IMPORTED_BASE.to_owned(),
        }
    } else {
        resolved_name.to_owned()
    };
    let slug = normalize_slug(name.as_str());
    if slug.as_str().is_empty() {
        return Err(NO_DIRECTORY_SLUG_ERROR.to_owned());
    }
    Ok((name, slug))
}

/// The id of a question read from the directory labelled `label`: prefixed
/// with the label when questions come from several directories.
pub open spec fn labelled_id(id: Seq<char>, label: Seq<char>, several: bool) -> Seq<char> {
    if several {
        label + seq!['_'] + id
    } else {
        id
    }
}

/// Gives question `q`, read from the directory labelled `label`, its id in
/// the base.
pub fn label_question(q: Question, label: &str, several: bool) -> (r: Question)
    ensures
        r.deep_view() == (QuestionView { id: labelled_id(q.id@, label@, several), ..q.deep_view() }),
{
    if several {
        let mut id = chars_of(label);
        id.push('_');
        append_chars(&mut id, &chars_of(q.id.as_str()));
        let new_id = string_of(&id);
        assert(new_id@ =~= label@ + seq!['_'] + q.id@);
        Question { id: new_id, ..q }
    } else {
        q
    }
}

/// The data of an old-format base named `name` with slug `slug`: its display
/// name is the name with `-` turned into spaces; no questions is an error.
pub open spec fn old_base_data(name: Seq<char>, slug: Seq<char>, questions: Seq<QuestionView>) -> Result<
    BaseDataView,
    Seq<char>,
> {
    if questions.len() == 0 {
        Err(NO_QUESTIONS_ERROR@)
    } else {
        Ok(
            BaseDataView {
                name,
                slug,
                display_name: replace_char(name, '-', seq![' ']),
                description: Seq::<char>::empty(),
                question_count: questions.len() as usize,
                questions,
            },
        )
    }
}

/// An old-format base with questions is assembled: its name and slug are
/// those given, its display name is its name with every `-` turned into a
/// space (nothing else changed, whatever the slug), it has no description,
/// and it holds the questions given, counted.  Without questions it is an
/// error.
pub proof fn law_old_base_data(name: Seq<char>, slug: Seq<char>, questions: Seq<QuestionView>)
    ensures
        questions.len() == 0 ==> old_base_data(name, slug, questions) is Err,
        questions.len() > 0 ==> (old_base_data(name, slug, questions) matches Ok(b) && b.name == name
            && b.slug == slug && b.description.len() == 0 && b.questions == questions
            && b.question_count == questions.len() as usize && b.display_name.len() == name.len() && forall|
            i: int,
        |
            0 <= i < name.len() ==> #[trigger] b.display_name[i] == if name[i] == '-' {
                ' '
            } else {
                name[i]
            }),
{
    crate::text::lemma_replace_char_by_char(name, '-', ' ');
}

/// The mathematical form of a result carrying a base.
pub open spec fn base_result(r: Result<BaseData, String>) -> Result<BaseDataView, Seq<char>> {
    match r {
        Ok(b) => Ok(b.deep_view()),
        Err(e) => Err(e@),
    }
}

/// The data stored for an old-format base read from question files.
pub fn build_old_base(name: &str, slug: &str, questions: Vec<Question>) -> (r: Result<BaseData, String>)
    ensures
        base_result(r) == old_base_data(name@, slug@, questions.deep_view()),
{
    if questions.len() == 0 {
        return Err(NO_QUESTIONS_ERROR.to_owned());
    }
    let nc = chars_of(name);
    let sp = vec![' '];
    assert(sp@ =~= seq![' ']);
    let display = replace_char_chars(&nc, '-', &sp);
    let count = questions.len();
    Ok(
        BaseData {
            name: name.to_owned(),
            slug: slug.to_owned(),
            display_name: string_of(&display),
            description: String::new(),
            question_count: count,
            questions,
        },
    )
}

/// A base in the new format as stored: its slug replaced by the derived
/// slug, and its name by the slug when the name is blank.
pub open spec fn prepared_new_base(base: BaseDataView, stem: Option<Seq<char>>) -> Result<
    BaseDataView,
    Seq<char>,
> {
    match derived_slug(base, stem) {
        Err(e) => Err(e),
        Ok(s) => Ok(
            BaseDataView {
                slug: s,
                name: if trim(base.name).len() == 0 {
                    s
                } else {
                    base.name
                },
                ..base
            },
        ),
    }
}

/// Prepares a base in the new format for storing, when its file's stem is
/// `stem`.
pub fn prepare_new_base_with_stem(base: BaseData, stem: Option<&str>) -> (r: Result<BaseData, String>)
    ensures
        base_result(r) == prepared_new_base(base.deep_view(), stem.deep_view()),
{
    let slug = derive_slug_from_stem(&base, stem);
    let slug = match slug {
        Err(e) => return Err(e),
        Ok(s) => s,
    };
    let blank = trim_str(base.name.as_str()).as_str().is_empty();
    let name = if blank {
        slug.clone()
    } else {
        base.name
    };
    Ok(BaseData { slug, name, ..base })
}

/// Prepares a base in the new format read from the file at `file_path` for
/// storing: the file's stem is what `Path::file_stem` gives (on a plain
/// path, `std_stem` of its last component).
pub fn prepare_new_base(base: BaseData, file_path: &str) -> (r: Result<BaseData, String>)
    ensures
        plain_path(file_path@) ==> base_result(r) == prepared_new_base(
            base.deep_view(),
            Some(std_stem(last_component(file_path@))),
        ),
        exists|stem: Option<Seq<char>>|
            (stem matches Some(s) ==> is_piece_of(s, file_path@)) && base_result(r)
                == #[trigger] prepared_new_base(base.deep_view(), stem),
{
    let ghost bv = base.deep_view();
    let stem = path_file_stem(file_path);
    let r = match &stem {
        Some(s) => prepare_new_base_with_stem(base, Some(s.as_str())),
        None => prepare_new_base_with_stem(base, None),
    };
    proof {
        let sv = stem.deep_view();
        assert(base_result(r) == prepared_new_base(bv, sv));
    }
    r
}

} // verus!
