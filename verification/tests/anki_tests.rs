use testownik::anki::build_anki_deck;
use testownik::model::{Answer, BaseData, Question};

fn answer(key: &str, text: Option<&str>, image: Option<&str>) -> Answer {
    Answer { key: key.to_string(), text: text.map(String::from), image: image.map(String::from) }
}

fn question(id: &str, q: &str, images: &[&str], answers: Vec<Answer>, correct: &[&str]) -> Question {
    Question {
        id: id.to_string(),
        question: q.to_string(),
        images: images.iter().map(|s| s.to_string()).collect(),
        answers,
        correct: correct.iter().map(|s| s.to_string()).collect(),
    }
}

fn base(questions: Vec<Question>) -> BaseData {
    BaseData {
        name: "Baza".to_string(),
        slug: "baza".to_string(),
        display_name: "Baza".to_string(),
        description: String::new(),
        question_count: questions.len(),
        questions,
    }
}

#[test]
fn text_question_card() {
    let q = question(
        "001",
        "  Ile to 2+2?  ",
        &[],
        vec![answer("a", Some("4"), None), answer("b", Some("5"), None)],
        &["a"],
    );
    let deck = build_anki_deck("mat", &base(vec![q]), &vec![]);
    assert_eq!(deck.text, "<b>Ile to 2+2?</b><br><br>A) 4<br>B) 5\tA) 4");
    assert!(deck.copies.is_empty());
}

#[test]
fn images_are_copied_when_they_exist() {
    let q = question(
        "q1",
        "",
        &["dir/p.png"],
        vec![answer("a", None, Some("a.jpg")), answer("b", None, Some("missing.jpg"))],
        &["a", "b"],
    );
    let existing = vec!["dir/p.png".to_string(), "a.jpg".to_string()];
    let deck = build_anki_deck("s", &base(vec![q]), &existing);
    assert_eq!(
        deck.text,
        "<img src=\"s_q1_dir_p.png\"><br><br>A) <img src=\"s_q1_a.jpg\"><br>B) [obrazek: missing.jpg]\tA) <img src=\"s_q1_a.jpg\"><br>B) [obrazek: missing.jpg]"
    );
    let copies: Vec<(String, String)> =
        deck.copies.iter().map(|c| (c.image.clone(), c.file_name.clone())).collect();
    assert_eq!(
        copies,
        vec![
            ("dir/p.png".to_string(), "s_q1_dir_p.png".to_string()),
            ("a.jpg".to_string(), "s_q1_a.jpg".to_string()),
        ]
    );
}

#[test]
fn missing_question_image_is_noted() {
    let q = question("7", "Q", &["x\\y.png"], vec![answer("a", Some("t"), None)], &["a"]);
    let deck = build_anki_deck("s", &base(vec![q]), &vec![]);
    assert_eq!(deck.text, "<b>Q</b><br>[obrazek: x\\y.png]<br><br>A) t\tA) t");
}

#[test]
fn unknown_correct_key_is_shown_alone() {
    let q = question("1", "Q", &[], vec![answer("a", Some("t"), None)], &["c"]);
    let deck = build_anki_deck("s", &base(vec![q]), &vec![]);
    assert_eq!(deck.text, "<b>Q</b><br><br>A) t\tC");
}

#[test]
fn tabs_are_turned_into_spaces() {
    let q = question("1", "a\tb", &[], vec![answer("a", Some("x\ty"), None)], &["a"]);
    let deck = build_anki_deck("s", &base(vec![q]), &vec![]);
    assert_eq!(deck.text, "<b>a b</b><br><br>A) x y\tA) x y");
    assert_eq!(deck.text.matches('\t').count(), 1);
}

#[test]
fn cards_are_separated_by_newlines() {
    let q1 = question("1", "Q1", &[], vec![answer("a", Some("x"), None)], &["a"]);
    let q2 = question("2", "Q2", &[], vec![answer("b", Some("y"), None)], &["b"]);
    let deck = build_anki_deck("s", &base(vec![q1, q2]), &vec![]);
    assert_eq!(deck.text, "<b>Q1</b><br><br>A) x\tA) x\n<b>Q2</b><br><br>B) y\tB) y");
}

#[test]
fn empty_base_gives_empty_deck() {
    let deck = build_anki_deck("s", &base(vec![]), &vec![]);
    assert_eq!(deck.text, "");
}
