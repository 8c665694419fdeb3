use testownik::decode::decode_with_fallback;
use testownik::model::{Answer, Question};
use testownik::question::{
    answer_from, answers_from_matches, finish_question, images_from_match, leading_image_from,
    parse_question, text_before_match,
};

fn text(key: &str, t: &str) -> (String, Option<String>, Option<String>) {
    (key.to_string(), Some(t.to_string()), None)
}

fn image(key: &str, i: &str) -> (String, Option<String>, Option<String>) {
    (key.to_string(), None, Some(i.to_string()))
}

fn answers(q: &Question) -> Vec<(String, Option<String>, Option<String>)> {
    q.answers.iter().map(|a: &Answer| (a.key.clone(), a.text.clone(), a.image.clone())).collect()
}

#[test]
fn documented_question_example() {
    let content = "X1010\nTreść pytania...\n[img]obraz_pytania.png[/img]\na) Odpowiedź A\nb) [img]obraz_odpowiedzi_b.jpg[/img]\nc) Odpowiedź C\nd) Odpowiedź D\n";
    let q = parse_question(content, "001").unwrap();
    assert_eq!(q.id, "001");
    assert_eq!(q.question, "Treść pytania...");
    assert_eq!(q.images, vec!["obraz_pytania.png"]);
    assert_eq!(
        answers(&q),
        vec![
            text("a", "Odpowiedź A"),
            image("b", "obraz_odpowiedzi_b.jpg"),
            text("c", "Odpowiedź C"),
            text("d", "Odpowiedź D"),
        ]
    );
    assert_eq!(q.correct, vec!["a", "c"]);
}

#[test]
fn leading_image_becomes_the_question_image() {
    let content = "X0100\n[img]q.png[/img]\na) A1\nb) B1\nc) C1";
    let q = parse_question(content, "q7").unwrap();
    assert_eq!(q.images, vec!["q.png"]);
    assert_eq!(q.question, "");
    assert_eq!(answers(&q), vec![text("a", "A1"), text("b", "B1"), text("c", "C1")]);
    assert_eq!(q.correct, vec!["b"]);
}

#[test]
fn upper_case_letters_give_lower_case_keys() {
    let q = parse_question("X0110\nPytanie\nA) jeden\nB. dwa\nC: trzy", "x").unwrap();
    assert_eq!(answers(&q), vec![text("a", "jeden"), text("b", "dwa"), text("c", "trzy")]);
    assert_eq!(q.correct, vec!["b", "c"]);
}

#[test]
fn question_number_is_removed() {
    let q = parse_question("X10\n12. Ile to 2+2?\na) 4\nb) 5", "n").unwrap();
    assert_eq!(q.question, "Ile to 2+2?");
    assert_eq!(q.correct, vec!["a"]);
}

#[test]
fn lines_are_answers_when_no_letters() {
    let content = "X0110\nJakie jest pytanie?\nPierwsza\nDruga\nTrzecia\nCzwarta";
    let q = parse_question(content, "l").unwrap();
    assert_eq!(q.question, "Jakie jest pytanie?");
    assert_eq!(
        answers(&q),
        vec![text("a", "Pierwsza"), text("b", "Druga"), text("c", "Trzecia"), text("d", "Czwarta")]
    );
    assert_eq!(q.correct, vec!["b", "c"]);
}

#[test]
fn line_answers_may_be_images() {
    let content = "X1000\nPytanie\n[img]a.png[/img]\nDruga\nTrzecia";
    let q = parse_question(content, "l").unwrap();
    assert_eq!(q.question, "Pytanie");
    assert_eq!(answers(&q), vec![image("a", "a.png"), text("b", "Druga"), text("c", "Trzecia")]);
}

#[test]
fn too_few_lines_gives_none() {
    assert!(parse_question("X1010", "a").is_none());
    assert!(parse_question("X1010\n\n   \n", "a").is_none());
}

#[test]
fn one_answer_gives_none() {
    assert!(parse_question("X10\nQ\na) only", "a").is_none());
}

#[test]
fn crlf_line_ends_are_accepted() {
    let q = parse_question("X1100\r\nPytanie\r\na) Tak\r\nb) Nie\r\n", "c").unwrap();
    assert_eq!(q.question, "Pytanie");
    assert_eq!(answers(&q), vec![text("a", "Tak"), text("b", "Nie")]);
    assert_eq!(q.correct, vec!["a", "b"]);
}

#[test]
fn crlf_and_lf_files_parse_alike() {
    let lf = "X0101\n1. Pytanie\n[img]q.png[/img]\na) A\nb) B\nc) C\nd) D\n";
    let crlf = lf.replace('\n', "\r\n");
    let a = parse_question(lf, "f").unwrap();
    let b = parse_question(&crlf, "f").unwrap();
    assert_eq!(a.question, b.question);
    assert_eq!(a.images, b.images);
    assert_eq!(answers(&a), answers(&b));
    assert_eq!(a.correct, b.correct);
    assert_eq!(a.correct, vec!["b", "d"]);
    // A file that already had some "\r\n" line ends.
    let mixed = "X0101\r\nPytanie\na) A\r\nb) B\n";
    let c = parse_question(mixed, "m").unwrap();
    let d = parse_question(&mixed.replace('\n', "\r\n"), "m").unwrap();
    assert_eq!(c.question, d.question);
    assert_eq!(answers(&c), answers(&d));
    assert_eq!(c.correct, d.correct);
}

#[test]
fn finish_question_checks_text_and_answers() {
    let ans = vec![
        Answer { key: "a".to_string(), text: Some("1".to_string()), image: None },
        Answer { key: "b".to_string(), text: Some("2".to_string()), image: None },
    ];
    let correct = vec!["c".to_string(), "b".to_string()];
    let q = finish_question("id", &correct, "Q".to_string(), vec![], ans.clone()).unwrap();
    assert_eq!(q.correct, vec!["b"]);
    let none = vec!["x".to_string()];
    let q = finish_question("id", &none, String::new(), vec!["i.png".to_string()], ans.clone()).unwrap();
    assert_eq!(q.correct, vec!["a"]);
    assert!(finish_question("id", &correct, String::new(), vec![], ans.clone()).is_none());
    assert!(finish_question("id", &correct, "Q".to_string(), vec![], ans[..1].to_vec()).is_none());
}

#[test]
fn correct_keys_without_answer_fall_back_to_the_first_answer() {
    let q = parse_question("X0001\nQ\na) x\nb) y", "f").unwrap();
    assert_eq!(q.correct, vec!["a"]);
}

#[test]
fn correct_keys_keep_only_existing_answers() {
    let q = parse_question("X1001\nQ\na) x\nb) y\nc) z", "f").unwrap();
    assert_eq!(q.correct, vec!["a"]);
    let q = parse_question("X0101\nQ\na) x\nb) y\nc) z\nd) w", "f").unwrap();
    assert_eq!(q.correct, vec!["b", "d"]);
}

#[test]
fn image_tags_are_removed_from_question_text() {
    let q = parse_question("X10000\nPytanie [img]x.png[/img] dalej\na) 1\nb) 2", "i").unwrap();
    assert_eq!(q.question, "Pytanie  dalej");
    assert_eq!(q.images, vec!["x.png"]);
}

#[test]
fn image_after_question_lines_without_letters() {
    let q = parse_question("X010
Pytanie
[img]p.png[/img]
jeden
dwa
trzy", "l").unwrap();
    assert_eq!(q.question, "Pytanie");
    assert_eq!(q.images, vec!["p.png"]);
    assert_eq!(answers(&q), vec![text("a", "jeden"), text("b", "dwa"), text("c", "trzy")]);
    assert_eq!(q.correct, vec!["b"]);
}

#[test]
fn decoded_windows_1250_file_is_parsed() {
    // "X1000\nPytanie ą\na) tak\nb) nie" in windows-1250: 'ą' is 0xB9.
    let mut bytes = b"X1000\nPytanie ".to_vec();
    bytes.push(0xB9);
    bytes.extend_from_slice(b"\na) tak\nb) nie");
    let content = decode_with_fallback(&bytes);
    let q = parse_question(&content, "w").unwrap();
    assert_eq!(q.question, "Pytanie ą");
}

fn text_match(before: &str, groups: &[Option<&str>], after: &str) -> testownik::pattern::TextMatch {
    testownik::pattern::TextMatch {
        before: before.to_string(),
        groups: groups.iter().map(|g| g.map(|s| s.to_string())).collect(),
        after: after.to_string(),
    }
}

#[test]
fn answers_from_given_matches() {
    let ms = vec![
        text_match("", &[Some("\nB) tak "), Some("B"), Some(" tak ")], ""),
        text_match("", &[Some("x) nie"), Some("x"), Some("nie")], ""),
        text_match("", &[Some("c) [img]c.png[/img]"), Some("c"), Some("[img]c.png[/img]")], ""),
    ];
    let a = answers_from_matches(&ms);
    assert_eq!(answers(&Question { id: String::new(), question: String::new(), images: vec![], answers: a, correct: vec![] }),
        vec![text("b", "tak"), image("c", "c.png")]);
}

#[test]
fn parts_after_the_pattern_calls() {
    let m = Some(text_match("", &[Some("[img]q.png[/img]"), Some("q.png")], " reszta "));
    let (imgs, rest) = leading_image_from("[img]q.png[/img] reszta ".to_string(), m);
    assert_eq!(imgs, vec!["q.png"]);
    assert_eq!(rest, "reszta");
    let (imgs, rest) = leading_image_from("bez".to_string(), None);
    assert!(imgs.is_empty());
    assert_eq!(rest, "bez");
    let f = Some(text_match(" Pytanie ", &[Some("\na) x")], ""));
    assert_eq!(text_before_match(" Pytanie \na) x", &f), "Pytanie");
    assert_eq!(text_before_match("  tylko ", &None), "tylko");
    let im = Some(text_match("T ", &[Some("[img]p.png[/img]"), Some("p.png")], ""));
    assert_eq!(images_from_match(vec![], &im), vec!["p.png"]);
    assert_eq!(images_from_match(vec!["a.png".to_string()], &im), vec!["a.png"]);
    assert!(images_from_match(vec![], &None).is_empty());
    assert_eq!(answer_from("a".to_string(), &None, "  tekst ".to_string()).unwrap().text, Some("tekst".to_string()));
    assert!(answer_from("a".to_string(), &None, "   ".to_string()).is_none());
    assert_eq!(answer_from("b".to_string(), &im, String::new()).unwrap().image, Some("p.png".to_string()));
}
