use testownik::import::{
    build_old_base, is_image_file, label_question, plan_old_base, prepare_new_base,
    prepare_new_base_with_stem, NO_DIRECTORY_SLUG_ERROR, NO_QUESTIONS_ERROR, NO_SOURCES_ERROR,
};
use testownik::model::{Answer, BaseData, Question};
use testownik::startup::startup_env_defaults;

fn question(id: &str) -> Question {
    Question {
        id: id.to_string(),
        question: "Q".to_string(),
        images: vec![],
        answers: vec![
            Answer { key: "a".to_string(), text: Some("x".to_string()), image: None },
            Answer { key: "b".to_string(), text: Some("y".to_string()), image: None },
        ],
        correct: vec!["a".to_string()],
    }
}

fn base(slug: &str, name: &str, display_name: &str) -> BaseData {
    BaseData {
        name: name.to_string(),
        slug: slug.to_string(),
        display_name: display_name.to_string(),
        description: "d".to_string(),
        question_count: 1,
        questions: vec![question("1")],
    }
}

#[test]
fn plan_uses_the_resolved_name() {
    assert_eq!(
        plan_old_base("Fizyka Kwantowa", 2, Some("sel")),
        Ok(("Fizyka Kwantowa".to_string(), "fizyka-kwantowa".to_string()))
    );
}

#[test]
fn plan_falls_back_to_the_directory_name() {
    assert_eq!(plan_old_base("  ", 1, Some("Chemia")), Ok(("Chemia".to_string(), "chemia".to_string())));
    assert_eq!(
        plan_old_base("", 1, None),
        Ok(("imported-base".to_string(), "imported-base".to_string()))
    );
}

#[test]
fn plan_errors() {
    assert_eq!(plan_old_base("x", 0, None), Err(NO_SOURCES_ERROR.to_string()));
    assert_eq!(plan_old_base("!!!", 1, None), Err(NO_DIRECTORY_SLUG_ERROR.to_string()));
}

#[test]
fn question_ids_are_labelled_for_several_sources() {
    assert_eq!(label_question(question("001"), "Fizyka", true).id, "Fizyka_001");
    assert_eq!(label_question(question("001"), "Fizyka", false).id, "001");
}

#[test]
fn old_base_display_name_uses_spaces() {
    let b = build_old_base("moja-nowa-baza", "moja-nowa-baza", vec![question("1"), question("2")]).unwrap();
    assert_eq!(b.display_name, "moja nowa baza");
    assert_eq!(b.question_count, 2);
    assert_eq!(b.description, "");
    assert_eq!(build_old_base("x", "x", vec![]).err(), Some(NO_QUESTIONS_ERROR.to_string()));
}

#[test]
fn new_base_gets_a_slug_and_a_name() {
    let b = prepare_new_base(base("", "  ", "Moja Baza"), "/tmp/plik.json").unwrap();
    assert_eq!(b.slug, "moja-baza");
    assert_eq!(b.name, "moja-baza");
    assert_eq!(b.display_name, "Moja Baza");
    let b = prepare_new_base_with_stem(base("Zestaw 1", "Nazwa", "D"), None).unwrap();
    assert_eq!(b.slug, "zestaw-1");
    assert_eq!(b.name, "Nazwa");
    assert!(prepare_new_base_with_stem(base("", "", ""), None).is_err());
    let b = prepare_new_base(base("", "", ""), "bazy/Nowa Baza.v2.json").unwrap();
    assert_eq!(b.slug, "nowa-bazav2");
    assert_eq!(b.name, "nowa-bazav2");
}

#[test]
fn image_files() {
    assert!(is_image_file("/x/a.png"));
    assert!(is_image_file("/x/a.JPEG"));
    assert!(is_image_file("b.webp"));
    assert!(!is_image_file("/x/a.png.txt"));
    assert!(!is_image_file("/x/apng"));
}

#[test]
fn startup_defaults() {
    let plain = startup_env_defaults(false);
    assert_eq!(
        plain,
        vec![
            ("WEBKIT_DISABLE_DMABUF_RENDERER".to_string(), "1".to_string()),
            ("WEBKIT_DISABLE_COMPOSITING_MODE".to_string(), "1".to_string()),
        ]
    );
    let appimage = startup_env_defaults(true);
    assert_eq!(appimage.len(), 4);
    assert_eq!(appimage[2], ("GDK_BACKEND".to_string(), "x11".to_string()));
    assert_eq!(appimage[3], ("LIBGL_ALWAYS_SOFTWARE".to_string(), "1".to_string()));
}
