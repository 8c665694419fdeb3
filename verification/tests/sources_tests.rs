use testownik::sources::{
    discover_old_base_question_dirs, has_extension, resolve_old_base_sources, source_label,
    source_label_for_dir, DirNode,
};

fn file(name: &str) -> DirNode {
    DirNode {
        name: name.to_string(),
        name_is_utf8: true,
        is_dir: false,
        baza: None,
        has_txt: Ok(false),
        entries: Ok(vec![]),
    }
}

fn dir(name: &str, baza: Option<bool>, has_txt: bool, entries: Vec<DirNode>) -> DirNode {
    DirNode {
        name: name.to_string(),
        name_is_utf8: true,
        is_dir: true,
        baza: baza.map(Ok),
        has_txt: Ok(has_txt),
        entries: Ok(entries),
    }
}

fn paths(v: &[&[&str]]) -> Vec<Vec<String>> {
    v.iter().map(|p| p.iter().map(|c| c.to_string()).collect()).collect()
}

#[test]
fn baza_with_questions_comes_first() {
    let d = dir("sel", Some(true), true, vec![]);
    assert_eq!(discover_old_base_question_dirs(&d), Ok(paths(&[&["baza"]])));
}

#[test]
fn questions_in_the_directory_itself() {
    let d = dir("sel", Some(false), true, vec![]);
    assert_eq!(discover_old_base_question_dirs(&d), Ok(paths(&[&[]])));
}

#[test]
fn subdirectories_are_searched_sorted() {
    let d = dir(
        "sel",
        None,
        false,
        vec![
            dir("b", Some(true), false, vec![]),
            file("notes.md"),
            dir(".hidden", None, true, vec![]),
            dir("a", None, true, vec![]),
            dir("c", Some(false), false, vec![]),
        ],
    );
    assert_eq!(discover_old_base_question_dirs(&d), Ok(paths(&[&["a"], &["b", "baza"]])));
}

#[test]
fn reading_errors_are_reported() {
    let mut d = dir("sel", None, false, vec![]);
    d.has_txt = Err("cannot read".to_string());
    assert_eq!(discover_old_base_question_dirs(&d), Err("cannot read".to_string()));
    let mut bad = dir("x", None, false, vec![]);
    bad.baza = Some(Err("baza failed".to_string()));
    let d = dir("sel", None, false, vec![dir("a", None, true, vec![]), bad]);
    assert_eq!(discover_old_base_question_dirs(&d), Err("baza failed".to_string()));
    let mut d = dir("sel", None, false, vec![]);
    d.entries = Err("no listing".to_string());
    assert_eq!(discover_old_base_question_dirs(&d), Err("no listing".to_string()));
}

#[test]
fn selected_directory_with_questions_keeps_its_name() {
    let d = dir("sel", None, true, vec![]);
    assert_eq!(resolve_old_base_sources(&d, Some("Moja baza")), Ok(("Moja baza".to_string(), paths(&[&[]]))));
    assert_eq!(resolve_old_base_sources(&d, None), Ok(("imported-base".to_string(), paths(&[&[]]))));
}

#[test]
fn one_wrapped_base_gives_its_name() {
    let inner = dir("Fizyka", Some(true), false, vec![]);
    let d = dir("sel", None, false, vec![dir("wrap", None, false, vec![inner])]);
    // `wrap` holds the base `Fizyka`, so `sel` wraps one base: `wrap`.
    assert_eq!(
        resolve_old_base_sources(&d, Some("sel")),
        Ok(("wrap".to_string(), paths(&[&["wrap", "Fizyka", "baza"]])))
    );
}

#[test]
fn several_wrapped_bases_are_merged() {
    let w1 = dir("w1", None, false, vec![dir("x", None, true, vec![])]);
    let w2 = dir("w2", None, false, vec![dir("y", Some(true), false, vec![])]);
    let d = dir("sel", None, false, vec![w2, w1]);
    assert_eq!(
        resolve_old_base_sources(&d, Some("sel")),
        Ok(("sel".to_string(), paths(&[&["w1", "x"], &["w2", "y", "baza"]])))
    );
}

#[test]
fn wrapped_bases_under_subdirectories_are_direct() {
    // A `baza` one level down belongs to the selected directory itself.
    let w1 = dir("w1", None, false, vec![dir("x", None, true, vec![])]);
    let w2 = dir("w2", Some(true), false, vec![]);
    let d = dir("sel", None, false, vec![w2, w1]);
    assert_eq!(resolve_old_base_sources(&d, Some("sel")), Ok(("sel".to_string(), paths(&[&["w2", "baza"]]))));
}

#[test]
fn nothing_found_gives_no_directories() {
    let d = dir("sel", None, false, vec![dir("empty", None, false, vec![])]);
    assert_eq!(resolve_old_base_sources(&d, Some("sel")), Ok(("sel".to_string(), vec![])));
}

#[test]
fn wrapped_base_with_non_utf8_name() {
    let mut w = dir("w\u{FFFD}", None, false, vec![dir("inner", Some(true), false, vec![])]);
    w.name_is_utf8 = false;
    let d = dir("sel", None, false, vec![w]);
    assert_eq!(
        resolve_old_base_sources(&d, Some("sel")),
        Ok(("imported-base".to_string(), paths(&[&["w\u{FFFD}", "inner", "baza"]])))
    );
}

#[test]
fn extensions_match_up_to_case() {
    assert!(has_extension("/x/001.txt", "txt"));
    assert!(has_extension("/x/001.TXT", "txt"));
    assert!(!has_extension("/x/001.txt.bak", "txt"));
    assert!(!has_extension("/x/txt", "txt"));
    assert!(!has_extension("/x/.txt", "txt"));
    assert!(has_extension("rel/dir/a.b.Txt", "txt"));
    assert!(!has_extension("noext", "txt"));
}

#[test]
fn source_labels() {
    assert_eq!(source_label_for_dir("/x/Fizyka/baza"), "Fizyka");
    assert_eq!(source_label_for_dir("/x/Fizyka/BAZA"), "Fizyka");
    assert_eq!(source_label_for_dir("/x/Fizyka"), "Fizyka");
    assert_eq!(source_label_for_dir("/"), "source");
    assert_eq!(source_label_for_dir("baza"), "baza");
    assert_eq!(source_label_for_dir("/baza"), "baza");
    assert_eq!(source_label_for_dir("kurs/baza"), "kurs");
    assert_eq!(source_label(Some("baza"), None), "baza");
    assert_eq!(source_label(None, Some("p")), "p");
}
