use testownik::model::BaseData;
use testownik::slug::{derive_slug, derive_slug_from_stem, normalize_slug, slug_from_classes, NO_SLUG_ERROR};

fn base(slug: &str, name: &str, display_name: &str) -> BaseData {
    BaseData {
        name: name.to_string(),
        slug: slug.to_string(),
        display_name: display_name.to_string(),
        description: String::new(),
        question_count: 0,
        questions: Vec::new(),
    }
}

#[test]
fn normalize_slug_joins_words_with_dashes() {
    assert_eq!(normalize_slug("  Nazwa Bazy  "), "nazwa-bazy");
}

#[test]
fn normalize_slug_collapses_separators() {
    assert_eq!(normalize_slug("a__b--c  d"), "a-b-c-d");
    assert_eq!(normalize_slug("a _-b"), "a-b");
}

#[test]
fn normalize_slug_strips_dashes_at_the_ends() {
    assert_eq!(normalize_slug("--x--"), "x");
    assert_eq!(normalize_slug("x - "), "x");
}

#[test]
fn normalize_slug_keeps_polish_letters_lower_cased() {
    assert_eq!(normalize_slug("Ćma Żółta!"), "ćma-żółta");
}

#[test]
fn normalize_slug_drops_punctuation() {
    assert_eq!(normalize_slug("!!!"), "");
    assert_eq!(normalize_slug("a.b,c"), "abc");
    assert_eq!(normalize_slug(""), "");
}

#[test]
fn normalize_slug_lower_cases_ascii() {
    assert_eq!(normalize_slug("ABC Def 123"), "abc-def-123");
}

#[test]
fn normalize_slug_is_idempotent_on_examples() {
    for v in ["  Nazwa Bazy  ", "a__b--c", "Ćma Żółta!", "X-1 y_2", "--q--"] {
        let once = normalize_slug(v);
        assert_eq!(normalize_slug(&once), once);
    }
}

#[test]
fn ascii_slugs_come_back_unchanged() {
    for v in ["abc", "a-b-c", "x1-y2", "", "0"] {
        assert_eq!(normalize_slug(v), v);
    }
    assert_eq!(normalize_slug("!?"), "");
    assert_eq!(normalize_slug(" - _ "), "");
}

#[test]
fn normalize_slug_not_idempotent_with_combining_lowercase() {
    // 'İ' lower-cases to 'i' followed by a combining dot, which is dropped
    // the second time.
    let once = normalize_slug("İ");
    assert_eq!(once, "i\u{307}");
    assert_eq!(normalize_slug(&once), "i");
}

#[test]
fn derive_slug_prefers_the_slug_field() {
    let b = base("Moja-Baza", "inna", "Inna");
    assert_eq!(derive_slug(&b, "/tmp/plik.json"), Ok("moja-baza".to_string()));
}

#[test]
fn derive_slug_falls_back_to_name_then_display_name() {
    assert_eq!(derive_slug(&base("", "Nazwa", "X"), "/tmp/p.json"), Ok("nazwa".to_string()));
    assert_eq!(derive_slug(&base(" ", "!", "Moja Baza"), "/tmp/p.json"), Ok("moja-baza".to_string()));
}

#[test]
fn derive_slug_falls_back_to_the_file_stem() {
    assert_eq!(derive_slug(&base("", "", ""), "/tmp/zestaw 1.json"), Ok("zestaw-1".to_string()));
    assert_eq!(derive_slug(&base("", "", ""), "dane/.json"), Ok("json".to_string()));
    assert_eq!(derive_slug(&base("", "", ""), "a.b.json"), Ok("ab".to_string()));
}

#[test]
fn derive_slug_fails_without_candidates() {
    assert_eq!(derive_slug(&base("", "", ""), "/"), Err(NO_SLUG_ERROR.to_string()));
    assert_eq!(derive_slug_from_stem(&base("", "", ""), Some("???")), Err(NO_SLUG_ERROR.to_string()));
}

#[test]
fn slug_from_given_classes() {
    let t = ['İ', ' ', 'A', '!'];
    let alnums = vec![true, false, true, false];
    let lowers = vec!["i\u{307}".to_string(), String::new(), "a".to_string(), String::new()];
    assert_eq!(slug_from_classes(&t, &alnums, &lowers), "i\u{307}-a");
    // Missing classes count as not alphanumeric.
    assert_eq!(slug_from_classes(&['a', 'b'], &vec![true], &vec!["a".to_string()]), "a");
}
