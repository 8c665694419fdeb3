use testownik::answer_code::{parse_answer_code, upper_code_keys};

fn keys(code: &str) -> Vec<String> {
    parse_answer_code(code)
}

#[test]
fn code_marks_a_and_c() {
    assert_eq!(keys("X1010"), vec!["a", "c"]);
}

#[test]
fn lower_case_x_is_accepted() {
    assert_eq!(keys("x0101"), vec!["b", "d"]);
}

#[test]
fn surrounding_whitespace_is_ignored() {
    assert_eq!(keys("  X1100  "), vec!["a", "b"]);
}

#[test]
fn short_codes_mark_their_flags() {
    assert_eq!(keys("X010"), vec!["b"]);
    assert_eq!(keys("X01"), vec!["b"]);
    assert_eq!(keys("X10"), vec!["a"]);
    assert_eq!(keys("X001"), vec!["c"]);
}

#[test]
fn bare_x_defaults_to_a() {
    assert_eq!(keys("X"), vec!["a"]);
    assert_eq!(keys(""), vec!["a"]);
}

#[test]
fn code_without_x_defaults_to_a() {
    assert_eq!(keys("10101"), vec!["a"]);
}

#[test]
fn code_marking_nothing_defaults_to_a() {
    assert_eq!(keys("X0000"), vec!["a"]);
}

#[test]
fn invisible_prefix_is_removed() {
    assert_eq!(keys("\u{FEFF}X0110"), vec!["b", "c"]);
    assert_eq!(keys("\u{200B}X0011"), vec!["c", "d"]);
}

#[test]
fn flags_after_the_eighth_are_ignored() {
    assert_eq!(keys("X000000001"), vec!["a"]);
    assert_eq!(keys("X000000011"), vec!["h"]);
}

#[test]
fn flags_are_counted_in_characters() {
    // The flags of "Xą1" are ą and 1.
    assert_eq!(keys("Xą1"), vec!["b"]);
    assert_eq!(keys("Xą11"), vec!["b", "c"]);
}

#[test]
fn all_eight_flags() {
    assert_eq!(keys("X11111111"), vec!["a", "b", "c", "d", "e", "f", "g", "h"]);
}

#[test]
fn upper_code_keys_read_an_upper_cased_code() {
    assert_eq!(upper_code_keys("X0011"), vec!["c", "d"]);
    assert_eq!(upper_code_keys("\u{FEFF}X010"), vec!["b"]);
    // Lower-case codes are upper-cased before this step.
    assert_eq!(upper_code_keys("x010"), vec!["a"]);
}
