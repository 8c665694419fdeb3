use testownik::decode::{choose_decoding, decode_with_fallback};

#[test]
fn utf8_with_polish_letters_is_taken_as_utf8() {
    let s = "Zażółć gęślą jaźń";
    assert_eq!(decode_with_fallback(s.as_bytes()), s);
}

#[test]
fn windows_1250_letters_are_recognised() {
    // 'a' then 'ą' in windows-1250; not valid UTF-8.
    assert_eq!(decode_with_fallback(&[0x61, 0xB9]), "aą");
}

#[test]
fn iso_8859_2_letters_are_recognised() {
    // 0xB1 is 'ą' in ISO-8859-2 but '±' in windows-1250.
    assert_eq!(decode_with_fallback(&[0xB1]), "ą");
}

#[test]
fn text_without_polish_letters_is_read_as_windows_1250() {
    assert_eq!(decode_with_fallback(b"abc"), "abc");
    // 0x80 is the euro sign in windows-1250.
    assert_eq!(decode_with_fallback(&[0x80]), "€");
}

#[test]
fn upper_case_polish_letters_count() {
    // 'Ą' in UTF-8 lower-cases to 'ą'.
    assert_eq!(decode_with_fallback("Ą".as_bytes()), "Ą");
}

#[test]
fn ascii_bytes_come_back_as_they_are() {
    assert_eq!(decode_with_fallback(b"abc\r\nX10"), "abc\r\nX10");
}

#[test]
fn valid_utf8_with_polish_letters_is_kept() {
    assert_eq!(decode_with_fallback("Żółw ą".as_bytes()), "Żółw ą");
}

#[test]
fn choose_decoding_takes_the_first_that_fits() {
    let s = |t: &str, e: bool| (t.to_string(), e);
    assert_eq!(choose_decoding(s("ą", true), s("b", false), s("ę", false), s("d", false)), "ę");
    assert_eq!(choose_decoding(s("Ą", false), s("b", false), s("c", false), s("d", false)), "Ą");
    assert_eq!(choose_decoding(s("a", false), s("b", false), s("c", false), s("d", false)), "b");
}
