//! Decoding the bytes of a question file.  Old question files come in several
//! encodings; the first of UTF-8, windows-1250, ISO-8859-2 and windows-1252
//! that decodes without errors to a text holding a Polish letter is taken,
//! and windows-1250 when none does.
use vstd::prelude::*;
use vstd::utf8::{decode_utf8, encode_utf8, valid_utf8};
use crate::text::{chars_of, has_char, contains_char, is_ascii};
use crate::unicode::{str_lowercase, to_lowercase};

verus! {

/// The text encodings tried when reading a question file.
#[derive(Clone, Copy, Debug)]
pub enum TextEncoding {
    Utf8,
    Windows1250,
    /// ISO-8859-2.
    Latin2,
    Windows1252,
}

/// What `encoding_rs::Encoding::decode` returns for `bytes` in `encoding`:
/// the decoded text, and whether malformed sequences were met.
pub uninterp spec fn decoded(encoding: TextEncoding, bytes: Seq<u8>) -> (Seq<char>, bool);

/// Every byte of `b` is ASCII.
pub open spec fn ascii_bytes(b: Seq<u8>) -> bool {
    forall|i: int| 0 <= i < b.len() ==> #[trigger] b[i] < 128
}

/// ASCII bytes read as characters, one per byte.
pub open spec fn ascii_text(b: Seq<u8>) -> Seq<char> {
    Seq::new(b.len(), |i: int| b[i] as char)
}

/// `b` starts with the UTF-8 byte-order mark.
pub open spec fn utf8_bom(b: Seq<u8>) -> bool {
    b.len() >= 3 && b[0] == 0xEF && b[1] == 0xBB && b[2] == 0xBF
}

/// Calls `encoding_rs::Encoding::decode` (which sniffs a byte-order mark and
/// replaces malformed sequences) for the encoding named by `encoding`; keeps
/// the text and the error flag, both named.  encoding_rs documents that the
/// input comes back as it is, without errors, when it is valid UTF-8 decoded
/// as UTF-8, or ASCII decoded by an ASCII-compatible encoding (all four
/// here); a UTF-8 byte-order mark would be dropped, and ASCII has none.
#[verifier::external_body]
pub(crate) fn decode_bytes(encoding: TextEncoding, bytes: &[u8]) -> (r: (String, bool))
    ensures
        (r.0@, r.1) == decoded(encoding, bytes@),
        ascii_bytes(bytes@) ==> r.0@ == ascii_text(bytes@) && !r.1,
        encoding is Utf8 && valid_utf8(bytes@) && !utf8_bom(bytes@) ==> r.0@ == decode_utf8(
            bytes@,
        ) && !r.1,
{
    let enc = match encoding {
        TextEncoding::Utf8 => encoding_rs::UTF_8,
        TextEncoding::Windows1250 => encoding_rs::WINDOWS_1250,
        TextEncoding::Latin2 => encoding_rs::ISO_8859_2,
        TextEncoding::Windows1252 => encoding_rs::WINDOWS_1252,
    };
    let (text, _, had_errors) = enc.decode(bytes);
    (text.into_owned(), had_errors)
}

/// `s` holds one of the lower-case Polish letters ą ę ó ś ł ż ź ć ń.
pub open spec fn has_polish_letter(s: Seq<char>) -> bool {
    ||| has_char(s, 'ą')
    ||| has_char(s, 'ę')
    ||| has_char(s, 'ó')
    ||| has_char(s, 'ś')
    ||| has_char(s, 'ł')
    ||| has_char(s, 'ż')
    ||| has_char(s, 'ź')
    ||| has_char(s, 'ć')
    ||| has_char(s, 'ń')
}

/// A decoding (text, error flag) is taken: no errors, and the lower-case
/// form of the text holds a Polish letter.
pub open spec fn fits(d: (Seq<char>, bool)) -> bool {
    !d.1 && has_polish_letter(str_lowercase(d.0))
}

/// The text chosen among the decodings of a file in UTF-8, windows-1250,
/// ISO-8859-2 and windows-1252: the first that is taken, else the
/// windows-1250 one.
pub open spec fn chosen_text(
    utf8: (Seq<char>, bool),
    windows_1250: (Seq<char>, bool),
    latin2: (Seq<char>, bool),
    windows_1252: (Seq<char>, bool),
) -> Seq<char> {
    if fits(utf8) {
        utf8.0
    } else if fits(windows_1250) {
        windows_1250.0
    } else if fits(latin2) {
        latin2.0
    } else if fits(windows_1252) {
        windows_1252.0
    } else {
        windows_1250.0
    }
}

/// The text of a question file whose bytes are `bytes`.
pub open spec fn decoded_question_file(bytes: Seq<u8>) -> Seq<char> {
    chosen_text(
        decoded(TextEncoding::Utf8, bytes),
        decoded(TextEncoding::Windows1250, bytes),
        decoded(TextEncoding::Latin2, bytes),
        decoded(TextEncoding::Windows1252, bytes),
    )
}

/// The order in which decodings are tried, stated for each place: the UTF-8
/// text when it decodes without errors to a text whose lower-case form holds
/// a Polish letter; else the windows-1250 text when it does; else the
/// ISO-8859-2 text when it does; else the windows-1252 text when it does;
/// else the windows-1250 text.
pub proof fn law_decoding_order(
    utf8: (Seq<char>, bool),
    windows_1250: (Seq<char>, bool),
    latin2: (Seq<char>, bool),
    windows_1252: (Seq<char>, bool),
)
    ensures
        !utf8.1 && has_polish_letter(str_lowercase(utf8.0)) ==> chosen_text(
            utf8,
            windows_1250,
            latin2,
            windows_1252,
        ) == utf8.0,
        (utf8.1 || !has_polish_letter(str_lowercase(utf8.0))) && !windows_1250.1
            && has_polish_letter(str_lowercase(windows_1250.0)) ==> chosen_text(
            utf8,
            windows_1250,
            latin2,
            windows_1252,
        ) == windows_1250.0,
        (utf8.1 || !has_polish_letter(str_lowercase(utf8.0))) && (windows_1250.1
            || !has_polish_letter(str_lowercase(windows_1250.0))) && !latin2.1 && has_polish_letter(
            str_lowercase(latin2.0),
        ) ==> chosen_text(utf8, windows_1250, latin2, windows_1252) == latin2.0,
        (utf8.1 || !has_polish_letter(str_lowercase(utf8.0))) && (windows_1250.1
            || !has_polish_letter(str_lowercase(windows_1250.0))) && (latin2.1 || !has_polish_letter(
            str_lowercase(latin2.0),
        )) && !windows_1252.1 && has_polish_letter(str_lowercase(windows_1252.0)) ==> chosen_text(
            utf8,
            windows_1250,
            latin2,
            windows_1252,
        ) == windows_1252.0,
        (utf8.1 || !has_polish_letter(str_lowercase(utf8.0))) && (windows_1250.1
            || !has_polish_letter(str_lowercase(windows_1250.0))) && (latin2.1 || !has_polish_letter(
            str_lowercase(latin2.0),
        )) && (windows_1252.1 || !has_polish_letter(str_lowercase(windows_1252.0)))
            ==> chosen_text(utf8, windows_1250, latin2, windows_1252) == windows_1250.0,
{
}

/// The same order for the text of a question file, over what encoding_rs
/// gives for its bytes in each encoding.
pub proof fn law_question_file_order(bytes: Seq<u8>)
    ensures
        ({
            let u = decoded(TextEncoding::Utf8, bytes);
            let w = decoded(TextEncoding::Windows1250, bytes);
            let l = decoded(TextEncoding::Latin2, bytes);
            let x = decoded(TextEncoding::Windows1252, bytes);
            let no_u = u.1 || !has_polish_letter(str_lowercase(u.0));
            let no_w = w.1 || !has_polish_letter(str_lowercase(w.0));
            let no_l = l.1 || !has_polish_letter(str_lowercase(l.0));
            let no_x = x.1 || !has_polish_letter(str_lowercase(x.0));
            &&& !no_u ==> decoded_question_file(bytes) == u.0
            &&& no_u && !no_w ==> decoded_question_file(bytes) == w.0
            &&& no_u && no_w && !no_l ==> decoded_question_file(bytes) == l.0
            &&& no_u && no_w && no_l && !no_x ==> decoded_question_file(bytes) == x.0
            &&& no_u && no_w && no_l && no_x ==> decoded_question_file(bytes) == w.0
        }),
{
    law_decoding_order(
        decoded(TextEncoding::Utf8, bytes),
        decoded(TextEncoding::Windows1250, bytes),
        decoded(TextEncoding::Latin2, bytes),
        decoded(TextEncoding::Windows1252, bytes),
    );
}

/// Whether a decoding is taken.
fn decoding_fits(d: &(String, bool)) -> (r: bool)
    ensures
        r == fits((d.0@, d.1)),
{
    if d.1 {
        return false;
    }
    let lower = to_lowercase(d.0.as_str());
    let l = chars_of(lower.as_str());
    contains_char(&l, 'ą') || contains_char(&l, 'ę') || contains_char(&l, 'ó') || contains_char(
        &l,
        'ś',
    ) || contains_char(&l, 'ł') || contains_char(&l, 'ż') || contains_char(&l, 'ź')
        || contains_char(&l, 'ć') || contains_char(&l, 'ń')
}

/// Chooses the text among the four decodings of a file, as described in
/// this module.
pub fn choose_decoding(
    utf8: (String, bool),
    windows_1250: (String, bool),
    latin2: (String, bool),
    windows_1252: (String, bool),
) -> (text: String)
    ensures
        text@ == chosen_text(
            (utf8.0@, utf8.1),
            (windows_1250.0@, windows_1250.1),
            (latin2.0@, latin2.1),
            (windows_1252.0@, windows_1252.1),
        ),
{
    if decoding_fits(&utf8) {
        utf8.0
    } else if decoding_fits(&windows_1250) {
        windows_1250.0
    } else if decoding_fits(&latin2) {
        latin2.0
    } else if decoding_fits(&windows_1252) {
        windows_1252.0
    } else {
        windows_1250.0
    }
}

/// Decodes the bytes of a question file, choosing the encoding as described
/// in this module.  ASCII bytes give their text as it is, and so do valid
/// UTF-8 bytes (without a byte-order mark) whose text holds a Polish letter.
pub fn decode_with_fallback(bytes: &[u8]) -> (text: String)
    ensures
        text@ == decoded_question_file(bytes@),
        ascii_bytes(bytes@) ==> text@ == ascii_text(bytes@),
        valid_utf8(bytes@) && !utf8_bom(bytes@) && has_polish_letter(
            str_lowercase(decode_utf8(bytes@)),
        ) ==> text@ == decode_utf8(bytes@),
{
    let u = decode_bytes(TextEncoding::Utf8, bytes);
    let w = decode_bytes(TextEncoding::Windows1250, bytes);
    let l = decode_bytes(TextEncoding::Latin2, bytes);
    let x = decode_bytes(TextEncoding::Windows1252, bytes);
    choose_decoding(u, w, l, x)
}

/// ASCII text is encoded in UTF-8 as ASCII bytes, one per character.
pub proof fn lemma_ascii_encode(s: Seq<char>)
    requires
        is_ascii(s),
    ensures
        ascii_bytes(encode_utf8(s)),
        encode_utf8(s).len() == s.len(),
        ascii_text(encode_utf8(s)) == s,
    decreases s.len(),
{
    if s.len() > 0 {
        let rest = s.drop_first();
        assert(is_ascii(rest)) by {
            assert forall|i: int| 0 <= i < rest.len() implies crate::text::is_ascii_char(#[trigger] rest[i]) by {
                assert(rest[i] == s[i + 1]);
            }
        }
        lemma_ascii_encode(rest);
        let c = s[0] as u32;
        assert(crate::text::is_ascii_char(s[0]));
        assert(c < 128);
        assert(c & 0x7F == c) by (bit_vector)
            requires
                c < 128,
        ;
        let b = (c & 0x7F) as u8;
        assert(b == c);
        let e = encode_utf8(s);
        assert(e == seq![b] + encode_utf8(rest));
        assert forall|i: int| 0 <= i < e.len() implies #[trigger] e[i] < 128 by {
            if i > 0 {
                assert(e[i] == encode_utf8(rest)[i - 1]);
            }
        }
        assert forall|i: int| 0 <= i < s.len() implies #[trigger] ascii_text(e)[i] == s[i] by {
            if i > 0 {
                assert(e[i] == encode_utf8(rest)[i - 1]);
                assert(ascii_text(encode_utf8(rest))[i - 1] == rest[i - 1]);
            } else {
                vstd::utf8::char_u32_cast(s[0], c);
                assert((c as char) == s[0]);
                assert((b as char) == (c as char));
            }
        }
        assert(ascii_text(e) =~= s);
    }
}

} // verus!
