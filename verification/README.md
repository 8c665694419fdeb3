# testownik

The data side of Testownik, a desktop application for learning from question
bases: reading old-format question files, importing bases, keeping the index
of bases, and exporting a base to Anki.  The library is written in Verus and
its functions are verified against their contracts, except the small
`external_body` wrappers that call outside code (the regular-expression
crates, `encoding_rs`, std's Unicode case mapping, `std::path::Path` and
`String::push`): their contracts are trusted, and each states what the
outside documentation or source shows.

Layout:

- `src/text.rs`, `src/unicode.rs`: character sequences, trimming, lines;
  Unicode case mapping from the standard library.
- `src/pattern.rs`: regular-expression calls (`regex`, `fancy_regex`).
- `src/decode.rs`: decoding question files (`encoding_rs`).
- `src/answer_code.rs`, `src/question.rs`: the question file format.
- `src/slug.rs`, `src/sources.rs`, `src/import.rs`: slugs, finding question
  directories on a snapshot of a directory tree, assembling imported bases.
- `src/index.rs`: the sorted index of bases and its laws.
- `src/anki.rs`: the Anki deck of a base.
- `src/startup.rs`: environment defaults at start-up.
- `tests/`: tests of the library on concrete values.
- `app/`: the desktop shell: file system, JSON files, Tauri commands.
