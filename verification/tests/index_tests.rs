use testownik::index::upsert_base;
use testownik::model::{BaseIndex, BasesIndexFile};

fn entry(slug: &str, display_name: &str, count: usize) -> BaseIndex {
    BaseIndex {
        slug: slug.to_string(),
        name: slug.to_string(),
        display_name: display_name.to_string(),
        description: "opis".to_string(),
        question_count: count,
    }
}

fn listing(index: &BasesIndexFile) -> Vec<(String, String, usize)> {
    index.bases.iter().map(|b| (b.slug.clone(), b.display_name.clone(), b.question_count)).collect()
}

fn own(v: &[(&str, &str, usize)]) -> Vec<(String, String, usize)> {
    v.iter().map(|(s, d, c)| (s.to_string(), d.to_string(), *c)).collect()
}

#[test]
fn first_base_in_an_empty_index() {
    let r = upsert_base(BasesIndexFile { bases: vec![] }, "fizyka", "Fizyka", "fizyka", 12);
    assert_eq!(listing(&r), own(&[("fizyka", "Fizyka", 12)]));
    assert_eq!(r.bases[0].name, "fizyka");
    assert_eq!(r.bases[0].description, "");
}

#[test]
fn entries_are_sorted_by_display_name() {
    let idx = BasesIndexFile { bases: vec![entry("z", "Zoologia", 1), entry("a", "Algebra", 2)] };
    let r = upsert_base(idx, "m", "Matematyka", "m", 3);
    assert_eq!(listing(&r), own(&[("a", "Algebra", 2), ("m", "Matematyka", 3), ("z", "Zoologia", 1)]));
}

#[test]
fn recording_a_slug_again_replaces_its_entry() {
    let idx = BasesIndexFile {
        bases: vec![entry("a", "Algebra", 2), entry("b", "Biologia", 5), entry("a", "Stara", 9)],
    };
    let r = upsert_base(idx, "a", "Analiza", "a", 7);
    assert_eq!(listing(&r), own(&[("a", "Analiza", 7), ("b", "Biologia", 5)]));
}

#[test]
fn equal_display_names_keep_their_order() {
    let idx = BasesIndexFile { bases: vec![entry("x", "Same", 1), entry("y", "Same", 2)] };
    let r = upsert_base(idx, "z", "Same", "z", 3);
    assert_eq!(listing(&r), own(&[("x", "Same", 1), ("y", "Same", 2), ("z", "Same", 3)]));
}

#[test]
fn order_is_by_bytes() {
    // Upper-case letters sort before lower-case ones, and 'Ż' after 'z'.
    let idx = BasesIndexFile { bases: vec![entry("c", "żaba", 1), entry("b", "zebra", 1)] };
    let r = upsert_base(idx, "a", "Zebra", "a", 1);
    assert_eq!(listing(&r), own(&[("a", "Zebra", 1), ("b", "zebra", 1), ("c", "żaba", 1)]));
}

#[test]
fn latest_import_wins() {
    let start = vec![entry("b", "Beta", 1), entry("d", "Delta", 1)];
    let once = upsert_base(BasesIndexFile { bases: start.clone() }, "c", "Gamma", "c", 1);
    let twice = upsert_base(once, "c", "Alfa", "c", 2);
    let direct = upsert_base(BasesIndexFile { bases: start }, "c", "Alfa", "c", 2);
    assert_eq!(listing(&twice), listing(&direct));
    assert_eq!(listing(&twice), own(&[("c", "Alfa", 2), ("b", "Beta", 1), ("d", "Delta", 1)]));
}

#[test]
fn recording_twice_is_recording_once() {
    let start = vec![entry("b", "Beta", 1)];
    let once = upsert_base(BasesIndexFile { bases: start.clone() }, "c", "Gamma", "c", 4);
    let expected = listing(&once);
    let twice = upsert_base(once, "c", "Gamma", "c", 4);
    assert_eq!(listing(&twice), expected);
}

#[test]
fn sorting_an_unsorted_index_is_stable() {
    let idx = BasesIndexFile {
        bases: vec![entry("y", "Same", 1), entry("a", "Alpha", 2), entry("x", "Same", 3)],
    };
    let r = upsert_base(idx, "b", "Beta", "b", 4);
    assert_eq!(
        listing(&r),
        own(&[("a", "Alpha", 2), ("b", "Beta", 4), ("y", "Same", 1), ("x", "Same", 3)])
    );
}
