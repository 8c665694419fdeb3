//! The index of bases (`bases.json`): one entry per base, kept sorted by
//! display name.  Importing a base replaces the entries with its slug by a
//! new entry and sorts the index again, stably.
use vstd::prelude::*;
use vstd::utf8::encode_utf8;
use crate::model::{BaseIndex, BaseIndexView, BasesIndexFile};

verus! {

// ---------------------------------------------------------------------------
// Order of names
// ---------------------------------------------------------------------------

/// Lexicographic order of byte strings (`a` is at most `b`).
pub open spec fn bytes_le(a: Seq<u8>, b: Seq<u8>) -> bool
    decreases a.len(),
{
    if a.len() == 0 {
        true
    } else if b.len() == 0 {
        false
    } else if a[0] != b[0] {
        a[0] < b[0]
    } else {
        bytes_le(a.drop_first(), b.drop_first())
    }
}

/// The order of `String`: lexicographic on the UTF-8 bytes.
pub open spec fn name_le(a: Seq<char>, b: Seq<char>) -> bool {
    bytes_le(encode_utf8(a), encode_utf8(b))
}

/// Any two byte strings are ordered one way or the other.
pub proof fn lemma_bytes_le_total(a: Seq<u8>, b: Seq<u8>)
    ensures
        bytes_le(a, b) || bytes_le(b, a),
    decreases a.len(),
{
    if a.len() > 0 && b.len() > 0 && a[0] == b[0] {
        lemma_bytes_le_total(a.drop_first(), b.drop_first());
    }
}

/// The order of byte strings is transitive.
pub proof fn lemma_bytes_le_trans(a: Seq<u8>, b: Seq<u8>, c: Seq<u8>)
    requires
        bytes_le(a, b),
        bytes_le(b, c),
    ensures
        bytes_le(a, c),
    decreases a.len(),
{
    if a.len() > 0 && b.len() > 0 && c.len() > 0 && a[0] == b[0] && b[0] == c[0] {
        lemma_bytes_le_trans(a.drop_first(), b.drop_first(), c.drop_first());
    }
}

/// Whether `a` is at most `b` in the order of `String`.
pub(crate) fn names_le(a: &String, b: &String) -> (r: bool)
    ensures
        r == name_le(a@, b@),
{
    let x = a.as_str().as_bytes();
    let y = b.as_str().as_bytes();
    let mut i: usize = 0;
    assert(x@.skip(0) =~= x@);
    assert(y@.skip(0) =~= y@);
    while i < x.len() && i < y.len() && x[i] == y[i]
        invariant
            i <= x.len(),
            i <= y.len(),
            bytes_le(x@, y@) == bytes_le(x@.skip(i as int), y@.skip(i as int)),
        decreases x.len() - i,
    {
        assert(x@.skip(i as int).drop_first() =~= x@.skip(i + 1));
        assert(y@.skip(i as int).drop_first() =~= y@.skip(i + 1));
        i = i + 1;
    }
    if i == x.len() {
        true
    } else if i == y.len() {
        false
    } else {
        x[i] < y[i]
    }
}

// ---------------------------------------------------------------------------
// Stable sorting by display name
// ---------------------------------------------------------------------------

/// `a` comes no later than `b` in the index order.
pub open spec fn entry_le(a: BaseIndexView, b: BaseIndexView) -> bool {
    name_le(a.display_name, b.display_name)
}

/// `s` is sorted by display name.
pub open spec fn sorted_by_name(s: Seq<BaseIndexView>) -> bool {
    forall|i: int, j: int| 0 <= i < j < s.len() ==> entry_le(#[trigger] s[i], #[trigger] s[j])
}

/// `e` inserted into `s` after every entry whose display name is at most
/// its own, counting from the end.
pub open spec fn insert_sorted(s: Seq<BaseIndexView>, e: BaseIndexView) -> Seq<BaseIndexView>
    decreases s.len(),
{
    if s.len() == 0 {
        seq![e]
    } else if entry_le(s.last(), e) {
        s.push(e)
    } else {
        insert_sorted(s.drop_last(), e).push(s.last())
    }
}

/// `s` sorted stably by display name (`sort_by` on the display names).
pub open spec fn sort_by_name(s: Seq<BaseIndexView>) -> Seq<BaseIndexView>
    decreases s.len(),
{
    if s.len() == 0 {
        s
    } else {
        insert_sorted(sort_by_name(s.drop_last()), s.last())
    }
}

/// The entries of `s` whose slug is not `slug`, in order.
pub open spec fn without_slug(s: Seq<BaseIndexView>, slug: Seq<char>) -> Seq<BaseIndexView>
    decreases s.len(),
{
    if s.len() == 0 {
        s
    } else if s.last().slug == slug {
        without_slug(s.drop_last(), slug)
    } else {
        without_slug(s.drop_last(), slug).push(s.last())
    }
}

/// The index after recording `entry`: entries with its slug dropped, `entry`
/// added, and the whole sorted stably by display name.
pub open spec fn upserted(bases: Seq<BaseIndexView>, entry: BaseIndexView) -> Seq<BaseIndexView> {
    sort_by_name(without_slug(bases, entry.slug).push(entry))
}

/// Inserting at the right place: `insert_sorted` puts `e` at `j` when every
/// entry from `j` on comes after `e` and the one before `j` does not.
proof fn lemma_insert_sorted_at(s: Seq<BaseIndexView>, e: BaseIndexView, j: int)
    requires
        0 <= j <= s.len(),
        forall|k: int| j <= k < s.len() ==> !entry_le(#[trigger] s[k], e),
        j == 0 || entry_le(s[j - 1], e),
    ensures
        insert_sorted(s, e) == s.take(j).push(e) + s.skip(j),
    decreases s.len() - j,
{
    if j == s.len() {
        assert(s.take(j) =~= s);
        assert(s.skip(j) =~= Seq::<BaseIndexView>::empty());
        assert(s.take(j).push(e) + s.skip(j) =~= s.push(e));
    } else {
        lemma_insert_sorted_at(s.drop_last(), e, j);
        assert(s.drop_last().take(j) =~= s.take(j));
        assert(s.drop_last().skip(j).push(s.last()) =~= s.skip(j));
        assert((s.take(j).push(e) + s.drop_last().skip(j)).push(s.last()) =~= s.take(j).push(e)
            + s.skip(j));
    }
}

/// Inserting into a sorted sequence keeps it sorted and adds one element.
proof fn lemma_insert_sorted_sorted(s: Seq<BaseIndexView>, e: BaseIndexView)
    requires
        sorted_by_name(s),
    ensures
        sorted_by_name(insert_sorted(s, e)),
        insert_sorted(s, e).to_multiset() == s.to_multiset().insert(e),
        insert_sorted(s, e).len() == s.len() + 1,
    decreases s.len(),
{
    broadcast use vstd::seq_lib::group_seq_properties;
    if s.len() == 0 {
        assert(seq![e] =~= Seq::<BaseIndexView>::empty().push(e));
    } else if entry_le(s.last(), e) {
        assert forall|i: int, j: int| 0 <= i < j < s.push(e).len() implies entry_le(
            #[trigger] s.push(e)[i],
            #[trigger] s.push(e)[j],
        ) by {
            if j == s.len() && i < s.len() - 1 {
                lemma_bytes_le_trans(
                    encode_utf8(s[i].display_name),
                    encode_utf8(s.last().display_name),
                    encode_utf8(e.display_name),
                );
            }
        }
    } else {
        let init = s.drop_last();
        assert(sorted_by_name(init));
        lemma_insert_sorted_sorted(init, e);
        let r = insert_sorted(init, e);
        lemma_bytes_le_total(encode_utf8(s.last().display_name), encode_utf8(e.display_name));
        assert(r.to_multiset().contains(e)) by {
            assert(r.to_multiset().count(e) == init.to_multiset().count(e) + 1);
        }
        assert forall|i: int, j: int| 0 <= i < j < r.push(s.last()).len() implies entry_le(
            #[trigger] r.push(s.last())[i],
            #[trigger] r.push(s.last())[j],
        ) by {
            if j == r.len() {
                let x = r[i];
                assert(r.contains(x));
                assert(r.to_multiset().count(x) > 0);
                assert(init.push(e).to_multiset() =~= init.to_multiset().insert(e));
                if x == e {
                } else {
                    assert(init.to_multiset().count(x) > 0);
                    assert(init.contains(x));
                    let k = choose|k: int| 0 <= k < init.len() && init[k] == x;
                    assert(s[k] == x);
                    assert(entry_le(s[k], s[s.len() - 1]));
                }
            }
        }
        assert(s =~= init.push(s.last()));
    }
}

/// Sorting gives a sorted permutation.
pub proof fn lemma_sort_by_name(s: Seq<BaseIndexView>)
    ensures
        sorted_by_name(sort_by_name(s)),
        sort_by_name(s).to_multiset() == s.to_multiset(),
        sort_by_name(s).len() == s.len(),
    decreases s.len(),
{
    broadcast use vstd::seq_lib::group_seq_properties;
    if s.len() > 0 {
        lemma_sort_by_name(s.drop_last());
        lemma_insert_sorted_sorted(sort_by_name(s.drop_last()), s.last());
        assert(s =~= s.drop_last().push(s.last()));
    }
}

/// Sorting a sorted sequence leaves it unchanged.
pub proof fn lemma_sort_sorted_id(s: Seq<BaseIndexView>)
    requires
        sorted_by_name(s),
    ensures
        sort_by_name(s) == s,
    decreases s.len(),
{
    if s.len() > 0 {
        assert(sorted_by_name(s.drop_last()));
        lemma_sort_sorted_id(s.drop_last());
        if s.len() > 1 {
            assert(entry_le(s[s.len() - 2], s[s.len() - 1]));
        }
        assert(s.drop_last().push(s.last()) =~= s);
    }
}

/// Dropping the entries of a slug from a sorted sequence keeps it sorted.
proof fn lemma_without_slug_sorted(s: Seq<BaseIndexView>, slug: Seq<char>)
    requires
        sorted_by_name(s),
    ensures
        sorted_by_name(without_slug(s, slug)),
        forall|i: int|
            0 <= i < without_slug(s, slug).len() ==> s.contains(#[trigger] without_slug(s, slug)[i]),
    decreases s.len(),
{
    if s.len() > 0 {
        assert(sorted_by_name(s.drop_last()));
        lemma_without_slug_sorted(s.drop_last(), slug);
        let w = without_slug(s.drop_last(), slug);
        assert forall|i: int| 0 <= i < w.len() implies s.contains(#[trigger] w[i]) by {
            assert(s.drop_last().contains(w[i]));
            let k = choose|k: int| 0 <= k < s.drop_last().len() && s.drop_last()[k] == w[i];
            assert(s[k] == w[i]);
        }
        if s.last().slug != slug {
            assert(s[s.len() - 1] == s.last());
            assert forall|i: int, j: int| 0 <= i < j < w.push(s.last()).len() implies entry_le(
                #[trigger] w.push(s.last())[i],
                #[trigger] w.push(s.last())[j],
            ) by {
                if j == w.len() {
                    assert(s.drop_last().contains(w[i]));
                    let k = choose|k: int| 0 <= k < s.drop_last().len() && s.drop_last()[k] == w[i];
                    assert(s[k] == w[i]);
                }
            }
        }
    }
}

/// Dropping the entries of a slug commutes with inserting into a sorted
/// sequence.
proof fn lemma_without_slug_insert(s: Seq<BaseIndexView>, e: BaseIndexView, slug: Seq<char>)
    requires
        sorted_by_name(s),
    ensures
        without_slug(insert_sorted(s, e), slug) == if e.slug == slug {
            without_slug(s, slug)
        } else {
            insert_sorted(without_slug(s, slug), e)
        },
    decreases s.len(),
{
    if s.len() == 0 {
        assert(s =~= Seq::<BaseIndexView>::empty());
        assert(seq![e].drop_last() =~= Seq::<BaseIndexView>::empty());
        assert(seq![e].last() == e);
        assert(insert_sorted(s, e) == seq![e]);
        assert(without_slug(s, slug) == s);
        if e.slug != slug {
            assert(without_slug(seq![e], slug) == without_slug(Seq::<BaseIndexView>::empty(), slug).push(e));
            assert(Seq::<BaseIndexView>::empty().push(e) =~= seq![e]);
        }
        assert(without_slug(insert_sorted(s, e), slug) == if e.slug == slug {
            without_slug(s, slug)
        } else {
            insert_sorted(without_slug(s, slug), e)
        });
    } else if entry_le(s.last(), e) {
        assert(s.push(e).drop_last() =~= s);
        assert(s.push(e).last() == e);
        assert(insert_sorted(s, e) == s.push(e));
        if e.slug != slug {
            let w = without_slug(s, slug);
            assert(without_slug(s.push(e), slug) == w.push(e));
            if w.len() == 0 {
                assert(w.push(e) =~= seq![e]);
            }
            lemma_without_slug_sorted(s, slug);
            if w.len() > 0 {
                assert(s.contains(w.last()));
                let k = choose|k: int| 0 <= k < s.len() && s[k] == w.last();
                if k < s.len() - 1 {
                    assert(entry_le(s[k], s[s.len() - 1]));
                    lemma_bytes_le_trans(
                        encode_utf8(s[k].display_name),
                        encode_utf8(s.last().display_name),
                        encode_utf8(e.display_name),
                    );
                }
                assert(insert_sorted(w, e) == w.push(e));
            }
        }
        assert(without_slug(insert_sorted(s, e), slug) == if e.slug == slug {
            without_slug(s, slug)
        } else {
            insert_sorted(without_slug(s, slug), e)
        });
    } else {
        let init = s.drop_last();
        let last = s.last();
        assert(sorted_by_name(init));
        lemma_without_slug_insert(init, e, slug);
        let r = insert_sorted(init, e);
        assert(insert_sorted(s, e) == r.push(last));
        assert(r.push(last).drop_last() =~= r);
        assert(r.push(last).last() == last);
        let w = without_slug(init, slug);
        if last.slug == slug {
            assert(without_slug(r.push(last), slug) == without_slug(r, slug));
            assert(without_slug(s, slug) == w);
        } else {
            assert(without_slug(r.push(last), slug) == without_slug(r, slug).push(last));
            assert(without_slug(s, slug) == w.push(last));
            if e.slug != slug {
                assert(w.push(last).drop_last() =~= w);
                assert(w.push(last).last() == last);
                assert(insert_sorted(w.push(last), e) == insert_sorted(w, e).push(last));
            }
        }
        assert(without_slug(insert_sorted(s, e), slug) == if e.slug == slug {
            without_slug(s, slug)
        } else {
            insert_sorted(without_slug(s, slug), e)
        });
    }
}

/// Dropping the entries of a slug commutes with stable sorting.
proof fn lemma_without_slug_sort(s: Seq<BaseIndexView>, slug: Seq<char>)
    ensures
        without_slug(sort_by_name(s), slug) == sort_by_name(without_slug(s, slug)),
    decreases s.len(),
{
    if s.len() > 0 {
        lemma_without_slug_sort(s.drop_last(), slug);
        lemma_sort_by_name(s.drop_last());
        lemma_without_slug_insert(sort_by_name(s.drop_last()), s.last(), slug);
        let w = without_slug(s.drop_last(), slug);
        if s.last().slug != slug {
            assert(without_slug(s, slug).drop_last() =~= w);
        }
    }
}

/// Dropping the entries of a slug twice drops nothing more.
proof fn lemma_without_slug_twice(s: Seq<BaseIndexView>, slug: Seq<char>)
    ensures
        without_slug(without_slug(s, slug), slug) == without_slug(s, slug),
    decreases s.len(),
{
    if s.len() > 0 {
        lemma_without_slug_twice(s.drop_last(), slug);
        let w = without_slug(s.drop_last(), slug);
        if s.last().slug != slug {
            assert(w.push(s.last()).drop_last() =~= w);
        }
    }
}

/// No entry of `without_slug(s, slug)` has the slug `slug`.
proof fn lemma_without_slug_none(s: Seq<BaseIndexView>, slug: Seq<char>)
    ensures
        forall|i: int|
            0 <= i < without_slug(s, slug).len() ==> (#[trigger] without_slug(s, slug)[i]).slug
                != slug,
    decreases s.len(),
{
    if s.len() > 0 {
        lemma_without_slug_none(s.drop_last(), slug);
        let w = without_slug(s.drop_last(), slug);
        assert forall|i: int| 0 <= i < without_slug(s, slug).len() implies (#[trigger] without_slug(
            s,
            slug,
        )[i]).slug != slug by {
            if i < w.len() {
                assert(without_slug(s, slug)[i] == w[i]);
            }
        }
    }
}

/// The entries of `s` whose display name is `name`, in order.
pub open spec fn with_display_name(s: Seq<BaseIndexView>, name: Seq<char>) -> Seq<BaseIndexView>
    decreases s.len(),
{
    if s.len() == 0 {
        s
    } else if s.last().display_name == name {
        with_display_name(s.drop_last(), name).push(s.last())
    } else {
        with_display_name(s.drop_last(), name)
    }
}

/// Every byte string is at most itself.
proof fn lemma_bytes_le_refl(a: Seq<u8>)
    ensures
        bytes_le(a, a),
    decreases a.len(),
{
    if a.len() > 0 {
        lemma_bytes_le_refl(a.drop_first());
    }
}

/// Inserting `e` keeps the entries of each display name in order, with `e`
/// after those of its own name.
proof fn lemma_insert_sorted_stable(s: Seq<BaseIndexView>, e: BaseIndexView, name: Seq<char>)
    ensures
        with_display_name(insert_sorted(s, e), name) == if e.display_name == name {
            with_display_name(s, name).push(e)
        } else {
            with_display_name(s, name)
        },
    decreases s.len(),
{
    if s.len() == 0 {
        assert(seq![e].drop_last() =~= s);
        assert(seq![e].last() == e);
        assert(s.push(e) =~= seq![e]);
    } else if entry_le(s.last(), e) {
        assert(s.push(e).drop_last() =~= s);
        assert(s.push(e).last() == e);
    } else {
        let init = s.drop_last();
        let last = s.last();
        lemma_insert_sorted_stable(init, e, name);
        let r = insert_sorted(init, e);
        assert(r.push(last).drop_last() =~= r);
        assert(r.push(last).last() == last);
        lemma_bytes_le_refl(encode_utf8(e.display_name));
        assert(last.display_name != e.display_name);
        if last.display_name == name {
            assert(with_display_name(init, name).push(last) == with_display_name(s, name));
        }
    }
}

/// Sorting keeps the entries of each display name in the order they had.
proof fn lemma_sort_stable(s: Seq<BaseIndexView>, name: Seq<char>)
    ensures
        with_display_name(sort_by_name(s), name) == with_display_name(s, name),
    decreases s.len(),
{
    if s.len() > 0 {
        lemma_sort_stable(s.drop_last(), name);
        lemma_insert_sorted_stable(sort_by_name(s.drop_last()), s.last(), name);
    }
}

// ---------------------------------------------------------------------------
// Laws of the index
// ---------------------------------------------------------------------------

/// After recording an entry, the index is sorted by display name, and holds
/// exactly the entries of other slugs it held before plus the new entry.
pub proof fn law_upsert_sorted_permutation(bases: Seq<BaseIndexView>, entry: BaseIndexView)
    ensures
        sorted_by_name(upserted(bases, entry)),
        upserted(bases, entry).to_multiset() == without_slug(bases, entry.slug).to_multiset().insert(
            entry,
        ),
{
    broadcast use vstd::seq_lib::group_seq_properties;
    lemma_sort_by_name(without_slug(bases, entry.slug).push(entry));
}

/// After recording an entry, it is the only entry with its slug.
pub proof fn law_upsert_unique_slug(bases: Seq<BaseIndexView>, entry: BaseIndexView)
    ensures
        upserted(bases, entry).contains(entry),
        forall|i: int|
            0 <= i < upserted(bases, entry).len() && (#[trigger] upserted(bases, entry)[i]).slug
                == entry.slug ==> upserted(bases, entry)[i] == entry,
{
    broadcast use vstd::seq_lib::group_seq_properties;
    let w = without_slug(bases, entry.slug);
    let u = upserted(bases, entry);
    lemma_sort_by_name(w.push(entry));
    lemma_without_slug_none(bases, entry.slug);
    assert(w.push(entry).to_multiset() =~= w.to_multiset().insert(entry));
    assert(u.to_multiset().count(entry) > 0);
    assert forall|i: int| 0 <= i < u.len() && (#[trigger] u[i]).slug == entry.slug implies u[i]
        == entry by {
        let x = u[i];
        assert(u.contains(x));
        assert(u.to_multiset().count(x) > 0);
        if x != entry {
            assert(w.to_multiset().count(x) > 0);
            assert(w.contains(x));
            let k = choose|k: int| 0 <= k < w.len() && w[k] == x;
            assert(w[k].slug != entry.slug);
        }
    }
}

/// Recording two entries with the same slug leaves the index as recording
/// only the second: the latest import of a base wins, and recording the same
/// entry twice is the same as recording it once.
pub proof fn law_upsert_latest_wins(bases: Seq<BaseIndexView>, e1: BaseIndexView, e2: BaseIndexView)
    requires
        e1.slug == e2.slug,
    ensures
        upserted(upserted(bases, e1), e2) == upserted(bases, e2),
{
    let slug = e1.slug;
    let w = without_slug(bases, slug);
    let first = w.push(e1);
    // upserted(bases, e1) == insert_sorted(sort_by_name(w), e1)
    assert(first.drop_last() =~= w);
    lemma_sort_by_name(w);
    let sw = sort_by_name(w);
    lemma_without_slug_insert(sw, e1, slug);
    lemma_without_slug_sort(w, slug);
    lemma_without_slug_twice(bases, slug);
    // without_slug(upserted(bases, e1), slug) == sort_by_name(w) == sw
    lemma_sort_sorted_id(sw);
    let second = sw.push(e2);
    assert(second.drop_last() =~= sw);
    assert(w.push(e2).drop_last() =~= w);
}

/// Sorting the index is stable: after recording an entry, the entries that
/// share a display name stand in the order they had, the new entry after the
/// others of its display name.
pub proof fn law_upsert_stable(bases: Seq<BaseIndexView>, entry: BaseIndexView, name: Seq<char>)
    ensures
        with_display_name(upserted(bases, entry), name) == with_display_name(
            without_slug(bases, entry.slug).push(entry),
            name,
        ),
{
    lemma_sort_stable(without_slug(bases, entry.slug).push(entry), name);
}

// ---------------------------------------------------------------------------
// Executable
// ---------------------------------------------------------------------------

/// Inserts `e` into the sorted `sorted` after every entry whose display name
/// is at most its own.
fn insert_by_name(sorted: &mut Vec<BaseIndex>, e: BaseIndex)
    ensures
        final(sorted).deep_view() == insert_sorted(old(sorted).deep_view(), e.deep_view()),
{
    let ghost s = sorted.deep_view();
    let ghost ev = e.deep_view();
    let mut j: usize = sorted.len();
    while j > 0 && !names_le(&sorted[j - 1].display_name, &e.display_name)
        invariant
            j <= sorted.len(),
            s == sorted.deep_view(),
            ev == e.deep_view(),
            forall|k: int| j <= k < s.len() ==> !entry_le(#[trigger] s[k], ev),
        decreases j,
    {
        j = j - 1;
    }
    proof {
        lemma_insert_sorted_at(s, ev, j as int);
    }
    sorted.insert(j, e);
    assert(sorted.deep_view() =~= s.take(j as int).push(ev) + s.skip(j as int));
}

/// The index after recording the base `slug` (the index file itself is read
/// and written by the caller): entries with that
/// slug are dropped, an entry with the given names, an empty description and
/// the question count is added, and the index is sorted stably by display
/// name.
pub fn upsert_base(
    index: BasesIndexFile,
    slug: &str,
    display_name: &str,
    name: &str,
    question_count: usize,
) -> (r: BasesIndexFile)
    ensures
        r.bases.deep_view() == upserted(
            index.bases.deep_view(),
            BaseIndexView {
                slug: slug@,
                name: name@,
                display_name: display_name@,
                description: Seq::<char>::empty(),
                question_count,
            },
        ),
        sorted_by_name(r.bases.deep_view()),
{
    let mut bases = index.bases;
    let ghost orig = bases.deep_view();
    let slug_s = slug.to_owned();
    let mut kept: Vec<BaseIndex> = Vec::new();
    let n = bases.len();
    let mut k: usize = 0;
    assert(orig.take(0) =~= Seq::<BaseIndexView>::empty());
    assert(orig.skip(0) =~= orig);
    while k < n
        invariant
            k <= n,
            bases.len() == n - k,
            orig.len() == n,
            bases.deep_view() == orig.skip(k as int),
            kept.deep_view() == without_slug(orig.take(k as int), slug@),
            slug_s@ == slug@,
        decreases n - k,
    {
        let ghost before = bases;
        let b = bases.remove(0);
        proof {
            assert(b.deep_view() == before.deep_view()[0]);
            assert forall|j: int| 0 <= j < bases.len() implies #[trigger] bases.deep_view()[j]
                == orig.skip(k + 1)[j] by {
                assert(bases@[j] == before@[j + 1]);
                assert(before.deep_view()[j + 1] == orig.skip(k as int)[j + 1]);
            }
            assert(bases.deep_view() =~= orig.skip(k + 1));
        }
        assert(orig.take(k + 1).drop_last() =~= orig.take(k as int));
        if b.slug != slug_s {
            let ghost kv = kept.deep_view();
            kept.push(b);
            assert(kept.deep_view() =~= kv.push(orig[k as int]));
        }
        k = k + 1;
    }
    assert(orig.take(n as int) =~= orig);
    let entry = BaseIndex {
        slug: slug_s,
        name: name.to_owned(),
        display_name: display_name.to_owned(),
        description: String::new(),
        question_count,
    };
    let ghost ev = entry.deep_view();
    let ghost w = kept.deep_view();
    let mut sorted: Vec<BaseIndex> = Vec::new();
    let m = kept.len();
    let mut i: usize = 0;
    assert(w.take(0) =~= Seq::<BaseIndexView>::empty());
    assert(w.skip(0) =~= w);
    while i < m
        invariant
            i <= m,
            kept.len() == m - i,
            w.len() == m,
            kept.deep_view() == w.skip(i as int),
            sorted.deep_view() == sort_by_name(w.take(i as int)),
        decreases m - i,
    {
        let ghost before = kept;
        let b = kept.remove(0);
        proof {
            assert(b.deep_view() == before.deep_view()[0]);
            assert forall|j: int| 0 <= j < kept.len() implies #[trigger] kept.deep_view()[j]
                == w.skip(i + 1)[j] by {
                assert(kept@[j] == before@[j + 1]);
                assert(before.deep_view()[j + 1] == w.skip(i as int)[j + 1]);
            }
            assert(kept.deep_view() =~= w.skip(i + 1));
        }
        assert(w.take(i + 1).drop_last() =~= w.take(i as int));
        insert_by_name(&mut sorted, b);
        i = i + 1;
    }
    assert(w.take(m as int) =~= w);
    insert_by_name(&mut sorted, entry);
    proof {
        assert(w.push(ev).drop_last() =~= w);
        law_upsert_sorted_permutation(orig, ev);
    }
    BasesIndexFile { bases: sorted }
}

} // verus!
