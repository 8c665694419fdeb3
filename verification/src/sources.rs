//! Where the question files of an old-format base are: which directories
//! under the directory the user selected hold the `.txt` question files.
//!
//! Accepted layouts, relative to the selected directory: `baza/*.txt`,
//! `*.txt`, `<base>/baza/*.txt` or `<base>/*.txt`, and the same one level
//! further down when the selected directory wraps bases.
//!
//! The directory tree is given as a snapshot (`DirNode`) that records, for
//! each directory the rules look at, what reading it gave; a directory found
//! is given as its path relative to the selected directory, component by
//! component.
use vstd::prelude::*;
use vstd::utf8::encode_utf8;
use crate::index::{bytes_le, lemma_bytes_le_total, lemma_bytes_le_trans, name_le, names_le};
use crate::paths::{
    is_piece_of, last_component, last_index_of, parent_text, path_extension, path_file_name,
    path_parent, plain_path, std_extension,
};
use crate::text::{chars_eq_ignore_ascii_case, chars_of, eq_ignore_ascii_case};

verus! {

/// What reading one directory entry gave.  `name` is the entry's file name
/// (converted lossily when it is not valid UTF-8, which `name_is_utf8` tells);
/// `is_dir` is its file type.  For a directory: `baza` is `None` when
/// `<dir>/baza` is not a directory, else whether it holds a `.txt` file (or
/// the error reading it gave); `has_txt` is whether the directory itself
/// holds a `.txt` file (or the error); `entries` is its entries in the order
/// the system lists them (or the error listing gave).
pub struct DirNode {
    pub name: String,
    pub name_is_utf8: bool,
    pub is_dir: bool,
    pub baza: Option<Result<bool, String>>,
    pub has_txt: Result<bool, String>,
    pub entries: Result<Vec<DirNode>, String>,
}

/// The name of the directory that holds question files inside a base.
pub const BAZA: &'static str = "baza";

/// The base name used when a directory name is not valid UTF-8.
pub const IMPORTED_BASE: &'static str = "imported-base";

// ---------------------------------------------------------------------------
// Paths relative to the selected directory, and their order
// ---------------------------------------------------------------------------

/// The order of paths (`Path::cmp`): component by component, each compared
/// by its bytes; a path comes before the paths it is a beginning of.
pub open spec fn path_le(a: Seq<Seq<char>>, b: Seq<Seq<char>>) -> bool
    decreases a.len(),
{
    if a.len() == 0 {
        true
    } else if b.len() == 0 {
        false
    } else if a[0] != b[0] {
        name_le(a[0], b[0])
    } else {
        path_le(a.drop_first(), b.drop_first())
    }
}

/// `p` inserted into `s` after every path at most `p`, counting from the end.
pub open spec fn insert_path(s: Seq<Seq<Seq<char>>>, p: Seq<Seq<char>>) -> Seq<Seq<Seq<char>>>
    decreases s.len(),
{
    if s.len() == 0 {
        seq![p]
    } else if path_le(s.last(), p) {
        s.push(p)
    } else {
        insert_path(s.drop_last(), p).push(s.last())
    }
}

/// `s` sorted stably (`Vec::sort`).
pub open spec fn sort_paths(s: Seq<Seq<Seq<char>>>) -> Seq<Seq<Seq<char>>>
    decreases s.len(),
{
    if s.len() == 0 {
        s
    } else {
        insert_path(sort_paths(s.drop_last()), s.last())
    }
}

/// `s` without consecutive repeats (`Vec::dedup`).
pub open spec fn dedup_paths(s: Seq<Seq<Seq<char>>>) -> Seq<Seq<Seq<char>>>
    decreases s.len(),
{
    if s.len() == 0 {
        s
    } else {
        let d = dedup_paths(s.drop_last());
        if d.len() > 0 && d.last() == s.last() {
            d
        } else {
            d.push(s.last())
        }
    }
}

/// `s` sorted and without repeats.
pub open spec fn sorted_unique(s: Seq<Seq<Seq<char>>>) -> Seq<Seq<Seq<char>>> {
    dedup_paths(sort_paths(s))
}

// ---------------------------------------------------------------------------
// Specification of the search
// ---------------------------------------------------------------------------

/// The entry is a directory whose name does not start with `.`.
pub open spec fn visible(n: DirNode) -> bool {
    n.is_dir && !(n.name@.len() > 0 && n.name@[0] == '.')
}

/// The visible directories among `entries`, in order.
pub open spec fn visible_children(entries: Seq<DirNode>) -> Seq<DirNode>
    decreases entries.len(),
{
    if entries.len() == 0 {
        entries
    } else if visible(entries.last()) {
        visible_children(entries.drop_last()).push(entries.last())
    } else {
        visible_children(entries.drop_last())
    }
}

/// What a directory one level down contributes: its `baza` when that holds
/// question files, else itself when it does, else nothing.
pub open spec fn child_hit(n: DirNode) -> Result<Option<Seq<Seq<char>>>, Seq<char>> {
    match n.baza {
        Some(Err(e)) => Err(e@),
        Some(Ok(true)) => Ok(Some(seq![n.name@, BAZA@])),
        _ => match n.has_txt {
            Err(e) => Err(e@),
            Ok(true) => Ok(Some(seq![n.name@])),
            Ok(false) => Ok(None),
        },
    }
}

/// What the directories `children` contribute, in order; the first error
/// met stops the search.
pub open spec fn child_hits(children: Seq<DirNode>) -> Result<Seq<Seq<Seq<char>>>, Seq<char>>
    decreases children.len(),
{
    if children.len() == 0 {
        Ok(Seq::<Seq<Seq<char>>>::empty())
    } else {
        match child_hits(children.drop_last()) {
            Err(e) => Err(e),
            Ok(acc) => match child_hit(children.last()) {
                Err(e) => Err(e),
                Ok(None) => Ok(acc),
                Ok(Some(p)) => Ok(acc.push(p)),
            },
        }
    }
}

/// The question directories of `d`, relative to `d`: `baza` when it holds
/// question files; else `d` itself when it does; else what its visible
/// subdirectories contribute, sorted and without repeats.
pub open spec fn discovered(d: DirNode) -> Result<Seq<Seq<Seq<char>>>, Seq<char>> {
    match d.baza {
        Some(Err(e)) => Err(e@),
        Some(Ok(true)) => Ok(seq![seq![BAZA@]]),
        _ => match d.has_txt {
            Err(e) => Err(e@),
            Ok(true) => Ok(seq![Seq::<Seq<char>>::empty()]),
            Ok(false) => match d.entries {
                Err(e) => Err(e@),
                Ok(es) => match child_hits(visible_children(es@)) {
                    Err(e) => Err(e),
                    Ok(hits) => Ok(sorted_unique(hits)),
                },
            },
        },
    }
}

/// Every path of `ds` with `name` put in front.
pub open spec fn under(name: Seq<char>, ds: Seq<Seq<Seq<char>>>) -> Seq<Seq<Seq<char>>> {
    Seq::new(ds.len(), |i: int| seq![name] + ds[i])
}

/// The name a wrapped base takes from its directory.
pub open spec fn candidate_name(n: DirNode) -> Seq<char> {
    if n.name_is_utf8 {
        n.name@
    } else {
        IMPORTED_BASE@
    }
}

/// The wrapped bases among `children`: each child with question directories
/// gives its name and those directories (relative to the selected one).
pub open spec fn wrapped_bases(children: Seq<DirNode>) -> Result<
    Seq<(Seq<char>, Seq<Seq<Seq<char>>>)>,
    Seq<char>,
>
    decreases children.len(),
{
    if children.len() == 0 {
        Ok(Seq::<(Seq<char>, Seq<Seq<Seq<char>>>)>::empty())
    } else {
        match wrapped_bases(children.drop_last()) {
            Err(e) => Err(e),
            Ok(acc) => {
                let c = children.last();
                match discovered(c) {
                    Err(e) => Err(e),
                    Ok(ds) => if ds.len() > 0 {
                        Ok(acc.push((candidate_name(c), under(c.name@, ds))))
                    } else {
                        Ok(acc)
                    },
                }
            },
        }
    }
}

/// The directories of all the wrapped bases, in order.
pub open spec fn all_dirs(cands: Seq<(Seq<char>, Seq<Seq<Seq<char>>>)>) -> Seq<Seq<Seq<char>>>
    decreases cands.len(),
{
    if cands.len() == 0 {
        Seq::<Seq<Seq<char>>>::empty()
    } else {
        all_dirs(cands.drop_last()) + cands.last().1
    }
}

/// The base name and question directories of the selected directory: its own
/// when it has any (named after it, or `imported-base`); else those of the
/// one base it wraps; else those of all the bases it wraps, merged, sorted
/// and without repeats, named after it.
pub open spec fn resolved(selected: DirNode, selected_name: Option<Seq<char>>) -> Result<
    (Seq<char>, Seq<Seq<Seq<char>>>),
    Seq<char>,
> {
    let name = match selected_name {
        Some(n) => n,
        None => IMPORTED_BASE@,
    };
    match discovered(selected) {
        Err(e) => Err(e),
        Ok(direct) => if direct.len() > 0 {
            Ok((name, direct))
        } else {
            match selected.entries {
                Err(e) => Err(e@),
                Ok(es) => match wrapped_bases(visible_children(es@)) {
                    Err(e) => Err(e),
                    Ok(cands) => if cands.len() == 0 {
                        Ok((name, Seq::<Seq<Seq<char>>>::empty()))
                    } else if cands.len() == 1 {
                        Ok(cands[0])
                    } else {
                        Ok((name, sorted_unique(all_dirs(cands))))
                    },
                },
            }
        },
    }
}

/// Once the search of a beginning of `children` fails, the whole search
/// fails with the same error.
proof fn lemma_child_hits_err(children: Seq<DirNode>, k: int)
    requires
        0 <= k <= children.len(),
        child_hits(children.take(k)) is Err,
    ensures
        child_hits(children) == child_hits(children.take(k)),
    decreases children.len() - k,
{
    if k == children.len() {
        assert(children.take(k) =~= children);
    } else {
        assert(children.drop_last().take(k) =~= children.take(k));
        lemma_child_hits_err(children.drop_last(), k);
    }
}

/// Once the search of a beginning of `children` fails, the whole search
/// fails with the same error.
proof fn lemma_wrapped_bases_err(children: Seq<DirNode>, k: int)
    requires
        0 <= k <= children.len(),
        wrapped_bases(children.take(k)) is Err,
    ensures
        wrapped_bases(children) == wrapped_bases(children.take(k)),
    decreases children.len() - k,
{
    if k == children.len() {
        assert(children.take(k) =~= children);
    } else {
        assert(children.drop_last().take(k) =~= children.take(k));
        lemma_wrapped_bases_err(children.drop_last(), k);
    }
}

// ---------------------------------------------------------------------------
// Laws: the directories found are sorted, without repeats
// ---------------------------------------------------------------------------

/// `s` is strictly increasing in the order of paths: sorted, no repeats.
pub open spec fn strictly_sorted(s: Seq<Seq<Seq<char>>>) -> bool {
    forall|i: int, j: int|
        0 <= i < j < s.len() ==> path_le(#[trigger] s[i], #[trigger] s[j]) && s[i] != s[j]
}

/// `s` is sorted in the order of paths.
pub open spec fn paths_sorted(s: Seq<Seq<Seq<char>>>) -> bool {
    forall|i: int, j: int| 0 <= i < j < s.len() ==> path_le(#[trigger] s[i], #[trigger] s[j])
}

/// Byte strings ordered both ways are equal.
proof fn lemma_bytes_le_antisym(a: Seq<u8>, b: Seq<u8>)
    requires
        bytes_le(a, b),
        bytes_le(b, a),
    ensures
        a == b,
    decreases a.len(),
{
    if a.len() > 0 && b.len() > 0 {
        lemma_bytes_le_antisym(a.drop_first(), b.drop_first());
        assert(a =~= seq![a[0]] + a.drop_first());
        assert(b =~= seq![b[0]] + b.drop_first());
    } else {
        assert(a =~= b);
    }
}

/// Names ordered both ways are equal.
proof fn lemma_name_le_antisym(a: Seq<char>, b: Seq<char>)
    requires
        name_le(a, b),
        name_le(b, a),
    ensures
        a == b,
{
    broadcast use vstd::utf8::encode_utf8_decode_utf8;
    lemma_bytes_le_antisym(encode_utf8(a), encode_utf8(b));
    assert(vstd::utf8::decode_utf8(encode_utf8(a)) == a);
    assert(vstd::utf8::decode_utf8(encode_utf8(b)) == b);
}

/// The order of paths is total.
proof fn lemma_path_le_total(a: Seq<Seq<char>>, b: Seq<Seq<char>>)
    ensures
        path_le(a, b) || path_le(b, a),
    decreases a.len(),
{
    if a.len() > 0 && b.len() > 0 {
        if a[0] != b[0] {
            lemma_bytes_le_total(encode_utf8(a[0]), encode_utf8(b[0]));
        } else {
            lemma_path_le_total(a.drop_first(), b.drop_first());
        }
    }
}

/// Paths ordered both ways are equal.
proof fn lemma_path_le_antisym(a: Seq<Seq<char>>, b: Seq<Seq<char>>)
    requires
        path_le(a, b),
        path_le(b, a),
    ensures
        a == b,
    decreases a.len(),
{
    if a.len() > 0 && b.len() > 0 {
        if a[0] != b[0] {
            lemma_name_le_antisym(a[0], b[0]);
        } else {
            lemma_path_le_antisym(a.drop_first(), b.drop_first());
            assert(a =~= seq![a[0]] + a.drop_first());
            assert(b =~= seq![b[0]] + b.drop_first());
        }
    } else {
        assert(a =~= b);
    }
}

/// The order of paths is transitive.
proof fn lemma_path_le_trans(a: Seq<Seq<char>>, b: Seq<Seq<char>>, c: Seq<Seq<char>>)
    requires
        path_le(a, b),
        path_le(b, c),
    ensures
        path_le(a, c),
    decreases a.len(),
{
    if a.len() > 0 && b.len() > 0 && c.len() > 0 {
        if a[0] == b[0] && b[0] == c[0] {
            lemma_path_le_trans(a.drop_first(), b.drop_first(), c.drop_first());
        } else if a[0] != b[0] && b[0] != c[0] {
            lemma_bytes_le_trans(encode_utf8(a[0]), encode_utf8(b[0]), encode_utf8(c[0]));
            if a[0] == c[0] {
                lemma_name_le_antisym(a[0], b[0]);
            }
        }
    }
}

/// Inserting into a sorted sequence keeps it sorted and adds just `p`.
proof fn lemma_insert_path_sorted(s: Seq<Seq<Seq<char>>>, p: Seq<Seq<char>>)
    requires
        paths_sorted(s),
    ensures
        paths_sorted(insert_path(s, p)),
        forall|x: Seq<Seq<char>>| #[trigger] insert_path(s, p).contains(x) <==> s.contains(x) || x == p,
    decreases s.len(),
{
    if s.len() == 0 {
        assert(seq![p][0] == p);
    } else if path_le(s.last(), p) {
        assert forall|i: int, j: int| 0 <= i < j < s.push(p).len() implies path_le(
            #[trigger] s.push(p)[i],
            #[trigger] s.push(p)[j],
        ) by {
            if j == s.len() && i < s.len() - 1 {
                lemma_path_le_trans(s[i], s[s.len() - 1], p);
            }
        }
        assert forall|x: Seq<Seq<char>>| #[trigger] s.push(p).contains(x) <==> s.contains(x) || x == p by {
            if s.push(p).contains(x) {
                let k = choose|k: int| 0 <= k < s.push(p).len() && s.push(p)[k] == x;
                if k < s.len() {
                    assert(s[k] == x);
                }
            }
            if s.contains(x) {
                let k = choose|k: int| 0 <= k < s.len() && s[k] == x;
                assert(s.push(p)[k] == x);
            }
            if x == p {
                assert(s.push(p)[s.len() as int] == x);
            }
        }
    } else {
        let init = s.drop_last();
        let last = s.last();
        assert(paths_sorted(init));
        lemma_insert_path_sorted(init, p);
        let r = insert_path(init, p);
        lemma_path_le_total(last, p);
        assert forall|i: int, j: int| 0 <= i < j < r.push(last).len() implies path_le(
            #[trigger] r.push(last)[i],
            #[trigger] r.push(last)[j],
        ) by {
            if j == r.len() {
                let x = r[i];
                assert(r.contains(x));
                if x != p {
                    assert(init.contains(x));
                    let k = choose|k: int| 0 <= k < init.len() && init[k] == x;
                    assert(s[k] == x);
                    assert(path_le(s[k], s[s.len() - 1]));
                }
            }
        }
        assert forall|x: Seq<Seq<char>>| #[trigger] r.push(last).contains(x) <==> s.contains(x) || x == p by {
            if r.push(last).contains(x) {
                let k = choose|k: int| 0 <= k < r.push(last).len() && r.push(last)[k] == x;
                if k < r.len() {
                    assert(r[k] == x);
                    assert(r.contains(x));
                    if x != p {
                        let m = choose|m: int| 0 <= m < init.len() && init[m] == x;
                        assert(s[m] == x);
                    }
                } else {
                    assert(s[s.len() - 1] == x);
                }
            }
            if s.contains(x) {
                let k = choose|k: int| 0 <= k < s.len() && s[k] == x;
                if k < s.len() - 1 {
                    assert(init[k] == x);
                    assert(init.contains(x));
                    assert(r.contains(x));
                    let m = choose|m: int| 0 <= m < r.len() && r[m] == x;
                    assert(r.push(last)[m] == x);
                } else {
                    assert(r.push(last)[r.len() as int] == x);
                }
            }
            if x == p {
                assert(r.contains(p));
                let m = choose|m: int| 0 <= m < r.len() && r[m] == p;
                assert(r.push(last)[m] == x);
            }
        }
    }
}

/// Sorting gives a sorted sequence of the same paths.
proof fn lemma_sort_paths(s: Seq<Seq<Seq<char>>>)
    ensures
        paths_sorted(sort_paths(s)),
        forall|x: Seq<Seq<char>>| #[trigger] sort_paths(s).contains(x) <==> s.contains(x),
    decreases s.len(),
{
    if s.len() > 0 {
        let init = s.drop_last();
        lemma_sort_paths(init);
        lemma_insert_path_sorted(sort_paths(init), s.last());
        assert forall|x: Seq<Seq<char>>| #[trigger] sort_paths(s).contains(x) <==> s.contains(x) by {
            if s.contains(x) {
                let k = choose|k: int| 0 <= k < s.len() && s[k] == x;
                if k < s.len() - 1 {
                    assert(init[k] == x);
                    assert(init.contains(x));
                }
            }
            if init.contains(x) {
                let k = choose|k: int| 0 <= k < init.len() && init[k] == x;
                assert(s[k] == x);
            }
            if x == s.last() {
                assert(s[s.len() - 1] == x);
            }
        }
    }
}

/// Dropping consecutive repeats of a sorted sequence leaves it strictly
/// sorted, with the same paths.
proof fn lemma_dedup_paths(s: Seq<Seq<Seq<char>>>)
    requires
        paths_sorted(s),
    ensures
        strictly_sorted(dedup_paths(s)),
        forall|x: Seq<Seq<char>>| #[trigger] dedup_paths(s).contains(x) <==> s.contains(x),
    decreases s.len(),
{
    if s.len() > 0 {
        let init = s.drop_last();
        let last = s.last();
        assert(paths_sorted(init));
        lemma_dedup_paths(init);
        let d = dedup_paths(init);
        assert forall|x: Seq<Seq<char>>| d.contains(x) implies path_le(x, last) by {
            assert(init.contains(x));
            let k = choose|k: int| 0 <= k < init.len() && init[k] == x;
            assert(s[k] == x);
        }
        if d.len() > 0 && d.last() == last {
            assert forall|x: Seq<Seq<char>>| #[trigger] d.contains(x) <==> s.contains(x) by {
                if s.contains(x) {
                    let k = choose|k: int| 0 <= k < s.len() && s[k] == x;
                    if k < s.len() - 1 {
                        assert(init[k] == x);
                        assert(init.contains(x));
                    } else {
                        assert(d[d.len() - 1] == x);
                    }
                }
                if init.contains(x) {
                    let k = choose|k: int| 0 <= k < init.len() && init[k] == x;
                    assert(s[k] == x);
                }
            }
        } else {
            assert forall|i: int, j: int| 0 <= i < j < d.push(last).len() implies path_le(
                #[trigger] d.push(last)[i],
                #[trigger] d.push(last)[j],
            ) && d.push(last)[i] != d.push(last)[j] by {
                if j == d.len() {
                    assert(d.contains(d[i]));
                    assert(d.contains(d.last()));
                    if d[i] == last {
                        if i < d.len() - 1 {
                            assert(path_le(d[i], d[d.len() - 1]));
                            assert(path_le(d.last(), last));
                            lemma_path_le_antisym(d.last(), last);
                        }
                    }
                }
            }
            assert forall|x: Seq<Seq<char>>| #[trigger] d.push(last).contains(x) <==> s.contains(x) by {
                if d.push(last).contains(x) {
                    let k = choose|k: int| 0 <= k < d.push(last).len() && d.push(last)[k] == x;
                    if k < d.len() {
                        assert(d[k] == x);
                        assert(d.contains(x));
                        let m = choose|m: int| 0 <= m < init.len() && init[m] == x;
                        assert(s[m] == x);
                    } else {
                        assert(s[s.len() - 1] == x);
                    }
                }
                if s.contains(x) {
                    let k = choose|k: int| 0 <= k < s.len() && s[k] == x;
                    if k < s.len() - 1 {
                        assert(init[k] == x);
                        assert(init.contains(x));
                        assert(d.contains(x));
                        let m = choose|m: int| 0 <= m < d.len() && d[m] == x;
                        assert(d.push(last)[m] == x);
                    } else {
                        assert(d.push(last)[d.len() as int] == x);
                    }
                }
            }
        }
    }
}

/// Sorting and dropping repeats gives a strictly sorted sequence of the same
/// paths.
pub proof fn law_sorted_unique(s: Seq<Seq<Seq<char>>>)
    ensures
        strictly_sorted(sorted_unique(s)),
        forall|x: Seq<Seq<char>>| #[trigger] sorted_unique(s).contains(x) <==> s.contains(x),
{
    lemma_sort_paths(s);
    lemma_dedup_paths(sort_paths(s));
    assert forall|x: Seq<Seq<char>>| #[trigger] sorted_unique(s).contains(x) <==> s.contains(x) by {
        assert(sort_paths(s).contains(x) <==> s.contains(x));
    }
}

/// The question directories found in a directory are sorted, without
/// repeats.
pub proof fn law_discovered_sorted(d: DirNode)
    ensures
        discovered(d) matches Ok(ds) ==> strictly_sorted(ds),
{
    if let Ok(es) = d.entries {
        if let Ok(hits) = child_hits(visible_children(es@)) {
            law_sorted_unique(hits);
        }
    }
}

/// The path `p`, relative to the directory `d`, names a question directory
/// seen in the snapshot: `d` itself holding a `.txt` file, its `baza`
/// holding one, or the same, one visible subdirectory further down.
pub open spec fn question_dir_in(d: DirNode, p: Seq<Seq<char>>) -> bool
    decreases p.len(),
{
    ||| p.len() == 0 && d.has_txt == Ok::<bool, String>(true)
    ||| p == seq![BAZA@] && d.baza == Some(Ok::<bool, String>(true))
    ||| p.len() > 0 && match d.entries {
        Ok(es) => exists|k: int|
            0 <= k < es@.len() && visible(#[trigger] es@[k]) && es@[k].name@ == p[0]
                && question_dir_in(es@[k], p.drop_first()),
        Err(_) => false,
    }
}

/// The visible children are visible entries of `es`.
proof fn lemma_visible_children_in(es: Seq<DirNode>)
    ensures
        forall|i: int|
            0 <= i < visible_children(es).len() ==> visible(#[trigger] visible_children(es)[i])
                && es.contains(visible_children(es)[i]),
    decreases es.len(),
{
    if es.len() > 0 {
        lemma_visible_children_in(es.drop_last());
        let v = visible_children(es.drop_last());
        assert forall|i: int| 0 <= i < visible_children(es).len() implies visible(
            #[trigger] visible_children(es)[i],
        ) && es.contains(visible_children(es)[i]) by {
            if i < v.len() {
                assert(visible_children(es)[i] == v[i]);
                let k = choose|k: int| 0 <= k < es.drop_last().len() && es.drop_last()[k] == v[i];
                assert(es[k] == v[i]);
            } else {
                assert(es[es.len() - 1] == es.last());
            }
        }
    }
}

/// A question directory of a visible child is one of its parent's.
proof fn lemma_question_dir_child(d: DirNode, c: DirNode, p: Seq<Seq<char>>)
    requires
        d.entries matches Ok(es) && es@.contains(c),
        visible(c),
        question_dir_in(c, p),
    ensures
        question_dir_in(d, seq![c.name@] + p),
{
    let q = seq![c.name@] + p;
    assert(q.drop_first() =~= p);
    assert(q[0] == c.name@);
    if let Ok(es) = d.entries {
        let k = choose|k: int| 0 <= k < es@.len() && es@[k] == c;
        assert(visible(es@[k]) && es@[k].name@ == q[0] && question_dir_in(es@[k], q.drop_first()));
    }
}

/// What visible children of `d` contribute are question directories of `d`.
proof fn lemma_child_hits_in(d: DirNode, children: Seq<DirNode>)
    requires
        d.entries matches Ok(es) && forall|j: int|
            0 <= j < children.len() ==> visible(#[trigger] children[j]) && es@.contains(children[j]),
    ensures
        child_hits(children) matches Ok(hits) ==> forall|i: int|
            0 <= i < hits.len() ==> question_dir_in(d, #[trigger] hits[i]),
    decreases children.len(),
{
    if children.len() > 0 {
        let init = children.drop_last();
        assert forall|j: int| 0 <= j < init.len() implies visible(#[trigger] init[j]) && (
        d.entries matches Ok(es) && es@.contains(init[j])) by {
            assert(init[j] == children[j]);
        }
        lemma_child_hits_in(d, init);
        let c = children.last();
        assert(c == children[children.len() - 1]);
        if let Ok(acc) = child_hits(init) {
            if let Ok(Some(p)) = child_hit(c) {
                if c.baza == Some(Ok::<bool, String>(true)) {
                    assert(question_dir_in(c, seq![BAZA@]));
                    lemma_question_dir_child(d, c, seq![BAZA@]);
                    assert(seq![c.name@] + seq![BAZA@] =~= p);
                } else {
                    assert(question_dir_in(c, Seq::<Seq<char>>::empty()));
                    lemma_question_dir_child(d, c, Seq::<Seq<char>>::empty());
                    assert(seq![c.name@] + Seq::<Seq<char>>::empty() =~= p);
                }
                let r = acc.push(p);
                assert forall|i: int| 0 <= i < r.len() implies question_dir_in(d, #[trigger] r[i]) by {
                    if i < acc.len() {
                        assert(r[i] == acc[i]);
                    }
                }
            }
        }
    }
}

/// Every question directory found in a directory holds a `.txt` file (in
/// the snapshot); `baza` alone is found when it holds one, and the directory
/// itself alone when it holds one and its `baza` does not.
pub proof fn law_discovered_question_dirs(d: DirNode)
    ensures
        discovered(d) matches Ok(ds) ==> forall|i: int|
            0 <= i < ds.len() ==> question_dir_in(d, #[trigger] ds[i]),
        d.baza == Some(Ok::<bool, String>(true)) ==> discovered(d) == Ok::<
            Seq<Seq<Seq<char>>>,
            Seq<char>,
        >(seq![seq![BAZA@]]),
        !(d.baza matches Some(Err(_))) && d.baza != Some(Ok::<bool, String>(true)) && d.has_txt
            == Ok::<bool, String>(true) ==> discovered(d) == Ok::<Seq<Seq<Seq<char>>>, Seq<char>>(
            seq![Seq::<Seq<char>>::empty()],
        ),
{
    if let Ok(ds) = discovered(d) {
        if d.baza == Some(Ok::<bool, String>(true)) {
            assert(question_dir_in(d, seq![BAZA@]));
        } else if d.has_txt == Ok::<bool, String>(true) {
            assert(question_dir_in(d, Seq::<Seq<char>>::empty()));
        } else if let Ok(es) = d.entries {
            lemma_visible_children_in(es@);
            let vc = visible_children(es@);
            assert forall|j: int| 0 <= j < vc.len() implies visible(#[trigger] vc[j])
                && es@.contains(vc[j]) by {}
            lemma_child_hits_in(d, vc);
            if let Ok(hits) = child_hits(vc) {
                law_sorted_unique(hits);
                assert forall|i: int| 0 <= i < ds.len() implies question_dir_in(d, #[trigger] ds[i]) by {
                    assert(sorted_unique(hits).contains(ds[i]));
                    let k = choose|k: int| 0 <= k < hits.len() && hits[k] == ds[i];
                    assert(question_dir_in(d, hits[k]));
                }
            }
        }
    }
}

/// The entries read for `d` (none when reading failed).
pub open spec fn entries_of(d: DirNode) -> Seq<DirNode> {
    match d.entries {
        Ok(es) => es@,
        Err(_) => Seq::<DirNode>::empty(),
    }
}

/// A visible entry is among the visible children.
proof fn lemma_visible_child_listed(es: Seq<DirNode>, k: int)
    requires
        0 <= k < es.len(),
        visible(es[k]),
    ensures
        visible_children(es).contains(es[k]),
    decreases es.len(),
{
    if k == es.len() - 1 {
        assert(visible_children(es).last() == es[k]);
        assert(visible_children(es)[visible_children(es).len() - 1] == es[k]);
    } else {
        lemma_visible_child_listed(es.drop_last(), k);
        assert(es.drop_last()[k] == es[k]);
        let v = visible_children(es.drop_last());
        let j = choose|j: int| 0 <= j < v.len() && v[j] == es[k];
        if visible(es.last()) {
            assert(visible_children(es)[j] == v[j]);
        }
    }
}

/// Where nothing fails to be read, every child contributes: its `baza` when
/// that holds a `.txt` file (whether or not the child itself holds one),
/// else the child itself when it holds one.
proof fn lemma_child_hits_all(children: Seq<DirNode>)
    requires
        forall|j: int|
            0 <= j < children.len() ==> !((#[trigger] children[j]).baza matches Some(Err(_)))
                && children[j].has_txt is Ok,
    ensures
        child_hits(children) is Ok,
        forall|j: int|
            0 <= j < children.len() && (#[trigger] children[j]).baza == Some(Ok::<bool, String>(true))
                ==> child_hits(children)->Ok_0.contains(seq![children[j].name@, BAZA@]),
        forall|j: int|
            0 <= j < children.len() && (#[trigger] children[j]).baza != Some(Ok::<bool, String>(true))
                && children[j].has_txt == Ok::<bool, String>(true) ==> child_hits(children)->Ok_0.contains(
                seq![children[j].name@],
            ),
    decreases children.len(),
{
    if children.len() > 0 {
        let init = children.drop_last();
        assert forall|j: int| 0 <= j < init.len() implies !((#[trigger] init[j]).baza matches Some(Err(_)))
            && init[j].has_txt is Ok by {
            assert(init[j] == children[j]);
        }
        lemma_child_hits_all(init);
        let acc = child_hits(init)->Ok_0;
        let c = children.last();
        assert(c == children[children.len() - 1]);
        let r = child_hits(children)->Ok_0;
        assert forall|p: Seq<Seq<char>>| acc.contains(p) implies r.contains(p) by {
            let i = choose|i: int| 0 <= i < acc.len() && acc[i] == p;
            if let Ok(Some(q)) = child_hit(c) {
                assert(r == acc.push(q));
                assert(r[i] == p);
            }
        }
        assert forall|j: int|
            0 <= j < children.len() && (#[trigger] children[j]).baza == Some(Ok::<bool, String>(true))
                implies r.contains(seq![children[j].name@, BAZA@]) by {
            if j < init.len() {
                assert(init[j] == children[j]);
            } else {
                assert(r == acc.push(seq![c.name@, BAZA@]));
                assert(r[acc.len() as int] == seq![c.name@, BAZA@]);
            }
        }
        assert forall|j: int|
            0 <= j < children.len() && (#[trigger] children[j]).baza != Some(Ok::<bool, String>(true))
                && children[j].has_txt == Ok::<bool, String>(true) implies r.contains(
            seq![children[j].name@],
        ) by {
            if j < init.len() {
                assert(init[j] == children[j]);
            } else {
                assert(r == acc.push(seq![c.name@]));
                assert(r[acc.len() as int] == seq![c.name@]);
            }
        }
    }
}

/// When a directory neither has a `baza` with questions nor holds `.txt`
/// files itself, and no visible subdirectory fails to be read, the question
/// directories found are those of its visible subdirectories, `baza` first:
/// a subdirectory whose `baza` holds a `.txt` file gives `[name, "baza"]`
/// whether or not it holds `.txt` files itself; one whose `baza` does not but
/// which holds `.txt` files gives `[name]`.
pub proof fn law_child_question_dirs(d: DirNode, k: int)
    requires
        d.baza is None || d.baza == Some(Ok::<bool, String>(false)),
        d.has_txt == Ok::<bool, String>(false),
        d.entries is Ok,
        0 <= k < entries_of(d).len(),
        visible(entries_of(d)[k]),
        forall|j: int|
            0 <= j < entries_of(d).len() && visible(#[trigger] entries_of(d)[j]) ==> !(
            entries_of(d)[j].baza matches Some(Err(_))) && entries_of(d)[j].has_txt is Ok,
    ensures
        discovered(d) is Ok,
        entries_of(d)[k].baza == Some(Ok::<bool, String>(true)) ==> discovered(d)->Ok_0.contains(
            seq![entries_of(d)[k].name@, BAZA@],
        ),
        entries_of(d)[k].baza != Some(Ok::<bool, String>(true)) && entries_of(d)[k].has_txt == Ok::<
            bool,
            String,
        >(true) ==> discovered(d)->Ok_0.contains(seq![entries_of(d)[k].name@]),
{
    let es = entries_of(d);
    let c = es[k];
    lemma_visible_children_in(es);
    let vc = visible_children(es);
    assert forall|j: int| 0 <= j < vc.len() implies !((#[trigger] vc[j]).baza matches Some(Err(_)))
        && vc[j].has_txt is Ok by {
        let i = choose|i: int| 0 <= i < es.len() && es[i] == vc[j];
        assert(visible(es[i]));
    }
    lemma_child_hits_all(vc);
    lemma_visible_child_listed(es, k);
    let j = choose|j: int| 0 <= j < vc.len() && vc[j] == c;
    let hits = child_hits(vc)->Ok_0;
    law_sorted_unique(hits);
    if c.baza == Some(Ok::<bool, String>(true)) {
        assert(vc[j].baza == Some(Ok::<bool, String>(true)));
        assert(hits.contains(seq![c.name@, BAZA@]));
        assert(sorted_unique(hits).contains(seq![c.name@, BAZA@]));
    } else if c.has_txt == Ok::<bool, String>(true) {
        assert(vc[j].baza != Some(Ok::<bool, String>(true)) && vc[j].has_txt == Ok::<bool, String>(true));
        assert(hits.contains(seq![c.name@]));
        assert(sorted_unique(hits).contains(seq![c.name@]));
    }
}

/// Every path of `ds` names a question directory of `d`.
pub open spec fn question_dirs_in(d: DirNode, ds: Seq<Seq<Seq<char>>>) -> bool {
    forall|j: int| 0 <= j < ds.len() ==> question_dir_in(d, #[trigger] ds[j])
}

/// The bases wrapped in visible children of `d` have question directories
/// of `d`.
proof fn lemma_wrapped_in(d: DirNode, children: Seq<DirNode>)
    requires
        d.entries matches Ok(es) && forall|j: int|
            0 <= j < children.len() ==> visible(#[trigger] children[j]) && es@.contains(children[j]),
    ensures
        wrapped_bases(children) matches Ok(cands) ==> forall|i: int|
            0 <= i < cands.len() ==> question_dirs_in(d, #[trigger] cands[i].1),
    decreases children.len(),
{
    if children.len() > 0 {
        let init = children.drop_last();
        assert forall|j: int| 0 <= j < init.len() implies visible(#[trigger] init[j]) && (
        d.entries matches Ok(es) && es@.contains(init[j])) by {
            assert(init[j] == children[j]);
        }
        lemma_wrapped_in(d, init);
        let c = children.last();
        assert(c == children[children.len() - 1]);
        if let Ok(acc) = wrapped_bases(init) {
            if let Ok(ds) = discovered(c) {
                if ds.len() > 0 {
                    law_discovered_question_dirs(c);
                    let u = under(c.name@, ds);
                    assert forall|j: int| 0 <= j < u.len() implies question_dir_in(d, #[trigger] u[j]) by {
                        assert(question_dir_in(c, ds[j]));
                        lemma_question_dir_child(d, c, ds[j]);
                    }
                    let r = acc.push((candidate_name(c), u));
                    assert forall|i: int| 0 <= i < r.len() implies question_dirs_in(d, #[trigger] r[i].1) by {
                        if i < acc.len() {
                            assert(r[i] == acc[i]);
                        }
                    }
                }
            }
        }
    }
}

/// Merging the directories of bases keeps them question directories of `d`.
proof fn lemma_all_dirs_in(d: DirNode, cands: Seq<(Seq<char>, Seq<Seq<Seq<char>>>)>)
    requires
        forall|i: int| 0 <= i < cands.len() ==> question_dirs_in(d, #[trigger] cands[i].1),
    ensures
        question_dirs_in(d, all_dirs(cands)),
    decreases cands.len(),
{
    if cands.len() > 0 {
        let init = cands.drop_last();
        assert forall|i: int| 0 <= i < init.len() implies question_dirs_in(d, #[trigger] init[i].1) by {
            assert(init[i] == cands[i]);
        }
        lemma_all_dirs_in(d, init);
        let a = all_dirs(init);
        let l = cands.last().1;
        assert(question_dirs_in(d, l)) by {
            assert(cands[cands.len() - 1] == cands.last());
        }
        assert forall|j: int| 0 <= j < (a + l).len() implies question_dir_in(d, #[trigger] (a + l)[j]) by {
            if j < a.len() {
                assert((a + l)[j] == a[j]);
            } else {
                assert((a + l)[j] == l[j - a.len()]);
            }
        }
    }
}

/// Every question directory found for a selected directory holds a `.txt`
/// file (in the snapshot).
pub proof fn law_resolved_question_dirs(selected: DirNode, selected_name: Option<Seq<char>>)
    ensures
        resolved(selected, selected_name) matches Ok((_, ds)) ==> question_dirs_in(selected, ds),
{
    law_discovered_question_dirs(selected);
    if let Ok(es) = selected.entries {
        lemma_visible_children_in(es@);
        let vc = visible_children(es@);
        assert forall|j: int| 0 <= j < vc.len() implies visible(#[trigger] vc[j]) && es@.contains(
            vc[j],
        ) by {}
        lemma_wrapped_in(selected, vc);
        if let Ok(cands) = wrapped_bases(vc) {
            if cands.len() == 1 {
                assert(question_dirs_in(selected, cands[0].1));
            }
            if cands.len() > 1 {
                lemma_all_dirs_in(selected, cands);
                let all = all_dirs(cands);
                law_sorted_unique(all);
                assert forall|j: int| 0 <= j < sorted_unique(all).len() implies question_dir_in(
                    selected,
                    #[trigger] sorted_unique(all)[j],
                ) by {
                    assert(sorted_unique(all).contains(sorted_unique(all)[j]));
                    let k = choose|k: int| 0 <= k < all.len() && all[k] == sorted_unique(all)[j];
                    assert(question_dir_in(selected, all[k]));
                }
            }
        }
    }
}

/// Putting the same name in front keeps paths strictly sorted.
proof fn lemma_under_sorted(name: Seq<char>, ds: Seq<Seq<Seq<char>>>)
    requires
        strictly_sorted(ds),
    ensures
        strictly_sorted(under(name, ds)),
{
    let u = under(name, ds);
    assert forall|i: int, j: int| 0 <= i < j < u.len() implies path_le(#[trigger] u[i], #[trigger] u[j])
        && u[i] != u[j] by {
        assert(u[i].drop_first() =~= ds[i]);
        assert(u[j].drop_first() =~= ds[j]);
        assert(u[i][0] == name);
        assert(u[j][0] == name);
    }
}

/// The question directories of a selected directory are sorted, without
/// repeats.
pub proof fn law_resolved_sorted(selected: DirNode, selected_name: Option<Seq<char>>)
    ensures
        resolved(selected, selected_name) matches Ok((_, ds)) ==> strictly_sorted(ds),
{
    law_discovered_sorted(selected);
    if let Ok(es) = selected.entries {
        lemma_wrapped_sorted(visible_children(es@));
        if let Ok(cands) = wrapped_bases(visible_children(es@)) {
            if cands.len() > 1 {
                law_sorted_unique(all_dirs(cands));
            }
        }
    }
}

/// Each wrapped base's directories are sorted, without repeats.
proof fn lemma_wrapped_sorted(children: Seq<DirNode>)
    ensures
        wrapped_bases(children) matches Ok(cands) ==> forall|i: int|
            0 <= i < cands.len() ==> strictly_sorted(#[trigger] cands[i].1),
    decreases children.len(),
{
    if children.len() > 0 {
        lemma_wrapped_sorted(children.drop_last());
        let c = children.last();
        law_discovered_sorted(c);
        if let Ok(ds) = discovered(c) {
            lemma_under_sorted(c.name@, ds);
        }
    }
}

// ---------------------------------------------------------------------------
// Executable
// ---------------------------------------------------------------------------

/// The mathematical form of a result carrying paths.
pub open spec fn paths_result(r: Result<Vec<Vec<String>>, String>) -> Result<
    Seq<Seq<Seq<char>>>,
    Seq<char>,
> {
    match r {
        Ok(v) => Ok(v.deep_view()),
        Err(e) => Err(e@),
    }
}

/// Whether `a` holds the same strings as `b`.
fn same_path(a: &Vec<String>, b: &Vec<String>) -> (r: bool)
    ensures
        r == (a.deep_view() == b.deep_view()),
{
    if a.len() != b.len() {
        assert(a.deep_view().len() != b.deep_view().len());
        return false;
    }
    let mut i: usize = 0;
    while i < a.len()
        invariant
            a.len() == b.len(),
            i <= a.len(),
            forall|j: int| 0 <= j < i ==> a.deep_view()[j] == b.deep_view()[j],
        decreases a.len() - i,
    {
        if a[i] != b[i] {
            assert(a.deep_view()[i as int] != b.deep_view()[i as int]);
            return false;
        }
        i = i + 1;
    }
    assert(a.deep_view() =~= b.deep_view());
    true
}

/// Whether path `a` comes no later than path `b`.
fn paths_le(a: &Vec<String>, b: &Vec<String>) -> (r: bool)
    ensures
        r == path_le(a.deep_view(), b.deep_view()),
{
    let ghost av = a.deep_view();
    let ghost bv = b.deep_view();
    let mut i: usize = 0;
    assert(av.skip(0) =~= av);
    assert(bv.skip(0) =~= bv);
    while i < a.len() && i < b.len() && a[i] == b[i]
        invariant
            i <= a.len(),
            i <= b.len(),
            av == a.deep_view(),
            bv == b.deep_view(),
            path_le(av, bv) == path_le(av.skip(i as int), bv.skip(i as int)),
        decreases a.len() - i,
    {
        assert(av.skip(i as int).drop_first() =~= av.skip(i + 1));
        assert(bv.skip(i as int).drop_first() =~= bv.skip(i + 1));
        i = i + 1;
    }
    if i == a.len() {
        true
    } else if i == b.len() {
        false
    } else {
        assert(av.skip(i as int)[0] == av[i as int]);
        assert(bv.skip(i as int)[0] == bv[i as int]);
        names_le(&a[i], &b[i])
    }
}

proof fn lemma_insert_path_at(s: Seq<Seq<Seq<char>>>, p: Seq<Seq<char>>, j: int)
    requires
        0 <= j <= s.len(),
        forall|k: int| j <= k < s.len() ==> !path_le(#[trigger] s[k], p),
        j == 0 || path_le(s[j - 1], p),
    ensures
        insert_path(s, p) == s.take(j).push(p) + s.skip(j),
    decreases s.len() - j,
{
    if j == s.len() {
        assert(s.take(j) =~= s);
        assert(s.take(j).push(p) + s.skip(j) =~= s.push(p));
        if s.len() == 0 {
            assert(s.push(p) =~= seq![p]);
        }
    } else {
        lemma_insert_path_at(s.drop_last(), p, j);
        assert(s.drop_last().take(j) =~= s.take(j));
        assert((s.take(j).push(p) + s.drop_last().skip(j)).push(s.last()) =~= s.take(j).push(p)
            + s.skip(j));
    }
}

/// The paths of `paths`, sorted and without repeats.
fn sort_unique(paths: Vec<Vec<String>>) -> (r: Vec<Vec<String>>)
    ensures
        r.deep_view() == sorted_unique(paths.deep_view()),
{
    let mut rest = paths;
    let ghost w = rest.deep_view();
    let m = rest.len();
    let mut sorted: Vec<Vec<String>> = Vec::new();
    let mut i: usize = 0;
    assert(w.take(0) =~= Seq::<Seq<Seq<char>>>::empty());
    assert(w.skip(0) =~= w);
    while i < m
        invariant
            i <= m,
            rest.len() == m - i,
            w.len() == m,
            rest.deep_view() == w.skip(i as int),
            sorted.deep_view() == sort_paths(w.take(i as int)),
        decreases m - i,
    {
        let ghost before = rest;
        let p = rest.remove(0);
        proof {
            assert(p.deep_view() == before.deep_view()[0]);
            assert forall|k: int| 0 <= k < rest.len() implies #[trigger] rest.deep_view()[k]
                == w.skip(i + 1)[k] by {
                assert(rest@[k] == before@[k + 1]);
                assert(before.deep_view()[k + 1] == w.skip(i as int)[k + 1]);
            }
            assert(rest.deep_view() =~= w.skip(i + 1));
            assert(w.take(i + 1).drop_last() =~= w.take(i as int));
        }
        let ghost s = sorted.deep_view();
        let ghost pv = p.deep_view();
        let mut j: usize = sorted.len();
        while j > 0 && !paths_le(&sorted[j - 1], &p)
            invariant
                j <= sorted.len(),
                s == sorted.deep_view(),
                pv == p.deep_view(),
                forall|k: int| j <= k < s.len() ==> !path_le(#[trigger] s[k], pv),
            decreases j,
        {
            j = j - 1;
        }
        proof {
            lemma_insert_path_at(s, pv, j as int);
        }
        sorted.insert(j, p);
        assert(sorted.deep_view() =~= s.take(j as int).push(pv) + s.skip(j as int));
        i = i + 1;
    }
    assert(w.take(m as int) =~= w);
    let ghost sv = sorted.deep_view();
    let mut out: Vec<Vec<String>> = Vec::new();
    let n = sorted.len();
    let mut k: usize = 0;
    assert(sv.take(0) =~= Seq::<Seq<Seq<char>>>::empty());
    assert(sv.skip(0) =~= sv);
    while k < n
        invariant
            k <= n,
            sorted.len() == n - k,
            sv.len() == n,
            sorted.deep_view() == sv.skip(k as int),
            out.deep_view() == dedup_paths(sv.take(k as int)),
        decreases n - k,
    {
        let ghost before = sorted;
        let p = sorted.remove(0);
        proof {
            assert(p.deep_view() == before.deep_view()[0]);
            assert forall|q: int| 0 <= q < sorted.len() implies #[trigger] sorted.deep_view()[q]
                == sv.skip(k + 1)[q] by {
                assert(sorted@[q] == before@[q + 1]);
                assert(before.deep_view()[q + 1] == sv.skip(k as int)[q + 1]);
            }
            assert(sorted.deep_view() =~= sv.skip(k + 1));
            assert(sv.take(k + 1).drop_last() =~= sv.take(k as int));
            assert(sv.take(k + 1).last() == p.deep_view());
        }
        let repeat = out.len() > 0 && same_path(&out[out.len() - 1], &p);
        if !repeat {
            let ghost ov = out.deep_view();
            out.push(p);
            assert(out.deep_view() =~= ov.push(sv[k as int]));
        }
        k = k + 1;
    }
    assert(sv.take(n as int) =~= sv);
    out
}

/// The visible directories among `entries`.
fn visible_dirs(entries: &Vec<DirNode>) -> (r: Vec<usize>)
    ensures
        r@.len() == visible_children(entries@).len(),
        forall|i: int|
            0 <= i < r@.len() ==> #[trigger] r@[i] < entries@.len() && entries@[r@[i] as int]
                == visible_children(entries@)[i],
{
    let mut r: Vec<usize> = Vec::new();
    let mut i: usize = 0;
    assert(entries@.take(0) =~= Seq::<DirNode>::empty());
    while i < entries.len()
        invariant
            i <= entries.len(),
            r@.len() == visible_children(entries@.take(i as int)).len(),
            forall|k: int|
                0 <= k < r@.len() ==> #[trigger] r@[k] < i && entries@[r@[k] as int]
                    == visible_children(entries@.take(i as int))[k],
        decreases entries.len() - i,
    {
        let ghost prev = entries@.take(i as int);
        assert(entries@.take(i + 1).drop_last() =~= prev);
        assert(entries@.take(i + 1).last() == entries@[i as int]);
        let e = &entries[i];
        let cs = chars_of(e.name.as_str());
        let hidden = cs.len() > 0 && cs[0] == '.';
        if e.is_dir && !hidden {
            r.push(i);
        }
        i = i + 1;
    }
    assert(entries@.take(entries.len() as int) =~= entries@);
    r
}

/// A copy of `s`.
fn copy_string(s: &String) -> (r: String)
    ensures
        r@ == s@,
{
    s.clone()
}

/// What the child directory `n` contributes.
fn child_dir_hit(n: &DirNode) -> (r: Result<Option<Vec<String>>, String>)
    ensures
        match (r, child_hit(*n)) {
            (Err(e), Err(f)) => e@ == f,
            (Ok(None), Ok(None)) => true,
            (Ok(Some(p)), Ok(Some(q))) => p.deep_view() == q,
            _ => false,
        },
{
    match &n.baza {
        Some(Err(e)) => return Err(copy_string(e)),
        Some(Ok(true)) => {
            let p = vec![copy_string(&n.name), BAZA.to_owned()];
            assert(p.deep_view() =~= seq![n.name@, BAZA@]);
            return Ok(Some(p));
        },
        _ => {},
    }
    match &n.has_txt {
        Err(e) => Err(copy_string(e)),
        Ok(true) => {
            let p = vec![copy_string(&n.name)];
            assert(p.deep_view() =~= seq![n.name@]);
            Ok(Some(p))
        },
        Ok(false) => Ok(None),
    }
}

/// The question directories of `dir`, relative to it, found on a snapshot
/// of the directory tree.
pub fn discover_old_base_question_dirs(dir: &DirNode) -> (r: Result<Vec<Vec<String>>, String>)
    ensures
        paths_result(r) == discovered(*dir),
        r matches Ok(ds) ==> strictly_sorted(ds.deep_view()),
{
    proof {
        law_discovered_sorted(*dir);
    }
    match &dir.baza {
        Some(Err(e)) => return Err(copy_string(e)),
        Some(Ok(true)) => {
            let p = vec![BAZA.to_owned()];
            assert(p.deep_view() =~= seq![BAZA@]);
            let ps = vec![p];
            assert(ps.deep_view() =~= seq![seq![BAZA@]]);
            return Ok(ps);
        },
        _ => {},
    }
    match &dir.has_txt {
        Err(e) => return Err(copy_string(e)),
        Ok(true) => {
            let p: Vec<String> = Vec::new();
            assert(p.deep_view() =~= Seq::<Seq<char>>::empty());
            let ps = vec![p];
            assert(ps.deep_view() =~= seq![Seq::<Seq<char>>::empty()]);
            return Ok(ps);
        },
        Ok(false) => {},
    }
    let entries = match &dir.entries {
        Err(e) => return Err(copy_string(e)),
        Ok(es) => es,
    };
    let idx = visible_dirs(entries);
    let ghost vis = visible_children(entries@);
    let mut hits: Vec<Vec<String>> = Vec::new();
    let mut i: usize = 0;
    assert(vis.take(0) =~= Seq::<DirNode>::empty());
    assert(hits.deep_view() =~= Seq::<Seq<Seq<char>>>::empty());
    assert(dir.baza matches Some(Ok(false)) || dir.baza is None);
    assert(dir.has_txt == Ok::<bool, String>(false));
    assert(dir.entries == Ok::<Vec<DirNode>, String>(*entries));
    while i < idx.len()
        invariant
            i <= idx.len(),
            idx@.len() == vis.len(),
            vis == visible_children(entries@),
            forall|k: int|
                0 <= k < idx@.len() ==> #[trigger] idx@[k] < entries@.len() && entries@[idx@[k] as int]
                    == vis[k],
            child_hits(vis.take(i as int)) == Ok::<Seq<Seq<Seq<char>>>, Seq<char>>(hits.deep_view()),
            discovered(*dir) == match child_hits(vis) {
                Err(e) => Err(e),
                Ok(h) => Ok(sorted_unique(h)),
            },
        decreases idx.len() - i,
    {
        assert(vis.take(i + 1).drop_last() =~= vis.take(i as int));
        assert(vis.take(i + 1).last() == vis[i as int]);
        let child = &entries[idx[i]];
        assert(*child == vis[i as int]);
        match child_dir_hit(child) {
            Err(e) => {
                proof {
                    assert(child_hits(vis.take(i + 1)) == Err::<Seq<Seq<Seq<char>>>, Seq<char>>(e@));
                    lemma_child_hits_err(vis, i + 1);
                }
                return Err(e);
            },
            Ok(None) => {},
            Ok(Some(p)) => {
                let ghost hv = hits.deep_view();
                hits.push(p);
                assert(hits.deep_view() =~= hv.push(p.deep_view()));
            },
        }
        i = i + 1;
    }
    assert(vis.take(idx.len() as int) =~= vis);
    Ok(sort_unique(hits))
}

/// The mathematical form of a resolved base.
pub open spec fn resolved_result(r: Result<(String, Vec<Vec<String>>), String>) -> Result<
    (Seq<char>, Seq<Seq<Seq<char>>>),
    Seq<char>,
> {
    match r {
        Ok((n, d)) => Ok((n@, d.deep_view())),
        Err(e) => Err(e@),
    }
}

/// Every path of `ds` with `name` put in front.
fn put_under(name: &String, ds: Vec<Vec<String>>) -> (r: Vec<Vec<String>>)
    ensures
        r.deep_view() == under(name@, ds.deep_view()),
{
    let mut r: Vec<Vec<String>> = Vec::new();
    let mut i: usize = 0;
    while i < ds.len()
        invariant
            i <= ds.len(),
            r.deep_view() =~= under(name@, ds.deep_view()).take(i as int),
        decreases ds.len() - i,
    {
        let mut p: Vec<String> = vec![name.clone()];
        let mut j: usize = 0;
        while j < ds[i].len()
            invariant
                i < ds.len(),
                j <= ds[i as int].len(),
                p.deep_view() =~= seq![name@] + ds[i as int].deep_view().take(j as int),
            decreases ds[i as int].len() - j,
        {
            let ghost pv = p.deep_view();
            p.push(ds[i][j].clone());
            assert(p.deep_view() =~= pv.push(ds[i as int].deep_view()[j as int]));
            assert(ds[i as int].deep_view().take(j + 1) =~= ds[i as int].deep_view().take(j as int).push(ds[i as int].deep_view()[j as int]));
            j = j + 1;
        }
        assert(ds[i as int].deep_view().take(ds[i as int].len() as int) =~= ds[i as int].deep_view());
        let ghost rv = r.deep_view();
        r.push(p);
        assert(r.deep_view() =~= rv.push(p.deep_view()));
        i = i + 1;
    }
    r
}

/// The directories of all the wrapped bases, in order.
fn merge_dirs(cands: Vec<(String, Vec<Vec<String>>)>) -> (r: Vec<Vec<String>>)
    ensures
        r.deep_view() == all_dirs(cands.deep_view()),
{
    let ghost cv = cands.deep_view();
    let mut r: Vec<Vec<String>> = Vec::new();
    let mut rest = cands;
    let n = rest.len();
    let mut i: usize = 0;
    assert(cv.take(0) =~= Seq::<(Seq<char>, Seq<Seq<Seq<char>>>)>::empty());
    assert(cv.skip(0) =~= cv);
    while i < n
        invariant
            i <= n,
            rest.len() == n - i,
            cv.len() == n,
            rest.deep_view() == cv.skip(i as int),
            r.deep_view() == all_dirs(cv.take(i as int)),
        decreases n - i,
    {
        let ghost before = rest;
        let (_, mut dirs) = rest.remove(0);
        proof {
            assert(dirs.deep_view() == before.deep_view()[0].1);
            assert forall|k: int| 0 <= k < rest.len() implies #[trigger] rest.deep_view()[k]
                == cv.skip(i + 1)[k] by {
                assert(rest@[k] == before@[k + 1]);
                assert(before.deep_view()[k + 1] == cv.skip(i as int)[k + 1]);
            }
            assert(rest.deep_view() =~= cv.skip(i + 1));
            assert(cv.take(i + 1).drop_last() =~= cv.take(i as int));
            assert(cv.take(i + 1).last() == cv[i as int]);
        }
        let ghost r0 = r.deep_view();
        let ghost d0 = dirs.deep_view();
        let m = dirs.len();
        let mut j: usize = 0;
        assert(d0.skip(0) =~= d0);
        while j < m
            invariant
                j <= m,
                dirs.len() == m - j,
                d0.len() == m,
                dirs.deep_view() == d0.skip(j as int),
                r.deep_view() == r0 + d0.take(j as int),
            decreases m - j,
        {
            let ghost bd = dirs;
            let p = dirs.remove(0);
            proof {
                assert(p.deep_view() == bd.deep_view()[0]);
                assert forall|k: int| 0 <= k < dirs.len() implies #[trigger] dirs.deep_view()[k]
                    == d0.skip(j + 1)[k] by {
                    assert(dirs@[k] == bd@[k + 1]);
                    assert(bd.deep_view()[k + 1] == d0.skip(j as int)[k + 1]);
                }
                assert(dirs.deep_view() =~= d0.skip(j + 1));
            }
            let ghost rv = r.deep_view();
            r.push(p);
            assert(r.deep_view() =~= rv.push(p.deep_view()));
            assert(r0 + d0.take(j + 1) =~= (r0 + d0.take(j as int)).push(d0[j as int]));
            j = j + 1;
        }
        assert(d0.take(m as int) =~= d0);
        i = i + 1;
    }
    assert(cv.take(n as int) =~= cv);
    r
}

/// The base name and question directories of the selected directory, found
/// on a snapshot of its tree:
/// `selected_name` is the selected directory's file name when it has one that
/// is valid UTF-8.
pub fn resolve_old_base_sources(selected: &DirNode, selected_name: Option<&str>) -> (r: Result<
    (String, Vec<Vec<String>>),
    String,
>)
    ensures
        resolved_result(r) == resolved(*selected, selected_name.deep_view()),
        r matches Ok((_, ds)) ==> strictly_sorted(ds.deep_view()),
{
    proof {
        law_resolved_sorted(*selected, selected_name.deep_view());
    }
    let name = match selected_name {
        Some(n) => n.to_owned(),
        None => IMPORTED_BASE.to_owned(),
    };
    let direct = match discover_old_base_question_dirs(selected) {
        Err(e) => return Err(e),
        Ok(d) => d,
    };
    if direct.len() > 0 {
        return Ok((name, direct));
    }
    let entries = match &selected.entries {
        Err(e) => return Err(copy_string(e)),
        Ok(es) => es,
    };
    let idx = visible_dirs(entries);
    let ghost vis = visible_children(entries@);
    let ghost goal = resolved(*selected, selected_name.deep_view());
    let mut cands: Vec<(String, Vec<Vec<String>>)> = Vec::new();
    let mut i: usize = 0;
    assert(vis.take(0) =~= Seq::<DirNode>::empty());
    assert(cands.deep_view() =~= Seq::<(Seq<char>, Seq<Seq<Seq<char>>>)>::empty());
    while i < idx.len()
        invariant
            i <= idx.len(),
            idx@.len() == vis.len(),
            vis == visible_children(entries@),
            forall|k: int|
                0 <= k < idx@.len() ==> #[trigger] idx@[k] < entries@.len() && entries@[idx@[k] as int]
                    == vis[k],
            wrapped_bases(vis.take(i as int)) == Ok::<
                Seq<(Seq<char>, Seq<Seq<Seq<char>>>)>,
                Seq<char>,
            >(cands.deep_view()),
            goal == resolved(*selected, selected_name.deep_view()),
            goal == match wrapped_bases(vis) {
                Err(e) => Err(e),
                Ok(cs) => if cs.len() == 0 {
                    Ok((name@, Seq::<Seq<Seq<char>>>::empty()))
                } else if cs.len() == 1 {
                    Ok(cs[0])
                } else {
                    Ok((name@, sorted_unique(all_dirs(cs))))
                },
            },
        decreases idx.len() - i,
    {
        assert(vis.take(i + 1).drop_last() =~= vis.take(i as int));
        assert(vis.take(i + 1).last() == vis[i as int]);
        let child = &entries[idx[i]];
        assert(*child == vis[i as int]);
        match discover_old_base_question_dirs(child) {
            Err(e) => {
                proof {
                    assert(wrapped_bases(vis.take(i + 1)) == Err::<
                        Seq<(Seq<char>, Seq<Seq<Seq<char>>>)>,
                        Seq<char>,
                    >(e@));
                    lemma_wrapped_bases_err(vis, i + 1);
                }
                return Err(e);
            },
            Ok(ds) => {
                if ds.len() > 0 {
                    let cname = if child.name_is_utf8 {
                        copy_string(&child.name)
                    } else {
                        IMPORTED_BASE.to_owned()
                    };
                    let under_child = put_under(&child.name, ds);
                    let ghost cvw = cands.deep_view();
                    let ghost item = (cname@, under_child.deep_view());
                    cands.push((cname, under_child));
                    assert(cands.deep_view() =~= cvw.push(item));
                }
            },
        }
        i = i + 1;
    }
    assert(vis.take(idx.len() as int) =~= vis);
    if cands.len() == 0 {
        let none: Vec<Vec<String>> = Vec::new();
        assert(none.deep_view() =~= Seq::<Seq<Seq<char>>>::empty());
        Ok((name, none))
    } else if cands.len() == 1 {
        let ghost cv = cands.deep_view();
        let only = cands.pop();
        match only {
            Some(c) => {
                assert(c.deep_view() == cv[0]);
                Ok(c)
            },
            None => Ok((name, Vec::new())),
        }
    } else {
        let merged = merge_dirs(cands);
        Ok((name, sort_unique(merged)))
    }
}

/// Name given to a source directory that has no usable file name.
pub const SOURCE: &'static str = "source";

/// The extension `ext` (when there is one) is `extension`, up to ASCII case.
pub open spec fn extension_matches(ext: Option<Seq<char>>, extension: Seq<char>) -> bool {
    match ext {
        Some(e) => eq_ignore_ascii_case(e, extension),
        None => false,
    }
}

/// Whether the extension `ext` is `extension`, up to ASCII case.
pub fn extension_is(ext: Option<&str>, extension: &str) -> (r: bool)
    ensures
        r == extension_matches(ext.deep_view(), extension@),
{
    match ext {
        Some(e) => {
            let a = chars_of(e);
            let b = chars_of(extension);
            chars_eq_ignore_ascii_case(&a, &b)
        },
        None => false,
    }
}

/// Whether the file at `path` has the extension `extension`, up to ASCII
/// case.  The extension is what `Path::extension` gives: a piece of the path
/// without `.`, and on a plain path the one of its last component.
pub fn has_extension(path: &str, extension: &str) -> (r: bool)
    ensures
        plain_path(path@) ==> r == extension_matches(
            std_extension(last_component(path@)),
            extension@,
        ),
        exists|ext: Option<Seq<char>>|
            (ext matches Some(e) ==> is_piece_of(e, path@) && !e.contains('.')) && r
                == #[trigger] extension_matches(ext, extension@),
{
    let ext = path_extension(path);
    let r = match &ext {
        Some(e) => extension_is(Some(e.as_str()), extension),
        None => extension_is(None, extension),
    };
    proof {
        let ev = ext.deep_view();
        assert(r == extension_matches(ev, extension@));
    }
    r
}

/// The label of a source directory, used to tell apart questions from
/// several directories: the parent's name for a directory named `baza` (up
/// to ASCII case); else its own name; else its parent's; else `source`.
pub open spec fn source_label_of(file_name: Option<Seq<char>>, parent_name: Option<Seq<char>>) -> Seq<
    char,
> {
    let is_baza = match file_name {
        Some(n) => eq_ignore_ascii_case(n, BAZA@),
        None => false,
    };
    if is_baza && parent_name is Some {
        parent_name.unwrap()
    } else {
        match file_name {
            Some(n) => n,
            None => match parent_name {
                Some(p) => p,
                None => SOURCE@,
            },
        }
    }
}

/// The label of a source directory whose file name is `file_name` and whose
/// parent's file name is `parent_name`.
pub fn source_label(file_name: Option<&str>, parent_name: Option<&str>) -> (r: String)
    ensures
        r@ == source_label_of(file_name.deep_view(), parent_name.deep_view()),
{
    let is_baza = match file_name {
        Some(n) => {
            let a = chars_of(n);
            let b = chars_of(BAZA);
            chars_eq_ignore_ascii_case(&a, &b)
        },
        None => false,
    };
    match (is_baza, parent_name) {
        (true, Some(p)) => p.to_owned(),
        _ => match file_name {
            Some(n) => n.to_owned(),
            None => match parent_name {
                Some(p) => p.to_owned(),
                None => SOURCE.to_owned(),
            },
        },
    }
}

/// The file name of the parent of a plain path: the last component of the
/// text before its last `/`, when that text is neither empty nor `/`.
pub open spec fn parent_file_name(p: Seq<char>) -> Option<Seq<char>> {
    match last_index_of(p, '/') {
        Some(i) => if i > 0 {
            Some(last_component(p.take(i)))
        } else {
            None
        },
        None => None,
    }
}

/// The label of the source directory at `dir`: its name and its parent's
/// name are what `Path::file_name` and `Path::parent` give (on a plain path,
/// its last component and the last component of the text before it).
pub fn source_label_for_dir(dir: &str) -> (r: String)
    ensures
        plain_path(dir@) ==> r@ == source_label_of(
            Some(last_component(dir@)),
            parent_file_name(dir@),
        ),
        exists|name: Option<Seq<char>>, parent_name: Option<Seq<char>>|
            (name matches Some(n) ==> is_piece_of(n, dir@)) && (parent_name matches Some(p)
                ==> is_piece_of(p, dir@)) && r@ == #[trigger] source_label_of(name, parent_name),
{
    let name = path_file_name(dir);
    let parent = path_parent(dir);
    let parent_name = match &parent {
        Some(p) => path_file_name(p.as_str()),
        None => None,
    };
    proof {
        if let Some(p) = &parent {
            if let Some(q) = &parent_name {
                let k = choose|i: int|
                    0 <= i <= p@.len() - q@.len() && #[trigger] p@.subrange(i, i + q@.len()) == q@;
                assert(p@ == dir@.take(p@.len() as int));
                assert(dir@.subrange(k, k + q@.len()) =~= p@.subrange(k, k + q@.len()));
            }
        }
    }
    let r = match (&name, &parent_name) {
        (Some(n), Some(p)) => source_label(Some(n.as_str()), Some(p.as_str())),
        (Some(n), None) => source_label(Some(n.as_str()), None),
        (None, Some(p)) => source_label(None, Some(p.as_str())),
        (None, None) => source_label(None, None),
    };
    proof {
        assert(r@ == source_label_of(name.deep_view(), parent_name.deep_view()));
        if plain_path(dir@) {
            assert(parent_name.deep_view() == parent_file_name(dir@)) by {
                match last_index_of(dir@, '/') {
                    Some(i) => {
                        if i == 0 {
                            assert(parent_text(dir@) == seq!['/']);
                        }
                    },
                    None => {
                        assert(parent_text(dir@).len() == 0);
                    },
                }
            }
        }
    }
    r
}

} // verus!
