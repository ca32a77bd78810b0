//! Walking a folder: which files the list on the left shows, and in what order.
//! The walk itself reads the disk and happens outside; here are the rules it
//! follows, the entries it produces, and their ordering.

use vstd::prelude::*;
use std::cmp::Ordering;
use crate::strs::{chars_of, is_word, string_of};
use crate::doc::{ext_of, category, category_of, path_ext, last_index_of, find_last, slice_chars, lemma_last_index_bounds};
use crate::natural::{natural_cmp, natural_order, law_natural_antisymmetric, law_natural_reflexive, law_natural_transitive, flipped};

verus! {

broadcast use vstd::seq_lib::group_to_multiset_ensures, vstd::multiset::group_multiset_axioms;

/// One file in the list.
#[derive(Debug, Clone, PartialEq)]
pub struct FileEntry {
    /// Full path: the request to open the file comes back with it.
    pub path: String,
    /// Path relative to the root, with `/` separators: this is what is shown.
    pub rel: String,
    pub name: String,
    /// The folder part of `rel` (empty for files in the root).
    pub dir: String,
    pub ext: String,
    /// doc | table | data | text | code | image
    pub category: String,
    pub size: u64,
}

/// A regular file met during the walk, as the walk reports it.
#[derive(Debug, Clone, PartialEq)]
pub struct FoundFile {
    /// Full path.
    pub path: String,
    /// Path relative to the root (separators as the platform writes them).
    pub rel: String,
    /// File name.
    pub name: String,
    /// Size in bytes.
    pub size: u64,
}

/// How deep the walk descends below the root.
pub const MAX_DEPTH: usize = 8;

/// At most this many entries are listed.
pub const MAX_ENTRIES: usize = 20000;

/// Folders that are never entered: thousands of files nobody opens by hand.
pub open spec fn skipped_dir(name: Seq<char>) -> bool {
    name == "node_modules"@ || name == "target"@ || name == "__pycache__"@ || name == "venv"@
        || name == ".venv"@ || name == "dist"@ || name == "build"@ || name == ".cache"@
}

/// The walk enters (or lists) an item unless it is hidden below the root, or it
/// is a folder that is never entered.
pub open spec fn admitted(name: Seq<char>, depth: usize, is_dir: bool) -> bool {
    !(name.len() > 0 && name[0] == '.' && depth > 0) && !(is_dir && skipped_dir(name))
}

/// Whether the walk descends into (or lists) an item with this name, met at
/// this depth below the root.
pub fn walk_admits(name: &str, depth: usize, is_dir: bool) -> (r: bool)
    ensures
        r == admitted(name@, depth, is_dir),
{
    let n = chars_of(name);
    if n.len() > 0 && n[0] == '.' && depth > 0 {
        return false;
    }
    if is_dir && (is_word(&n, "node_modules") || is_word(&n, "target") || is_word(&n, "__pycache__")
        || is_word(&n, "venv") || is_word(&n, ".venv") || is_word(&n, "dist") || is_word(&n, "build")
        || is_word(&n, ".cache")) {
        return false;
    }
    true
}

/// A relative path with `\` separators turned into `/`.
pub open spec fn forward_slashes(s: Seq<char>) -> Seq<char> {
    s.map_values(|c: char| if c == '\\' { '/' } else { c })
}

/// The folder part of a `/`-separated relative path: everything before the last `/`.
pub open spec fn folder_of(rel: Seq<char>) -> Seq<char> {
    let k = last_index_of(rel, '/');
    if k < 0 {
        Seq::empty()
    } else {
        rel.take(k)
    }
}

/// Whether a found file is listed at all: files whose category is "other" are not.
pub open spec fn listed(f: FoundFile) -> bool {
    category_of(path_ext(f.path@)) != "other"@
}

/// `e` is the list entry for the found file `f`.
pub open spec fn entry_of(f: FoundFile, e: FileEntry) -> bool {
    &&& e.path@ == f.path@
    &&& e.rel@ == forward_slashes(f.rel@)
    &&& e.name@ == f.name@
    &&& e.dir@ == folder_of(forward_slashes(f.rel@))
    &&& e.ext@ == path_ext(f.path@)
    &&& e.category@ == category_of(path_ext(f.path@))
    &&& e.size == f.size
}

/// The list entry for a found file, or `None` when its category is "other".
pub fn file_entry(f: &FoundFile) -> (r: Option<FileEntry>)
    ensures
        match r {
            Some(e) => listed(*f) && entry_of(*f, e),
            None => !listed(*f),
        },
{
    let ext = ext_of(f.path.as_str());
    let cat = category(ext.as_str());
    if is_word(&chars_of(cat), "other") {
        return None;
    }
    let r = chars_of(f.rel.as_str());
    let mut rel: Vec<char> = Vec::new();
    let mut i: usize = 0;
    while i < r.len()
        invariant
            i <= r.len(),
            rel@ == forward_slashes(r@.take(i as int)),
        decreases r.len() - i,
    {
        let c = if r[i] == '\\' { '/' } else { r[i] };
        rel.push(c);
        assert(r@.take(i + 1) =~= r@.take(i as int).push(r@[i as int]));
        i = i + 1;
    }
    assert(r@.take(r.len() as int) =~= r@);
    let dir: Vec<char> = match find_last(&rel, rel.len(), '/') {
        Some(k) => slice_chars(&rel, 0, k),
        None => Vec::new(),
    };
    proof {
        assert(rel@.take(rel.len() as int) =~= rel@);
        assert(dir@ =~= folder_of(rel@));
    }
    Some(
        FileEntry {
            path: f.path.clone(),
            rel: string_of(&rel),
            name: f.name.clone(),
            dir: string_of(&dir),
            ext,
            category: cat.to_owned(),
            size: f.size,
        },
    )
}

/// The number of listed files among the first `n` found.
pub open spec fn listed_count(found: Seq<FoundFile>) -> nat
    decreases found.len(),
{
    if found.len() == 0 {
        0
    } else {
        listed_count(found.drop_last()) + if listed(found.last()) {
            1nat
        } else {
            0nat
        }
    }
}

/// `s` lists, in walk order, the entries of the listed files among `found`,
/// stopping once `MAX_ENTRIES` are listed.
pub open spec fn selection_of(found: Seq<FoundFile>, s: Seq<FileEntry>) -> bool
    decreases found.len(),
{
    if found.len() == 0 {
        s.len() == 0
    } else {
        let f = found.last();
        let before = found.drop_last();
        if listed(f) && listed_count(before) < MAX_ENTRIES {
            s.len() > 0 && entry_of(f, s.last()) && selection_of(before, s.drop_last())
        } else {
            selection_of(before, s)
        }
    }
}

/// The list never holds more than `MAX_ENTRIES` entries, and holds every
/// listed file while there are fewer.
pub proof fn law_selection_len(found: Seq<FoundFile>, s: Seq<FileEntry>)
    requires
        selection_of(found, s),
    ensures
        s.len() == if listed_count(found) < MAX_ENTRIES {
            listed_count(found)
        } else {
            MAX_ENTRIES as nat
        },
    decreases found.len(),
{
    if found.len() > 0 {
        let f = found.last();
        let before = found.drop_last();
        if listed(f) && listed_count(before) < MAX_ENTRIES {
            law_selection_len(before, s.drop_last());
        } else {
            law_selection_len(before, s);
        }
    }
}

/// The entries for the listed files among `found`, in walk order, at most
/// `MAX_ENTRIES` of them.
pub fn select_entries(found: &Vec<FoundFile>) -> (r: Vec<FileEntry>)
    ensures
        selection_of(found@, r@),
{
    let mut out: Vec<FileEntry> = Vec::new();
    let mut i: usize = 0;
    assert(found@.take(0) =~= Seq::<FoundFile>::empty());
    while i < found.len()
        invariant
            i <= found.len(),
            selection_of(found@.take(i as int), out@),
        decreases found.len() - i,
    {
        let ghost before = found@.take(i as int);
        assert(found@.take(i + 1).drop_last() =~= before);
        assert(found@.take(i + 1).last() == found@[i as int]);
        proof {
            law_selection_len(before, out@);
        }
        if out.len() < MAX_ENTRIES {
            match file_entry(&found[i]) {
                Some(e) => {
                    let ghost prev = out@;
                    out.push(e);
                    assert(out@.drop_last() =~= prev);
                },
                None => {},
            }
        }
        i = i + 1;
    }
    assert(found@.take(found.len() as int) =~= found@);
    out
}

/// The list order: by folder first, then by name, both in natural order. Files
/// of one folder stay together instead of interleaving with subfolders.
pub open spec fn entry_order(a: FileEntry, b: FileEntry) -> Ordering {
    match natural_order(a.dir@, b.dir@) {
        Ordering::Equal => natural_order(a.name@, b.name@),
        o => o,
    }
}

/// `a` belongs strictly after `b` in the list.
pub open spec fn goes_after(a: FileEntry, b: FileEntry) -> bool {
    entry_order(a, b) == Ordering::Greater
}

/// No entry of `s` belongs after its successor.
pub open spec fn list_sorted(s: Seq<FileEntry>) -> bool {
    forall|i: int| 0 <= i < s.len() - 1 ==> !goes_after(#[trigger] s[i], s[i + 1])
}

/// Compares two entries in list order.
pub fn entry_cmp(a: &FileEntry, b: &FileEntry) -> (r: Ordering)
    ensures
        r == entry_order(*a, *b),
{
    match natural_cmp(a.dir.as_str(), b.dir.as_str()) {
        Ordering::Equal => natural_cmp(a.name.as_str(), b.name.as_str()),
        o => o,
    }
}

/// An entry together with its position in walk order.
pub open spec fn placed(s: Seq<FileEntry>) -> Seq<(FileEntry, usize)> {
    Seq::new(s.len(), |i: int| (s[i], i as usize))
}

/// `a` belongs strictly after `b`: later in list order, or equal in list
/// order and later in walk order.
pub open spec fn placed_after(a: (FileEntry, usize), b: (FileEntry, usize)) -> bool {
    goes_after(a.0, b.0) || (entry_order(a.0, b.0) == Ordering::Equal && a.1 > b.1)
}

/// No placed entry of `s` belongs after its successor.
pub open spec fn placed_sorted(s: Seq<(FileEntry, usize)>) -> bool {
    forall|i: int| 0 <= i < s.len() - 1 ==> !placed_after(#[trigger] s[i], s[i + 1])
}

/// The entries of placed entries.
pub open spec fn unplaced(s: Seq<(FileEntry, usize)>) -> Seq<FileEntry> {
    s.map_values(|p: (FileEntry, usize)| p.0)
}

/// `r` is `s` sorted stably: in list order, entries equal in list order
/// keeping the order they had in `s`.
pub open spec fn stably_sorted(s: Seq<FileEntry>, r: Seq<FileEntry>) -> bool {
    exists|q: Seq<(FileEntry, usize)>|
        placed_sorted(q) && q.to_multiset() == placed(s).to_multiset() && r == unplaced(q)
}

proof fn lemma_placed_after_asym(a: (FileEntry, usize), b: (FileEntry, usize))
    ensures
        placed_after(a, b) ==> !placed_after(b, a),
{
    law_natural_antisymmetric(a.0.dir@, b.0.dir@);
    law_natural_antisymmetric(a.0.name@, b.0.name@);
}

fn placed_goes_after(a: &(FileEntry, usize), b: &(FileEntry, usize)) -> (r: bool)
    ensures
        r == placed_after(*a, *b),
{
    match entry_cmp(&a.0, &b.0) {
        Ordering::Greater => true,
        Ordering::Equal => a.1 > b.1,
        Ordering::Less => false,
    }
}

fn copy_entry(e: &FileEntry) -> (r: FileEntry)
    ensures
        r == *e,
{
    FileEntry {
        path: e.path.clone(),
        rel: e.rel.clone(),
        name: e.name.clone(),
        dir: e.dir.clone(),
        ext: e.ext.clone(),
        category: e.category.clone(),
        size: e.size,
    }
}

fn copy_placed(p: &(FileEntry, usize)) -> (r: (FileEntry, usize))
    ensures
        r == *p,
{
    (copy_entry(&p.0), p.1)
}

/// Merges two sorted lists into one sorted list holding the entries of both.
fn merge_lists(a: &Vec<(FileEntry, usize)>, b: &Vec<(FileEntry, usize)>) -> (r: Vec<(FileEntry, usize)>)
    requires
        placed_sorted(a@),
        placed_sorted(b@),
    ensures
        placed_sorted(r@),
        r@.to_multiset() == a@.to_multiset().add(b@.to_multiset()),
{
    let mut r: Vec<(FileEntry, usize)> = Vec::new();
    let mut i: usize = 0;
    let mut j: usize = 0;
    assert(a@.take(0) =~= Seq::<(FileEntry, usize)>::empty());
    assert(b@.take(0) =~= Seq::<(FileEntry, usize)>::empty());
    while i < a.len() || j < b.len()
        invariant
            i <= a.len(),
            j <= b.len(),
            placed_sorted(a@),
            placed_sorted(b@),
            placed_sorted(r@),
            r@.to_multiset() == a@.take(i as int).to_multiset().add(b@.take(j as int).to_multiset()),
            r@.len() > 0 && i < a.len() ==> !placed_after(r@.last(), a@[i as int]),
            r@.len() > 0 && j < b.len() ==> !placed_after(r@.last(), b@[j as int]),
        decreases a.len() - i + b.len() - j,
    {
        let take_a = if i < a.len() && j < b.len() {
            !placed_goes_after(&a[i], &b[j])
        } else {
            i < a.len()
        };
        let ghost prev = r@;
        if take_a {
            let x = copy_placed(&a[i]);
            proof {
                lemma_placed_after_asym(a@[i as int], b@[j as int]);
                assert(a@.take(i + 1) =~= a@.take(i as int).push(a@[i as int]));
                if i + 1 < a.len() {
                    assert(!placed_after(a@[i as int], a@[i + 1]));
                }
            }
            r.push(x);
            i = i + 1;
        } else {
            let x = copy_placed(&b[j]);
            proof {
                if i < a.len() {
                    lemma_placed_after_asym(a@[i as int], b@[j as int]);
                }
                assert(b@.take(j + 1) =~= b@.take(j as int).push(b@[j as int]));
                if j + 1 < b.len() {
                    assert(!placed_after(b@[j as int], b@[j + 1]));
                }
            }
            r.push(x);
            j = j + 1;
        }
        proof {
            assert forall|k: int| 0 <= k < r@.len() - 1 implies !placed_after(
                #[trigger] r@[k],
                r@[k + 1],
            ) by {
                if k < prev.len() - 1 {
                    assert(r@[k] == prev[k] && r@[k + 1] == prev[k + 1]);
                } else {
                    assert(r@[k] == prev.last());
                }
            }
            assert(r@ =~= prev.push(r@.last()));
        }
    }
    assert(a@.take(a.len() as int) =~= a@);
    assert(b@.take(b.len() as int) =~= b@);
    r
}

/// Sorts `v[lo..hi]` into a new list (merge sort).
fn sort_range(v: &Vec<(FileEntry, usize)>, lo: usize, hi: usize) -> (r: Vec<(FileEntry, usize)>)
    requires
        lo <= hi <= v.len(),
    ensures
        placed_sorted(r@),
        r@.to_multiset() == v@.subrange(lo as int, hi as int).to_multiset(),
    decreases hi - lo,
{
    if hi - lo == 0 {
        assert(v@.subrange(lo as int, hi as int) =~= Seq::<(FileEntry, usize)>::empty());
        return Vec::new();
    }
    if hi - lo == 1 {
        let mut r: Vec<(FileEntry, usize)> = Vec::new();
        r.push(copy_placed(&v[lo]));
        assert(v@.subrange(lo as int, hi as int) =~= Seq::<(FileEntry, usize)>::empty().push(v@[lo as int]));
        assert(r@ =~= Seq::<(FileEntry, usize)>::empty().push(v@[lo as int]));
        return r;
    }
    let mid: usize = lo + (hi - lo) / 2;
    let left = sort_range(v, lo, mid);
    let right = sort_range(v, mid, hi);
    proof {
        assert(v@.subrange(lo as int, hi as int) =~= v@.subrange(lo as int, mid as int) + v@.subrange(
            mid as int,
            hi as int,
        ));
        vstd::seq_lib::lemma_multiset_commutative(
            v@.subrange(lo as int, mid as int),
            v@.subrange(mid as int, hi as int),
        );
    }
    merge_lists(&left, &right)
}

proof fn lemma_placed_sorted_is_sorted(q: Seq<(FileEntry, usize)>)
    requires
        placed_sorted(q),
    ensures
        list_sorted(unplaced(q)),
{
    assert forall|i: int| 0 <= i < unplaced(q).len() - 1 implies !goes_after(
        #[trigger] unplaced(q)[i],
        unplaced(q)[i + 1],
    ) by {
        assert(!placed_after(q[i], q[i + 1]));
    }
}

/// The entries in list order, ties kept in the order they had in `v` (a
/// stable sort, as `sort_by` does).
pub fn sort_entries(v: &Vec<FileEntry>) -> (r: Vec<FileEntry>)
    ensures
        list_sorted(r@),
        stably_sorted(v@, r@),
{
    let mut p: Vec<(FileEntry, usize)> = Vec::new();
    let mut i: usize = 0;
    while i < v.len()
        invariant
            i <= v.len(),
            p@ == placed(v@).take(i as int),
        decreases v.len() - i,
    {
        p.push((copy_entry(&v[i]), i));
        assert(p@ =~= placed(v@).take(i + 1));
        i = i + 1;
    }
    assert(placed(v@).take(v.len() as int) =~= placed(v@));
    let q = sort_range(&p, 0, p.len());
    assert(p@.subrange(0, p.len() as int) =~= p@);
    let mut r: Vec<FileEntry> = Vec::new();
    let mut k: usize = 0;
    while k < q.len()
        invariant
            k <= q.len(),
            r@ == unplaced(q@).take(k as int),
        decreases q.len() - k,
    {
        r.push(copy_entry(&q[k].0));
        assert(r@ =~= unplaced(q@).take(k + 1));
        k = k + 1;
    }
    proof {
        assert(unplaced(q@).take(q.len() as int) =~= unplaced(q@));
        lemma_placed_sorted_is_sorted(q@);
    }
    r
}

proof fn lemma_unplaced_multiset(q: Seq<(FileEntry, usize)>, p: Seq<(FileEntry, usize)>)
    requires
        q.to_multiset() == p.to_multiset(),
    ensures
        unplaced(q).to_multiset() == unplaced(p).to_multiset(),
    decreases q.len(),
{
    vstd::seq_lib::to_multiset_len(q);
    vstd::seq_lib::to_multiset_len(p);
    if q.len() == 0 {
        assert(unplaced(q) =~= Seq::<FileEntry>::empty());
        assert(unplaced(p) =~= Seq::<FileEntry>::empty());
    } else {
        let x = q.last();
        let d = q.drop_last();
        assert(q =~= d.push(x));
        vstd::seq_lib::to_multiset_build(d, x);
        assert(p.to_multiset().count(x) > 0);
        vstd::seq_lib::to_multiset_contains(p, x);
        let i = choose|i: int| 0 <= i < p.len() && p[i] == x;
        let p2 = p.remove(i);
        vstd::seq_lib::to_multiset_remove(p, i);
        assert(d.to_multiset() =~= p2.to_multiset());
        lemma_unplaced_multiset(d, p2);
        assert(unplaced(q) =~= unplaced(d).push(x.0));
        vstd::seq_lib::to_multiset_build(unplaced(d), x.0);
        assert(unplaced(p2) =~= unplaced(p).remove(i));
        vstd::seq_lib::to_multiset_remove(unplaced(p), i);
        assert(unplaced(p)[i] == x.0);
        assert(unplaced(p).to_multiset().count(x.0) > 0);
        assert(unplaced(q).to_multiset() =~= unplaced(p).to_multiset());
    }
}

/// `e` is the entry of a listed file among `found`.
pub open spec fn entry_of_found(found: Seq<FoundFile>, e: FileEntry) -> bool {
    exists|f: FoundFile| #[trigger] found.contains(f) && listed(f) && entry_of(f, e)
}

proof fn lemma_selection_entries(found: Seq<FoundFile>, s: Seq<FileEntry>)
    requires
        selection_of(found, s),
    ensures
        forall|k: int| 0 <= k < s.len() ==> entry_of_found(found, #[trigger] s[k]),
    decreases found.len(),
{
    if found.len() > 0 {
        let f = found.last();
        let before = found.drop_last();
        if listed(f) && listed_count(before) < MAX_ENTRIES {
            lemma_selection_entries(before, s.drop_last());
            assert forall|k: int| 0 <= k < s.len() implies entry_of_found(found, #[trigger] s[k]) by {
                if k < s.len() - 1 {
                    assert(s[k] == s.drop_last()[k]);
                    assert(entry_of_found(before, s.drop_last()[k]));
                    let g = choose|g: FoundFile| #[trigger] before.contains(g) && listed(g) && entry_of(g, s.drop_last()[k]);
                    let j = choose|j: int| 0 <= j < before.len() && before[j] == g;
                    assert(found[j] == g);
                    assert(found.contains(g));
                    assert(listed(g) && entry_of(g, s[k]));
                } else {
                    assert(found[found.len() - 1] == f);
                    assert(found.contains(f));
                    assert(s[k] == s.last());
                    assert(listed(f) && entry_of(f, s[k]));
                }
            }
        } else {
            lemma_selection_entries(before, s);
            assert forall|k: int| 0 <= k < s.len() implies entry_of_found(found, #[trigger] s[k]) by {
                assert(entry_of_found(before, s[k]));
                let g = choose|g: FoundFile| #[trigger] before.contains(g) && listed(g) && entry_of(g, s[k]);
                let j = choose|j: int| 0 <= j < before.len() && before[j] == g;
                assert(found[j] == g);
                assert(found.contains(g));
                assert(listed(g) && entry_of(g, s[k]));
            }
        }
    }
}

/// The list for a folder, from the regular files its walk met (in walk order):
/// the listed ones, at most `MAX_ENTRIES`, sorted by folder and then by name,
/// files equal in that order staying in walk order. Every pair of entries is
/// in order, the list is a rearrangement of the selection, and each entry is
/// the entry of a listed file that the walk met.
pub fn collect_entries(found: &Vec<FoundFile>) -> (r: Vec<FileEntry>)
    ensures
        list_sorted(r@),
        forall|i: int, j: int| 0 <= i <= j < r@.len() ==> !goes_after(#[trigger] r@[i], #[trigger] r@[j]),
        exists|s: Seq<FileEntry>|
            selection_of(found@, s) && stably_sorted(s, r@) && r@.to_multiset() == s.to_multiset(),
        r@.len() <= MAX_ENTRIES,
        forall|k: int| 0 <= k < r@.len() ==> entry_of_found(found@, #[trigger] r@[k]),
{
    let s = select_entries(found);
    let r = sort_entries(&s);
    proof {
        let q = choose|q: Seq<(FileEntry, usize)>|
            placed_sorted(q) && q.to_multiset() == placed(s@).to_multiset() && r@ == unplaced(q);
        lemma_unplaced_multiset(q, placed(s@));
        assert(unplaced(placed(s@)) =~= s@);
        assert forall|i: int, j: int| 0 <= i <= j < r@.len() implies !goes_after(
            #[trigger] r@[i],
            #[trigger] r@[j],
        ) by {
            law_sorted_list_in_order(r@, i, j);
        }
        law_selection_len(found@, s@);
        vstd::seq_lib::to_multiset_len(r@);
        vstd::seq_lib::to_multiset_len(s@);
        lemma_selection_entries(found@, s@);
        assert forall|k: int| 0 <= k < r@.len() implies entry_of_found(found@, #[trigger] r@[k]) by {
            let e = r@[k];
            assert(r@.to_multiset().count(e) > 0);
            vstd::seq_lib::to_multiset_contains(s@, e);
            let m = choose|m: int| 0 <= m < s@.len() && s@[m] == e;
            assert(entry_of_found(found@, s@[m]));
        }
    }
    r
}


/// The list order is transitive: an entry not after a second one, which is not
/// after a third, is not after the third.
pub proof fn law_entry_order_transitive(a: FileEntry, b: FileEntry, c: FileEntry)
    requires
        !goes_after(a, b),
        !goes_after(b, c),
    ensures
        !goes_after(a, c),
{
    law_natural_transitive(a.dir@, b.dir@, c.dir@);
    law_natural_antisymmetric(a.dir@, b.dir@);
    law_natural_antisymmetric(b.dir@, c.dir@);
    law_natural_antisymmetric(a.dir@, c.dir@);
    if natural_order(a.dir@, b.dir@) == Ordering::Equal && natural_order(b.dir@, c.dir@) == Ordering::Equal {
        law_natural_transitive(a.name@, b.name@, c.name@);
    }
}

/// A sorted list is in order throughout: no entry belongs after any entry
/// that comes later in it, so the files of one folder come together.
pub proof fn law_sorted_list_in_order(s: Seq<FileEntry>, i: int, j: int)
    requires
        list_sorted(s),
        0 <= i <= j < s.len(),
    ensures
        !goes_after(s[i], s[j]),
    decreases j - i,
{
    if i == j {
        law_natural_reflexive(s[i].dir@);
        law_natural_reflexive(s[i].name@);
    } else {
        law_sorted_list_in_order(s, i, j - 1);
        assert(!goes_after(s[j - 1], s[j]));
        law_entry_order_transitive(s[i], s[j - 1], s[j]);
    }
}

/// The files of one folder come together: between two entries whose folders
/// are equal in natural order, every entry lies in that same folder, so the
/// list never shows a folder's heading twice.
pub proof fn law_folder_stays_together(s: Seq<FileEntry>, i: int, j: int, k: int)
    requires
        list_sorted(s),
        0 <= i <= j <= k < s.len(),
        natural_order(s[i].dir@, s[k].dir@) == Ordering::Equal,
    ensures
        natural_order(s[i].dir@, s[j].dir@) == Ordering::Equal,
        natural_order(s[j].dir@, s[k].dir@) == Ordering::Equal,
{
    law_sorted_list_in_order(s, i, j);
    law_sorted_list_in_order(s, j, k);
    law_natural_transitive(s[i].dir@, s[j].dir@, s[k].dir@);
}

proof fn lemma_entry_order_strict(a: FileEntry, b: FileEntry, c: FileEntry)
    requires
        !goes_after(a, b),
        !goes_after(b, c),
        entry_order(a, b) == Ordering::Less || entry_order(b, c) == Ordering::Less,
    ensures
        entry_order(a, c) == Ordering::Less,
{
    law_natural_transitive(a.dir@, b.dir@, c.dir@);
    law_natural_antisymmetric(a.dir@, b.dir@);
    law_natural_antisymmetric(b.dir@, c.dir@);
    law_natural_antisymmetric(a.dir@, c.dir@);
    if natural_order(a.dir@, b.dir@) == Ordering::Equal && natural_order(b.dir@, c.dir@) == Ordering::Equal {
        law_natural_transitive(c.dir@, b.dir@, a.dir@);
        law_natural_transitive(a.name@, b.name@, c.name@);
    }
}

proof fn lemma_placed_transitive(x: (FileEntry, usize), y: (FileEntry, usize), z: (FileEntry, usize))
    requires
        !placed_after(x, y),
        !placed_after(y, z),
    ensures
        !placed_after(x, z),
{
    law_entry_order_transitive(x.0, y.0, z.0);
    if entry_order(x.0, y.0) == Ordering::Less || entry_order(y.0, z.0) == Ordering::Less {
        lemma_entry_order_strict(x.0, y.0, z.0);
    }
}

/// A stable placing is in order throughout: no placed entry belongs after any
/// that comes later, so entries equal in list order come in walk order.
pub proof fn law_ties_keep_walk_order(q: Seq<(FileEntry, usize)>, i: int, j: int)
    requires
        placed_sorted(q),
        0 <= i <= j < q.len(),
    ensures
        !placed_after(q[i], q[j]),
        entry_order(q[i].0, q[j].0) == Ordering::Equal ==> q[i].1 <= q[j].1,
    decreases j - i,
{
    if i == j {
        law_natural_reflexive(q[i].0.dir@);
        law_natural_reflexive(q[i].0.name@);
    } else {
        law_ties_keep_walk_order(q, i, j - 1);
        assert(!placed_after(q[j - 1], q[j]));
        lemma_placed_transitive(q[i], q[j - 1], q[j]);
    }
}

/// Every entry of the list describes itself: its category is the category of
/// its extension and never "other", its extension is that of its path, and
/// its folder is its relative path up to the last `/`.
pub proof fn law_entry_fields(found: Seq<FoundFile>, e: FileEntry)
    requires
        entry_of_found(found, e),
    ensures
        e.category@ == category_of(e.ext@),
        e.category@ != "other"@,
        e.ext@ == path_ext(e.path@),
        e.dir@ == folder_of(e.rel@),
{
    let f = choose|f: FoundFile| #[trigger] found.contains(f) && listed(f) && entry_of(f, e);
}

/// Junk folders are never entered, at any depth: `node_modules`, `target`,
/// `__pycache__`, `venv`, `.venv`, `dist`, `build` and `.cache`. Hidden
/// entries below the root are never admitted either, and any other folder or
/// file with a name that does not start with a dot is.
pub proof fn law_junk_and_hidden_skipped(depth: usize, name: Seq<char>, is_dir: bool)
    ensures
        !admitted("node_modules"@, depth, true),
        !admitted("target"@, depth, true),
        !admitted("__pycache__"@, depth, true),
        !admitted("venv"@, depth, true),
        !admitted(".venv"@, depth, true),
        !admitted("dist"@, depth, true),
        !admitted("build"@, depth, true),
        !admitted(".cache"@, depth, true),
        name.len() > 0 && name[0] == '.' && depth > 0 ==> !admitted(name, depth, is_dir),
        !is_dir && !(name.len() > 0 && name[0] == '.') ==> admitted(name, depth, is_dir),
{
    reveal_strlit("node_modules");
    reveal_strlit("target");
    reveal_strlit("__pycache__");
    reveal_strlit("venv");
    reveal_strlit(".venv");
    reveal_strlit("dist");
    reveal_strlit("build");
    reveal_strlit(".cache");
}

} // verus!
