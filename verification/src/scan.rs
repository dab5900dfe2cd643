//! The repository scan: which directories and root files are left out, and
//! the deterministic order of what was found (paths in increasing order).

use std::path::PathBuf;
use vstd::prelude::*;
use crate::order::{chars_lt, insert_sorted_str, lemma_seq_lt_irreflexive, lemma_seq_lt_total,
    lemma_seq_lt_transitive, seq_lt, sorted_strs};
use crate::strs::{chars_of, ends_with, has_suffix, lemma_keys_view, str_eq, string_of};
use crate::text::{nfc, nfc_of, strings_view};
use crate::links::{strip_content_prefix, strip_prefix_of, trim_char, trim_char_vec};

verus! {

#[verifier::external_type_specification]
#[verifier::external_body]
pub struct ExPathBuf(std::path::PathBuf);

/// `PathBuf::clone` (std): a copy of the path. Nothing is stated of it; the
/// library only carries paths through.
pub assume_specification[ <std::path::PathBuf as std::clone::Clone>::clone ](p: &PathBuf) -> PathBuf;

/// A directory skipped wherever it occurs, by name.
pub open spec fn is_excluded_dir(name: Seq<char>) -> bool {
    name == ".git"@ || name == ".omh"@ || name == "site"@ || name == ".cache"@ || name
        == "public"@ || name == ".github"@ || name == "tools"@ || name == "target"@ || name
        == "node_modules"@ || name == ".cargo"@ || name == "brains-en"@
}

/// A file skipped at the repository root only, by name.
pub open spec fn is_excluded_root_file(name: Seq<char>) -> bool {
    name == "Cargo.toml"@ || name == "Cargo.lock"@ || name == ".hugo_build.lock"@ || name
        == "README.en.md"@
}

/// Whether a directory of this name is skipped.
pub fn excluded_dir(name: &str) -> (r: bool)
    ensures
        r == is_excluded_dir(name@),
{
    str_eq(name, ".git") || str_eq(name, ".omh") || str_eq(name, "site") || str_eq(name, ".cache")
        || str_eq(name, "public") || str_eq(name, ".github") || str_eq(name, "tools") || str_eq(
        name,
        "target",
    ) || str_eq(name, "node_modules") || str_eq(name, ".cargo") || str_eq(name, "brains-en")
}

/// Whether a file of this name is skipped at the repository root.
pub fn excluded_root_file(name: &str) -> (r: bool)
    ensures
        r == is_excluded_root_file(name@),
{
    str_eq(name, "Cargo.toml") || str_eq(name, "Cargo.lock") || str_eq(name, ".hugo_build.lock")
        || str_eq(name, "README.en.md")
}

/// A file found by the scan.
#[derive(Debug, Clone)]
pub struct Entry {
    /// Path relative to the repository (NFC, `/` separated).
    pub rel: String,
    /// Path on disk.
    pub abs: PathBuf,
    pub size: u64,
}

/// What the scan found.
#[derive(Debug)]
pub struct Scan {
    /// Files, by relative path in increasing order.
    pub files: Vec<Entry>,
    /// The indices of the notes (`.md`) among `files`, increasing.
    pub notes: Vec<usize>,
    /// Directories (relative, NFC), increasing, without duplicates.
    pub dirs: Vec<String>,
    /// Skipped directories (relative), increasing.
    pub skipped: Vec<String>,
}

impl Default for Scan {
    fn default() -> (r: Scan)
        ensures
            r.files@.len() == 0,
            r.notes@.len() == 0,
            r.dirs@.len() == 0,
            r.skipped@.len() == 0,
    {
        Scan { files: Vec::new(), notes: Vec::new(), dirs: Vec::new(), skipped: Vec::new() }
    }
}

impl Scan {
    /// Whether a relative path names a note.
    pub fn is_note(&self, rel: &str) -> (r: bool)
        ensures
            r == ends_with(rel@, ".md"@),
    {
        let v = chars_of(rel);
        let md = chars_of(".md");
        has_suffix(&v, &md)
    }
}

/// The relative path text of a scanned item: `\` turned into `/`, then NFC.
pub open spec fn rel_text(s: Seq<char>) -> Seq<char> {
    nfc_of(Seq::new(s.len(), |i: int| if s[i] == '\\' { '/' } else { s[i] }))
}

/// The text of a path relative to the root, as recorded by the scan.
pub fn rel_string(rel: &str) -> (r: String)
    ensures
        r@ == rel_text(rel@),
{
    let v = chars_of(rel);
    let mut w: Vec<char> = Vec::new();
    let mut i: usize = 0;
    while i < v.len()
        invariant
            i <= v@.len(),
            w@ == Seq::new(i as nat, |k: int| if v@[k] == '\\' { '/' } else { v@[k] }),
        decreases v.len() - i,
    {
        if v[i] == '\\' {
            w.push('/');
        } else {
            w.push(v[i]);
        }
        assert(w@ =~= Seq::new((i + 1) as nat, |k: int| if v@[k] == '\\' { '/' } else { v@[k] }));
        i += 1;
    }
    let s = string_of(&w);
    nfc(s.as_str())
}

// ---------------------------------------------------------------------------
// Ordering the entries
// ---------------------------------------------------------------------------
/// `e` placed after every entry of `s` whose path does not sort after its own
/// (an insertion that keeps equal paths in their first order).
pub open spec fn sorted_insert(s: Seq<Entry>, e: Entry) -> Seq<Entry>
    decreases s.len(),
{
    if s.len() == 0 {
        seq![e]
    } else if seq_lt(e.rel@, s.last().rel@) {
        sorted_insert(s.drop_last(), e).push(s.last())
    } else {
        s.push(e)
    }
}

/// The entries ordered by path, equal paths kept in their first order.
pub open spec fn stable_sort(s: Seq<Entry>) -> Seq<Entry>
    decreases s.len(),
{
    if s.len() == 0 {
        Seq::empty()
    } else {
        sorted_insert(stable_sort(s.drop_last()), s.last())
    }
}

/// Paths in non-decreasing order.
pub open spec fn entries_sorted(s: Seq<Entry>) -> bool {
    forall|i: int, j: int| 0 <= i < j < s.len() ==> !seq_lt(#[trigger] s[j].rel@, #[trigger] s[i].rel@)
}

/// `sorted_insert` inserts at one position.
proof fn lemma_sorted_insert_at(s: Seq<Entry>, e: Entry, p: int)
    requires
        0 <= p <= s.len(),
        forall|k: int| p <= k < s.len() ==> seq_lt(e.rel@, #[trigger] s[k].rel@),
        p == 0 || !seq_lt(e.rel@, s[p - 1].rel@),
    ensures
        sorted_insert(s, e) == s.insert(p, e),
    decreases s.len(),
{
    if s.len() == 0 {
        assert(s.insert(p, e) =~= seq![e]);
    } else if p == s.len() {
        assert(s.insert(p, e) =~= s.push(e));
    } else {
        assert(seq_lt(e.rel@, s.last().rel@));
        lemma_sorted_insert_at(s.drop_last(), e, p);
        assert(s.insert(p, e) =~= s.drop_last().insert(p, e).push(s.last()));
    }
}

/// Inserting into a sorted sequence keeps it sorted.
proof fn lemma_sorted_insert_sorted(s: Seq<Entry>, e: Entry, p: int)
    requires
        entries_sorted(s),
        0 <= p <= s.len(),
        forall|k: int| p <= k < s.len() ==> seq_lt(e.rel@, #[trigger] s[k].rel@),
        p == 0 || !seq_lt(e.rel@, s[p - 1].rel@),
    ensures
        entries_sorted(s.insert(p, e)),
{
    let t = s.insert(p, e);
    assert forall|i: int, j: int| 0 <= i < j < t.len() implies !seq_lt(
        #[trigger] t[j].rel@,
        #[trigger] t[i].rel@,
    ) by {
        if i < p && j == p {
            // s[i] <= s[p-1] <= e
            lemma_seq_lt_total(e.rel@, s[p - 1].rel@);
            if seq_lt(e.rel@, s[i].rel@) {
                if i < p - 1 {
                    lemma_seq_lt_total(s[i].rel@, s[p - 1].rel@);
                    if seq_lt(s[i].rel@, s[p - 1].rel@) {
                        lemma_seq_lt_transitive(e.rel@, s[i].rel@, s[p - 1].rel@);
                    }
                }
            }
        } else if i == p && j > p {
            assert(t[j] == s[j - 1]);
            if seq_lt(s[j - 1].rel@, e.rel@) {
                lemma_seq_lt_transitive(e.rel@, s[j - 1].rel@, e.rel@);
                lemma_seq_lt_irreflexive(e.rel@);
            }
        } else if i < p && j > p {
            assert(t[j] == s[j - 1]);
        } else if i > p {
            assert(t[i] == s[i - 1]);
            assert(t[j] == s[j - 1]);
        }
    }
}

/// Entries ordered by path; equal paths keep their order.
pub fn sort_entries(v: Vec<Entry>) -> (r: Vec<Entry>)
    ensures
        r@ == stable_sort(v@),
{
    let ghost input = v@;
    let mut rest = v;
    let mut out: Vec<Entry> = Vec::new();
    let mut keys: Vec<Vec<char>> = Vec::new();
    let ghost mut i: int = 0;
    assert(input.take(0) =~= Seq::<Entry>::empty());
    assert(input.skip(0) =~= input);
    while rest.len() > 0
        invariant
            0 <= i <= input.len(),
            rest@ == input.skip(i),
            out@ == stable_sort(input.take(i)),
            keys@.len() == out@.len(),
            forall|k: int| 0 <= k < keys@.len() ==> #[trigger] keys@[k]@ == out@[k].rel@,
        decreases rest.len(),
    {
        let e = rest.remove(0);
        let key = chars_of(e.rel.as_str());
        let mut p = out.len();
        while p > 0 && chars_lt(key.as_slice(), keys[p - 1].as_slice())
            invariant
                p <= out@.len(),
                keys@.len() == out@.len(),
                forall|k: int| 0 <= k < keys@.len() ==> #[trigger] keys@[k]@ == out@[k].rel@,
                key@ == e.rel@,
                forall|k: int| p <= k < out@.len() ==> seq_lt(e.rel@, #[trigger] out@[k].rel@),
            decreases p,
        {
            p -= 1;
        }
        proof {
            assert(e == input[i]);
            lemma_sorted_insert_at(out@, e, p as int);
            assert(input.take(i + 1).drop_last() =~= input.take(i));
            assert(input.take(i + 1).last() == input[i]);
            assert(input.skip(i + 1) =~= input.skip(i).drop_first());
        }
        let ghost old_keys = keys@;
        let ghost old_out = out@;
        out.insert(p, e);
        keys.insert(p, key);
        proof {
            assert forall|k: int| 0 <= k < keys@.len() implies #[trigger] keys@[k]@ == out@[k].rel@ by {
                if k < p {
                    assert(keys@[k] == old_keys[k]);
                    assert(out@[k] == old_out[k]);
                } else if k > p {
                    assert(keys@[k] == old_keys[k - 1]);
                    assert(out@[k] == old_out[k - 1]);
                }
            }
            i = i + 1;
        }
    }
    assert(input.take(i) =~= input);
    out
}

/// Where `sorted_insert` puts `e`: just after the last entry, counted from
/// the end, whose path does not sort after it.
pub open spec fn insert_point(s: Seq<Entry>, e: Entry) -> int
    decreases s.len(),
{
    if s.len() == 0 {
        0
    } else if seq_lt(e.rel@, s.last().rel@) {
        insert_point(s.drop_last(), e)
    } else {
        s.len() as int
    }
}

proof fn lemma_insert_point(s: Seq<Entry>, e: Entry)
    ensures
        0 <= insert_point(s, e) <= s.len(),
        forall|k: int| insert_point(s, e) <= k < s.len() ==> seq_lt(e.rel@, #[trigger] s[k].rel@),
        insert_point(s, e) == 0 || !seq_lt(e.rel@, s[insert_point(s, e) - 1].rel@),
    decreases s.len(),
{
    if s.len() > 0 && seq_lt(e.rel@, s.last().rel@) {
        lemma_insert_point(s.drop_last(), e);
        let p = insert_point(s, e);
        assert forall|k: int| p <= k < s.len() implies seq_lt(e.rel@, #[trigger] s[k].rel@) by {
            if k < s.len() - 1 {
                assert(s[k] == s.drop_last()[k]);
            }
        }
        if p > 0 {
            assert(s[p - 1] == s.drop_last()[p - 1]);
        }
    }
}

/// The scan's order: the sorted entries are in non-decreasing path order and
/// are the same entries, each as many times, as were found.
pub proof fn law_stable_sort_orders(s: Seq<Entry>)
    ensures
        entries_sorted(stable_sort(s)),
        stable_sort(s).to_multiset() == s.to_multiset(),
    decreases s.len(),
{
    broadcast use vstd::seq_lib::to_multiset_build, vstd::seq_lib::to_multiset_insert;
    if s.len() == 0 {
        assert(stable_sort(s).to_multiset() =~= s.to_multiset()) by {
            assert(s =~= Seq::<Entry>::empty());
        }
    } else {
        let t = stable_sort(s.drop_last());
        law_stable_sort_orders(s.drop_last());
        let e = s.last();
        lemma_insert_point(t, e);
        let p = insert_point(t, e);
        lemma_sorted_insert_at(t, e, p);
        lemma_sorted_insert_sorted(t, e, p);
        assert(s.drop_last().push(e) =~= s);
    }
}

/// The indices, in increasing order, of the entries that are notes.
pub open spec fn note_indices(s: Seq<Entry>) -> Seq<usize>
    decreases s.len(),
{
    if s.len() == 0 {
        Seq::empty()
    } else if ends_with(s.last().rel@, ".md"@) {
        note_indices(s.drop_last()).push((s.len() - 1) as usize)
    } else {
        note_indices(s.drop_last())
    }
}

/// The indices of the notes among `files`.
pub fn notes_of(files: &Vec<Entry>) -> (r: Vec<usize>)
    ensures
        r@ == note_indices(files@),
{
    let md = chars_of(".md");
    let mut out: Vec<usize> = Vec::new();
    let mut i: usize = 0;
    assert(files@.take(0) =~= Seq::<Entry>::empty());
    while i < files.len()
        invariant
            i <= files@.len(),
            md@ == ".md"@,
            out@ == note_indices(files@.take(i as int)),
        decreases files.len() - i,
    {
        let v = chars_of(files[i].rel.as_str());
        assert(files@.take(i + 1).drop_last() =~= files@.take(i as int));
        if has_suffix(&v, &md) {
            out.push(i);
        }
        i += 1;
    }
    assert(files@.take(files@.len() as int) =~= files@);
    out
}

/// Strings in non-decreasing order.
pub open spec fn strs_nondecreasing(s: Seq<Seq<char>>) -> bool {
    forall|i: int, j: int| 0 <= i < j < s.len() ==> !seq_lt(#[trigger] s[j], #[trigger] s[i])
}

/// Strings ordered (duplicates kept).
pub fn sort_strings(v: Vec<String>) -> (r: Vec<String>)
    ensures
        strs_nondecreasing(strings_view(r@)),
        strings_view(r@).to_multiset() == strings_view(v@).to_multiset(),
{
    broadcast use vstd::seq_lib::to_multiset_build, vstd::seq_lib::to_multiset_insert;
    let ghost input = strings_view(v@);
    let mut keys: Vec<Vec<char>> = Vec::new();
    let mut i: usize = 0;
    assert(input.take(0) =~= Seq::<Seq<char>>::empty());
    assert(keys.deep_view() =~= input.take(0));
    while i < v.len()
        invariant
            i <= v@.len(),
            input == strings_view(v@),
            strs_nondecreasing(keys.deep_view()),
            keys.deep_view().to_multiset() == input.take(i as int).to_multiset(),
        decreases v.len() - i,
    {
        let key = chars_of(v[i].as_str());
        proof {
            lemma_keys_view(&keys);
        }
        let ghost kv = keys.deep_view();
        let mut p = keys.len();
        while p > 0 && chars_lt(key.as_slice(), keys[p - 1].as_slice())
            invariant
                p <= kv.len(),
                kv == keys.deep_view(),
                kv.len() == keys@.len(),
                forall|k: int| 0 <= k < keys@.len() ==> #[trigger] kv[k] == keys@[k]@,
                forall|k: int| p <= k < kv.len() ==> seq_lt(key@, #[trigger] kv[k]),
            decreases p,
        {
            p -= 1;
        }
        let ghost keyv = key@;
        keys.insert(p, key);
        proof {
            lemma_keys_view(&keys);
            assert(keys.deep_view() =~= kv.insert(p as int, keyv));
            let t = kv.insert(p as int, keyv);
            assert forall|a: int, b: int| 0 <= a < b < t.len() implies !seq_lt(
                #[trigger] t[b],
                #[trigger] t[a],
            ) by {
                if a < p && b == p {
                    if seq_lt(keyv, kv[a]) {
                        lemma_seq_lt_total(keyv, kv[p - 1]);
                        if a < p - 1 {
                            lemma_seq_lt_total(kv[a], kv[p - 1]);
                            if seq_lt(kv[a], kv[p - 1]) {
                                lemma_seq_lt_transitive(keyv, kv[a], kv[p - 1]);
                            }
                        }
                    }
                } else if a == p && b > p {
                    assert(t[b] == kv[b - 1]);
                    if seq_lt(kv[b - 1], keyv) {
                        lemma_seq_lt_transitive(keyv, kv[b - 1], keyv);
                        lemma_seq_lt_irreflexive(keyv);
                    }
                } else if a < p && b > p {
                    assert(t[b] == kv[b - 1]);
                } else if a > p {
                    assert(t[a] == kv[a - 1]);
                    assert(t[b] == kv[b - 1]);
                }
            }
            assert(input.take(i + 1) =~= input.take(i as int).push(input[i as int]));
            assert(input[i as int] == keyv);
            vstd::seq_lib::to_multiset_insert(kv, p as int, keyv);
            vstd::seq_lib::to_multiset_build(input.take(i as int), keyv);
        }
        i += 1;
    }
    assert(input.take(v@.len() as int) =~= input);
    proof {
        lemma_keys_view(&keys);
    }
    let mut out: Vec<String> = Vec::new();
    let mut k: usize = 0;
    while k < keys.len()
        invariant
            k <= keys@.len(),
            keys.deep_view().len() == keys@.len(),
            forall|j: int| 0 <= j < keys@.len() ==> #[trigger] keys.deep_view()[j] == keys@[j]@,
            strings_view(out@) == keys.deep_view().take(k as int),
        decreases keys.len() - k,
    {
        let ghost before = out@;
        let st = string_of(&keys[k]);
        out.push(st);
        assert(strings_view(out@) =~= strings_view(before).push(st@));
        assert(strings_view(out@) =~= keys.deep_view().take(k + 1));
        k += 1;
    }
    assert(keys.deep_view().take(keys@.len() as int) =~= keys.deep_view());
    out
}

/// Strings ordered, duplicates removed.
pub fn sort_dedup_strings(v: &Vec<String>) -> (r: Vec<String>)
    ensures
        sorted_strs(strings_view(r@)),
        strings_view(r@).to_set() == strings_view(v@).to_set(),
{
    let ghost input = strings_view(v@);
    let mut keys: Vec<Vec<char>> = Vec::new();
    let mut i: usize = 0;
    assert(input.take(0).to_set() =~= Set::<Seq<char>>::empty());
    assert(keys.deep_view().to_set() =~= Set::<Seq<char>>::empty());
    while i < v.len()
        invariant
            i <= v@.len(),
            input == strings_view(v@),
            sorted_strs(keys.deep_view()),
            keys.deep_view().to_set() == input.take(i as int).to_set(),
        decreases v.len() - i,
    {
        let key = chars_of(v[i].as_str());
        insert_sorted_str(&mut keys, key);
        assert(input.take(i + 1) =~= input.take(i as int).push(input[i as int]));
        proof {
            input.take(i as int).lemma_push_to_set_commute(input[i as int]);
        }
        i += 1;
    }
    assert(input.take(v@.len() as int) =~= input);
    proof {
        lemma_keys_view(&keys);
    }
    let mut out: Vec<String> = Vec::new();
    let mut k: usize = 0;
    while k < keys.len()
        invariant
            k <= keys@.len(),
            keys.deep_view().len() == keys@.len(),
            forall|j: int| 0 <= j < keys@.len() ==> #[trigger] keys.deep_view()[j] == keys@[j]@,
            strings_view(out@) == keys.deep_view().take(k as int),
        decreases keys.len() - k,
    {
        let ghost before = out@;
        let st = string_of(&keys[k]);
        out.push(st);
        assert(strings_view(out@) =~= strings_view(before).push(st@));
        assert(strings_view(out@) =~= keys.deep_view().take(k + 1));
        k += 1;
    }
    assert(keys.deep_view().take(keys@.len() as int) =~= keys.deep_view());
    out
}

/// Puts what the directory walk found in the scan's order: files by path,
/// the notes among them, directories without duplicates, skipped directories.
pub fn finish_scan(files: Vec<Entry>, dirs: Vec<String>, skipped: Vec<String>) -> (r: Scan)
    ensures
        r.files@ == stable_sort(files@),
        r.notes@ == note_indices(r.files@),
        sorted_strs(strings_view(r.dirs@)),
        strings_view(r.dirs@).to_set() == strings_view(dirs@).to_set(),
        strs_nondecreasing(strings_view(r.skipped@)),
        strings_view(r.skipped@).to_multiset() == strings_view(skipped@).to_multiset(),
{
    let files = sort_entries(files);
    let notes = notes_of(&files);
    let dirs = sort_dedup_strings(&dirs);
    let skipped = sort_strings(skipped);
    Scan { files, notes, dirs, skipped }
}

/// `e` with its path made relative to the content prefix.
pub open spec fn rebased(e: Entry, f: Entry, prefix: Seq<char>) -> bool {
    f.rel@ == strip_prefix_of(e.rel@, prefix) && f.abs == e.abs && f.size == e.size
}

/// The directories relative to the content prefix, the root itself left out.
pub open spec fn rebased_dirs(dirs: Seq<Seq<char>>, prefix: Seq<char>) -> Set<Seq<char>> {
    Set::new(
        |d: Seq<char>|
            d.len() > 0 && exists|k: int|
                0 <= k < dirs.len() && d == strip_prefix_of(#[trigger] dirs[k], prefix),
    )
}

/// Makes every path of a scan relative to the content prefix (say `brains`)
/// and restores the scan's order; without a prefix the scan is unchanged.
pub fn rebase_scan(sc: Scan, prefix: &str) -> (r: Scan)
    ensures
        trim_char(prefix@, '/').len() == 0 ==> r == sc,
        trim_char(prefix@, '/').len() > 0 ==> {
            &&& exists|moved: Seq<Entry>|
                moved.len() == sc.files@.len() && (forall|i: int|
                    0 <= i < moved.len() ==> rebased(sc.files@[i], #[trigger] moved[i], prefix@))
                    && r.files@ == stable_sort(moved)
            &&& r.notes@ == note_indices(r.files@)
            &&& sorted_strs(strings_view(r.dirs@))
            &&& strings_view(r.dirs@).to_set() == rebased_dirs(strings_view(sc.dirs@), prefix@)
            &&& r.skipped == sc.skipped
        },
{
    let pv = chars_of(prefix);
    let p = trim_char_vec(&pv, '/');
    if p.len() == 0 {
        return sc;
    }
    let Scan { files, notes, dirs, skipped } = sc;
    let ghost input = files@;
    let mut rest = files;
    let mut moved: Vec<Entry> = Vec::new();
    let ghost mut i: int = 0;
    assert(input.skip(0) =~= input);
    while rest.len() > 0
        invariant
            0 <= i <= input.len(),
            rest@ == input.skip(i),
            moved@.len() == i,
            forall|k: int| 0 <= k < i ==> rebased(input[k], #[trigger] moved@[k], prefix@),
        decreases rest.len(),
    {
        let e = rest.remove(0);
        assert(e == input[i]);
        let Entry { rel, abs, size } = e;
        let nrel = strip_content_prefix(rel.as_str(), prefix);
        moved.push(Entry { rel: nrel, abs, size });
        proof {
            assert(input.skip(i + 1) =~= input.skip(i).drop_first());
            i = i + 1;
        }
    }
    let ghost mv = moved@;
    let files = sort_entries(moved);
    let notes = notes_of(&files);
    let mut stripped: Vec<String> = Vec::new();
    let ghost dv = strings_view(dirs@);
    let mut k: usize = 0;
    while k < dirs.len()
        invariant
            k <= dirs@.len(),
            dv == strings_view(dirs@),
            forall|j: int| 0 <= j < stripped@.len() ==> #[trigger] stripped@[j]@.len() > 0,
            strings_view(stripped@).to_set() == Set::new(
                |d: Seq<char>|
                    d.len() > 0 && exists|m: int|
                        0 <= m < k && d == strip_prefix_of(#[trigger] dv[m], prefix@),
            ),
        decreases dirs.len() - k,
    {
        let d = strip_content_prefix(dirs[k].as_str(), prefix);
        let ghost before = strings_view(stripped@);
        if d.as_str().is_empty() {
            assert(strings_view(stripped@).to_set() =~= Set::new(
                |x: Seq<char>|
                    x.len() > 0 && exists|m: int|
                        0 <= m < k + 1 && x == strip_prefix_of(#[trigger] dv[m], prefix@),
            )) by {
                assert forall|x: Seq<char>|
                    x.len() > 0 && (exists|m: int|
                        0 <= m < k + 1 && x == strip_prefix_of(#[trigger] dv[m], prefix@)) implies
                    strings_view(stripped@).to_set().contains(x) by {
                    let m = choose|m: int| 0 <= m < k + 1 && x == strip_prefix_of(#[trigger] dv[m], prefix@);
                    assert(m < k);
                }
            }
        } else {
            let ghost dd = d@;
            stripped.push(d);
            assert(strings_view(stripped@) =~= before.push(dd));
            assert(strings_view(stripped@).to_set() =~= Set::new(
                |x: Seq<char>|
                    x.len() > 0 && exists|m: int|
                        0 <= m < k + 1 && x == strip_prefix_of(#[trigger] dv[m], prefix@),
            )) by {
                assert forall|x: Seq<char>|
                    x.len() > 0 && (exists|m: int|
                        0 <= m < k + 1 && x == strip_prefix_of(#[trigger] dv[m], prefix@)) implies
                    strings_view(stripped@).to_set().contains(x) by {
                    let m = choose|m: int| 0 <= m < k + 1 && x == strip_prefix_of(#[trigger] dv[m], prefix@);
                    if m == k {
                        assert(strings_view(stripped@)[before.len() as int] == x);
                    } else {
                        assert(before.to_set().contains(x));
                        let j = choose|j: int| 0 <= j < before.len() && before[j] == x;
                        assert(strings_view(stripped@)[j] == x);
                    }
                }
                assert forall|x: Seq<char>| strings_view(stripped@).to_set().contains(x) implies
                    x.len() > 0 && (exists|m: int|
                        0 <= m < k + 1 && x == strip_prefix_of(#[trigger] dv[m], prefix@)) by {
                    let j = choose|j: int| 0 <= j < strings_view(stripped@).len() && strings_view(stripped@)[j] == x;
                    if j < before.len() {
                        assert(before[j] == x);
                        assert(before.to_set().contains(x));
                    } else {
                        assert(x == dd);
                        assert(strip_prefix_of(dv[k as int], prefix@) == dd);
                    }
                }
            }
        }
        k += 1;
    }
    assert(strings_view(stripped@).to_set() =~= rebased_dirs(dv, prefix@));
    let dirs = sort_dedup_strings(&stripped);
    Scan { files, notes, dirs, skipped }
}

} // verus!
