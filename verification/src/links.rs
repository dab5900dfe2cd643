//! Markdown link extraction, resolution and rewriting (the normalisation rules
//! applied to the staging tree).

use std::collections::BTreeSet;
use vstd::prelude::*;
use vstd::std_specs::btree::{increasing_seq, spec_btree_keys_iter};
use vstd::std_specs::cmp::OrdSpec;
use vstd::std_specs::iter::IteratorSpec;
use vstd::string::StringSliceAdditionalSpecFns;
use vstd::utf8::*;
use crate::strs::{
    count_of, index_of, lower_all, lowercase_of, lowercase_vec, find_key, count_key,
    lemma_index_of, to_lowercase, chars_eq, chars_of, copy_vec, decimal, find, find_char,
    has_prefix, lead_count, lemma_find, lemma_lead_count_bound, lemma_rfind, occurs_at,
    push_decimal, push_str, rfind, rfind_char, slice_vec, split, starts_with, string_of,
    trail_count, trim_end_by, trim_start_by, find_sub, find_sub_from, find_sub_vec,
    find_sub_from_vec, lemma_find_sub_from, join,
};
use crate::text::{
    basename, basename_of, dirname, dirname_of, encode_char, encode_chars, extension, extension_of,
    nfc, nfc_of, normalize_rel_path, normalized, pct_decode, percent_decode, strings_view,
    utf8_lossy, with_extension, with_extension_of, kept_segment, norm_step, norm_stack,
    lemma_norm_fixed, lemma_split_join, law_decode_undoes_encode,
};

verus! {

// ---------------------------------------------------------------------------
// Link targets and records
// ---------------------------------------------------------------------------
/// What a link points at inside the repository.
#[derive(Debug, Clone, PartialEq, Eq)]
pub enum Kind {
    /// A note page (index into the notes array).
    Note(usize),
    /// A section page (the section directory).
    Section(String),
    /// A repository file that is not a note (an image and so on).
    Asset(String),
    /// A URL outside the repository.
    External,
    /// An anchor on the same page (`#...`).
    Anchor,
    /// Resolution failed.
    Unresolved,
}

/// The mathematical view of a [`Kind`].
pub enum KindView {
    Note(nat),
    Section(Seq<char>),
    Asset(Seq<char>),
    External,
    Anchor,
    Unresolved,
}

impl View for Kind {
    type V = KindView;

    open spec fn view(&self) -> KindView {
        match self {
            Kind::Note(i) => KindView::Note(*i as nat),
            Kind::Section(s) => KindView::Section(s@),
            Kind::Asset(s) => KindView::Asset(s@),
            Kind::External => KindView::External,
            Kind::Anchor => KindView::Anchor,
            Kind::Unresolved => KindView::Unresolved,
        }
    }
}

/// One link found in a note.
#[derive(Debug, Clone)]
pub struct LinkRecord {
    /// 1-based line of the link destination.
    pub line: usize,
    /// Number of spaces and tabs that open that line.
    pub indent: usize,
    /// Whether the line is a list item (`- `, `* `, `+ `).
    pub bullet: bool,
    /// The destination as written.
    pub raw: String,
    pub kind: Kind,
}

/// Counters of a rewriting run.
#[derive(Debug, Clone)]
pub struct Stats {
    /// Inline links scanned (`](...)` form).
    pub inline_total: usize,
    /// Links skipped because they sit in a code fence.
    pub in_fence_skipped: usize,
    /// URLs outside the repository.
    pub external: usize,
    /// Page anchors.
    pub anchor: usize,
    /// Links resolved inside the repository (note, section or file).
    pub internal: usize,
    /// Links whose bytes changed.
    pub rewritten: usize,
    pub note_links: usize,
    pub section_links: usize,
    pub asset_links: usize,
    /// Fixed by the case-insensitive fallback.
    pub case_fixed: usize,
    /// Resolved only after `%XX` decoding.
    pub percent_decoded: usize,
    /// Recovered because the basename is unique in the repository.
    pub recovered_basename: usize,
    /// Recovered by correcting the extension.
    pub ext_swap: usize,
    /// Failures (`path:line -> target`).
    pub unresolved: Vec<String>,
    /// Recoveries, for a human to check.
    pub recovered: Vec<String>,
}

/// The mathematical view of [`Stats`].
pub struct StatsView {
    pub inline_total: nat,
    pub in_fence_skipped: nat,
    pub external: nat,
    pub anchor: nat,
    pub internal: nat,
    pub rewritten: nat,
    pub note_links: nat,
    pub section_links: nat,
    pub asset_links: nat,
    pub case_fixed: nat,
    pub percent_decoded: nat,
    pub recovered_basename: nat,
    pub ext_swap: nat,
    pub unresolved: Seq<Seq<char>>,
    pub recovered: Seq<Seq<char>>,
}

impl View for Stats {
    type V = StatsView;

    open spec fn view(&self) -> StatsView {
        StatsView {
            inline_total: self.inline_total as nat,
            in_fence_skipped: self.in_fence_skipped as nat,
            external: self.external as nat,
            anchor: self.anchor as nat,
            internal: self.internal as nat,
            rewritten: self.rewritten as nat,
            note_links: self.note_links as nat,
            section_links: self.section_links as nat,
            asset_links: self.asset_links as nat,
            case_fixed: self.case_fixed as nat,
            percent_decoded: self.percent_decoded as nat,
            recovered_basename: self.recovered_basename as nat,
            ext_swap: self.ext_swap as nat,
            unresolved: strings_view(self.unresolved@),
            recovered: strings_view(self.recovered@),
        }
    }
}

/// The `src:line -> raw` line that reports a link.
pub open spec fn report_line(src: Seq<char>, line: nat, raw: Seq<char>) -> Seq<char> {
    src + seq![':'] + decimal(line) + seq![' ', '-', '>', ' '] + raw
}

impl StatsView {
    /// Every counter can still grow by `k`.
    pub open spec fn headroom(self, k: nat) -> bool {
        &&& self.inline_total + k <= usize::MAX
        &&& self.in_fence_skipped + k <= usize::MAX
        &&& self.external + k <= usize::MAX
        &&& self.anchor + k <= usize::MAX
        &&& self.internal + k <= usize::MAX
        &&& self.rewritten + k <= usize::MAX
        &&& self.note_links + k <= usize::MAX
        &&& self.section_links + k <= usize::MAX
        &&& self.asset_links + k <= usize::MAX
        &&& self.case_fixed + k <= usize::MAX
        &&& self.percent_decoded + k <= usize::MAX
        &&& self.recovered_basename + k <= usize::MAX
        &&& self.ext_swap + k <= usize::MAX
    }

    /// The counters after classifying one link of kind `k`.
    pub open spec fn recorded(self, src: Seq<char>, line: nat, raw: Seq<char>, k: KindView) -> Self {
        match k {
            KindView::Note(_) => StatsView {
                note_links: self.note_links + 1,
                internal: self.internal + 1,
                ..self
            },
            KindView::Section(_) => StatsView {
                section_links: self.section_links + 1,
                internal: self.internal + 1,
                ..self
            },
            KindView::Asset(_) => StatsView {
                asset_links: self.asset_links + 1,
                internal: self.internal + 1,
                ..self
            },
            KindView::External => StatsView { external: self.external + 1, ..self },
            KindView::Anchor => StatsView { anchor: self.anchor + 1, ..self },
            KindView::Unresolved => StatsView {
                unresolved: self.unresolved.push(report_line(src, line, raw)),
                ..self
            },
        }
    }

    /// The counters after a resolution that used the given fallbacks.
    pub open spec fn bumped(self, case_fixed: nat, recovered: nat, ext_swap: nat) -> Self {
        StatsView {
            case_fixed: self.case_fixed + case_fixed,
            recovered_basename: self.recovered_basename + recovered,
            ext_swap: self.ext_swap + ext_swap,
            ..self
        }
    }
}

impl Stats {
    /// All counters at zero, no lists.
    pub fn new() -> (r: Stats)
        ensures
            r@.inline_total == 0 && r@.in_fence_skipped == 0 && r@.external == 0 && r@.anchor == 0
                && r@.internal == 0 && r@.rewritten == 0 && r@.note_links == 0
                && r@.section_links == 0 && r@.asset_links == 0 && r@.case_fixed == 0
                && r@.percent_decoded == 0 && r@.recovered_basename == 0 && r@.ext_swap == 0,
            r@.unresolved.len() == 0 && r@.recovered.len() == 0,
    {
        Stats {
            inline_total: 0,
            in_fence_skipped: 0,
            external: 0,
            anchor: 0,
            internal: 0,
            rewritten: 0,
            note_links: 0,
            section_links: 0,
            asset_links: 0,
            case_fixed: 0,
            percent_decoded: 0,
            recovered_basename: 0,
            ext_swap: 0,
            unresolved: Vec::new(),
            recovered: Vec::new(),
        }
    }

    /// Counts one classified link; a failure is listed as `src:line -> raw`.
    fn record(&mut self, src: &str, line: usize, raw: &str, kind: &Kind)
        requires
            old(self)@.headroom(1),
        ensures
            final(self)@ == old(self)@.recorded(src@, line as nat, raw@, kind@),
    {
        match kind {
            Kind::Note(_) => {
                self.note_links += 1;
                self.internal += 1;
            },
            Kind::Section(_) => {
                self.section_links += 1;
                self.internal += 1;
            },
            Kind::Asset(_) => {
                self.asset_links += 1;
                self.internal += 1;
            },
            Kind::External => self.external += 1,
            Kind::Anchor => self.anchor += 1,
            Kind::Unresolved => {
                let mut s = String::new();
                push_str(&mut s, src);
                s.push(':');
                push_decimal(&mut s, line);
                push_str(&mut s, " -> ");
                proof {
                    reveal_strlit(" -> ");
                }
                push_str(&mut s, raw);
                assert(s@ =~= report_line(src@, line as nat, raw@));
                let ghost before = self.unresolved@;
                self.unresolved.push(s);
                assert(strings_view(self.unresolved@) =~= strings_view(before).push(
                    report_line(src@, line as nat, raw@),
                ));
            },
        }
    }
}

impl Default for Stats {
    fn default() -> (r: Stats)
        ensures
            r@.inline_total == 0 && r@.in_fence_skipped == 0 && r@.external == 0 && r@.anchor == 0
                && r@.internal == 0 && r@.rewritten == 0 && r@.note_links == 0
                && r@.section_links == 0 && r@.asset_links == 0 && r@.case_fixed == 0
                && r@.percent_decoded == 0 && r@.recovered_basename == 0 && r@.ext_swap == 0,
            r@.unresolved.len() == 0 && r@.recovered.len() == 0,
    {
        Stats::new()
    }
}

// ---------------------------------------------------------------------------
// Small path rules
// ---------------------------------------------------------------------------
pub open spec fn is_char(c: char) -> spec_fn(char) -> bool {
    |x: char| x == c
}

/// `s` with every leading and trailing `c` removed (`trim_matches`).
pub open spec fn trim_char(s: Seq<char>, c: char) -> Seq<char> {
    trim_end_by(trim_start_by(s, is_char(c)), is_char(c))
}

/// Index just past the run of `c` that starts at `from`.
pub fn skip_char(s: &[char], from: usize, c: char) -> (r: usize)
    requires
        from <= s@.len(),
    ensures
        r == from + lead_count(s@.skip(from as int), is_char(c)),
        r <= s@.len(),
{
    let mut i = from;
    while i < s.len() && s[i] == c
        invariant
            from <= i <= s@.len(),
            lead_count(s@.skip(from as int), is_char(c)) == (i - from) + lead_count(
                s@.skip(i as int),
                is_char(c),
            ),
        decreases s.len() - i,
    {
        assert(s@.skip(i as int).drop_first() =~= s@.skip(i + 1));
        i += 1;
    }
    proof {
        if i < s@.len() {
            assert(s@.skip(i as int)[0] == s@[i as int]);
        }
        assert(lead_count(s@.skip(i as int), is_char(c)) == 0);
    }
    i
}

/// End of the run of `c` that ends at `to`, scanning backwards.
pub fn skip_char_back(s: &[char], to: usize, c: char) -> (r: usize)
    requires
        to <= s@.len(),
    ensures
        r == to - trail_count(s@.take(to as int), is_char(c)),
{
    let mut i = to;
    while i > 0 && s[i - 1] == c
        invariant
            i <= to <= s@.len(),
            trail_count(s@.take(to as int), is_char(c)) == (to - i) + trail_count(
                s@.take(i as int),
                is_char(c),
            ),
        decreases i,
    {
        assert(s@.take(i as int).drop_last() =~= s@.take(i - 1));
        i -= 1;
    }
    proof {
        if i > 0 {
            assert(s@.take(i as int).last() == s@[i - 1]);
        }
        assert(trail_count(s@.take(i as int), is_char(c)) == 0);
    }
    i
}

/// `s` without leading occurrences of `c`.
pub fn trim_start_char(s: &[char], c: char) -> (r: Vec<char>)
    ensures
        r@ == trim_start_by(s@, is_char(c)),
{
    let a = skip_char(s, 0, c);
    assert(s@.skip(0) =~= s@);
    let r = slice_vec(s, a, s.len());
    assert(r@ =~= trim_start_by(s@, is_char(c)));
    r
}

/// `s` without trailing occurrences of `c`.
pub fn trim_end_char(s: &[char], c: char) -> (r: Vec<char>)
    ensures
        r@ == trim_end_by(s@, is_char(c)),
{
    let b = skip_char_back(s, s.len(), c);
    assert(s@.take(s@.len() as int) =~= s@);
    let r = slice_vec(s, 0, b);
    assert(r@ =~= trim_end_by(s@, is_char(c)));
    r
}

/// `s` without leading and trailing occurrences of `c`.
pub fn trim_char_vec(s: &[char], c: char) -> (r: Vec<char>)
    ensures
        r@ == trim_char(s@, c),
{
    let t = trim_start_char(s, c);
    trim_end_char(&t, c)
}

/// The path relative to the content root: `rel` without the `prefix`
/// directory (taken without surrounding slashes).
pub open spec fn strip_prefix_of(rel: Seq<char>, prefix: Seq<char>) -> Seq<char> {
    let p = trim_char(prefix, '/');
    if p.len() == 0 {
        rel
    } else if rel == p {
        Seq::empty()
    } else if starts_with(rel, p) && starts_with(rel.skip(p.len() as int), seq!['/']) {
        trim_start_by(rel.skip(p.len() as int), is_char('/'))
    } else {
        rel
    }
}

fn strip_prefix_vec(rel: &[char], prefix: &[char]) -> (r: Vec<char>)
    ensures
        r@ == strip_prefix_of(rel@, prefix@),
{
    let p = trim_char_vec(prefix, '/');
    if p.len() == 0 {
        return copy_vec(rel);
    }
    if chars_eq(rel, &p) {
        return Vec::new();
    }
    if has_prefix(rel, &p) {
        let rest = slice_vec(rel, p.len(), rel.len());
        assert(rest@ =~= rel@.skip(p@.len() as int));
        if rest.len() > 0 && rest[0] == '/' {
            assert(starts_with(rest@, seq!['/'])) by {
                assert(rest@.take(1) =~= seq!['/']);
            }
            return trim_start_char(&rest, '/');
        }
        proof {
            if starts_with(rest@, seq!['/']) {
                assert(rest@.take(1)[0] == '/');
            }
        }
    }
    copy_vec(rel)
}

/// Removes the directory prefix (say `brains`) under which the notes live, so
/// that site URLs do not change when notes move below it. Without a prefix,
/// or when it does not match, the path comes back unchanged.
pub fn strip_content_prefix(rel: &str, prefix: &str) -> (r: String)
    ensures
        r@ == strip_prefix_of(rel@, prefix@),
{
    let rv = chars_of(rel);
    let pv = chars_of(prefix);
    let out = strip_prefix_vec(&rv, &pv);
    string_of(&out)
}

/// The staged path of a note: `index.md` becomes `_index.md` so that the site
/// generator treats the directory as a section page.
pub open spec fn staged_path_of(rel: Seq<char>) -> Seq<char> {
    if basename_of(rel) == "index.md"@ {
        if dirname_of(rel).len() == 0 {
            "_index.md"@
        } else {
            dirname_of(rel) + "/_index.md"@
        }
    } else {
        rel
    }
}

pub fn staged_path_for_note(rel: &str) -> (r: String)
    ensures
        r@ == staged_path_of(rel@),
{
    let b = basename(rel);
    let bv = chars_of(b);
    let idx = chars_of("index.md");
    if chars_eq(&bv, &idx) {
        let d = dirname(rel);
        let dv = chars_of(d);
        if dv.len() == 0 {
            String::from_str("_index.md")
        } else {
            let mut s = string_of(&dv);
            push_str(&mut s, "/_index.md");
            s
        }
    } else {
        String::from_str(rel)
    }
}

/// The UTF-8 bytes of a page file name, minus its 3-byte `.md` suffix, can be
/// cut there: what `&b[..b.len() - 3]` needs.
pub open spec fn md_stem_cut_ok(b: Seq<char>) -> bool {
    b == "_index.md"@ || (3 <= encode_utf8(b).len() && is_char_boundary(
        encode_utf8(b),
        encode_utf8(b).len() - 3,
    ))
}

/// The page file of a staged note: `_index.md` → `index.html`, otherwise the
/// name without its last three bytes, plus `.html`.
pub open spec fn page_file_of(b: Seq<char>) -> Seq<char> {
    if b == "_index.md"@ {
        "index.html"@
    } else {
        decode_utf8(encode_utf8(b).take(encode_utf8(b).len() - 3)) + ".html"@
    }
}

/// The page path of a staged note, as site-root components.
pub open spec fn page_components_of(staged: Seq<char>) -> Seq<Seq<char>> {
    let d = dirname_of(staged);
    if d.len() == 0 {
        seq![page_file_of(basename_of(staged))]
    } else {
        split(d, '/').push(page_file_of(basename_of(staged)))
    }
}

/// Splits `s` at every `c` into owned strings.
pub fn split_strings(s: &[char], c: char) -> (r: Vec<String>)
    ensures
        strings_view(r@) == split(s@, c),
{
    let mut out: Vec<String> = Vec::new();
    let mut cur: Vec<char> = Vec::new();
    let ghost mut done: Seq<Seq<char>> = Seq::empty();
    assert(s@.take(0) =~= Seq::<char>::empty());
    assert(split(s@.take(0), c) =~= seq![Seq::<char>::empty()]);
    let mut i: usize = 0;
    while i < s.len()
        invariant
            i <= s@.len(),
            split(s@.take(i as int), c) == done.push(cur@),
            strings_view(out@) == done,
        decreases s.len() - i,
    {
        let ch = s[i];
        proof {
            crate::strs::lemma_split_push(s@.take(i as int), ch, c);
            assert(s@.take(i + 1) =~= s@.take(i as int).push(ch));
            assert(done.push(cur@).drop_last() =~= done);
        }
        if ch == c {
            let ghost segv = cur@;
            let ghost before = out@;
            out.push(string_of(&cur));
            assert(strings_view(out@) =~= strings_view(before).push(segv));
            cur = Vec::new();
            proof {
                done = done.push(segv);
            }
            assert(split(s@.take(i + 1), c) =~= done.push(cur@));
        } else {
            cur.push(ch);
            assert(split(s@.take(i + 1), c) =~= done.push(cur@));
        }
        i += 1;
    }
    let ghost before = out@;
    let ghost last = cur@;
    out.push(string_of(&cur));
    assert(strings_view(out@) =~= strings_view(before).push(last));
    assert(s@.take(s@.len() as int) =~= s@);
    out
}

fn page_file(b: &str) -> (r: String)
    requires
        md_stem_cut_ok(b@),
    ensures
        r@ == page_file_of(b@),
{
    let bv = chars_of(b);
    let iv = chars_of("_index.md");
    if chars_eq(&bv, &iv) {
        String::from_str("index.html")
    } else {
        let n = b.as_bytes().len();
        assert(b.spec_bytes() == encode_utf8(b@));
        let (stem, _) = b.split_at(n - 3);
        proof {
            encode_utf8_decode_utf8(stem@);
        }
        let mut s = String::from_str(stem);
        push_str(&mut s, ".html");
        s
    }
}

/// The page path of a staged note as site-root components: the directories
/// and then the page file (`_index.md` → `index.html`, `x.md` → `x.html`).
pub fn page_components_for_note(staged: &str) -> (r: Vec<String>)
    requires
        md_stem_cut_ok(basename_of(staged@)),
    ensures
        strings_view(r@) == page_components_of(staged@),
{
    let b = basename(staged);
    let file = page_file(b);
    let d = dirname(staged);
    let dv = chars_of(d);
    let mut v: Vec<String> = if dv.len() == 0 {
        Vec::new()
    } else {
        split_strings(&dv, '/')
    };
    let ghost before = v@;
    let ghost fv = file@;
    v.push(file);
    assert(strings_view(v@) =~= strings_view(before).push(fv));
    proof {
        if dv@.len() == 0 {
            assert(strings_view(before) =~= Seq::<Seq<char>>::empty());
        }
    }
    assert(strings_view(v@) =~= page_components_of(staged@));
    v
}

// ---------------------------------------------------------------------------
// Relative URLs
// ---------------------------------------------------------------------------
/// How many leading elements `a` and `b` share, looking at no more than
/// `limit` of them.
pub open spec fn common_prefix_len(a: Seq<Seq<char>>, b: Seq<Seq<char>>, limit: int) -> nat
    decreases limit,
{
    if limit <= 0 || a.len() == 0 || b.len() == 0 || a[0] != b[0] {
        0
    } else {
        1 + common_prefix_len(a.drop_first(), b.drop_first(), limit - 1)
    }
}

/// The pieces of the relative URL: `..` for each directory left, then the
/// encoded remaining components of the target.
pub open spec fn relative_parts(from_page: Seq<Seq<char>>, to: Seq<Seq<char>>) -> Seq<Seq<char>> {
    let from_dir = if from_page.len() == 0 {
        from_page
    } else {
        from_page.drop_last()
    };
    let to_dir_len = if to.len() == 0 {
        0
    } else {
        to.len() - 1
    };
    let common = common_prefix_len(from_dir, to, to_dir_len);
    Seq::new((from_dir.len() - common) as nat, |k: int| seq!['.', '.']) + to.skip(
        common as int,
    ).map_values(|c: Seq<char>| encode_chars(c))
}

/// The URL of `to` relative to the page `from_page`, with `fragment` appended.
pub open spec fn relative_url_of(
    from_page: Seq<Seq<char>>,
    to: Seq<Seq<char>>,
    fragment: Seq<char>,
) -> Seq<char> {
    let parts = relative_parts(from_page, to);
    (if parts.len() == 0 {
        seq!['.']
    } else {
        crate::strs::join(parts, seq!['/'])
    }) + fragment
}

proof fn lemma_common_prefix(a: Seq<Seq<char>>, b: Seq<Seq<char>>, limit: int, k: int)
    requires
        0 <= k,
        k <= limit,
        k <= a.len(),
        k <= b.len(),
        forall|j: int| 0 <= j < k ==> a[j] == b[j],
    ensures
        common_prefix_len(a, b, limit) == k + common_prefix_len(a.skip(k), b.skip(k), limit - k),
    decreases k,
{
    if k > 0 {
        assert(a[0] == b[0]);
        assert forall|j: int| 0 <= j < k - 1 implies a.drop_first()[j] == b.drop_first()[j] by {
            assert(a.drop_first()[j] == a[j + 1]);
            assert(b.drop_first()[j] == b[j + 1]);
        }
        lemma_common_prefix(a.drop_first(), b.drop_first(), limit - 1, k - 1);
        assert(a.drop_first().skip(k - 1) =~= a.skip(k));
        assert(b.drop_first().skip(k - 1) =~= b.skip(k));
    } else {
        assert(a.skip(0) =~= a);
        assert(b.skip(0) =~= b);
    }
}

/// How a browser follows relative URL pieces from directory `dir`: `..`
/// goes up (not above the root), any other piece goes down.
pub open spec fn follow(dir: Seq<Seq<char>>, parts: Seq<Seq<char>>) -> Seq<Seq<char>>
    decreases parts.len(),
{
    if parts.len() == 0 {
        dir
    } else {
        let d = follow(dir, parts.drop_last());
        if parts.last() == seq!['.', '.'] {
            if d.len() > 0 {
                d.drop_last()
            } else {
                d
            }
        } else {
            d.push(parts.last())
        }
    }
}

proof fn lemma_common_bound(a: Seq<Seq<char>>, b: Seq<Seq<char>>, limit: int)
    ensures
        common_prefix_len(a, b, limit) <= a.len(),
        common_prefix_len(a, b, limit) <= b.len(),
        limit >= 0 ==> common_prefix_len(a, b, limit) <= limit,
        forall|j: int| 0 <= j < common_prefix_len(a, b, limit) ==> #[trigger] a[j] == b[j],
    decreases limit,
{
    if !(limit <= 0 || a.len() == 0 || b.len() == 0 || a[0] != b[0]) {
        lemma_common_bound(a.drop_first(), b.drop_first(), limit - 1);
        assert forall|j: int| 0 <= j < common_prefix_len(a, b, limit) implies #[trigger] a[j] == b[j] by {
            if j > 0 {
                assert(a[j] == a.drop_first()[j - 1]);
                assert(b[j] == b.drop_first()[j - 1]);
            }
        }
    }
}

proof fn lemma_follow_concat(dir: Seq<Seq<char>>, a: Seq<Seq<char>>, b: Seq<Seq<char>>)
    ensures
        follow(dir, a + b) == follow(follow(dir, a), b),
    decreases b.len(),
{
    if b.len() == 0 {
        assert(a + b =~= a);
    } else {
        lemma_follow_concat(dir, a, b.drop_last());
        assert((a + b).drop_last() =~= a + b.drop_last());
    }
}

proof fn lemma_follow_up(dir: Seq<Seq<char>>, m: nat)
    requires
        m <= dir.len(),
    ensures
        follow(dir, Seq::new(m, |k: int| seq!['.', '.'])) == dir.take(dir.len() - m),
    decreases m,
{
    if m == 0 {
        assert(dir.take(dir.len() as int) =~= dir);
    } else {
        let ups = Seq::new(m, |k: int| seq!['.', '.']);
        assert(ups.drop_last() =~= Seq::new((m - 1) as nat, |k: int| seq!['.', '.']));
        lemma_follow_up(dir, (m - 1) as nat);
        assert(dir.take(dir.len() - (m - 1)).drop_last() =~= dir.take(dir.len() - m));
    }
}

proof fn lemma_follow_down(dir: Seq<Seq<char>>, names: Seq<Seq<char>>)
    requires
        forall|k: int| 0 <= k < names.len() ==> #[trigger] names[k] != seq!['.', '.'],
    ensures
        follow(dir, names) == dir + names,
    decreases names.len(),
{
    if names.len() == 0 {
        assert(dir + names =~= dir);
    } else {
        assert(names.last() == names[names.len() - 1]);
        lemma_follow_down(dir, names.drop_last());
        assert(dir + names =~= (dir + names.drop_last()).push(names.last()));
    }
}

proof fn lemma_encode_len(c: Seq<char>)
    ensures
        encode_chars(c).len() >= c.len(),
        encode_chars(c).len() == c.len() ==> encode_chars(c) == c,
    decreases c.len(),
{
    if c.len() > 0 {
        lemma_encode_len(c.drop_last());
        if encode_chars(c).len() == c.len() {
            assert(encode_chars(c.drop_last()).len() == c.drop_last().len());
            assert(encode_chars(c) =~= c.drop_last().push(c.last()));
            assert(c.drop_last().push(c.last()) =~= c);
        }
    }
}

/// The relative URL of a link leads to its target: following its pieces from
/// the directory of the linking page reaches the target's components (those
/// below the shared directories written percent-encoded), whatever the site's
/// base path. Components are never `..` (the paths are normalised).
pub proof fn law_relative_url_reaches_target(from_page: Seq<Seq<char>>, to: Seq<Seq<char>>)
    requires
        forall|k: int| 0 <= k < to.len() ==> #[trigger] to[k] != seq!['.', '.'],
    ensures
        ({
            let from_dir = if from_page.len() == 0 {
                from_page
            } else {
                from_page.drop_last()
            };
            let to_dir_len = if to.len() == 0 {
                0
            } else {
                to.len() - 1
            };
            let common = common_prefix_len(from_dir, to, to_dir_len) as int;
            follow(from_dir, relative_parts(from_page, to)) == to.take(common) + to.skip(
                common,
            ).map_values(|c: Seq<char>| encode_chars(c))
        }),
{
    let from_dir = if from_page.len() == 0 {
        from_page
    } else {
        from_page.drop_last()
    };
    let to_dir_len = if to.len() == 0 {
        0
    } else {
        to.len() - 1
    };
    let common = common_prefix_len(from_dir, to, to_dir_len);
    lemma_common_bound(from_dir, to, to_dir_len);
    let ups = Seq::new((from_dir.len() - common) as nat, |k: int| seq!['.', '.']);
    let rest = to.skip(common as int).map_values(|c: Seq<char>| encode_chars(c));
    lemma_follow_concat(from_dir, ups, rest);
    lemma_follow_up(from_dir, (from_dir.len() - common) as nat);
    assert forall|k: int| 0 <= k < rest.len() implies #[trigger] rest[k] != seq!['.', '.'] by {
        let c = to[common + k];
        lemma_encode_len(c);
        if rest[k] == seq!['.', '.'] {
            assert(rest[k] == encode_chars(c));
            if c.len() < 2 {
                if c.len() == 1 {
                    assert(c =~= seq![c[0]]);
                    assert(encode_chars(c) == encode_chars(c.drop_last()) + encode_char(c[0]));
                    assert(c.drop_last() =~= Seq::<char>::empty());
                }
                if c.len() == 0 {
                    assert(encode_chars(c).len() == 0);
                }
            }
            assert(c.len() == 2);
            assert(encode_chars(c) == c);
            assert(to[common + k] != seq!['.', '.']);
        }
    }
    lemma_follow_down(from_dir.take(common as int), rest);
    assert(from_dir.take(common as int) =~= to.take(common as int));
}

proof fn lemma_encode_chars_concat(a: Seq<char>, b: Seq<char>)
    ensures
        encode_chars(a + b) == encode_chars(a) + encode_chars(b),
    decreases b.len(),
{
    if b.len() == 0 {
        assert(a + b =~= a);
        assert(encode_chars(a) + encode_chars(b) =~= encode_chars(a));
    } else {
        lemma_encode_chars_concat(a, b.drop_last());
        assert((a + b).drop_last() =~= a + b.drop_last());
        assert((a + b).last() == b.last());
        assert(encode_chars(a + b) =~= encode_chars(a) + encode_chars(b));
    }
}

/// Text made of characters that are never escaped encodes to itself.
proof fn lemma_encode_plain(s: Seq<char>)
    requires
        forall|i: int| 0 <= i < s.len() ==> encode_char(#[trigger] s[i]) == seq![s[i]],
    ensures
        encode_chars(s) == s,
    decreases s.len(),
{
    if s.len() > 0 {
        lemma_encode_plain(s.drop_last());
        assert(encode_char(s[s.len() - 1]) == seq![s[s.len() - 1]]);
        assert(s.drop_last().push(s.last()) =~= s);
        assert(encode_chars(s) =~= s);
    }
}

proof fn lemma_encode_join(segs: Seq<Seq<char>>)
    ensures
        encode_chars(join(segs, seq!['/'])) == join(
            segs.map_values(|c: Seq<char>| encode_chars(c)),
            seq!['/'],
        ),
    decreases segs.len(),
{
    let m = segs.map_values(|c: Seq<char>| encode_chars(c));
    if segs.len() == 0 {
    } else if segs.len() == 1 {
        assert(m[0] == encode_chars(segs[0]));
    } else {
        lemma_encode_join(segs.drop_last());
        assert(m.drop_last() =~= segs.drop_last().map_values(|c: Seq<char>| encode_chars(c)));
        assert(m.last() == encode_chars(segs.last()));
        let j = join(segs.drop_last(), seq!['/']);
        lemma_encode_chars_concat(j + seq!['/'], segs.last());
        lemma_encode_chars_concat(j, seq!['/']);
        assert(encode_char('/') == seq!['/']);
        lemma_encode_plain(seq!['/']);
    }
}

proof fn lemma_join_concat(a: Seq<Seq<char>>, b: Seq<Seq<char>>)
    requires
        a.len() >= 1,
        b.len() >= 1,
    ensures
        join(a, seq!['/']) + seq!['/'] + join(b, seq!['/']) == join(a + b, seq!['/']),
    decreases b.len(),
{
    if b.len() == 1 {
        assert((a + b).drop_last() =~= a);
        assert((a + b).last() == b[0]);
    } else {
        lemma_join_concat(a, b.drop_last());
        assert((a + b).drop_last() =~= a + b.drop_last());
        assert((a + b).last() == b.last());
        assert(join(a, seq!['/']) + seq!['/'] + join(b, seq!['/']) =~= join(a, seq!['/'])
            + seq!['/'] + join(b.drop_last(), seq!['/']) + seq!['/'] + b.last());
    }
}

/// Normalisation continued from the stack `st` over further segments.
pub open spec fn norm_fold(st: Seq<Seq<char>>, segs: Seq<Seq<char>>) -> Seq<Seq<char>>
    decreases segs.len(),
{
    if segs.len() == 0 {
        st
    } else {
        norm_step(norm_fold(st, segs.drop_last()), segs.last())
    }
}

proof fn lemma_norm_fold_stack(segs: Seq<Seq<char>>)
    ensures
        norm_fold(Seq::empty(), segs) == norm_stack(segs),
    decreases segs.len(),
{
    if segs.len() > 0 {
        lemma_norm_fold_stack(segs.drop_last());
    }
}

proof fn lemma_norm_fold_concat(st: Seq<Seq<char>>, a: Seq<Seq<char>>, b: Seq<Seq<char>>)
    ensures
        norm_fold(st, a + b) == norm_fold(norm_fold(st, a), b),
    decreases b.len(),
{
    if b.len() == 0 {
        assert(a + b =~= a);
    } else {
        lemma_norm_fold_concat(st, a, b.drop_last());
        assert((a + b).drop_last() =~= a + b.drop_last());
        assert((a + b).last() == b.last());
    }
}

proof fn lemma_norm_up(st: Seq<Seq<char>>, m: nat)
    requires
        m <= st.len(),
    ensures
        norm_fold(st, Seq::new(m, |k: int| seq!['.', '.'])) == st.take(st.len() - m),
    decreases m,
{
    if m == 0 {
        assert(st.take(st.len() as int) =~= st);
    } else {
        let ups = Seq::new(m, |k: int| seq!['.', '.']);
        assert(ups.drop_last() =~= Seq::new((m - 1) as nat, |k: int| seq!['.', '.']));
        lemma_norm_up(st, (m - 1) as nat);
        assert(st.take(st.len() - (m - 1)).drop_last() =~= st.take(st.len() - m));
        assert(ups.last() == seq!['.', '.']);
    }
}

proof fn lemma_norm_down(st: Seq<Seq<char>>, names: Seq<Seq<char>>)
    requires
        forall|k: int| 0 <= k < names.len() ==> kept_segment(#[trigger] names[k]),
    ensures
        norm_fold(st, names) == st + names,
    decreases names.len(),
{
    if names.len() == 0 {
        assert(st + names =~= st);
    } else {
        assert(kept_segment(names[names.len() - 1]));
        lemma_norm_down(st, names.drop_last());
        assert(st + names =~= (st + names.drop_last()).push(names.last()));
    }
}

/// The relative URL, read as text, leads to its target: percent-decoded and
/// resolved against the directory of the linking page (`.`/`..` removed
/// lexically), it gives the target path. Paths here are non-empty lists of
/// ordinary names (no `/`, `.` or `..`, none empty).
pub proof fn law_relative_url_text_reaches_target(from_page: Seq<Seq<char>>, to: Seq<Seq<char>>)
    requires
        from_page.len() >= 1,
        to.len() >= 1,
        forall|k: int| 0 <= k < from_page.len() ==> kept_segment(#[trigger] from_page[k]),
        forall|k: int| 0 <= k < to.len() ==> kept_segment(#[trigger] to[k]),
    ensures
        ({
            let bytes = pct_decode(encode_utf8(relative_url_of(from_page, to, Seq::empty())));
            &&& valid_utf8(bytes)
            &&& normalized(
                join(from_page.drop_last(), seq!['/']) + seq!['/'] + decode_utf8(bytes),
            ) == join(to, seq!['/'])
        }),
{
    let f = from_page.drop_last();
    let tdl = (to.len() - 1) as int;
    let c = common_prefix_len(f, to, tdl) as int;
    lemma_common_bound(f, to, tdl);
    let m = (f.len() - c) as nat;
    let ups = Seq::new(m, |k: int| seq!['.', '.']);
    let rest = to.skip(c);
    let d = ups + rest;
    let parts = relative_parts(from_page, to);
    // the URL is the encoded decoded-path
    assert(parts =~= d.map_values(|x: Seq<char>| encode_chars(x))) by {
        assert forall|k: int| 0 <= k < d.len() implies parts[k] == encode_chars(#[trigger] d[k]) by {
            if k < m {
                assert(d[k] == seq!['.', '.']);
                assert(encode_char('.') == seq!['.']);
                lemma_encode_plain(seq!['.', '.']);
            } else {
                assert(d[k] == rest[k - m]);
            }
        }
    }
    assert(rest.len() >= 1);
    let url = relative_url_of(from_page, to, Seq::empty());
    assert(url =~= join(parts, seq!['/']));
    lemma_encode_join(d);
    law_decode_undoes_encode(join(d, seq!['/']));
    // the text to normalise
    let g = if f.len() == 0 {
        seq![Seq::<char>::empty()]
    } else {
        f
    };
    if f.len() == 0 {
        assert(join(f, seq!['/']) =~= Seq::<char>::empty());
        assert(join(g, seq!['/']) =~= Seq::<char>::empty());
    }
    lemma_join_concat(g, d);
    let all = g + d;
    assert forall|k: int, i: int| 0 <= k < all.len() && 0 <= i < all[k].len() implies #[trigger] all[k][i] != '/' by {
        if k < g.len() {
            if f.len() > 0 {
                assert(kept_segment(from_page[k]));
                assert(all[k] == from_page[k]);
            }
        } else if k < g.len() + m {
            assert(all[k] == seq!['.', '.']);
        } else {
            assert(all[k] == to[c + (k - g.len() - m)]);
            assert(kept_segment(to[c + (k - g.len() - m)]));
        }
    }
    lemma_split_join(all);
    // normalising: the directory, then `..` per level left, then the names
    lemma_norm_fold_stack(all);
    lemma_norm_fold_concat(Seq::empty(), g, d);
    lemma_norm_fold_concat(norm_fold(Seq::empty(), g), ups, rest);
    lemma_norm_fold_stack(g);
    if f.len() == 0 {
        assert(g.drop_last() =~= Seq::<Seq<char>>::empty());
        assert(g.last() == Seq::<char>::empty());
        assert(norm_stack(g.drop_last()) == Seq::<Seq<char>>::empty());
        assert(norm_stack(g) =~= Seq::<Seq<char>>::empty());
    } else {
        assert forall|k: int| 0 <= k < f.len() implies kept_segment(#[trigger] f[k]) by {
            assert(f[k] == from_page[k]);
        }
        lemma_norm_fixed(f);
    }
    assert(norm_fold(Seq::empty(), g) == f);
    lemma_norm_up(f, m);
    assert forall|k: int| 0 <= k < rest.len() implies kept_segment(#[trigger] rest[k]) by {
        assert(rest[k] == to[c + k]);
    }
    lemma_norm_down(f.take(c), rest);
    assert(f.take(c) + rest =~= to) by {
        assert forall|j: int| 0 <= j < c implies f.take(c)[j] == to[j] by {
            assert(f[j] == to[j]);
        }
    }
}

/// Builds the page-relative URL from `from_page` to `to`.
pub fn relative_url(from_page: &[String], to: &[String], fragment: &str) -> (r: String)
    ensures
        r@ == relative_url_of(strings_view(from_page@), strings_view(to@), fragment@),
{
    let ghost fp = strings_view(from_page@);
    let ghost tv = strings_view(to@);
    let from_len: usize = if from_page.len() == 0 {
        0
    } else {
        from_page.len() - 1
    };
    let ghost from_dir = if fp.len() == 0 {
        fp
    } else {
        fp.drop_last()
    };
    let to_dir_len: usize = if to.len() == 0 {
        0
    } else {
        to.len() - 1
    };
    let mut common: usize = 0;
    while common < from_len && common < to_dir_len && str_eq_at(from_page, to, common)
        invariant
            from_len == from_dir.len(),
            from_len <= from_page@.len(),
            to_dir_len <= to@.len(),
            to_dir_len == (if tv.len() == 0 {
                0
            } else {
                tv.len() - 1
            }),
            common <= from_len,
            common <= to_dir_len,
            forall|j: int| 0 <= j < common ==> from_dir[j] == tv[j],
            from_dir == (if fp.len() == 0 {
                fp
            } else {
                fp.drop_last()
            }),
            fp == strings_view(from_page@),
            tv == strings_view(to@),
        decreases from_len - common,
    {
        common += 1;
    }
    proof {
        lemma_common_prefix(from_dir, tv, to_dir_len as int, common as int);
        let a = from_dir.skip(common as int);
        let b = tv.skip(common as int);
        if common < from_len && common < to_dir_len {
            assert(a[0] == from_dir[common as int]);
            assert(b[0] == tv[common as int]);
        }
        assert(common_prefix_len(a, b, to_dir_len - common) == 0);
    }
    let mut parts: Vec<Vec<char>> = Vec::new();
    let mut k: usize = common;
    while k < from_len
        invariant
            common <= k <= from_len,
            parts.deep_view() == Seq::new((k - common) as nat, |j: int| seq!['.', '.']),
        decreases from_len - k,
    {
        let mut up: Vec<char> = Vec::new();
        up.push('.');
        up.push('.');
        let ghost before = parts.deep_view();
        assert(up.deep_view() =~= seq!['.', '.']);
        parts.push(up);
        assert(parts.deep_view() =~= before.push(seq!['.', '.']));
        assert(parts.deep_view() =~= Seq::new((k + 1 - common) as nat, |j: int| seq!['.', '.']));
        k += 1;
    }
    let ghost ups = parts.deep_view();
    let mut m: usize = common;
    while m < to.len()
        invariant
            common <= to_dir_len <= to@.len() || (to@.len() == 0 && common == 0),
            common <= m <= to@.len(),
            tv == strings_view(to@),
            parts.deep_view() == ups + tv.subrange(common as int, m as int).map_values(
                |c: Seq<char>| encode_chars(c),
            ),
        decreases to.len() - m,
    {
        let cv = chars_of(to[m].as_str());
        let e = crate::text::encode_vec(&cv);
        let ghost ev = e@;
        assert(e.deep_view() =~= ev);
        let ghost before = parts.deep_view();
        parts.push(e);
        assert(parts.deep_view() =~= before.push(ev));
        assert(tv.subrange(common as int, m + 1) =~= tv.subrange(common as int, m as int).push(
            tv[m as int],
        ));
        assert(parts.deep_view() =~= ups + tv.subrange(common as int, m + 1).map_values(
            |c: Seq<char>| encode_chars(c),
        ));
        m += 1;
    }
    proof {
        assert(tv.subrange(common as int, tv.len() as int) =~= tv.skip(common as int));
        assert(parts.deep_view() =~= relative_parts(fp, tv));
    }
    let mut out: Vec<char> = if parts.len() == 0 {
        let mut d: Vec<char> = Vec::new();
        d.push('.');
        assert(d@ =~= seq!['.']);
        d
    } else {
        let mut sep: Vec<char> = Vec::new();
        sep.push('/');
        assert(sep@ =~= seq!['/']);
        crate::strs::join_chars(&parts, &sep)
    };
    let fv = chars_of(fragment);
    out.extend_from_slice(&fv);
    string_of(&out)
}

fn str_eq_at(a: &[String], b: &[String], i: usize) -> (r: bool)
    requires
        i < a@.len(),
        i < b@.len(),
    ensures
        r == (a@[i as int]@ == b@[i as int]@),
{
    crate::strs::str_eq(a[i].as_str(), b[i].as_str())
}

// ---------------------------------------------------------------------------
// The resolver
// ---------------------------------------------------------------------------
/// Link resolver: indexes of the notes, files and directories.
pub struct Resolver {
    /// Directory prefix under which the notes live (empty when none).
    pub content_prefix: String,
    /// Repository-relative note paths (sorted, NFC), in note-index order.
    pub notes: Vec<String>,
    /// Staged paths of the notes (`index.md` → `_index.md`).
    pub staged_notes: Vec<String>,
    /// Site-root components of each note page.
    pub page_notes: Vec<Vec<String>>,
    /// Every file copied to the stage (sorted, NFC).
    pub files: Vec<String>,
    /// Every directory (sorted, NFC).
    pub dirs: Vec<String>,
    /// For each directory: whether it holds an `index.md` (a section page).
    index_dirs: Vec<bool>,
    note_keys: Vec<Vec<char>>,
    file_keys: Vec<Vec<char>>,
    dir_keys: Vec<Vec<char>>,
    lower_notes: Vec<Vec<char>>,
    lower_files: Vec<Vec<char>>,
    lower_dirs: Vec<Vec<char>>,
    lower_basenames: Vec<Vec<char>>,
}

/// Exact match first, then the case-insensitive fallback: `(index, by case)`.
pub open spec fn lookup_of(keys: Seq<Seq<char>>, path: Seq<char>) -> Option<(int, bool)> {
    match index_of(keys, path) {
        Some(i) => Some((i, false)),
        None => match index_of(lower_all(keys), lowercase_of(path)) {
            Some(i) => Some((i, true)),
            None => None,
        },
    }
}

/// The UTF-8 bytes of `s`, `%XX`-decoded and read back (lossy).
pub open spec fn percent_decoded(s: Seq<char>) -> Seq<char> {
    utf8_lossy(pct_decode(encode_utf8(s)))
}

/// `s` up to the first `c` (all of it when there is none).
pub open spec fn cut_at(s: Seq<char>, c: char) -> Seq<char> {
    match find(s, c) {
        Some(i) => s.take(i),
        None => s,
    }
}

/// The repository blob URL prefix that marks a link into this repository.
pub open spec fn blob_marker() -> Seq<char> {
    "github.com/rlaope/estudy/blob/master/"@
}

/// Whether `s` is an absolute URL (`http://`, `https://` or `//`).
pub open spec fn is_abs_url(s: Seq<char>) -> bool {
    starts_with(s, "http://"@) || starts_with(s, "https://"@) || starts_with(s, "//"@)
}

/// The repository path a destination names, before prefix stripping: `None`
/// when it leaves the repository.
pub open spec fn link_repo_path(raw: Seq<char>, src_rel: Seq<char>) -> Option<Seq<char>> {
    let path_part = cut_at(raw, '#');
    if is_abs_url(path_part) {
        match find_sub(path_part, blob_marker()) {
            None => None,
            Some(i) => Some(
                normalized(
                    percent_decoded(cut_at(path_part.skip(i + blob_marker().len()), '?')),
                ),
            ),
        }
    } else {
        let decoded = percent_decoded(cut_at(path_part, '?'));
        let joined = if starts_with(decoded, seq!['/']) {
            trim_start_by(decoded, is_char('/'))
        } else if dirname_of(src_rel).len() == 0 {
            decoded
        } else {
            dirname_of(src_rel) + seq!['/'] + decoded
        };
        Some(normalized(joined))
    }
}

/// Whether a destination is a same-page anchor (empty or `#...`).
pub open spec fn is_anchor_link(raw: Seq<char>) -> bool {
    raw.len() == 0 || raw[0] == '#'
}

/// Whether a destination uses a scheme that never names a file.
pub open spec fn is_scheme_link(raw: Seq<char>) -> bool {
    starts_with(raw, "data:"@) || starts_with(raw, "mailto:"@) || starts_with(raw, "tel:"@)
}

/// Counter increments of one resolution: (case fixes, basename recoveries,
/// extension swaps).
pub open spec fn flag(b: bool) -> nat {
    if b {
        1
    } else {
        0
    }
}

impl Resolver {
    pub closed spec fn notes_v(&self) -> Seq<Seq<char>> {
        strings_view(self.notes@)
    }

    pub closed spec fn prefix_v(&self) -> Seq<char> {
        self.content_prefix@
    }

    pub closed spec fn files_v(&self) -> Seq<Seq<char>> {
        strings_view(self.files@)
    }

    pub closed spec fn dirs_v(&self) -> Seq<Seq<char>> {
        strings_view(self.dirs@)
    }

    /// The staged note paths.
    pub closed spec fn staged_v(&self) -> Seq<Seq<char>> {
        strings_view(self.staged_notes@)
    }

    /// The note page components, as sequences.
    pub closed spec fn pages_v(&self) -> Seq<Seq<Seq<char>>> {
        self.page_notes@.map_values(|v: Vec<String>| strings_view(v@))
    }

    /// The internal indexes agree with the public lists.
    pub closed spec fn wf(&self) -> bool {
        &&& self.note_keys.deep_view() == self.notes_v()
        &&& self.file_keys.deep_view() == self.files_v()
        &&& self.dir_keys.deep_view() == self.dirs_v()
        &&& self.lower_notes.deep_view() == lower_all(self.notes_v())
        &&& self.lower_files.deep_view() == lower_all(self.files_v())
        &&& self.lower_dirs.deep_view() == lower_all(self.dirs_v())
        &&& self.lower_basenames.deep_view() == self.basename_keys()
        &&& self.index_dirs@.len() == self.dirs@.len()
        &&& forall|i: int|
            0 <= i < self.dirs@.len() ==> #[trigger] self.index_dirs@[i] == self.files_v().contains(
                self.dirs_v()[i] + "/index.md"@,
            )
        &&& self.page_notes@.len() == self.notes@.len()
        &&& self.staged_notes@.len() == self.notes@.len()
    }

    /// Lower-cased basenames of the files, in file order.
    pub open spec fn basename_keys(&self) -> Seq<Seq<char>> {
        self.files_v().map_values(|f: Seq<char>| lowercase_of(basename_of(f)))
    }

    pub open spec fn note_lookup(&self, path: Seq<char>) -> Option<(int, bool)> {
        lookup_of(self.notes_v(), path)
    }

    pub open spec fn file_lookup(&self, path: Seq<char>) -> Option<(int, bool)> {
        lookup_of(self.files_v(), path)
    }

    pub open spec fn dir_lookup(&self, path: Seq<char>) -> Option<(Seq<char>, bool)> {
        match lookup_of(self.dirs_v(), path) {
            Some((i, c)) => Some((self.dirs_v()[i], c)),
            None => None,
        }
    }

    /// A directory with an `index.md`: the site has a section page there.
    pub open spec fn is_index_dir(&self, d: Seq<char>) -> bool {
        self.dirs_v().contains(d) && self.files_v().contains(d + "/index.md"@)
    }

    /// The nearest directory, from `dir` upwards, that has a section page:
    /// a top-level directory always has one, a nested one only with an
    /// `index.md`.
    pub open spec fn section_for(&self, dir: Seq<char>) -> Option<Seq<char>>
        decreases dir.len(),
    {
        if self.is_index_dir(dir) || rfind(dir, '/') is None {
            Some(dir)
        } else {
            let parent = dirname_of(dir);
            if parent.len() == 0 {
                None
            } else {
                proof {
                    lemma_rfind(dir, '/');
                }
                self.section_for(parent)
            }
        }
    }

    /// The only file whose lower-cased basename matches that of `path`.
    pub open spec fn unique_basename(&self, path: Seq<char>) -> Option<int> {
        let key = lowercase_of(basename_of(path));
        if count_of(self.basename_keys(), key) == 1 {
            index_of(self.basename_keys(), key)
        } else {
            None
        }
    }

    /// A file that is also a note resolves to the note page.
    pub open spec fn note_or_asset(&self, f: Seq<char>) -> KindView {
        match self.note_lookup(f) {
            Some((ni, _)) => KindView::Note(ni as nat),
            None => KindView::Asset(f),
        }
    }

    /// Resolution of a repository path, with its counter increments
    /// (case fixes, basename recoveries, extension swaps), in rule order:
    /// note, directory section, file, unique basename, extension typo.
    pub open spec fn resolve_path(&self, rp: Seq<char>) -> (KindView, nat, nat, nat) {
        match self.note_lookup(rp) {
            Some((i, case)) => (KindView::Note(i as nat), flag(case), 0, 0),
            None => {
                let dl = self.dir_lookup(trim_end_by(rp, is_char('/')));
                let c1: nat = match dl {
                    Some((_, case)) => flag(case),
                    None => 0,
                };
                let sec = match dl {
                    Some((d, _)) => self.section_for(d),
                    None => None,
                };
                match sec {
                    Some(s) => (KindView::Section(s), c1, 0, 0),
                    None => match self.file_lookup(rp) {
                        Some((i, case)) => (
                            self.note_or_asset(self.files_v()[i]),
                            c1 + flag(case),
                            0,
                            0,
                        ),
                        None => match self.unique_basename(rp) {
                            Some(i) => (self.note_or_asset(self.files_v()[i]), c1, 1, 0),
                            None => {
                                let ext = extension_of(rp);
                                if ext.len() > 0 && ext != ".md"@ {
                                    match self.note_lookup(with_extension_of(rp, ".md"@)) {
                                        Some((i, _)) => (KindView::Note(i as nat), c1, 0, 1),
                                        None => (KindView::Unresolved, c1, 0, 0),
                                    }
                                } else {
                                    (KindView::Unresolved, c1, 0, 0)
                                }
                            },
                        },
                    },
                }
            },
        }
    }

    /// Resolution of a link destination written in note `src_rel`.
    pub open spec fn resolve_spec(&self, raw: Seq<char>, src_rel: Seq<char>) -> (
        KindView,
        nat,
        nat,
        nat,
    ) {
        if is_anchor_link(raw) {
            (KindView::Anchor, 0, 0, 0)
        } else if is_scheme_link(raw) {
            (KindView::External, 0, 0, 0)
        } else {
            match link_repo_path(raw, src_rel) {
                None => (KindView::External, 0, 0, 0),
                Some(rp) => if rp.len() == 0 {
                    (KindView::Anchor, 0, 0, 0)
                } else {
                    self.resolve_path(nfc_of(strip_prefix_of(rp, self.prefix_v())))
                },
            }
        }
    }

    /// Site-root components of a resolved target.
    pub open spec fn url_components_of(&self, k: KindView) -> Seq<Seq<char>> {
        match k {
            KindView::Note(i) => self.pages_v()[i as int],
            KindView::Section(d) => split(d, '/').push("index.html"@),
            KindView::Asset(p) => split(p, '/'),
            _ => Seq::empty(),
        }
    }
}

/// Copies of the strings in `v`.
pub fn clone_strings(v: &Vec<String>) -> (r: Vec<String>)
    ensures
        strings_view(r@) == strings_view(v@),
{
    let mut out: Vec<String> = Vec::new();
    let mut i: usize = 0;
    while i < v.len()
        invariant
            i <= v@.len(),
            strings_view(out@) == strings_view(v@).take(i as int),
        decreases v.len() - i,
    {
        let ghost before = out@;
        out.push(v[i].clone());
        assert(strings_view(out@) =~= strings_view(before).push(v@[i as int]@));
        assert(strings_view(v@).take(i + 1) =~= strings_view(v@).take(i as int).push(
            v@[i as int]@,
        ));
        i += 1;
    }
    assert(strings_view(v@).take(v@.len() as int) =~= strings_view(v@));
    out
}

/// The characters of every string of `v`.
fn keys_of(v: &[String]) -> (r: Vec<Vec<char>>)
    ensures
        r.deep_view() == strings_view(v@),
{
    let mut out: Vec<Vec<char>> = Vec::new();
    let mut i: usize = 0;
    while i < v.len()
        invariant
            i <= v@.len(),
            out.deep_view() == strings_view(v@).take(i as int),
        decreases v.len() - i,
    {
        let k = chars_of(v[i].as_str());
        let ghost kv = k@;
        let ghost before = out.deep_view();
        assert(k.deep_view() =~= kv);
        out.push(k);
        assert(out.deep_view() =~= before.push(kv));
        assert(strings_view(v@).take(i + 1) =~= strings_view(v@).take(i as int).push(kv));
        i += 1;
    }
    assert(strings_view(v@).take(v@.len() as int) =~= strings_view(v@));
    out
}

/// The lower case of every key.
fn lower_keys(keys: &Vec<Vec<char>>) -> (r: Vec<Vec<char>>)
    ensures
        r.deep_view() == lower_all(keys.deep_view()),
{
    let mut out: Vec<Vec<char>> = Vec::new();
    let mut i: usize = 0;
    while i < keys.len()
        invariant
            i <= keys@.len(),
            out.deep_view() == lower_all(keys.deep_view()).take(i as int),
        decreases keys.len() - i,
    {
        let k = lowercase_vec(keys[i].as_slice());
        let ghost kv = k@;
        let ghost before = out.deep_view();
        assert(k.deep_view() =~= kv);
        assert(keys.deep_view()[i as int] =~= keys@[i as int]@);
        out.push(k);
        assert(out.deep_view() =~= before.push(kv));
        assert(lower_all(keys.deep_view()).take(i + 1) =~= lower_all(keys.deep_view()).take(
            i as int,
        ).push(kv));
        i += 1;
    }
    assert(lower_all(keys.deep_view()).take(keys@.len() as int) =~= lower_all(keys.deep_view()));
    out
}

/// Lower-cased basenames of the files.
fn basename_keys_of(files: &[String]) -> (r: Vec<Vec<char>>)
    ensures
        r.deep_view() == strings_view(files@).map_values(
            |f: Seq<char>| lowercase_of(basename_of(f)),
        ),
{
    let ghost want = strings_view(files@).map_values(|f: Seq<char>| lowercase_of(basename_of(f)));
    let mut out: Vec<Vec<char>> = Vec::new();
    let mut i: usize = 0;
    while i < files.len()
        invariant
            i <= files@.len(),
            want == strings_view(files@).map_values(|f: Seq<char>| lowercase_of(basename_of(f))),
            out.deep_view() == want.take(i as int),
        decreases files.len() - i,
    {
        let b = basename(files[i].as_str());
        let l = to_lowercase(b);
        let k = chars_of(l.as_str());
        let ghost kv = k@;
        let ghost before = out.deep_view();
        assert(k.deep_view() =~= kv);
        out.push(k);
        assert(out.deep_view() =~= before.push(kv));
        assert(want.take(i + 1) =~= want.take(i as int).push(kv));
        i += 1;
    }
    assert(want.take(files@.len() as int) =~= want);
    out
}

/// Whether some key equals `k`.
fn has_key(keys: &Vec<Vec<char>>, k: &[char]) -> (r: bool)
    ensures
        r == keys.deep_view().contains(k@),
{
    proof {
        lemma_index_of(keys.deep_view(), k@);
    }
    find_key(keys, k).is_some()
}

/// Exact match, then the case-insensitive one.
fn lookup_vec(keys: &Vec<Vec<char>>, lower: &Vec<Vec<char>>, path: &[char]) -> (r: Option<
    (usize, bool),
>)
    requires
        lower.deep_view() == lower_all(keys.deep_view()),
    ensures
        match r {
            Some((i, c)) => lookup_of(keys.deep_view(), path@) == Some((i as int, c)),
            None => lookup_of(keys.deep_view(), path@) is None,
        },
{
    match find_key(keys, path) {
        Some(i) => Some((i, false)),
        None => {
            let l = lowercase_vec(path);
            match find_key(lower, &l) {
                Some(i) => Some((i, true)),
                None => None,
            }
        },
    }
}

/// The lookup result stays within the keys.
proof fn lemma_lookup_bound(keys: Seq<Seq<char>>, path: Seq<char>)
    ensures
        lookup_of(keys, path) matches Some((i, c)) ==> 0 <= i < keys.len() && (!c ==> keys[i]
            == path),
{
    lemma_index_of(keys, path);
    lemma_index_of(lower_all(keys), lowercase_of(path));
}

/// A listed directory that holds an `index.md` has its own section page: a
/// path that names no note and, without trailing slashes, names that
/// directory resolves to the directory's own section (also when it is
/// nested), with no case fix counted.
pub proof fn law_index_dir_is_its_own_section(r: &Resolver, rp: Seq<char>, d: Seq<char>)
    requires
        r.dirs_v().contains(d),
        r.files_v().contains(d + "/index.md"@),
        r.note_lookup(rp) is None,
        trim_end_by(rp, is_char('/')) == d,
    ensures
        r.resolve_path(rp) == (KindView::Section(d), 0nat, 0nat, 0nat),
{
    lemma_index_of(r.dirs_v(), d);
    let i = index_of(r.dirs_v(), d)->0;
    assert(r.dir_lookup(d) == Some((d, false)));
}

impl Resolver {
    /// Builds the indexes: staged paths and page components of the notes, the
    /// case-insensitive keys and the directories that hold an `index.md`.
    pub fn new(notes: &[String], files: &[String], dirs: &[String], content_prefix: &str) -> (r:
        Self)
        requires
            forall|i: int|
                0 <= i < notes@.len() ==> md_stem_cut_ok(
                    basename_of(#[trigger] staged_path_of(notes@[i]@)),
                ),
        ensures
            r.wf(),
            r.notes_v() == strings_view(notes@),
            r.files_v() == strings_view(files@),
            r.dirs_v() == strings_view(dirs@),
            r.prefix_v() == trim_char(content_prefix@, '/'),
            r.staged_v() == strings_view(notes@).map_values(
                |n: Seq<char>| staged_path_of(n),
            ),
            r.pages_v() == strings_view(notes@).map_values(
                |n: Seq<char>| page_components_of(staged_path_of(n)),
            ),
    {
        let ghost nv = strings_view(notes@);
        let mut staged_notes: Vec<String> = Vec::new();
        let mut page_notes: Vec<Vec<String>> = Vec::new();
        let mut i: usize = 0;
        while i < notes.len()
            invariant
                i <= notes@.len(),
                nv == strings_view(notes@),
                forall|j: int|
                    0 <= j < notes@.len() ==> md_stem_cut_ok(
                        basename_of(#[trigger] staged_path_of(notes@[j]@)),
                    ),
                strings_view(staged_notes@) == nv.take(i as int).map_values(
                    |n: Seq<char>| staged_path_of(n),
                ),
                page_notes@.map_values(|v: Vec<String>| strings_view(v@)) == nv.take(
                    i as int,
                ).map_values(|n: Seq<char>| page_components_of(staged_path_of(n))),
            decreases notes.len() - i,
        {
            let st = staged_path_for_note(notes[i].as_str());
            let ghost sv = st@;
            assert(sv == staged_path_of(notes@[i as int]@));
            let pc = page_components_for_note(st.as_str());
            let ghost pv = strings_view(pc@);
            let ghost sb = staged_notes@;
            let ghost pb = page_notes@;
            staged_notes.push(st);
            page_notes.push(pc);
            assert(strings_view(staged_notes@) =~= strings_view(sb).push(sv));
            assert(page_notes@.map_values(|v: Vec<String>| strings_view(v@)) =~= pb.map_values(
                |v: Vec<String>| strings_view(v@),
            ).push(pv));
            assert(nv.take(i + 1) =~= nv.take(i as int).push(nv[i as int]));
            assert(nv.take(i + 1).map_values(|n: Seq<char>| staged_path_of(n)) =~= nv.take(
                i as int,
            ).map_values(|n: Seq<char>| staged_path_of(n)).push(sv));
            assert(nv.take(i + 1).map_values(|n: Seq<char>| page_components_of(staged_path_of(n)))
                =~= nv.take(i as int).map_values(
                |n: Seq<char>| page_components_of(staged_path_of(n)),
            ).push(pv));
            i += 1;
        }
        assert(nv.take(notes@.len() as int) =~= nv);
        let note_keys = keys_of(notes);
        let file_keys = keys_of(files);
        let dir_keys = keys_of(dirs);
        let lower_notes = lower_keys(&note_keys);
        let lower_files = lower_keys(&file_keys);
        let lower_dirs = lower_keys(&dir_keys);
        let lower_basenames = basename_keys_of(files);
        let mut index_dirs: Vec<bool> = Vec::new();
        let mut k: usize = 0;
        while k < dirs.len()
            invariant
                k <= dirs@.len(),
                file_keys.deep_view() == strings_view(files@),
                dir_keys.deep_view() == strings_view(dirs@),
                index_dirs@.len() == k,
                forall|j: int|
                    0 <= j < k ==> #[trigger] index_dirs@[j] == strings_view(files@).contains(
                        strings_view(dirs@)[j] + "/index.md"@,
                    ),
            decreases dirs.len() - k,
        {
            proof {
                crate::strs::lemma_keys_view(&dir_keys);
            }
            let mut probe = copy_vec(dir_keys[k].as_slice());
            let suffix = chars_of("/index.md");
            probe.extend_from_slice(&suffix);
            assert(probe@ =~= strings_view(dirs@)[k as int] + "/index.md"@);
            let h = has_key(&file_keys, &probe);
            let ghost before = index_dirs@;
            index_dirs.push(h);
            assert(forall|j: int| 0 <= j < k ==> index_dirs@[j] == before[j]);
            k += 1;
        }
        let prefix = chars_of(content_prefix);
        let p = trim_char_vec(&prefix, '/');
        let r = Resolver {
            content_prefix: string_of(&p),
            notes: clone_slice(notes),
            staged_notes,
            page_notes,
            files: clone_slice(files),
            dirs: clone_slice(dirs),
            index_dirs,
            note_keys,
            file_keys,
            dir_keys,
            lower_notes,
            lower_files,
            lower_dirs,
            lower_basenames,
        };
        assert(r.basename_keys() =~= strings_view(files@).map_values(
            |f: Seq<char>| lowercase_of(basename_of(f)),
        ));
        r
    }

    /// Note path → (note index, whether only the case differed).
    pub fn note_of(&self, path: &str) -> (r: Option<(usize, bool)>)
        requires
            self.wf(),
        ensures
            match r {
                Some((i, c)) => self.note_lookup(path@) == Some((i as int, c)),
                None => self.note_lookup(path@) is None,
            },
    {
        let pv = chars_of(path);
        lookup_vec(&self.note_keys, &self.lower_notes, &pv)
    }

    /// File path → (file index, whether only the case differed).
    pub fn file_of(&self, path: &str) -> (r: Option<(usize, bool)>)
        requires
            self.wf(),
        ensures
            match r {
                Some((i, c)) => self.file_lookup(path@) == Some((i as int, c)),
                None => self.file_lookup(path@) is None,
            },
    {
        let pv = chars_of(path);
        lookup_vec(&self.file_keys, &self.lower_files, &pv)
    }

    /// Directory path → (its name as listed, whether only the case differed).
    pub fn dir_of(&self, path: &str) -> (r: Option<(String, bool)>)
        requires
            self.wf(),
        ensures
            match r {
                Some((d, c)) => self.dir_lookup(path@) == Some((d@, c)),
                None => self.dir_lookup(path@) is None,
            },
    {
        let pv = chars_of(path);
        self.dir_of_vec(&pv)
    }

    fn dir_of_vec(&self, pv: &[char]) -> (r: Option<(String, bool)>)
        requires
            self.wf(),
        ensures
            match r {
                Some((d, c)) => self.dir_lookup(pv@) == Some((d@, c)),
                None => self.dir_lookup(pv@) is None,
            },
    {
        proof {
            lemma_lookup_bound(self.dirs_v(), pv@);
        }
        match lookup_vec(&self.dir_keys, &self.lower_dirs, pv) {
            Some((i, c)) => Some((self.dirs[i].clone(), c)),
            None => None,
        }
    }

    fn is_index_dir_vec(&self, d: &[char]) -> (r: bool)
        requires
            self.wf(),
        ensures
            r == self.is_index_dir(d@),
    {
        proof {
            lemma_index_of(self.dirs_v(), d@);
        }
        match find_key(&self.dir_keys, d) {
            Some(i) => {
                let h = self.index_dirs[i];
                assert(self.dirs_v()[i as int] == d@);
                h
            },
            None => false,
        }
    }

    /// Resolves a directory target to the nearest enclosing section page.
    ///
    /// The site generator makes a section page for every top-level directory,
    /// and for a nested one only when it holds an `index.md`; so this walks up
    /// from `dir` to the closest ancestor whose page exists.
    pub fn section_for_dir(&self, dir: &str) -> (r: Option<String>)
        requires
            self.wf(),
        ensures
            match r {
                Some(s) => self.section_for(dir@) == Some(s@),
                None => self.section_for(dir@) is None,
            },
    {
        let v = chars_of(dir);
        self.section_for_vec(&v)
    }

    fn section_for_vec(&self, dir: &[char]) -> (r: Option<String>)
        requires
            self.wf(),
        ensures
            match r {
                Some(s) => self.section_for(dir@) == Some(s@),
                None => self.section_for(dir@) is None,
            },
    {
        let mut cur: Vec<char> = copy_vec(dir);
        loop
            invariant
                self.wf(),
                self.section_for(dir@) == self.section_for(cur@),
            decreases cur@.len(),
        {
            let slash = rfind_char(&cur, '/');
            if self.is_index_dir_vec(&cur) || slash.is_none() {
                return Some(string_of(&cur));
            }
            let i = slash.unwrap();
            proof {
                lemma_rfind(cur@, '/');
            }
            let parent = slice_vec(&cur, 0, i);
            assert(parent@ =~= dirname_of(cur@));
            if parent.len() == 0 {
                return None;
            }
            cur = parent;
        }
    }

    /// The file whose lower-cased basename is unique in the repository and
    /// equals that of `path`.
    fn basename_unique(&self, path: &[char]) -> (r: Option<usize>)
        requires
            self.wf(),
        ensures
            match r {
                Some(i) => self.unique_basename(path@) == Some(i as int),
                None => self.unique_basename(path@) is None,
            },
    {
        let n = path.len();
        let bpos = rfind_char(path, '/');
        proof {
            lemma_rfind(path@, '/');
        }
        let b = match bpos {
            Some(i) => slice_vec(path, i + 1, n),
            None => copy_vec(path),
        };
        assert(b@ =~= basename_of(path@));
        let key = lowercase_vec(&b);
        let (n, first) = count_key(&self.lower_basenames, &key);
        if n == 1 {
            first
        } else {
            None
        }
    }

    /// The site-root components of a target.
    pub fn url_components(&self, kind: &Kind) -> (r: Vec<String>)
        requires
            self.wf(),
            kind matches Kind::Note(i) ==> i < self.pages_v().len(),
        ensures
            strings_view(r@) == self.url_components_of(kind@),
    {
        match kind {
            Kind::Note(i) => clone_strings(&self.page_notes[*i]),
            Kind::Section(dir) => {
                let dv = chars_of(dir.as_str());
                let mut v = split_strings(&dv, '/');
                let ghost before = v@;
                v.push(String::from_str("index.html"));
                assert(strings_view(v@) =~= strings_view(before).push("index.html"@));
                v
            },
            Kind::Asset(p) => {
                let pv = chars_of(p.as_str());
                split_strings(&pv, '/')
            },
            _ => {
                let v: Vec<String> = Vec::new();
                assert(strings_view(v@) =~= Seq::<Seq<char>>::empty());
                v
            },
        }
    }
}

/// Copies of the strings of a slice.
fn clone_slice(v: &[String]) -> (r: Vec<String>)
    ensures
        strings_view(r@) == strings_view(v@),
{
    let mut out: Vec<String> = Vec::new();
    let mut i: usize = 0;
    while i < v.len()
        invariant
            i <= v@.len(),
            strings_view(out@) == strings_view(v@).take(i as int),
        decreases v.len() - i,
    {
        let ghost before = out@;
        out.push(v[i].clone());
        assert(strings_view(out@) =~= strings_view(before).push(v@[i as int]@));
        assert(strings_view(v@).take(i + 1) =~= strings_view(v@).take(i as int).push(
            v@[i as int]@,
        ));
        i += 1;
    }
    assert(strings_view(v@).take(v@.len() as int) =~= strings_view(v@));
    out
}

/// `s` up to its first `c`.
pub fn cut_at_vec(s: &[char], c: char) -> (r: Vec<char>)
    ensures
        r@ == cut_at(s@, c),
{
    proof {
        lemma_find(s@, c);
    }
    match find_char(s, c) {
        Some(i) => {
            let r = slice_vec(s, 0, i);
            assert(r@ =~= s@.take(i as int));
            r
        },
        None => copy_vec(s),
    }
}

/// `s` with one `c` appended.
fn pushed(s: &[char], c: char) -> (r: Vec<char>)
    ensures
        r@ == s@.push(c),
{
    let mut v = copy_vec(s);
    v.push(c);
    v
}

/// The percent-decoded form of a character sequence.
fn percent_decode_vec(s: &[char]) -> (r: Vec<char>)
    ensures
        r@ == percent_decoded(s@),
{
    let st = string_of(s);
    let d = percent_decode(st.as_str());
    chars_of(d.as_str())
}

/// The lexically normalised form of a character sequence.
fn normalize_vec(s: &[char]) -> (r: Vec<char>)
    ensures
        r@ == normalized(s@),
{
    let st = string_of(s);
    let n = normalize_rel_path(st.as_str());
    chars_of(n.as_str())
}

impl Resolver {
    fn note_or_asset_of(&self, f: &String) -> (r: Kind)
        requires
            self.wf(),
        ensures
            r@ == self.note_or_asset(f@),
    {
        match self.note_of(f.as_str()) {
            Some((ni, _)) => Kind::Note(ni),
            None => Kind::Asset(f.clone()),
        }
    }

    /// Resolves a repository path by the rules in order.
    fn resolve_repo_path(&self, rp: &[char], stats: &mut Stats) -> (k: Kind)
        requires
            self.wf(),
            old(stats)@.headroom(2),
        ensures
            ({
                let (kv, cf, rb, es) = self.resolve_path(rp@);
                k@ == kv && final(stats)@ == old(stats)@.bumped(cf, rb, es)
            }),
    {
        proof {
            lemma_lookup_bound(self.files_v(), rp@);
            lemma_index_of(self.basename_keys(), lowercase_of(basename_of(rp@)));
            crate::strs::lemma_keys_view(&self.file_keys);
        }
        let rp_s = string_of(rp);
        if let Some((i, case)) = self.note_of(rp_s.as_str()) {
            if case {
                stats.case_fixed += 1;
            }
            return Kind::Note(i);
        }
        let trimmed = trim_end_char(rp, '/');
        let dl = self.dir_of_vec(&trimmed);
        let mut c1: usize = 0;
        if let Some((dir, case)) = dl {
            if case {
                stats.case_fixed += 1;
                c1 = 1;
            }
            let dv = chars_of(dir.as_str());
            if let Some(sec) = self.section_for_vec(&dv) {
                return Kind::Section(sec);
            }
        }
        if let Some((i, case)) = self.file_of(rp_s.as_str()) {
            if case {
                stats.case_fixed += 1;
            }
            return self.note_or_asset_of(&self.files[i]);
        }
        if let Some(i) = self.basename_unique(rp) {
            stats.recovered_basename += 1;
            proof {
                crate::strs::lemma_index_of(self.basename_keys(), lowercase_of(basename_of(rp@)));
            }
            return self.note_or_asset_of(&self.files[i]);
        }
        let ext = extension(rp_s.as_str());
        let ev = chars_of(ext);
        let md = chars_of(".md");
        if ev.len() > 0 && !chars_eq(&ev, &md) {
            let swapped = with_extension(rp_s.as_str(), ".md");
            if let Some((i, _)) = self.note_of(swapped.as_str()) {
                stats.ext_swap += 1;
                return Kind::Note(i);
            }
        }
        Kind::Unresolved
    }

    /// Resolves a link destination written in note `src_rel` against the
    /// repository: anchors and foreign schemes first, then the repository
    /// path (blob URLs of this repository included), its content prefix
    /// removed and NFC-normalised, by the rules of [`Self::resolve_path`].
    pub fn resolve(&self, raw: &str, src_rel: &str, stats: &mut Stats) -> (k: Kind)
        requires
            self.wf(),
            old(stats)@.headroom(2),
        ensures
            ({
                let (kv, cf, rb, es) = self.resolve_spec(raw@, src_rel@);
                k@ == kv && final(stats)@ == old(stats)@.bumped(cf, rb, es)
            }),
    {
        let rv = chars_of(raw);
        if rv.len() == 0 || rv[0] == '#' {
            assert(stats@ =~= stats@.bumped(0, 0, 0));
            return Kind::Anchor;
        }
        let data = chars_of("data:");
        let mailto = chars_of("mailto:");
        let tel = chars_of("tel:");
        if has_prefix(&rv, &data) || has_prefix(&rv, &mailto) || has_prefix(&rv, &tel) {
            assert(stats@ =~= stats@.bumped(0, 0, 0));
            return Kind::External;
        }
        let path_part = cut_at_vec(&rv, '#');
        let http = chars_of("http://");
        let https = chars_of("https://");
        let slashes = chars_of("//");
        let repo: Vec<char>;
        if has_prefix(&path_part, &http) || has_prefix(&path_part, &https) || has_prefix(
            &path_part,
            &slashes,
        ) {
            let marker = chars_of("github.com/rlaope/estudy/blob/master/");
            match find_sub_vec(&path_part, &marker) {
                Some(i) => {
                    proof {
                        assert(occurs_at(path_part@, marker@, i as int)) by {
                            lemma_find_sub_from(path_part@, marker@, 0);
                        }
                    }
                    let plen = path_part.len();
                    let mlen = marker.len();
                    let rest = slice_vec(&path_part, i + mlen, plen);
                    assert(rest@ =~= path_part@.skip(i + marker@.len()));
                    let rest = cut_at_vec(&rest, '?');
                    let dec = percent_decode_vec(&rest);
                    repo = normalize_vec(&dec);
                },
                None => {
                    assert(stats@ =~= stats@.bumped(0, 0, 0));
                    return Kind::External;
                },
            }
        } else {
            let pp = cut_at_vec(&path_part, '?');
            let dec = percent_decode_vec(&pp);
            let joined = if dec.len() > 0 && dec[0] == '/' {
                assert(starts_with(dec@, seq!['/'])) by {
                    assert(dec@.take(1) =~= seq!['/']);
                }
                trim_start_char(&dec, '/')
            } else {
                proof {
                    if starts_with(dec@, seq!['/']) {
                        assert(dec@.take(1)[0] == '/');
                    }
                }
                let d = chars_of(dirname(src_rel));
                if d.len() == 0 {
                    dec
                } else {
                    let mut j = pushed(&d, '/');
                    j.extend_from_slice(&dec);
                    assert(j@ =~= dirname_of(src_rel@) + seq!['/'] + dec@);
                    j
                }
            };
            repo = normalize_vec(&joined);
        }
        if repo.len() == 0 {
            assert(stats@ =~= stats@.bumped(0, 0, 0));
            return Kind::Anchor;
        }
        let pv = chars_of(self.content_prefix.as_str());
        let stripped = strip_prefix_vec(&repo, &pv);
        let st = string_of(&stripped);
        let n = nfc(st.as_str());
        let rp = chars_of(n.as_str());
        self.resolve_repo_path(&rp, stats)
    }
}

// ---------------------------------------------------------------------------
// Rewriting a note
// ---------------------------------------------------------------------------
/// Space or tab.
pub open spec fn is_blank(c: char) -> bool {
    c == ' ' || c == '\t'
}

pub open spec fn blank_pred() -> spec_fn(char) -> bool {
    |c: char| is_blank(c)
}

/// Characters that may stand in a bare link destination.
pub open spec fn url_char_pred() -> spec_fn(char) -> bool {
    |c: char| !(c == ' ' || c == '\t' || c == '\n' || c == '\r' || c == ')')
}

/// Index just past `line`'s end: after its `\n`, or the end of `c`.
pub open spec fn line_end_incl(c: Seq<char>, off: int) -> int {
    match find(c.skip(off), '\n') {
        Some(k) => off + k + 1,
        None => c.len() as int,
    }
}

/// A line that opens or closes a code fence.
pub open spec fn is_fence_line(line: Seq<char>) -> bool {
    let t = trim_start_by(line, crate::strs::ws_pred());
    starts_with(t, "```"@) || starts_with(t, "~~~"@)
}

pub proof fn lemma_line_end(c: Seq<char>, off: int)
    requires
        0 <= off < c.len(),
    ensures
        off < line_end_incl(c, off) <= c.len(),
{
    lemma_find(c.skip(off), '\n');
}

/// Code-fence ranges `[start, end)` from `off` on, lines being cut after each
/// `\n`; an unclosed fence runs to the end.
pub open spec fn fences_from(c: Seq<char>, off: int, open: Option<int>) -> Seq<(int, int)>
    decreases c.len() - off,
{
    if off < 0 || off >= c.len() {
        match open {
            Some(s) => seq![(s, c.len() as int)],
            None => Seq::empty(),
        }
    } else {
        let end = line_end_incl(c, off);
        proof {
            lemma_line_end(c, off);
        }
        if is_fence_line(c.subrange(off, end)) {
            match open {
                None => fences_from(c, end, Some(off)),
                Some(s) => seq![(s, end)] + fences_from(c, end, None),
            }
        } else {
            fences_from(c, end, open)
        }
    }
}

/// Whether position `pos` lies in one of the ranges.
pub open spec fn in_ranges(ranges: Seq<(int, int)>, pos: int) -> bool {
    exists|k: int| 0 <= k < ranges.len() && (#[trigger] ranges[k]).0 <= pos < ranges[k].1
}

/// The link destinations `(start, end)` found from position `i` on: `](`,
/// optional blanks, then `<...>` or a run of characters up to a blank, line
/// break or `)`. Empty destinations are skipped.
pub open spec fn scan_links(c: Seq<char>, i: int) -> Seq<(int, int)>
    decreases c.len() - i,
{
    if i < 0 || i + 1 >= c.len() {
        Seq::empty()
    } else if c[i] != ']' || c[i + 1] != '(' {
        scan_links(c, i + 1)
    } else {
        let j = i + 2 + lead_count(c.skip(i + 2), blank_pred());
        proof {
            lemma_lead_count_bound(c.skip(i + 2), blank_pred());
        }
        if j >= c.len() {
            Seq::empty()
        } else if c[j] == '<' {
            proof {
                lemma_find(c.skip(j + 1), '>');
            }
            match find(c.skip(j + 1), '>') {
                None => Seq::empty(),
                Some(k) => if k == 0 {
                    scan_links(c, j + 2)
                } else {
                    seq![(j + 1, j + 1 + k)] + scan_links(c, j + 2 + k)
                },
            }
        } else {
            let k = j + lead_count(c.skip(j), url_char_pred());
            proof {
                lemma_lead_count_bound(c.skip(j), url_char_pred());
            }
            if k == j {
                scan_links(c, k)
            } else {
                seq![(j, k)] + scan_links(c, k)
            }
        }
    }
}

/// Number of line breaks in `s`.
pub open spec fn nl_count(s: Seq<char>) -> nat
    decreases s.len(),
{
    if s.len() == 0 {
        0
    } else {
        nl_count(s.drop_last()) + if s.last() == '\n' {
            1nat
        } else {
            0nat
        }
    }
}

/// The whole line that holds position `pos` (without its line break).
pub open spec fn line_text_of(c: Seq<char>, pos: int) -> Seq<char> {
    let ls = match rfind(c.take(pos), '\n') {
        Some(k) => k + 1,
        None => 0,
    };
    cut_at(c.skip(ls), '\n')
}

/// A list item line: `- `, `* ` or `+ ` after the leading white space.
pub open spec fn is_bullet_line(line: Seq<char>) -> bool {
    let t = trim_start_by(line, crate::strs::ws_pred());
    starts_with(t, "- "@) || starts_with(t, "* "@) || starts_with(t, "+ "@)
}

/// The view of a [`LinkRecord`].
pub struct LinkRecordView {
    pub line: nat,
    pub indent: nat,
    pub bullet: bool,
    pub raw: Seq<char>,
    pub kind: KindView,
}

impl View for LinkRecord {
    type V = LinkRecordView;

    open spec fn view(&self) -> LinkRecordView {
        LinkRecordView {
            line: self.line as nat,
            indent: self.indent as nat,
            bullet: self.bullet,
            raw: self.raw@,
            kind: self.kind@,
        }
    }
}

/// The record of the link at `[s, e)` of `c`, of kind `k`.
pub open spec fn record_of(c: Seq<char>, s: int, e: int, k: KindView) -> LinkRecordView {
    let lt = line_text_of(c, s);
    LinkRecordView {
        line: nl_count(c.take(s)) + 1,
        indent: lead_count(lt, blank_pred()),
        bullet: is_bullet_line(lt),
        raw: c.subrange(s, e),
        kind: k,
    }
}

/// The fragment of a destination: from its first `#` on (empty without one).
pub open spec fn fragment_of(raw: Seq<char>) -> Seq<char> {
    match find(raw, '#') {
        Some(k) => raw.skip(k),
        None => Seq::empty(),
    }
}

/// Kinds whose links are rewritten to page-relative URLs.
pub open spec fn is_internal(k: KindView) -> bool {
    !(k is External || k is Anchor || k is Unresolved)
}

/// The line that reports a recovered link.
pub open spec fn recovery_line(src: Seq<char>, line: nat, raw: Seq<char>, new_raw: Seq<char>) -> Seq<
    char,
> {
    report_line(src, line, raw) + "  =>  "@ + new_raw
}

/// Edits `(start, end, replacement)` applied to `c` from `cursor` on.
pub open spec fn splice(c: Seq<char>, edits: Seq<(int, int, Seq<char>)>, cursor: int) -> Seq<char>
    decreases edits.len(),
{
    if edits.len() == 0 {
        c.subrange(cursor, c.len() as int)
    } else {
        c.subrange(cursor, edits[0].0) + edits[0].2 + splice(c, edits.drop_first(), edits[0].1)
    }
}

/// What rewriting has produced so far: counters, records, edits.
pub struct RewriteState {
    pub stats: StatsView,
    pub records: Seq<LinkRecordView>,
    pub edits: Seq<(int, int, Seq<char>)>,
}

impl Resolver {
    /// The page-relative URL that replaces a destination resolved to `k`.
    pub open spec fn new_raw_of(&self, src_note: int, raw: Seq<char>, k: KindView) -> Seq<char> {
        relative_url_of(self.pages_v()[src_note], self.url_components_of(k), fragment_of(raw))
    }

    /// Whether the destination must be rewritten: an internal target whose
    /// new URL differs from the text and from its lexical normal form.
    pub open spec fn needs_edit(&self, src_note: int, raw: Seq<char>, k: KindView) -> bool {
        let new_raw = self.new_raw_of(src_note, raw, k);
        let frag = fragment_of(raw);
        let equivalent = !is_abs_url(raw) && normalized(cut_at(raw, '#')) + frag == new_raw;
        is_internal(k) && new_raw != raw && !equivalent
    }

    /// The effect of one scanned link `[s, e)` on the rewriting state.
    pub open spec fn link_step(
        &self,
        c: Seq<char>,
        src_note: int,
        fences: Seq<(int, int)>,
        st: RewriteState,
        s: int,
        e: int,
    ) -> RewriteState {
        let stats0 = StatsView { inline_total: st.stats.inline_total + 1, ..st.stats };
        if in_ranges(fences, s) {
            RewriteState {
                stats: StatsView { in_fence_skipped: stats0.in_fence_skipped + 1, ..stats0 },
                ..st
            }
        } else {
            let raw = c.subrange(s, e);
            let src = self.notes_v()[src_note];
            let (k, cf, rb, es) = self.resolve_spec(raw, src);
            let rec = record_of(c, s, e, k);
            let stats1 = stats0.bumped(cf, rb, es).recorded(src, rec.line, raw, k);
            if self.needs_edit(src_note, raw, k) {
                let new_raw = self.new_raw_of(src_note, raw, k);
                let stats2 = StatsView { rewritten: stats1.rewritten + 1, ..stats1 };
                let stats3 = if (rb > 0 || es > 0) && stats2.recovered.len() < 64 {
                    StatsView {
                        recovered: stats2.recovered.push(
                            recovery_line(src, rec.line, raw, new_raw),
                        ),
                        ..stats2
                    }
                } else {
                    stats2
                };
                RewriteState {
                    stats: stats3,
                    records: st.records.push(rec),
                    edits: st.edits.push((s, e, new_raw)),
                }
            } else {
                RewriteState { stats: stats1, records: st.records.push(rec), ..st }
            }
        }
    }

    /// The rewriting state after the links `links`, in order.
    pub open spec fn rewrite_fold(
        &self,
        c: Seq<char>,
        src_note: int,
        fences: Seq<(int, int)>,
        st: RewriteState,
        links: Seq<(int, int)>,
    ) -> RewriteState
        decreases links.len(),
    {
        if links.len() == 0 {
            st
        } else {
            let prev = self.rewrite_fold(c, src_note, fences, st, links.drop_last());
            self.link_step(c, src_note, fences, prev, links.last().0, links.last().1)
        }
    }
}

/// The ranges of a vector of index pairs.
pub open spec fn pairs_view(v: Seq<(usize, usize)>) -> Seq<(int, int)> {
    v.map_values(|p: (usize, usize)| (p.0 as int, p.1 as int))
}

/// The edits of a vector of `(start, end, replacement)`.
pub open spec fn edits_view(v: Seq<(usize, usize, Vec<char>)>) -> Seq<(int, int, Seq<char>)> {
    v.map_values(|t: (usize, usize, Vec<char>)| (t.0 as int, t.1 as int, t.2@))
}

/// The records of a vector of link records.
pub open spec fn records_view(v: Seq<LinkRecord>) -> Seq<LinkRecordView> {
    v.map_values(|r: LinkRecord| r@)
}

/// First `c` at or after `from`, as an absolute index.
pub fn find_char_from(s: &[char], from: usize, c: char) -> (r: Option<usize>)
    requires
        from <= s@.len(),
    ensures
        match r {
            Some(i) => find(s@.skip(from as int), c) == Some(i - from) && from <= i < s@.len(),
            None => find(s@.skip(from as int), c) is None,
        },
{
    let mut i = from;
    assert(s@.skip(from as int).skip(0) =~= s@.skip(from as int));
    while i < s.len()
        invariant
            from <= i <= s@.len(),
            find(s@.skip(from as int), c) == match find(s@.skip(i as int), c) {
                Some(k) => Some(k + (i - from)),
                None => None,
            },
        decreases s.len() - i,
    {
        assert(s@.skip(i as int).drop_first() =~= s@.skip(i + 1));
        if s[i] == c {
            return Some(i);
        }
        i += 1;
    }
    None
}

/// Index past `line`: after its `\n`, or the end.
fn line_end(c: &[char], off: usize) -> (r: usize)
    requires
        off < c@.len(),
    ensures
        r == line_end_incl(c@, off as int),
        off < r <= c@.len(),
{
    let n = c.len();
    match find_char_from(c, off, '\n') {
        Some(k) => k + 1,
        None => n,
    }
}

fn fence_line(line: &[char]) -> (r: bool)
    ensures
        r == is_fence_line(line@),
{
    let a = crate::strs::skip_ws(line, 0);
    assert(line@.skip(0) =~= line@);
    let t = slice_vec(line, a, line.len());
    assert(t@ =~= trim_start_by(line@, crate::strs::ws_pred()));
    let ticks = chars_of("```");
    let tildes = chars_of("~~~");
    has_prefix(&t, &ticks) || has_prefix(&t, &tildes)
}

/// Byte-for-character the code-fence ranges of a text: a line whose trimmed
/// start is ```` ``` ```` or `~~~` opens or closes a fence; an open fence runs
/// to the end.
fn fence_ranges(c: &[char]) -> (r: Vec<(usize, usize)>)
    ensures
        pairs_view(r@) == fences_from(c@, 0, None),
{
    let n = c.len();
    let mut ranges: Vec<(usize, usize)> = Vec::new();
    let mut open: Option<usize> = None;
    let mut off: usize = 0;
    while off < n
        invariant
            n == c@.len(),
            off <= n,
            fences_from(c@, 0, None) == pairs_view(ranges@) + fences_from(
                c@,
                off as int,
                match open {
                    Some(s) => Some(s as int),
                    None => None,
                },
            ),
        decreases n - off,
    {
        let end = line_end(c, off);
        let line = slice_vec(c, off, end);
        let ghost ov = match open {
            Some(s) => Some(s as int),
            None => None::<int>,
        };
        if fence_line(&line) {
            match open {
                None => {
                    open = Some(off);
                },
                Some(s) => {
                    let ghost before = ranges@;
                    ranges.push((s, end));
                    assert(pairs_view(ranges@) =~= pairs_view(before) + seq![(s as int, end as int)]);
                    open = None;
                },
            }
        }
        off = end;
    }
    match open {
        Some(s) => {
            let ghost before = ranges@;
            ranges.push((s, n));
            assert(pairs_view(ranges@) =~= pairs_view(before) + seq![(s as int, n as int)]);
        },
        None => {},
    }
    assert(pairs_view(ranges@) =~= fences_from(c@, 0, None));
    ranges
}

fn in_fence(fences: &Vec<(usize, usize)>, pos: usize) -> (r: bool)
    ensures
        r == in_ranges(pairs_view(fences@), pos as int),
{
    let mut k: usize = 0;
    while k < fences.len()
        invariant
            k <= fences@.len(),
            forall|j: int| 0 <= j < k ==> !((#[trigger] fences@[j]).0 <= pos < fences@[j].1),
        decreases fences.len() - k,
    {
        let (s, e) = fences[k];
        if s <= pos && pos < e {
            assert(pairs_view(fences@)[k as int] == (s as int, e as int));
            return true;
        }
        k += 1;
    }
    assert forall|j: int| 0 <= j < pairs_view(fences@).len() implies !(#[trigger] pairs_view(
        fences@,
    )[j].0 <= pos < pairs_view(fences@)[j].1) by {
        assert(pairs_view(fences@)[j] == (fences@[j].0 as int, fences@[j].1 as int));
    }
    false
}

/// Index just past the spaces and tabs starting at `from`.
fn skip_blank(s: &[char], from: usize) -> (r: usize)
    requires
        from <= s@.len(),
    ensures
        r == from + lead_count(s@.skip(from as int), blank_pred()),
        r <= s@.len(),
{
    let mut i = from;
    while i < s.len() && (s[i] == ' ' || s[i] == '\t')
        invariant
            from <= i <= s@.len(),
            lead_count(s@.skip(from as int), blank_pred()) == (i - from) + lead_count(
                s@.skip(i as int),
                blank_pred(),
            ),
        decreases s.len() - i,
    {
        assert(s@.skip(i as int).drop_first() =~= s@.skip(i + 1));
        i += 1;
    }
    proof {
        if i < s@.len() {
            assert(s@.skip(i as int)[0] == s@[i as int]);
        }
        assert(lead_count(s@.skip(i as int), blank_pred()) == 0);
    }
    i
}

/// Index just past the bare destination that starts at `from`.
fn skip_url(s: &[char], from: usize) -> (r: usize)
    requires
        from <= s@.len(),
    ensures
        r == from + lead_count(s@.skip(from as int), url_char_pred()),
        r <= s@.len(),
{
    let mut i = from;
    while i < s.len() && !(s[i] == ' ' || s[i] == '\t' || s[i] == '\n' || s[i] == '\r' || s[i]
        == ')')
        invariant
            from <= i <= s@.len(),
            lead_count(s@.skip(from as int), url_char_pred()) == (i - from) + lead_count(
                s@.skip(i as int),
                url_char_pred(),
            ),
        decreases s.len() - i,
    {
        assert(s@.skip(i as int).drop_first() =~= s@.skip(i + 1));
        i += 1;
    }
    proof {
        if i < s@.len() {
            assert(s@.skip(i as int)[0] == s@[i as int]);
        }
        assert(lead_count(s@.skip(i as int), url_char_pred()) == 0);
    }
    i
}

/// Number of line breaks before position `pos`.
fn count_lines_before(c: &[char], pos: usize) -> (r: usize)
    requires
        pos <= c@.len(),
    ensures
        r == nl_count(c@.take(pos as int)),
        r <= pos,
{
    let mut k: usize = 0;
    let mut n: usize = 0;
    assert(c@.take(0) =~= Seq::<char>::empty());
    while k < pos
        invariant
            k <= pos <= c@.len(),
            n <= k,
            n == nl_count(c@.take(k as int)),
        decreases pos - k,
    {
        assert(c@.take(k + 1).drop_last() =~= c@.take(k as int));
        if c[k] == '\n' {
            n += 1;
        }
        k += 1;
    }
    n
}

/// The line that holds position `pos`, without its line break.
fn line_text(c: &[char], pos: usize) -> (r: Vec<char>)
    requires
        pos <= c@.len(),
    ensures
        r@ == line_text_of(c@, pos as int),
{
    let before = slice_vec(c, 0, pos);
    assert(before@ =~= c@.take(pos as int));
    proof {
        lemma_rfind(c@.take(pos as int), '\n');
    }
    let ls: usize = match rfind_char(&before, '\n') {
        Some(k) => k + 1,
        None => 0,
    };
    let rest = slice_vec(c, ls, c.len());
    assert(rest@ =~= c@.skip(ls as int));
    cut_at_vec(&rest, '\n')
}

fn is_bullet(line: &[char]) -> (r: bool)
    ensures
        r == is_bullet_line(line@),
{
    let a = crate::strs::skip_ws(line, 0);
    assert(line@.skip(0) =~= line@);
    let t = slice_vec(line, a, line.len());
    assert(t@ =~= trim_start_by(line@, crate::strs::ws_pred()));
    let dash = chars_of("- ");
    let star = chars_of("* ");
    let plus = chars_of("+ ");
    has_prefix(&t, &dash) || has_prefix(&t, &star) || has_prefix(&t, &plus)
}

fn fragment_vec(raw: &[char]) -> (r: Vec<char>)
    ensures
        r@ == fragment_of(raw@),
{
    proof {
        lemma_find(raw@, '#');
    }
    match find_char(raw, '#') {
        Some(k) => {
            let f = slice_vec(raw, k, raw.len());
            assert(f@ =~= raw@.skip(k as int));
            f
        },
        None => Vec::new(),
    }
}

fn is_abs_url_vec(s: &[char]) -> (r: bool)
    ensures
        r == is_abs_url(s@),
{
    let http = chars_of("http://");
    let https = chars_of("https://");
    let slashes = chars_of("//");
    has_prefix(s, &http) || has_prefix(s, &https) || has_prefix(s, &slashes)
}

impl Resolver {
    /// Handles the link `[s, e)` of `c`: counts it, resolves it, records it
    /// and, when needed, queues the edit that rewrites it.
    #[verifier::rlimit(50)]
    fn process_link(
        &self,
        c: &Vec<char>,
        src_note: usize,
        fences: &Vec<(usize, usize)>,
        s: usize,
        e: usize,
        stats: &mut Stats,
        records: &mut Vec<LinkRecord>,
        edits: &mut Vec<(usize, usize, Vec<char>)>,
    )
        requires
            self.wf(),
            src_note < self.notes@.len(),
            s < e <= c@.len(),
            old(stats)@.headroom(3),
        ensures
            ({
                let before = RewriteState {
                    stats: old(stats)@,
                    records: records_view(old(records)@),
                    edits: edits_view(old(edits)@),
                };
                let after = self.link_step(c@, src_note as int, pairs_view(fences@), before, s as int, e as int);
                &&& final(stats)@ == after.stats
                &&& records_view(final(records)@) == after.records
                &&& edits_view(final(edits)@) == after.edits
            }),
            grows_at_most(old(stats)@, final(stats)@, 3),
            edits_view(final(edits)@) == edits_view(old(edits)@) || (edits_view(
                final(edits)@,
            ).len() == edits_view(old(edits)@).len() + 1 && edits_view(final(edits)@).drop_last()
                == edits_view(old(edits)@) && edits_view(final(edits)@).last().0 == s
                && edits_view(final(edits)@).last().1 == e),
    {
        stats.inline_total += 1;
        if in_fence(fences, s) {
            stats.in_fence_skipped += 1;
            return;
        }
        let raw_v = slice_vec(c, s, e);
        let raw = string_of(&raw_v);
        let src_rel = &self.notes[src_note];
        let rb0 = stats.recovered_basename;
        let es0 = stats.ext_swap;
        let ghost st0 = stats@;
        let kind = self.resolve(raw.as_str(), src_rel.as_str(), stats);
        let ghost res = self.resolve_spec(raw@, src_rel@);
        assert(src_rel@ == self.notes_v()[src_note as int]);
        let used_recovery = stats.recovered_basename > rb0 || stats.ext_swap > es0;
        assert(used_recovery == (res.2 > 0 || res.3 > 0));
        let ghost st1 = stats@;
        let line = count_lines_before(c, s) + 1;
        let lt = line_text(c, s);
        let indent = skip_blank(&lt, 0);
        assert(lt@.skip(0) =~= lt@);
        let bullet = is_bullet(&lt);
        stats.record(src_rel.as_str(), line, raw.as_str(), &kind);
        let ghost rec_v = record_of(c@, s as int, e as int, kind@);
        assert(line == rec_v.line);
        assert(stats@ == st1.recorded(self.notes_v()[src_note as int], rec_v.line, c@.subrange(s as int, e as int), res.0));
        let internal = match kind {
            Kind::External | Kind::Anchor | Kind::Unresolved => false,
            _ => true,
        };
        if internal {
            proof {
                self.lemma_resolve_note_bound(raw@, src_rel@);
            }
            let to = self.url_components(&kind);
            let frag = fragment_vec(&raw_v);
            let frag_s = string_of(&frag);
            let from_page = &self.page_notes[src_note];
            let new_raw = relative_url(from_page.as_slice(), to.as_slice(), frag_s.as_str());
            let nv = chars_of(new_raw.as_str());
            let raw_path = cut_at_vec(&raw_v, '#');
            let mut normal = normalize_vec(&raw_path);
            normal.extend_from_slice(&frag);
            let equivalent = !is_abs_url_vec(&raw_v) && chars_eq(&normal, &nv);
            assert(nv@ == self.new_raw_of(src_note as int, raw@, kind@));
            let differs = !chars_eq(&nv, &raw_v);
            assert(is_internal(kind@));
            assert(normal@ == normalized(cut_at(raw@, '#')) + fragment_of(raw@));
            assert(equivalent == (!is_abs_url(raw@) && normalized(cut_at(raw@, '#')) + fragment_of(raw@) == nv@));
            assert((differs && !equivalent) == self.needs_edit(src_note as int, raw@, kind@));
            if differs && !equivalent {
                let ghost eb = edits@;
                edits.push((s, e, nv));
                assert(edits_view(edits@) =~= edits_view(eb).push((s as int, e as int, new_raw@)));
                assert(edits_view(edits@).drop_last() =~= edits_view(eb));
                stats.rewritten += 1;
                if used_recovery && stats.recovered.len() < 64 {
                    let mut r = String::new();
                    push_str(&mut r, src_rel.as_str());
                    r.push(':');
                    push_decimal(&mut r, line);
                    push_str(&mut r, " -> ");
                    push_str(&mut r, raw.as_str());
                    push_str(&mut r, "  =>  ");
                    push_str(&mut r, new_raw.as_str());
                    proof {
                        reveal_strlit(" -> ");
                    }
                    assert(r@ =~= recovery_line(src_rel@, line as nat, raw@, new_raw@));
                    let ghost rb = stats.recovered@;
                    stats.recovered.push(r);
                    assert(strings_view(stats.recovered@) =~= strings_view(rb).push(
                        recovery_line(src_rel@, line as nat, raw@, new_raw@),
                    ));
                }
            }
        }
        let ghost rbefore = records@;
        let rec = LinkRecord { line, indent, bullet, raw, kind };
        assert(rec@ == record_of(c@, s as int, e as int, rec.kind@));
        records.push(rec);
        assert(records_view(records@) =~= records_view(rbefore).push(rec@));
        proof {
            let before = RewriteState {
                stats: old(stats)@,
                records: records_view(old(records)@),
                edits: edits_view(old(edits)@),
            };
            let after = self.link_step(c@, src_note as int, pairs_view(fences@), before, s as int, e as int);
            assert(!in_ranges(pairs_view(fences@), s as int));
            assert(c@.subrange(s as int, e as int) == raw@);
            assert(records_view(records@) == after.records);
            assert(edits_view(edits@) == after.edits);
            assert(stats@ == after.stats);
        }
    }

    /// A resolved note index is a valid note.
    proof fn lemma_resolve_note_bound(&self, raw: Seq<char>, src: Seq<char>)
        requires
            self.wf(),
        ensures
            self.resolve_spec(raw, src).0 matches KindView::Note(i) ==> i < self.pages_v().len(),
    {
        assert forall|p: Seq<char>|
            #[trigger] self.note_lookup(p) is Some implies 0 <= self.note_lookup(p).unwrap().0
                < self.notes_v().len() by {
            lemma_lookup_bound(self.notes_v(), p);
        }
        assert(self.pages_v().len() == self.notes_v().len());
    }
}

/// No counter of `b` exceeds that of `a` by more than `k`; lists only grow.
pub open spec fn grows_at_most(a: StatsView, b: StatsView, k: nat) -> bool {
    &&& a.inline_total <= b.inline_total <= a.inline_total + k
    &&& a.in_fence_skipped <= b.in_fence_skipped <= a.in_fence_skipped + k
    &&& a.external <= b.external <= a.external + k
    &&& a.anchor <= b.anchor <= a.anchor + k
    &&& a.internal <= b.internal <= a.internal + k
    &&& a.rewritten <= b.rewritten <= a.rewritten + k
    &&& a.note_links <= b.note_links <= a.note_links + k
    &&& a.section_links <= b.section_links <= a.section_links + k
    &&& a.asset_links <= b.asset_links <= a.asset_links + k
    &&& a.case_fixed <= b.case_fixed <= a.case_fixed + k
    &&& a.percent_decoded <= b.percent_decoded <= a.percent_decoded + k
    &&& a.recovered_basename <= b.recovered_basename <= a.recovered_basename + k
    &&& a.ext_swap <= b.ext_swap <= a.ext_swap + k
}

/// Edits in text order, each inside `c[..limit]`.
pub open spec fn edits_ordered(ev: Seq<(int, int, Seq<char>)>, limit: int) -> bool {
    &&& forall|k: int| 0 <= k < ev.len() ==> 0 <= (#[trigger] ev[k]).0 <= ev[k].1 <= limit
    &&& forall|k: int, l: int| 0 <= k < l < ev.len() ==> (#[trigger] ev[k]).1 <= (#[trigger] ev[l]).0
}


impl Resolver {
    proof fn lemma_fold_push(
        &self,
        c: Seq<char>,
        src_note: int,
        fences: Seq<(int, int)>,
        init: RewriteState,
        done: Seq<(int, int)>,
        s: int,
        e: int,
    )
        ensures
            self.rewrite_fold(c, src_note, fences, init, done.push((s, e))) == self.link_step(
                c,
                src_note,
                fences,
                self.rewrite_fold(c, src_note, fences, init, done),
                s,
                e,
            ),
    {
        assert(done.push((s, e)).drop_last() =~= done);
    }
}

proof fn lemma_scan_advance(
    c: Seq<char>,
    done: Seq<(int, int)>,
    i: int,
    s: int,
    e: int,
    next: int,
)
    requires
        scan_links(c, 0) == done + scan_links(c, i),
        scan_links(c, i) == seq![(s, e)] + scan_links(c, next),
    ensures
        scan_links(c, 0) == done.push((s, e)) + scan_links(c, next),
{
    assert(done + scan_links(c, i) =~= done.push((s, e)) + scan_links(c, next));
}

proof fn lemma_headroom_step(a: StatsView, b: StatsView, m: nat, m2: nat)
    requires
        a.headroom(3 * m),
        grows_at_most(a, b, 3),
        m2 + 1 <= m,
    ensures
        b.headroom(3 * m2),
{
}

proof fn lemma_edits_step(
    ev0: Seq<(int, int, Seq<char>)>,
    ev: Seq<(int, int, Seq<char>)>,
    i: int,
    s: int,
    e: int,
    next: int,
)
    requires
        edits_ordered(ev0, i),
        0 <= i <= s < e <= next,
        ev == ev0 || (ev.len() == ev0.len() + 1 && ev.drop_last() == ev0 && ev.last().0 == s
            && ev.last().1 == e),
    ensures
        edits_ordered(ev, next),
{
    if ev != ev0 {
        assert forall|k: int| 0 <= k < ev.len() implies 0 <= (#[trigger] ev[k]).0 <= ev[k].1
            <= next by {
            if k < ev0.len() {
                assert(ev.drop_last()[k] == ev[k]);
            } else {
                assert(ev[k] == ev.last());
            }
        }
        assert forall|k: int, l: int| 0 <= k < l < ev.len() implies (#[trigger] ev[k]).1 <= (
        #[trigger] ev[l]).0 by {
            assert(ev.drop_last()[k] == ev[k]);
            if l < ev0.len() {
                assert(ev.drop_last()[l] == ev[l]);
            } else {
                assert(ev[l] == ev.last());
            }
        }
    }
}

/// Applies ordered edits to the text.
fn apply_edits(c: &Vec<char>, edits: &Vec<(usize, usize, Vec<char>)>) -> (r: Vec<char>)
    requires
        edits_ordered(edits_view(edits@), c@.len() as int),
    ensures
        r@ == splice(c@, edits_view(edits@), 0),
{
    let ghost ev = edits_view(edits@);
    let n = c.len();
    let mut out: Vec<char> = Vec::new();
    let mut cursor: usize = 0;
    let mut k: usize = 0;
    assert(ev.skip(0) =~= ev);
    while k < edits.len()
        invariant
            n == c@.len(),
            ev == edits_view(edits@),
            edits_ordered(ev, n as int),
            k <= ev.len(),
            cursor <= n,
            k < ev.len() ==> cursor <= ev[k as int].0,
            splice(c@, ev, 0) == out@ + splice(c@, ev.skip(k as int), cursor as int),
        decreases edits.len() - k,
    {
        let s = edits[k].0;
        let e = edits[k].1;
        assert(ev[k as int] == (s as int, e as int, edits@[k as int].2@));
        let piece = slice_vec(c, cursor, s);
        out.extend_from_slice(&piece);
        out.extend_from_slice(edits[k].2.as_slice());
        assert(ev.skip(k as int).drop_first() =~= ev.skip(k + 1));
        assert(out@ + splice(c@, ev.skip(k + 1), e as int) =~= splice(c@, ev, 0));
        cursor = e;
        proof {
            if k + 1 < ev.len() {
                assert(ev[k as int].1 <= ev[k + 1].0);
            }
        }
        k += 1;
    }
    let tail = slice_vec(c, cursor, n);
    out.extend_from_slice(&tail);
    assert(ev.skip(k as int) =~= Seq::<(int, int, Seq<char>)>::empty());
    out
}

impl Resolver {
    /// The rewriting state of a whole note.
    pub open spec fn rewrite_of(&self, c: Seq<char>, src_note: int, stats: StatsView) -> RewriteState {
        self.rewrite_fold(
            c,
            src_note,
            fences_from(c, 0, None),
            RewriteState { stats, records: Seq::empty(), edits: Seq::empty() },
            scan_links(c, 0),
        )
    }
}

/// Position `o` starts a line of `c`.
pub open spec fn is_line_start(c: Seq<char>, o: int) -> bool {
    0 <= o < c.len() && (o == 0 || c[o - 1] == '\n')
}

proof fn lemma_next_line(c: Seq<char>, o: int, t: int)
    requires
        is_line_start(c, o),
        is_line_start(c, t),
        o < t,
    ensures
        o < line_end_incl(c, o) <= t,
        line_end_incl(c, o) < t ==> is_line_start(c, line_end_incl(c, o)),
{
    let s = c.skip(o);
    lemma_find(s, '\n');
    assert(s[t - 1 - o] == c[t - 1]);
    match find(s, '\n') {
        Some(k) => {
            assert(k <= t - 1 - o);
            assert(s[k] == c[o + k]);
        },
        None => {},
    }
}

proof fn lemma_fences_walk(c: Seq<char>, o: int, t: int, open: Option<int>)
    requires
        is_line_start(c, o),
        is_line_start(c, t),
        o <= t,
        forall|x: int|
            o <= x < t && is_line_start(c, x) ==> !is_fence_line(
                #[trigger] c.subrange(x, line_end_incl(c, x)),
            ),
    ensures
        fences_from(c, o, open) == fences_from(c, t, open),
    decreases t - o,
{
    if o < t {
        lemma_next_line(c, o, t);
        lemma_line_end(c, o);
        let end = line_end_incl(c, o);
        assert(!is_fence_line(c.subrange(o, end)));
        lemma_fences_walk(c, end, t, open);
    }
}

proof fn lemma_fold_edits_outside(
    r: &Resolver,
    c: Seq<char>,
    src_note: int,
    fences: Seq<(int, int)>,
    st: RewriteState,
    links: Seq<(int, int)>,
)
    ensures
        r.rewrite_fold(c, src_note, fences, st, links).edits.len() >= st.edits.len(),
        r.rewrite_fold(c, src_note, fences, st, links).edits.subrange(0, st.edits.len() as int)
            == st.edits,
        forall|q: int|
            st.edits.len() <= q < r.rewrite_fold(c, src_note, fences, st, links).edits.len()
                ==> !in_ranges(
                fences,
                (#[trigger] r.rewrite_fold(c, src_note, fences, st, links).edits[q]).0,
            ),
    decreases links.len(),
{
    if links.len() > 0 {
        lemma_fold_edits_outside(r, c, src_note, fences, st, links.drop_last());
        let prev = r.rewrite_fold(c, src_note, fences, st, links.drop_last());
        let cur = r.rewrite_fold(c, src_note, fences, st, links);
        assert(cur.edits.subrange(0, st.edits.len() as int) =~= prev.edits.subrange(
            0,
            st.edits.len() as int,
        )) by {
            assert forall|q: int| 0 <= q < st.edits.len() implies cur.edits[q] == prev.edits[q] by {}
        }
        assert forall|q: int| st.edits.len() <= q < cur.edits.len() implies !in_ranges(
            fences,
            (#[trigger] cur.edits[q]).0,
        ) by {
            if q < prev.edits.len() {
                assert(cur.edits[q] == prev.edits[q]);
            }
        }
    }
}

/// Links inside a code fence are left alone: take the first line that opens
/// a fence (after white space it starts with ``` or `~~~`; no line before it
/// starts with a fence marker) and the next line that starts with a fence
/// marker. Every position from the opening line to the end of
/// the closing line lies in a code fence, and no edit of the rewrite starts
/// there.
pub proof fn law_links_in_code_fence_untouched(
    r: &Resolver,
    c: Seq<char>,
    src_note: int,
    stats: StatsView,
    off: int,
    off2: int,
)
    requires
        is_line_start(c, off),
        is_line_start(c, off2),
        off < off2,
        ({
            let t = trim_start_by(c.subrange(off, line_end_incl(c, off)), crate::strs::ws_pred());
            starts_with(t, "```"@) || starts_with(t, "~~~"@)
        }),
        ({
            let t = trim_start_by(c.subrange(off2, line_end_incl(c, off2)), crate::strs::ws_pred());
            starts_with(t, "```"@) || starts_with(t, "~~~"@)
        }),
        forall|x: int|
            0 <= x < off2 && x != off && is_line_start(c, x) ==> ({
                let t = trim_start_by(
                    #[trigger] c.subrange(x, line_end_incl(c, x)),
                    crate::strs::ws_pred(),
                );
                !starts_with(t, "```"@) && !starts_with(t, "~~~"@)
            }),
    ensures
        forall|p: int| off <= p < line_end_incl(c, off2) ==> in_ranges(fences_from(c, 0, None), p),
        forall|q: int|
            0 <= q < r.rewrite_of(c, src_note, stats).edits.len() ==> !(off <= (
            #[trigger] r.rewrite_of(c, src_note, stats).edits[q]).0 < line_end_incl(c, off2)),
{
    lemma_line_end(c, off);
    lemma_line_end(c, off2);
    lemma_next_line(c, off, off2);
    let e1 = line_end_incl(c, off);
    let e2 = line_end_incl(c, off2);
    assert(is_line_start(c, 0));
    lemma_fences_walk(c, 0, off, None);
    assert(is_fence_line(c.subrange(off, e1)));
    assert(fences_from(c, off, None) == fences_from(c, e1, Some(off)));
    if e1 < off2 {
        lemma_fences_walk(c, e1, off2, Some(off));
    }
    assert(is_fence_line(c.subrange(off2, e2)));
    let fs = fences_from(c, 0, None);
    assert(fs == seq![(off, e2)] + fences_from(c, e2, None));
    assert(fs[0] == (off, e2));
    assert forall|p: int| off <= p < e2 implies in_ranges(fs, p) by {
        assert(fs[0].0 <= p < fs[0].1);
    }
    let st0 = RewriteState { stats, records: Seq::empty(), edits: Seq::empty() };
    lemma_fold_edits_outside(r, c, src_note, fs, st0, scan_links(c, 0));
}

/// Rewrites one note body: every link destination that resolves inside the
/// repository becomes the page-relative URL of its staged page; links inside
/// code fences are counted and left alone. Returns the new text and one
/// record per link outside the fences.
#[verifier::rlimit(60)]
pub fn rewrite_note(content: &str, src_note: usize, resolver: &Resolver, stats: &mut Stats) -> (r: (
    String,
    Vec<LinkRecord>,
))
    requires
        resolver.wf(),
        src_note < resolver.notes_v().len(),
        old(stats)@.headroom(3 * content@.len()),
    ensures
        ({
            let st = resolver.rewrite_of(content@, src_note as int, old(stats)@);
            &&& r.0@ == splice(content@, st.edits, 0)
            &&& records_view(r.1@) == st.records
            &&& final(stats)@ == st.stats
        }),
{
    let c = chars_of(content);
    let n = c.len();
    let fences = fence_ranges(&c);
    let ghost fv = pairs_view(fences@);
    let ghost init = RewriteState { stats: old(stats)@, records: Seq::empty(), edits: Seq::empty() };
    let mut edits: Vec<(usize, usize, Vec<char>)> = Vec::new();
    let mut records: Vec<LinkRecord> = Vec::new();
    let ghost mut done: Seq<(int, int)> = Seq::empty();
    let mut i: usize = 0;
    assert(edits_view(edits@) =~= Seq::<(int, int, Seq<char>)>::empty());
    assert(records_view(records@) =~= Seq::<LinkRecordView>::empty());
    assert(scan_links(c@, 0) =~= done + scan_links(c@, 0));
    while i < n && n - i > 1
        invariant
            resolver.wf(),
            src_note < resolver.notes_v().len(),
            n == c@.len(),
            c@ == content@,
            fv == pairs_view(fences@),
            fv == fences_from(c@, 0, None),
            i <= n,
            scan_links(c@, 0) == done + scan_links(c@, i as int),
            ({
                let st = resolver.rewrite_fold(c@, src_note as int, fv, init, done);
                &&& stats@ == st.stats
                &&& records_view(records@) == st.records
                &&& edits_view(edits@) == st.edits
            }),
            stats@.headroom(3 * (n - i) as nat),
            edits_ordered(edits_view(edits@), i as int),
        decreases n - i,
    {
        if c[i] != ']' || c[i + 1] != '(' {
            i += 1;
            continue;
        }
        let j = skip_blank(&c, i + 2);
        if j >= n {
            i = n;
            continue;
        }
        let s: usize;
        let e: usize;
        let next: usize;
        if c[j] == '<' {
            match find_char_from(&c, j + 1, '>') {
                None => {
                    i = n;
                    continue;
                },
                Some(k) => {
                    s = j + 1;
                    e = k;
                    next = k + 1;
                },
            }
        } else {
            let k = skip_url(&c, j);
            s = j;
            e = k;
            next = k;
        }
        if e <= s {
            i = next;
            continue;
        }
        assert(scan_links(c@, i as int) == seq![(s as int, e as int)] + scan_links(
            c@,
            next as int,
        ));
        let ghost sv = stats@;
        let ghost ev0 = edits_view(edits@);
        let ghost st0 = resolver.rewrite_fold(c@, src_note as int, fv, init, done);
        resolver.process_link(&c, src_note, &fences, s, e, stats, &mut records, &mut edits);
        proof {
            resolver.lemma_fold_push(c@, src_note as int, fv, init, done, s as int, e as int);
            lemma_scan_advance(c@, done, i as int, s as int, e as int, next as int);
            lemma_headroom_step(sv, stats@, (n - i) as nat, (n - next) as nat);
            lemma_edits_step(ev0, edits_view(edits@), i as int, s as int, e as int, next as int);
            done = done.push((s as int, e as int));
        }
        i = next;
    }
    proof {
        assert(scan_links(c@, i as int) =~= Seq::<(int, int)>::empty());
        assert(done =~= scan_links(c@, 0));
    }
    let out = apply_edits(&c, &edits);
    (string_of(&out), records)
}

/// `a` comes before `b` in lexicographic order.
pub open spec fn pair_lt(a: (u32, u32), b: (u32, u32)) -> bool {
    a.0 < b.0 || (a.0 == b.0 && a.1 < b.1)
}

/// Strictly increasing in lexicographic order (hence without duplicates).
pub open spec fn strictly_sorted(s: Seq<(u32, u32)>) -> bool {
    forall|i: int, j: int| 0 <= i < j < s.len() ==> pair_lt(#[trigger] s[i], #[trigger] s[j])
}

/// The pairs of a set, in increasing order.
pub fn sorted_vec(set: BTreeSet<(u32, u32)>) -> (r: Vec<(u32, u32)>)
    ensures
        r@.to_set() == set@,
        strictly_sorted(r@),
{
    broadcast use vstd::std_specs::btree::group_btree_axioms;
    broadcast use vstd::laws_cmp::group_laws_cmp;

    let ghost items = spec_btree_keys_iter(&set).remaining();
    let mut v: Vec<(u32, u32)> = Vec::new();
    for x in it: set.iter()
        invariant
            it.seq() == items,
            items.unref().to_set() == set@,
            increasing_seq(items),
            v@ == items.unref().take(it.index()),
    {
        v.push(*x);
        assert(items.unref().take(it.index() + 1) =~= items.unref().take(it.index()).push(*x));
    }
    assert(v@ =~= items.unref());
    assert(vstd::laws_cmp::obeys_cmp::<u32>());
    assert(vstd::laws_cmp::obeys_cmp::<(u32, u32)>());
    assert(vstd::laws_cmp::obeys_cmp::<&(u32, u32)>());
    proof {
        vstd::std_specs::btree::axiom_increasing_seq_meaning::<&(u32, u32)>(items);
    }
    assert forall|i: int, j: int| 0 <= i < j < v@.len() implies pair_lt(
        #[trigger] v@[i],
        #[trigger] v@[j],
    ) by {
        assert(OrdSpec::cmp_spec(&items[i], &items[j]) is Less);
    }
    v
}

/// Number of non-overlapping occurrences of `p` in `s` from position `i`,
/// scanning left to right (`str::match_indices`).
pub open spec fn count_matches_from(s: Seq<char>, p: Seq<char>, i: int) -> nat
    decreases s.len() + 1 - i,
{
    if p.len() == 0 {
        0
    } else {
        match find_sub_from(s, p, i) {
            None => 0,
            Some(k) => {
                proof {
                    lemma_find_sub_from(s, p, i);
                }
                1 + count_matches_from(s, p, k + p.len())
            },
        }
    }
}

/// How many repository blob URLs are left in a text (a check on the stage).
pub fn count_gh_blob(text: &str) -> (r: usize)
    ensures
        r == count_matches_from(text@, blob_marker(), 0),
{
    let c = chars_of(text);
    let marker = chars_of("github.com/rlaope/estudy/blob/master/");
    proof {
        reveal_strlit("github.com/rlaope/estudy/blob/master/");
    }
    let n = c.len();
    let m = marker.len();
    let mut count: usize = 0;
    let mut i: usize = 0;
    while i <= n
        invariant
            n == c@.len(),
            c@ == text@,
            m == marker@.len(),
            marker@ == blob_marker(),
            m > 0,
            count <= i,
            count_matches_from(c@, marker@, 0) == count + count_matches_from(c@, marker@, i as int),
        decreases n + 1 - i,
    {
        match find_sub_from_vec(&c, &marker, i) {
            None => {
                assert(count_matches_from(c@, marker@, i as int) == 0);
                return count;
            },
            Some(k) => {
                proof {
                    lemma_find_sub_from(c@, marker@, i as int);
                }
                count += 1;
                i = k + m;
            },
        }
    }
    count
}

} // verus!
