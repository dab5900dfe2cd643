//! The graph model: notes, section hubs and a root hub, and its CSR
//! adjacency encoding.

use std::collections::BTreeSet;
use vstd::prelude::*;
use crate::links::{
    sorted_vec, strictly_sorted, Kind, KindView, LinkRecord, LinkRecordView, records_view,
};
use crate::le::{extend_u32s_le, le_u32s};
use crate::order::{insert_sorted_str, sort_dedup_u32, sorted_strs, sorted_u32};
use crate::strs::{
    chars_eq, chars_of, ends_with, find, find_char, find_key, has_prefix, has_suffix, index_of,
    lemma_find, lemma_index_of, lemma_keys_view, lowercase_of, lowercase_vec, starts_with,
    string_of,
};
use crate::text::strings_view;

verus! {

// ---------------------------------------------------------------------------
// Types
// ---------------------------------------------------------------------------
/// How many unique undirected edges each rule contributed.
#[derive(Debug, Clone)]
pub struct EdgeBreakdown {
    /// Note ↔ its section hub.
    pub section_membership: usize,
    /// Root hub ↔ section hub.
    pub root_to_section: usize,
    /// Note → note (links in bodies).
    pub intra_note: usize,
    /// README → note (direct index links).
    pub readme_direct: usize,
    /// Parent → child of the README's nested lists.
    pub readme_parent_child: usize,
    /// README → section hub (directory targets).
    pub readme_to_section: usize,
    /// Undirected edges after removing duplicates.
    pub total_unique: usize,
}

impl EdgeBreakdown {
    /// All counts at zero.
    pub fn new() -> (r: EdgeBreakdown)
        ensures
            r@ == BreakdownView::zero(),
    {
        EdgeBreakdown {
            section_membership: 0,
            root_to_section: 0,
            intra_note: 0,
            readme_direct: 0,
            readme_parent_child: 0,
            readme_to_section: 0,
            total_unique: 0,
        }
    }
}

impl Default for EdgeBreakdown {
    fn default() -> (r: EdgeBreakdown)
        ensures
            r@ == BreakdownView::zero(),
    {
        EdgeBreakdown::new()
    }
}

/// The counts of an [`EdgeBreakdown`] (without the total).
pub struct BreakdownView {
    pub section_membership: nat,
    pub root_to_section: nat,
    pub intra_note: nat,
    pub readme_direct: nat,
    pub readme_parent_child: nat,
    pub readme_to_section: nat,
    pub total_unique: nat,
}

impl BreakdownView {
    pub open spec fn zero() -> BreakdownView {
        BreakdownView {
            section_membership: 0,
            root_to_section: 0,
            intra_note: 0,
            readme_direct: 0,
            readme_parent_child: 0,
            readme_to_section: 0,
            total_unique: 0,
        }
    }

    /// One more edge credited to rule `which` (1..=6).
    pub open spec fn credit(self, which: int) -> BreakdownView {
        if which == 1 {
            BreakdownView { section_membership: self.section_membership + 1, ..self }
        } else if which == 2 {
            BreakdownView { root_to_section: self.root_to_section + 1, ..self }
        } else if which == 3 {
            BreakdownView { intra_note: self.intra_note + 1, ..self }
        } else if which == 4 {
            BreakdownView { readme_direct: self.readme_direct + 1, ..self }
        } else if which == 5 {
            BreakdownView { readme_parent_child: self.readme_parent_child + 1, ..self }
        } else if which == 6 {
            BreakdownView { readme_to_section: self.readme_to_section + 1, ..self }
        } else {
            self
        }
    }

    /// Sum of the per-rule counts.
    pub open spec fn credited(self) -> nat {
        self.section_membership + self.root_to_section + self.intra_note + self.readme_direct
            + self.readme_parent_child + self.readme_to_section
    }
}

impl View for EdgeBreakdown {
    type V = BreakdownView;

    open spec fn view(&self) -> BreakdownView {
        BreakdownView {
            section_membership: self.section_membership as nat,
            root_to_section: self.root_to_section as nat,
            intra_note: self.intra_note as nat,
            readme_direct: self.readme_direct as nat,
            readme_parent_child: self.readme_parent_child as nat,
            readme_to_section: self.readme_to_section as nat,
            total_unique: self.total_unique as nat,
        }
    }
}

/// The note graph with its CSR adjacency.
#[derive(Debug, Clone)]
pub struct Graph {
    pub node_count: usize,
    pub note_count: usize,
    /// (section name, number of notes), by name.
    pub sections: Vec<(String, usize)>,
    /// (section name, hub node id).
    pub section_hubs: Vec<(String, usize)>,
    pub root_hub: usize,
    /// Undirected edges `(u, v)` with `u < v`, without duplicates, sorted.
    pub edges: Vec<(u32, u32)>,
    /// CSR offsets (N + 1).
    pub offsets: Vec<u32>,
    /// CSR targets: every edge in both directions, so twice the edges.
    pub targets: Vec<u32>,
    pub degrees: Vec<u32>,
    pub breakdown: EdgeBreakdown,
}

impl Graph {
    /// The CSR as `u32` little-endian bytes: `[offsets N+1][targets E]`.
    pub fn csr_bytes(&self) -> (r: Vec<u8>)
        ensures
            r@ == le_u32s(self.offsets@) + le_u32s(self.targets@),
    {
        let mut out: Vec<u8> = Vec::new();
        extend_u32s_le(&mut out, self.offsets.as_slice());
        extend_u32s_le(&mut out, self.targets.as_slice());
        assert(out@ =~= le_u32s(self.offsets@) + le_u32s(self.targets@));
        out
    }
}

// ---------------------------------------------------------------------------
// Sections
// ---------------------------------------------------------------------------
/// The top-level section of a note path (empty for a note at the root).
pub open spec fn top_section_of(rel: Seq<char>) -> Seq<char> {
    match find(rel, '/') {
        Some(i) => rel.take(i),
        None => Seq::empty(),
    }
}

/// The top-level section of a note path (empty for a note at the root).
pub fn top_section(rel: &str) -> (r: &str)
    ensures
        r@ == top_section_of(rel@),
{
    let v = chars_of(rel);
    proof {
        lemma_find(rel@, '/');
    }
    match find_char(&v, '/') {
        Some(i) => rel.substring_char(0, i),
        None => rel.substring_char(0, 0),
    }
}

/// The non-empty top-level sections of the notes.
pub open spec fn section_set(notes: Seq<Seq<char>>) -> Set<Seq<char>> {
    Set::new(
        |s: Seq<char>|
            s.len() > 0 && exists|i: int| 0 <= i < notes.len() && #[trigger] top_section_of(notes[i]) == s,
    )
}

/// Number of notes in section `name`.
pub open spec fn section_count(notes: Seq<Seq<char>>, name: Seq<char>) -> nat
    decreases notes.len(),
{
    if notes.len() == 0 {
        0
    } else {
        section_count(notes.drop_last(), name) + if top_section_of(notes.last()) == name {
            1nat
        } else {
            0nat
        }
    }
}

/// The hub node of a section, given the sorted section names.
pub open spec fn hub_of(names: Seq<Seq<char>>, note_count: int, name: Seq<char>) -> Option<int> {
    match index_of(names, name) {
        Some(k) => Some(note_count + k),
        None => None,
    }
}

// ---------------------------------------------------------------------------
// The README
// ---------------------------------------------------------------------------
/// A `README*.md` at the root (case-insensitively).
pub open spec fn is_root_readme(n: Seq<char>) -> bool {
    find(n, '/') is None && ends_with(lowercase_of(n), ".md"@) && starts_with(
        lowercase_of(n),
        "readme"@,
    )
}

/// The first root README named exactly `README.md` (in any case).
pub open spec fn first_plain_readme(notes: Seq<Seq<char>>) -> Option<int>
    decreases notes.len(),
{
    if notes.len() == 0 {
        None
    } else {
        match first_plain_readme(notes.drop_last()) {
            Some(i) => Some(i),
            None => if is_root_readme(notes.last()) && lowercase_of(notes.last()) == "readme.md"@ {
                Some(notes.len() - 1)
            } else {
                None
            },
        }
    }
}

/// The first root README.
pub open spec fn first_readme(notes: Seq<Seq<char>>) -> Option<int>
    decreases notes.len(),
{
    if notes.len() == 0 {
        None
    } else {
        match first_readme(notes.drop_last()) {
            Some(i) => Some(i),
            None => if is_root_readme(notes.last()) {
                Some(notes.len() - 1)
            } else {
                None
            },
        }
    }
}

/// The README that indexes the notes: `README.md` if present, otherwise the
/// first root `README*.md` in path order.
pub open spec fn readme_of(notes: Seq<Seq<char>>) -> Option<int> {
    match first_plain_readme(notes) {
        Some(i) => Some(i),
        None => first_readme(notes),
    }
}

// ---------------------------------------------------------------------------
// Candidate edges, in insertion order
// ---------------------------------------------------------------------------
/// `(a, b, rule)`: an edge between nodes `a` and `b` proposed by `rule`.
pub type Cand = (int, int, int);

/// Rule 1: each note with its section hub (root notes with the root hub).
pub open spec fn membership_cands(notes: Seq<Seq<char>>, names: Seq<Seq<char>>) -> Seq<Cand> {
    let n = notes.len() as int;
    let root = n + names.len();
    Seq::new(
        notes.len(),
        |i: int|
            (
                i,
                if top_section_of(notes[i]).len() == 0 {
                    root
                } else {
                    match hub_of(names, n, top_section_of(notes[i])) {
                        Some(h) => h,
                        None => root,
                    }
                },
                1,
            ),
    )
}

/// Rule 2: the root hub with each section hub.
pub open spec fn root_cands(n: int, sections: nat) -> Seq<Cand> {
    Seq::new(sections, |k: int| (n + sections, n + k, 2))
}

/// Rule 3: note links of note `i`.
pub open spec fn note_links_of(i: int, recs: Seq<LinkRecordView>) -> Seq<Cand>
    decreases recs.len(),
{
    if recs.len() == 0 {
        Seq::empty()
    } else {
        note_links_of(i, recs.drop_last()) + match recs.last().kind {
            KindView::Note(j) => seq![(i, j as int, 3)],
            _ => Seq::empty(),
        }
    }
}

/// Rule 3 over all notes, in note order.
pub open spec fn intra_cands(records: Seq<Seq<LinkRecordView>>) -> Seq<Cand>
    decreases records.len(),
{
    if records.len() == 0 {
        Seq::empty()
    } else {
        intra_cands(records.drop_last()) + note_links_of(
            records.len() - 1,
            records.last(),
        )
    }
}

/// Rules 4 and 6: the README's note links and section links.
pub open spec fn readme_direct_cands(
    readme: int,
    recs: Seq<LinkRecordView>,
    names: Seq<Seq<char>>,
    n: int,
) -> Seq<Cand>
    decreases recs.len(),
{
    if recs.len() == 0 {
        Seq::empty()
    } else {
        readme_direct_cands(readme, recs.drop_last(), names, n) + match recs.last().kind {
            KindView::Note(j) => seq![(readme, j as int, 4)],
            KindView::Section(name) => match hub_of(names, n, name) {
                Some(h) => seq![(readme, h, 6)],
                None => Seq::empty(),
            },
            _ => Seq::empty(),
        }
    }
}

/// The node a README list item points at.
pub open spec fn bullet_target(r: LinkRecordView, names: Seq<Seq<char>>, n: int) -> Option<int> {
    match r.kind {
        KindView::Note(j) => Some(j as int),
        KindView::Section(name) => hub_of(names, n, name),
        _ => None,
    }
}

/// The open list items, without those indented at least `indent`.
pub open spec fn pop_ge(stack: Seq<(nat, Option<int>)>, indent: nat) -> Seq<(nat, Option<int>)>
    decreases stack.len(),
{
    if stack.len() > 0 && stack.last().0 >= indent {
        pop_ge(stack.drop_last(), indent)
    } else {
        stack
    }
}

/// Rule 5: the README's nested lists; the parent of an item is the nearest
/// shallower item above it, and an item that points nowhere hands its own
/// parent down. Returns the open items and the candidates.
pub open spec fn tree_fold(recs: Seq<LinkRecordView>, names: Seq<Seq<char>>, n: int) -> (
    Seq<(nat, Option<int>)>,
    Seq<Cand>,
)
    decreases recs.len(),
{
    if recs.len() == 0 {
        (Seq::empty(), Seq::empty())
    } else {
        let (st, cs) = tree_fold(recs.drop_last(), names, n);
        let r = recs.last();
        if !r.bullet {
            (st, cs)
        } else {
            let target = bullet_target(r, names, n);
            let st2 = pop_ge(st, r.indent);
            let parent = if st2.len() > 0 {
                st2.last().1
            } else {
                None
            };
            let cs2 = match (parent, target) {
                (Some(p), Some(t)) => cs.push((p, t, 5)),
                _ => cs,
            };
            let inherit = match target {
                Some(t) => Some(t),
                None => parent,
            };
            (st2.push((r.indent, inherit)), cs2)
        }
    }
}

/// Every candidate edge, in the order the rules insert them.
pub open spec fn all_cands(notes: Seq<Seq<char>>, records: Seq<Seq<LinkRecordView>>, names: Seq<
    Seq<char>,
>) -> Seq<Cand> {
    let n = notes.len() as int;
    membership_cands(notes, names) + root_cands(n, names.len()) + intra_cands(records) + match readme_of(notes) {
        Some(rd) => readme_direct_cands(rd, records[rd], names, n) + tree_fold(records[rd], names, n).1,
        None => Seq::empty(),
    }
}

/// The undirected key of an edge.
pub open spec fn edge_key(a: int, b: int) -> (u32, u32) {
    if a < b {
        (a as u32, b as u32)
    } else {
        (b as u32, a as u32)
    }
}

/// Inserting one candidate: a self-loop or an edge already present changes
/// nothing, a new edge is credited to its rule.
pub open spec fn edge_step(acc: (Set<(u32, u32)>, BreakdownView), c: Cand) -> (
    Set<(u32, u32)>,
    BreakdownView,
) {
    let (set, bd) = acc;
    let (a, b, w) = c;
    if a == b || set.contains(edge_key(a, b)) {
        (set, bd)
    } else {
        (set.insert(edge_key(a, b)), bd.credit(w))
    }
}

/// The edge set and per-rule counts after inserting `cands` in order.
pub open spec fn edge_fold(cands: Seq<Cand>) -> (Set<(u32, u32)>, BreakdownView)
    decreases cands.len(),
{
    if cands.len() == 0 {
        (Set::empty(), BreakdownView::zero())
    } else {
        edge_step(edge_fold(cands.drop_last()), cands.last())
    }
}

/// The neighbours of `v`.
pub open spec fn neighbours(edges: Set<(u32, u32)>, v: u32) -> Set<u32> {
    Set::new(|u: u32| edges.contains((v, u)) || edges.contains((u, v)))
}

/// The concatenation of the adjacency lists.
pub open spec fn flatten_u32(adj: Seq<Seq<u32>>) -> Seq<u32>
    decreases adj.len(),
{
    if adj.len() == 0 {
        Seq::empty()
    } else {
        flatten_u32(adj.drop_last()) + adj.last()
    }
}

// ---------------------------------------------------------------------------
// Building
// ---------------------------------------------------------------------------
/// The views of per-note link records.
pub open spec fn all_records_view(records: Seq<Vec<LinkRecord>>) -> Seq<Seq<LinkRecordView>> {
    records.map_values(|v: Vec<LinkRecord>| records_view(v@))
}

/// The sorted distinct top-level sections of the notes.
fn section_names(notes: &[String]) -> (r: Vec<Vec<char>>)
    ensures
        sorted_strs(r.deep_view()),
        r.deep_view().to_set() == section_set(strings_view(notes@)),
        r@.len() <= notes@.len(),
{
    let ghost nv = strings_view(notes@);
    let mut names: Vec<Vec<char>> = Vec::new();
    let mut i: usize = 0;
    while i < notes.len()
        invariant
            i <= notes@.len(),
            nv == strings_view(notes@),
            names@.len() <= i,
            sorted_strs(names.deep_view()),
            forall|s: Seq<char>|
                #[trigger] names.deep_view().to_set().contains(s) <==> (s.len() > 0 && exists|j: int|
                    0 <= j < i && #[trigger] top_section_of(nv[j]) == s),
        decreases notes.len() - i,
    {
        let t = top_section(notes[i].as_str());
        let tv = chars_of(t);
        let ghost old_set = names.deep_view().to_set();
        if tv.len() > 0 {
            insert_sorted_str(&mut names, tv);
        }
        assert forall|s: Seq<char>|
            #[trigger] names.deep_view().to_set().contains(s) <==> (s.len() > 0 && exists|j: int|
                0 <= j < i + 1 && #[trigger] top_section_of(nv[j]) == s) by {
            if s.len() > 0 && top_section_of(nv[i as int]) == s {
                assert(names.deep_view().to_set().contains(s));
            }
            if old_set.contains(s) {
                let j = choose|j: int| 0 <= j < i && #[trigger] top_section_of(nv[j]) == s;
                assert(0 <= j < i + 1 && top_section_of(nv[j]) == s);
            }
            if s.len() > 0 && (exists|j: int| 0 <= j < i + 1 && #[trigger] top_section_of(nv[j]) == s) {
                let j = choose|j: int| 0 <= j < i + 1 && #[trigger] top_section_of(nv[j]) == s;
                if j < i {
                    assert(old_set.contains(s));
                }
            }
        }
        i += 1;
    }
    assert(names.deep_view().to_set() =~= section_set(nv));
    names
}

/// Number of notes whose top-level section is `name`.
fn count_section(notes: &[String], name: &[char]) -> (r: usize)
    ensures
        r == section_count(strings_view(notes@), name@),
        r <= notes@.len(),
{
    let ghost nv = strings_view(notes@);
    let mut c: usize = 0;
    let mut i: usize = 0;
    while i < notes.len()
        invariant
            i <= notes@.len(),
            nv == strings_view(notes@),
            c <= i,
            c == section_count(nv.take(i as int), name@),
        decreases notes.len() - i,
    {
        assert(nv.take(i + 1).drop_last() =~= nv.take(i as int));
        let t = top_section(notes[i].as_str());
        let tv = chars_of(t);
        if chars_eq(&tv, name) {
            c += 1;
        }
        i += 1;
    }
    assert(nv.take(notes@.len() as int) =~= nv);
    c
}

fn is_root_readme_exec(n: &String) -> (r: bool)
    ensures
        r == is_root_readme(n@),
{
    let v = chars_of(n.as_str());
    let l = lowercase_vec(&v);
    let md = chars_of(".md");
    let readme = chars_of("readme");
    find_char(&v, '/').is_none() && has_suffix(&l, &md) && has_prefix(&l, &readme)
}

/// The README that indexes the notes.
fn readme_index(notes: &[String]) -> (r: Option<usize>)
    ensures
        match r {
            Some(i) => readme_of(strings_view(notes@)) == Some(i as int),
            None => readme_of(strings_view(notes@)) is None,
        },
        r matches Some(i) ==> i < notes@.len(),
{
    let ghost nv = strings_view(notes@);
    let plain = chars_of("readme.md");
    let mut first: Option<usize> = None;
    let mut i: usize = 0;
    assert(nv.take(0) =~= Seq::<Seq<char>>::empty());
    while i < notes.len()
        invariant
            i <= notes@.len(),
            nv == strings_view(notes@),
            plain@ == "readme.md"@,
            first_plain_readme(nv.take(i as int)) is None,
            first matches Some(f) ==> f < i,
            match first {
                Some(f) => first_readme(nv.take(i as int)) == Some(f as int),
                None => first_readme(nv.take(i as int)) is None,
            },
        decreases notes.len() - i,
    {
        assert(nv.take(i + 1).drop_last() =~= nv.take(i as int));
        let root = is_root_readme_exec(&notes[i]);
        if root {
            let l = lowercase_vec(&chars_of(notes[i].as_str()));
            if chars_eq(&l, &plain) {
                proof {
                    lemma_first_prefix(nv, i as int + 1);
                }
                return Some(i);
            }
            if first.is_none() {
                first = Some(i);
            }
        }
        i += 1;
    }
    assert(nv.take(notes@.len() as int) =~= nv);
    first
}

/// A first match inside a prefix is the first match of the whole list.
proof fn lemma_first_prefix(nv: Seq<Seq<char>>, m: int)
    requires
        0 <= m <= nv.len(),
        first_plain_readme(nv.take(m)) is Some,
    ensures
        first_plain_readme(nv) == first_plain_readme(nv.take(m)),
    decreases nv.len() - m,
{
    if m == nv.len() {
        assert(nv.take(m) =~= nv);
    } else {
        assert(nv.drop_last().take(m) =~= nv.take(m));
        lemma_first_prefix(nv.drop_last(), m);
    }
}

/// Inserts the undirected edge `a`–`b` unless it is a self-loop or already
/// present; a new edge is credited to rule `which`.
fn add_edge(a: usize, b: usize, which: u8, bd: &mut EdgeBreakdown, set: &mut BTreeSet<(u32, u32)>)
    requires
        a == b || (a <= u32::MAX && b <= u32::MAX),
        1 <= which <= 6,
        old(bd)@.credited() < usize::MAX,
    ensures
        (final(set)@, final(bd)@) == edge_step(
            (old(set)@, old(bd)@),
            (a as int, b as int, which as int),
        ),
        final(bd)@.credited() <= old(bd)@.credited() + 1,
{
    broadcast use vstd::std_specs::btree::group_btree_axioms;

    proof {
        lemma_pair_order();
    }
    if a == b {
        return;
    }
    let key: (u32, u32) = if a < b {
        (a as u32, b as u32)
    } else {
        (b as u32, a as u32)
    };
    assert(key == edge_key(a as int, b as int));
    let fresh = set.insert(key);
    if !fresh {
        return;
    }
    if which == 1 {
        bd.section_membership += 1;
    } else if which == 2 {
        bd.root_to_section += 1;
    } else if which == 3 {
        bd.intra_note += 1;
    } else if which == 4 {
        bd.readme_direct += 1;
    } else if which == 5 {
        bd.readme_parent_child += 1;
    } else {
        bd.readme_to_section += 1;
    }
}

/// Pairs of integers obey the ordering laws that `BTreeSet` relies on.
proof fn lemma_pair_order()
    ensures
        vstd::laws_cmp::obeys_cmp::<(u32, u32)>(),
{
    broadcast use vstd::laws_cmp::group_laws_cmp;

    assert(vstd::laws_cmp::obeys_cmp::<u32>());
}

proof fn lemma_fold_push(cands: Seq<Cand>, c: Cand)
    ensures
        edge_fold(cands.push(c)) == edge_step(edge_fold(cands), c),
{
    assert(cands.push(c).drop_last() =~= cands);
}

/// Number of link records over all notes.
pub open spec fn total_links(records: Seq<Seq<LinkRecordView>>) -> nat
    decreases records.len(),
{
    if records.len() == 0 {
        0
    } else {
        total_links(records.drop_last()) + records.last().len()
    }
}

/// Every note link joins two nodes below `limit` (or a node with itself).
pub open spec fn links_in_range(records: Seq<Seq<LinkRecordView>>, limit: int) -> bool {
    forall|i: int, k: int|
        0 <= i < records.len() && 0 <= k < records[i].len() ==> ((#[trigger] records[i][k]).kind matches KindView::Note(
            j,
        ) ==> (i == j || (i < limit && j < limit)))
}

/// Number of nodes: notes, section hubs, root hub.
pub open spec fn node_total(notes: Seq<Seq<char>>) -> int {
    (notes.len() + section_set(notes).len() + 1) as int
}

/// The node of a section hub.
fn hub_id(names: &Vec<Vec<char>>, n: usize, name: &[char]) -> (r: Option<usize>)
    requires
        n + names@.len() <= u32::MAX,
    ensures
        match r {
            Some(h) => hub_of(names.deep_view(), n as int, name@) == Some(h as int) && n <= h < n
                + names@.len(),
            None => hub_of(names.deep_view(), n as int, name@) is None,
        },
{
    proof {
        lemma_keys_view(names);
        lemma_index_of(names.deep_view(), name@);
    }
    match find_key(names, name) {
        Some(k) => Some(n + k),
        None => None,
    }
}

/// Rule 1: every note with its section hub, the root notes with the root hub.
fn add_membership(
    notes: &[String],
    names: &Vec<Vec<char>>,
    bd: &mut EdgeBreakdown,
    set: &mut BTreeSet<(u32, u32)>,
    Ghost(done): Ghost<Seq<Cand>>,
)
    requires
        (old(set)@, old(bd)@) == edge_fold(done),
        old(bd)@.credited() <= done.len(),
        done.len() + notes@.len() < usize::MAX,
        notes@.len() + names@.len() <= u32::MAX,
    ensures
        (final(set)@, final(bd)@) == edge_fold(
            done + membership_cands(strings_view(notes@), names.deep_view()),
        ),
        final(bd)@.credited() <= done.len() + notes@.len(),
{
    let ghost nv = strings_view(notes@);
    let ghost cands = membership_cands(nv, names.deep_view());
    let n = notes.len();
    let root = n + names.len();
    let mut i: usize = 0;
    assert(done + cands.take(0) =~= done);
    while i < n
        invariant
            i <= n == notes@.len(),
            nv == strings_view(notes@),
            cands == membership_cands(nv, names.deep_view()),
            root == n + names@.len(),
            n + names@.len() <= u32::MAX,
            done.len() + n < usize::MAX,
            (set@, bd@) == edge_fold(done + cands.take(i as int)),
            bd@.credited() <= done.len() + i,
        decreases n - i,
    {
        let t = top_section(notes[i].as_str());
        let tv = chars_of(t);
        let hub = if tv.len() == 0 {
            root
        } else {
            match hub_id(names, n, &tv) {
                Some(h) => h,
                None => root,
            }
        };
        assert(cands[i as int] == (i as int, hub as int, 1int));
        add_edge(i, hub, 1, bd, set);
        proof {
            lemma_fold_push(done + cands.take(i as int), cands[i as int]);
            assert(done + cands.take(i + 1) =~= (done + cands.take(i as int)).push(cands[i as int]));
        }
        i += 1;
    }
    assert(cands.take(n as int) =~= cands);
}

/// Rule 2: the root hub with every section hub.
fn add_root_links(
    n: usize,
    names: &Vec<Vec<char>>,
    bd: &mut EdgeBreakdown,
    set: &mut BTreeSet<(u32, u32)>,
    Ghost(done): Ghost<Seq<Cand>>,
)
    requires
        (old(set)@, old(bd)@) == edge_fold(done),
        old(bd)@.credited() <= done.len(),
        done.len() + names@.len() < usize::MAX,
        n + names@.len() <= u32::MAX,
    ensures
        (final(set)@, final(bd)@) == edge_fold(done + root_cands(n as int, names@.len())),
        final(bd)@.credited() <= done.len() + names@.len(),
{
    let ghost cands = root_cands(n as int, names@.len());
    let s = names.len();
    let root = n + s;
    let mut k: usize = 0;
    assert(done + cands.take(0) =~= done);
    while k < s
        invariant
            k <= s == names@.len(),
            cands == root_cands(n as int, s as nat),
            root == n + s,
            n + s <= u32::MAX,
            done.len() + s < usize::MAX,
            (set@, bd@) == edge_fold(done + cands.take(k as int)),
            bd@.credited() <= done.len() + k,
        decreases s - k,
    {
        assert(cands[k as int] == (root as int, (n + k) as int, 2int));
        add_edge(root, n + k, 2, bd, set);
        proof {
            lemma_fold_push(done + cands.take(k as int), cands[k as int]);
            assert(done + cands.take(k + 1) =~= (done + cands.take(k as int)).push(cands[k as int]));
        }
        k += 1;
    }
    assert(cands.take(s as int) =~= cands);
}

proof fn lemma_note_links_len(i: int, recs: Seq<LinkRecordView>)
    ensures
        note_links_of(i, recs).len() <= recs.len(),
    decreases recs.len(),
{
    if recs.len() > 0 {
        lemma_note_links_len(i, recs.drop_last());
    }
}

proof fn lemma_intra_len(records: Seq<Seq<LinkRecordView>>)
    ensures
        intra_cands(records).len() <= total_links(records),
    decreases records.len(),
{
    if records.len() > 0 {
        lemma_intra_len(records.drop_last());
        lemma_note_links_len(records.len() - 1, records.last());
    }
}

proof fn lemma_total_links_elem(records: Seq<Seq<LinkRecordView>>, i: int)
    requires
        0 <= i < records.len(),
    ensures
        records[i].len() <= total_links(records),
        total_links(records.take(i)) + records[i].len() <= total_links(records),
    decreases records.len(),
{
    if i < records.len() - 1 {
        lemma_total_links_elem(records.drop_last(), i);
        assert(records.drop_last().take(i) =~= records.take(i));
    } else {
        assert(records.drop_last() =~= records.take(i));
    }
}

/// Rule 3: every note link of every note.
fn add_note_links(
    records: &[Vec<LinkRecord>],
    limit: usize,
    bd: &mut EdgeBreakdown,
    set: &mut BTreeSet<(u32, u32)>,
    Ghost(done): Ghost<Seq<Cand>>,
)
    requires
        (old(set)@, old(bd)@) == edge_fold(done),
        old(bd)@.credited() <= done.len(),
        done.len() + total_links(all_records_view(records@)) < usize::MAX,
        limit <= u32::MAX + 1,
        links_in_range(all_records_view(records@), limit as int),
    ensures
        (final(set)@, final(bd)@) == edge_fold(done + intra_cands(all_records_view(records@))),
        final(bd)@.credited() <= done.len() + intra_cands(all_records_view(records@)).len(),
{
    let ghost rv = all_records_view(records@);
    let mut i: usize = 0;
    assert(rv.take(0) =~= Seq::<Seq<LinkRecordView>>::empty());
    assert(done + intra_cands(rv.take(0)) =~= done);
    while i < records.len()
        invariant
            i <= records@.len(),
            rv == all_records_view(records@),
            limit <= u32::MAX + 1,
            links_in_range(rv, limit as int),
            done.len() + total_links(rv) < usize::MAX,
            (set@, bd@) == edge_fold(done + intra_cands(rv.take(i as int))),
            bd@.credited() <= done.len() + intra_cands(rv.take(i as int)).len(),
            intra_cands(rv.take(i as int)).len() <= total_links(rv.take(i as int)),
        decreases records.len() - i,
    {
        let recs = &records[i];
        let ghost base = done + intra_cands(rv.take(i as int));
        let ghost rvi = rv[i as int];
        assert(rvi == records_view(recs@));
        proof {
            lemma_total_links_elem(rv, i as int);
        }
        let mut k: usize = 0;
        assert(rvi.take(0) =~= Seq::<LinkRecordView>::empty());
        assert(base + note_links_of(i as int, rvi.take(0)) =~= base);
        while k < recs.len()
            invariant
                k <= recs@.len(),
                i < records@.len(),
                recs == &records@[i as int],
                rv == all_records_view(records@),
                rvi == rv[i as int],
                rvi == records_view(recs@),
                limit <= u32::MAX + 1,
                links_in_range(rv, limit as int),
                total_links(rv.take(i as int)) + rvi.len() <= total_links(rv),
                done.len() + total_links(rv) < usize::MAX,
                (set@, bd@) == edge_fold(base + note_links_of(i as int, rvi.take(k as int))),
                base == done + intra_cands(rv.take(i as int)),
                intra_cands(rv.take(i as int)).len() <= total_links(rv.take(i as int)),
                bd@.credited() <= base.len() + note_links_of(i as int, rvi.take(k as int)).len(),
                note_links_of(i as int, rvi.take(k as int)).len() <= k,
            decreases recs.len() - k,
        {
            let ghost pre = base + note_links_of(i as int, rvi.take(k as int));
            assert(rvi.take(k + 1).drop_last() =~= rvi.take(k as int));
            assert(rvi[k as int] == recs@[k as int]@);
            match &recs[k].kind {
                Kind::Note(j) => {
                    assert(rv[i as int][k as int] == recs@[k as int]@);
                    add_edge(i, *j, 3, bd, set);
                    proof {
                        lemma_fold_push(pre, (i as int, *j as int, 3int));
                        assert(base + note_links_of(i as int, rvi.take(k + 1)) =~= pre.push(
                            (i as int, *j as int, 3int),
                        ));
                    }
                },
                _ => {
                    assert(base + note_links_of(i as int, rvi.take(k + 1)) =~= pre);
                },
            }
            proof {
                lemma_note_links_len(i as int, rvi.take(k + 1));
            }
            k += 1;
        }
        assert(rvi.take(recs@.len() as int) =~= rvi);
        assert(rv.take(i + 1).drop_last() =~= rv.take(i as int));
        assert(rv.take(i + 1).last() == rvi);
        assert(done + intra_cands(rv.take(i + 1)) =~= base + note_links_of(i as int, rvi));
        i += 1;
    }
    assert(rv.take(records@.len() as int) =~= rv);
}

proof fn lemma_direct_len(readme: int, recs: Seq<LinkRecordView>, names: Seq<Seq<char>>, n: int)
    ensures
        readme_direct_cands(readme, recs, names, n).len() <= recs.len(),
    decreases recs.len(),
{
    if recs.len() > 0 {
        lemma_direct_len(readme, recs.drop_last(), names, n);
    }
}

proof fn lemma_tree_len(recs: Seq<LinkRecordView>, names: Seq<Seq<char>>, n: int)
    ensures
        tree_fold(recs, names, n).1.len() <= recs.len(),
    decreases recs.len(),
{
    if recs.len() > 0 {
        lemma_tree_len(recs.drop_last(), names, n);
    }
}

/// The view of the open list items.
pub open spec fn stack_view(v: Seq<(usize, Option<usize>)>) -> Seq<(nat, Option<int>)> {
    v.map_values(
        |e: (usize, Option<usize>)|
            (
                e.0 as nat,
                match e.1 {
                    Some(x) => Some(x as int),
                    None => None,
                },
            ),
    )
}

/// The target node of a README list item.
fn target_of(rec: &LinkRecord, names: &Vec<Vec<char>>, n: usize) -> (r: Option<usize>)
    requires
        n + names@.len() <= u32::MAX,
    ensures
        match r {
            Some(t) => bullet_target(rec@, names.deep_view(), n as int) == Some(t as int),
            None => bullet_target(rec@, names.deep_view(), n as int) is None,
        },
        r matches Some(t) ==> (rec.kind matches Kind::Note(j) && t == j) || (n <= t < n + names@.len()),
{
    match &rec.kind {
        Kind::Note(j) => Some(*j),
        Kind::Section(name) => {
            let nv = chars_of(name.as_str());
            hub_id(names, n, &nv)
        },
        _ => None,
    }
}

/// Rules 4 and 6: the README's note and section links; then rule 5: its
/// nested lists, parent with child.
fn add_readme_links(
    readme: usize,
    recs: &Vec<LinkRecord>,
    names: &Vec<Vec<char>>,
    n: usize,
    limit: usize,
    bd: &mut EdgeBreakdown,
    set: &mut BTreeSet<(u32, u32)>,
    Ghost(done): Ghost<Seq<Cand>>,
)
    requires
        (old(set)@, old(bd)@) == edge_fold(done),
        old(bd)@.credited() <= done.len(),
        done.len() + 2 * recs@.len() < usize::MAX,
        readme < n,
        n + names@.len() < limit <= u32::MAX + 1,
        forall|k: int|
            0 <= k < recs@.len() ==> ((#[trigger] recs@[k]).kind matches Kind::Note(j) ==> (j
                == readme || j < limit)),
    ensures
        (final(set)@, final(bd)@) == edge_fold(
            done + readme_direct_cands(readme as int, records_view(recs@), names.deep_view(), n as int)
                + tree_fold(records_view(recs@), names.deep_view(), n as int).1,
        ),
        final(bd)@.credited() <= done.len() + 2 * recs@.len(),
{
    let ghost rv = records_view(recs@);
    let ghost nm = names.deep_view();
    let mut k: usize = 0;
    assert(rv.take(0) =~= Seq::<LinkRecordView>::empty());
    assert(done + readme_direct_cands(readme as int, rv.take(0), nm, n as int) =~= done);
    while k < recs.len()
        invariant
            k <= recs@.len(),
            rv == records_view(recs@),
            nm == names.deep_view(),
            readme < n,
            n + names@.len() < limit <= u32::MAX + 1,
            forall|q: int|
                0 <= q < recs@.len() ==> ((#[trigger] recs@[q]).kind matches Kind::Note(j) ==> (j
                    == readme || j < limit)),
            done.len() + 2 * recs@.len() < usize::MAX,
            (set@, bd@) == edge_fold(done + readme_direct_cands(readme as int, rv.take(k as int), nm, n as int)),
            bd@.credited() <= done.len() + readme_direct_cands(readme as int, rv.take(k as int), nm, n as int).len(),
            readme_direct_cands(readme as int, rv.take(k as int), nm, n as int).len() <= k,
        decreases recs.len() - k,
    {
        let ghost pre = done + readme_direct_cands(readme as int, rv.take(k as int), nm, n as int);
        assert(rv.take(k + 1).drop_last() =~= rv.take(k as int));
        assert(rv[k as int] == recs@[k as int]@);
        match &recs[k].kind {
            Kind::Note(j) => {
                add_edge(readme, *j, 4, bd, set);
                proof {
                    lemma_fold_push(pre, (readme as int, *j as int, 4int));
                    assert(done + readme_direct_cands(readme as int, rv.take(k + 1), nm, n as int)
                        =~= pre.push((readme as int, *j as int, 4int)));
                }
            },
            Kind::Section(name) => {
                let nv = chars_of(name.as_str());
                match hub_id(names, n, &nv) {
                    Some(h) => {
                        add_edge(readme, h, 6, bd, set);
                        proof {
                            lemma_fold_push(pre, (readme as int, h as int, 6int));
                            assert(done + readme_direct_cands(
                                readme as int,
                                rv.take(k + 1),
                                nm,
                                n as int,
                            ) =~= pre.push((readme as int, h as int, 6int)));
                        }
                    },
                    None => {
                        assert(done + readme_direct_cands(
                            readme as int,
                            rv.take(k + 1),
                            nm,
                            n as int,
                        ) =~= pre);
                    },
                }
            },
            _ => {
                assert(done + readme_direct_cands(readme as int, rv.take(k + 1), nm, n as int)
                    =~= pre);
            },
        }
        proof {
            lemma_direct_len(readme as int, rv.take(k + 1), nm, n as int);
        }
        k += 1;
    }
    assert(rv.take(recs@.len() as int) =~= rv);
    let ghost done2 = done + readme_direct_cands(readme as int, rv, nm, n as int);
    let mut stack: Vec<(usize, Option<usize>)> = Vec::new();
    let mut m: usize = 0;
    assert(rv.take(0) =~= Seq::<LinkRecordView>::empty());
    assert(done2 + tree_fold(rv.take(0), nm, n as int).1 =~= done2);
    assert(stack_view(stack@) =~= tree_fold(rv.take(0), nm, n as int).0);
    while m < recs.len()
        invariant
            m <= recs@.len(),
            rv == records_view(recs@),
            nm == names.deep_view(),
            readme < n,
            n + names@.len() < limit <= u32::MAX + 1,
            forall|q: int|
                0 <= q < recs@.len() ==> ((#[trigger] recs@[q]).kind matches Kind::Note(j) ==> (j
                    == readme || j < limit)),
            done.len() + 2 * recs@.len() < usize::MAX,
            done2.len() <= done.len() + recs@.len(),
            stack_view(stack@) == tree_fold(rv.take(m as int), nm, n as int).0,
            forall|q: int|
                0 <= q < stack@.len() ==> ((#[trigger] stack@[q]).1 matches Some(x) ==> x < limit),
            (set@, bd@) == edge_fold(done2 + tree_fold(rv.take(m as int), nm, n as int).1),
            bd@.credited() <= done2.len() + tree_fold(rv.take(m as int), nm, n as int).1.len(),
            tree_fold(rv.take(m as int), nm, n as int).1.len() <= m,
        decreases recs.len() - m,
    {
        let ghost prev = tree_fold(rv.take(m as int), nm, n as int);
        let ghost pre = done2 + prev.1;
        assert(rv.take(m + 1).drop_last() =~= rv.take(m as int));
        assert(rv[m as int] == recs@[m as int]@);
        assert(rv.take(m + 1).last() == rv[m as int]);
        let rec = &recs[m];
        if rec.bullet {
            let target = target_of(rec, names, n);
            let indent = rec.indent;
            let ghost st0 = stack_view(stack@);
            while stack.len() > 0 && stack[stack.len() - 1].0 >= indent
                invariant
                    pop_ge(st0, indent as nat) == pop_ge(stack_view(stack@), indent as nat),
                    forall|q: int|
                        0 <= q < stack@.len() ==> ((#[trigger] stack@[q]).1 matches Some(x) ==> x
                            < limit),
                decreases stack.len(),
            {
                let ghost sv = stack_view(stack@);
                stack.pop();
                assert(stack_view(stack@) =~= sv.drop_last());
            }
            assert(pop_ge(stack_view(stack@), indent as nat) == stack_view(stack@));
            let parent: Option<usize> = if stack.len() > 0 {
                stack[stack.len() - 1].1
            } else {
                None
            };
            let ghost pstack = stack_view(stack@);
            match (parent, target) {
                (Some(p), Some(t)) => {
                    add_edge(p, t, 5, bd, set);
                    proof {
                        lemma_fold_push(pre, (p as int, t as int, 5int));
                    }
                },
                _ => {},
            }
            let inherit = match target {
                Some(t) => Some(t),
                None => parent,
            };
            stack.push((indent, inherit));
            assert(stack_view(stack@) =~= pstack.push(
                (
                    indent as nat,
                    match inherit {
                        Some(x) => Some(x as int),
                        None => None,
                    },
                ),
            ));
        }
        proof {
            lemma_tree_len(rv.take(m + 1), nm, n as int);
        }
        m += 1;
    }
    assert(rv.take(recs@.len() as int) =~= rv);
}

// ---------------------------------------------------------------------------
// CSR
// ---------------------------------------------------------------------------
/// Sorted adjacency lists `adj` of the edge set, laid out as CSR: the lists
/// concatenated, the offsets of their starts (and of the end) and their sizes.
pub open spec fn is_csr(
    adj: Seq<Seq<u32>>,
    edges: Set<(u32, u32)>,
    node_count: nat,
    offsets: Seq<u32>,
    targets: Seq<u32>,
    degrees: Seq<u32>,
) -> bool {
    &&& adj.len() == node_count
    &&& forall|v: int|
        0 <= v < node_count ==> sorted_u32(#[trigger] adj[v]) && adj[v].to_set() == neighbours(
            edges,
            v as u32,
        )
    &&& targets == flatten_u32(adj)
    &&& offsets == Seq::new(node_count + 1, |k: int| flatten_u32(adj.take(k)).len() as u32)
    &&& degrees == Seq::new(node_count, |k: int| adj[k].len() as u32)
}

/// The sorted distinct neighbours of `v`.
fn neighbours_of(edges: &Vec<(u32, u32)>, v: u32) -> (r: Vec<u32>)
    ensures
        sorted_u32(r@),
        r@.to_set() == neighbours(edges@.to_set(), v),
{
    let mut raw: Vec<u32> = Vec::new();
    let mut k: usize = 0;
    while k < edges.len()
        invariant
            k <= edges@.len(),
            forall|u: u32|
                #[trigger] raw@.contains(u) <==> exists|q: int|
                    0 <= q < k && (#[trigger] edges@[q] == (v, u) || edges@[q] == (u, v)),
        decreases edges.len() - k,
    {
        let (a, b) = edges[k];
        let ghost before = raw@;
        if a == v {
            raw.push(b);
        }
        if b == v {
            raw.push(a);
        }
        assert forall|u: u32|
            #[trigger] raw@.contains(u) <==> exists|q: int|
                0 <= q < k + 1 && (#[trigger] edges@[q] == (v, u) || edges@[q] == (u, v)) by {
            if raw@.contains(u) {
                let i = choose|i: int| 0 <= i < raw@.len() && raw@[i] == u;
                if i < before.len() {
                    assert(before.contains(u));
                } else {
                    assert(edges@[k as int] == (v, u) || edges@[k as int] == (u, v));
                }
            }
            if exists|q: int| 0 <= q < k + 1 && (#[trigger] edges@[q] == (v, u) || edges@[q] == (u, v)) {
                let q = choose|q: int| 0 <= q < k + 1 && (#[trigger] edges@[q] == (v, u) || edges@[q] == (u, v));
                if q < k {
                    assert(before.contains(u));
                    let i = choose|i: int| 0 <= i < before.len() && before[i] == u;
                    assert(raw@[i] == u);
                } else if edges@[q] == (v, u) {
                    assert(raw@[before.len() as int] == u);
                } else {
                    assert(raw@[raw@.len() - 1] == u);
                }
            }
        }
        k += 1;
    }
    let r = sort_dedup_u32(&raw);
    assert forall|u: u32| #[trigger] r@.to_set().contains(u) <==> neighbours(edges@.to_set(), v).contains(u) by {
        if neighbours(edges@.to_set(), v).contains(u) {
            if edges@.to_set().contains((v, u)) {
                let q = choose|q: int| 0 <= q < edges@.len() && edges@[q] == (v, u);
                assert(raw@.contains(u));
            } else {
                let q = choose|q: int| 0 <= q < edges@.len() && edges@[q] == (u, v);
                assert(raw@.contains(u));
            }
        }
        if raw@.contains(u) {
            let q = choose|q: int| 0 <= q < edges@.len() && (#[trigger] edges@[q] == (v, u) || edges@[q] == (u, v));
            assert(edges@.to_set().contains(edges@[q]));
        }
    }
    assert(r@.to_set() =~= neighbours(edges@.to_set(), v));
    r
}

proof fn lemma_flatten_push(adj: Seq<Seq<u32>>, x: Seq<u32>)
    ensures
        flatten_u32(adj.push(x)) == flatten_u32(adj) + x,
{
    assert(adj.push(x).drop_last() =~= adj);
}

/// The CSR arrays of an edge list over `node_count` nodes.
fn build_csr(edges: &Vec<(u32, u32)>, node_count: usize) -> (r: (Vec<u32>, Vec<u32>, Vec<u32>))
    requires
        node_count <= u32::MAX + 1,
    ensures
        exists|adj: Seq<Seq<u32>>|
            #[trigger] is_csr(adj, edges@.to_set(), node_count as nat, r.0@, r.1@, r.2@),
{
    let mut offsets: Vec<u32> = Vec::new();
    let mut targets: Vec<u32> = Vec::new();
    let mut degrees: Vec<u32> = Vec::new();
    let ghost mut adj: Seq<Seq<u32>> = Seq::empty();
    offsets.push(0);
    assert(adj.take(0) =~= Seq::<Seq<u32>>::empty());
    let mut v: usize = 0;
    while v < node_count
        invariant
            v <= node_count <= u32::MAX + 1,
            adj.len() == v,
            forall|w: int|
                0 <= w < v ==> sorted_u32(#[trigger] adj[w]) && adj[w].to_set() == neighbours(
                    edges@.to_set(),
                    w as u32,
                ),
            targets@ == flatten_u32(adj),
            offsets@ == Seq::new((v + 1) as nat, |k: int| flatten_u32(adj.take(k)).len() as u32),
            degrees@ == Seq::new(v as nat, |k: int| adj[k].len() as u32),
        decreases node_count - v,
    {
        let nb = neighbours_of(edges, v as u32);
        let ghost nbv = nb@;
        degrees.push(nb.len() as u32);
        targets.extend_from_slice(&nb);
        offsets.push(targets.len() as u32);
        proof {
            lemma_flatten_push(adj, nbv);
            let adj2 = adj.push(nbv);
            assert(adj2.take(v + 1) =~= adj2);
            assert forall|k: int| 0 <= k <= v implies adj2.take(k) =~= adj.take(k) by {}
            assert(adj.take(v as int) =~= adj);
            assert(offsets@ =~= Seq::new((v + 2) as nat, |k: int| flatten_u32(adj2.take(k)).len() as u32));
            assert(degrees@ =~= Seq::new((v + 1) as nat, |k: int| adj2[k].len() as u32));
            adj = adj2;
        }
        v += 1;
    }
    assert(is_csr(adj, edges@.to_set(), node_count as nat, offsets@, targets@, degrees@));
    let r = (offsets, targets, degrees);
    assert(is_csr(adj, edges@.to_set(), node_count as nat, r.0@, r.1@, r.2@));
    r
}

/// The section names of a graph, in order.
pub open spec fn section_names_view(sections: Seq<(String, usize)>) -> Seq<Seq<char>> {
    sections.map_values(|p: (String, usize)| p.0@)
}

/// The graph built from notes and their link records: what [`build`]
/// guarantees.
pub open spec fn is_graph_of(g: Graph, notes: Seq<Seq<char>>, records: Seq<Seq<LinkRecordView>>) -> bool {
    let names = section_names_view(g.sections@);
    let n = notes.len();
    let (eset, bd) = edge_fold(all_cands(notes, records, names));
    &&& sorted_strs(names)
    &&& names.to_set() == section_set(notes)
    &&& g.note_count == n
    &&& g.root_hub == n + names.len()
    &&& g.node_count == g.root_hub + 1
    &&& g.section_hubs@.len() == names.len()
    &&& forall|k: int|
        0 <= k < names.len() ==> (#[trigger] g.sections@[k]).1 == section_count(notes, names[k])
            && g.section_hubs@[k].0@ == names[k] && g.section_hubs@[k].1 == n + k
    &&& g.edges@.to_set() == eset
    &&& strictly_sorted(g.edges@)
    &&& g.breakdown@ == BreakdownView { total_unique: g.edges@.len(), ..bd }
    &&& exists|adj: Seq<Seq<u32>>|
        #[trigger] is_csr(
            adj,
            eset,
            g.node_count as nat,
            g.offsets@,
            g.targets@,
            g.degrees@,
        )
}

proof fn lemma_sorted_unique(names: Seq<Seq<char>>)
    requires
        sorted_strs(names),
    ensures
        names.no_duplicates(),
        names.len() == names.to_set().len(),
{
    assert forall|i: int, j: int| 0 <= i < names.len() && 0 <= j < names.len() && i != j implies names[i] != names[j] by {
        if i < j {
            assert(seq_lt_of(names, i, j));
            crate::order::lemma_seq_lt_irreflexive(names[i]);
        } else {
            assert(seq_lt_of(names, j, i));
            crate::order::lemma_seq_lt_irreflexive(names[j]);
        }
    }
    names.unique_seq_to_set();
}

spec fn seq_lt_of(names: Seq<Seq<char>>, i: int, j: int) -> bool {
    crate::order::seq_lt(names[i], names[j])
}

/// Builds the graph: nodes are the notes (in order), then one hub per
/// top-level section (by name), then the root hub; undirected edges come from
/// section membership, root–section links, note links in bodies, and the
/// README's links and nested lists, without duplicates; then the CSR
/// adjacency.
pub fn build(notes: &[String], records: &[Vec<LinkRecord>]) -> (g: Graph)
    requires
        notes@.len() + section_set(strings_view(notes@)).len() <= u32::MAX,
        links_in_range(all_records_view(records@), node_total(strings_view(notes@))),
        readme_of(strings_view(notes@)) matches Some(rd) ==> rd < records@.len(),
        2 * notes@.len() + 3 * total_links(all_records_view(records@)) < usize::MAX,
    ensures
        is_graph_of(g, strings_view(notes@), all_records_view(records@)),
{
    let ghost nv = strings_view(notes@);
    let ghost rv = all_records_view(records@);
    let n = notes.len();
    let names = section_names(notes);
    let ghost nm = names.deep_view();
    proof {
        lemma_sorted_unique(nm);
        lemma_keys_view(&names);
    }
    let s = names.len();
    let mut sections: Vec<(String, usize)> = Vec::new();
    let mut section_hubs: Vec<(String, usize)> = Vec::new();
    let mut k: usize = 0;
    while k < s
        invariant
            k <= s == names@.len(),
            s + n <= u32::MAX,
            nm == names.deep_view(),
            forall|q: int| 0 <= q < names@.len() ==> #[trigger] nm[q] == names@[q]@,
            nv == strings_view(notes@),
            n == notes@.len(),
            sections@.len() == k,
            section_hubs@.len() == k,
            forall|q: int|
                0 <= q < k ==> (#[trigger] sections@[q]).0@ == nm[q] && sections@[q].1
                    == section_count(nv, nm[q]) && section_hubs@[q].0@ == nm[q]
                    && section_hubs@[q].1 == n + q,
        decreases s - k,
    {
        let c = count_section(notes, names[k].as_slice());
        sections.push((string_of(names[k].as_slice()), c));
        section_hubs.push((string_of(names[k].as_slice()), n + k));
        k += 1;
    }
    assert(section_names_view(sections@) =~= nm);
    let root_hub = n + s;
    let node_count = root_hub + 1;
    let mut bd = EdgeBreakdown::new();
    let mut set: BTreeSet<(u32, u32)> = BTreeSet::new();
    let ghost c1 = membership_cands(nv, nm);
    let ghost c2 = root_cands(n as int, s as nat);
    let ghost c3 = intra_cands(rv);
    proof {
        lemma_intra_len(rv);
    }
    add_membership(notes, &names, &mut bd, &mut set, Ghost(Seq::empty()));
    assert(Seq::<Cand>::empty() + c1 =~= c1);
    add_root_links(n, &names, &mut bd, &mut set, Ghost(c1));
    add_note_links(records, node_count, &mut bd, &mut set, Ghost(c1 + c2));
    let ghost done = c1 + c2 + c3;
    match readme_index(notes) {
        Some(rd) => {
            proof {
                lemma_total_links_elem(rv, rd as int);
                assert(rv[rd as int] == records_view(records@[rd as int]@));
                assert forall|q: int| 0 <= q < records@[rd as int]@.len() implies ((#[trigger] records@[rd as int]@[q]).kind matches Kind::Note(j) ==> (j == rd || j < node_count)) by {
                    assert(rv[rd as int][q] == records@[rd as int]@[q]@);
                }
            }
            add_readme_links(rd, &records[rd], &names, n, node_count, &mut bd, &mut set, Ghost(done));
            assert(all_cands(nv, rv, nm) =~= done + readme_direct_cands(rd as int, rv[rd as int], nm, n as int) + tree_fold(rv[rd as int], nm, n as int).1);
        },
        None => {
            assert(all_cands(nv, rv, nm) =~= done);
        },
    }
    let edges = sorted_vec(set);
    bd.total_unique = edges.len();
    let (offsets, targets, degrees) = build_csr(&edges, node_count);
    let ghost adj = choose|adj: Seq<Seq<u32>>|
        #[trigger] is_csr(adj, edges@.to_set(), node_count as nat, offsets@, targets@, degrees@);
    let g = Graph {
        node_count,
        note_count: n,
        sections,
        section_hubs,
        root_hub,
        edges,
        offsets,
        targets,
        degrees,
        breakdown: bd,
    };
    assert(section_names_view(g.sections@) == nm);
    assert(g.edges@.to_set() == edge_fold(all_cands(nv, rv, nm)).0);
    assert(g.breakdown@ == BreakdownView { total_unique: g.edges@.len(), ..edge_fold(all_cands(nv, rv, nm)).1 });
    assert(is_csr(adj, edge_fold(all_cands(nv, rv, nm)).0, g.node_count as nat, g.offsets@, g.targets@, g.degrees@));
    assert(is_graph_of(g, nv, rv));
    g
}

} // verus!
