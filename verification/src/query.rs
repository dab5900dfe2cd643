//! The browser-side queries on the built graph: loading the CSR and titles,
//! title search (initial consonants included), neighbours, ego networks and
//! the local view of a section.

use vstd::prelude::*;
use crate::links::split_strings;
use crate::related::{alnum, is_alnum};
use crate::strs::{char_is_ws, chars_of, find_sub, find_sub_vec, is_ws, split, string_of, trim, trim_chars};
use crate::text::{choseong_chars, choseong_vec, strings_view};

verus! {

/// Nodes of degree above this are shown but not expanded through (the root
/// hub and the README index would otherwise reach the whole graph).
pub const EXPAND_DEGREE_CUTOFF: u32 = 300;

// ---------------------------------------------------------------------------
// Characters
// ---------------------------------------------------------------------------
/// `char::to_ascii_lowercase`.
pub open spec fn ascii_lower_char(c: char) -> char {
    if 'A' <= c <= 'Z' {
        ((c as u32) + 32) as char
    } else {
        c
    }
}

/// `str::to_ascii_lowercase`.
pub open spec fn ascii_lower(s: Seq<char>) -> Seq<char> {
    s.map_values(|c: char| ascii_lower_char(c))
}

/// The characters of `s` that are not white space.
pub open spec fn no_ws(s: Seq<char>) -> Seq<char>
    decreases s.len(),
{
    if s.len() == 0 {
        Seq::empty()
    } else if is_ws(s.last()) {
        no_ws(s.drop_last())
    } else {
        no_ws(s.drop_last()).push(s.last())
    }
}

/// A Hangul compatibility jamo (U+3131..=U+318E).
pub open spec fn is_jamo(c: char) -> bool {
    '\u{3131}' <= c <= '\u{318E}'
}

/// An ASCII letter or digit.
pub open spec fn is_ascii_alnum(c: char) -> bool {
    ('0' <= c <= '9') || ('a' <= c <= 'z') || ('A' <= c <= 'Z')
}

/// A precomposed Hangul syllable (U+AC00..=U+D7A3).
pub open spec fn is_syllable(c: char) -> bool {
    '\u{AC00}' <= c <= '\u{D7A3}'
}

fn lower_chars(v: &Vec<char>) -> (r: Vec<char>)
    ensures
        r@ == ascii_lower(v@),
{
    let mut out: Vec<char> = Vec::new();
    let mut i: usize = 0;
    while i < v.len()
        invariant
            i <= v@.len(),
            out@ == ascii_lower(v@.take(i as int)),
        decreases v.len() - i,
    {
        let c = v[i];
        let l = if 'A' <= c && c <= 'Z' {
            ((c as u32 + 32) as u8) as char
        } else {
            c
        };
        out.push(l);
        assert(out@ =~= ascii_lower(v@.take(i + 1)));
        i += 1;
    }
    assert(v@.take(v@.len() as int) =~= v@);
    out
}

fn strip_ws(v: &Vec<char>) -> (r: Vec<char>)
    ensures
        r@ == no_ws(v@),
{
    let mut out: Vec<char> = Vec::new();
    let mut i: usize = 0;
    assert(v@.take(0) =~= Seq::<char>::empty());
    while i < v.len()
        invariant
            i <= v@.len(),
            out@ == no_ws(v@.take(i as int)),
        decreases v.len() - i,
    {
        assert(v@.take(i + 1).drop_last() =~= v@.take(i as int));
        if !char_is_ws(v[i]) {
            out.push(v[i]);
        }
        i += 1;
    }
    assert(v@.take(v@.len() as int) =~= v@);
    out
}

/// The Hangul initial consonants of a string (other characters unchanged).
pub fn to_choseong(s: &str) -> (r: String)
    ensures
        r@ == choseong_chars(s@),
{
    let v = chars_of(s);
    let c = choseong_vec(&v);
    string_of(&c)
}

// ---------------------------------------------------------------------------
// The loaded graph
// ---------------------------------------------------------------------------
/// A node's search keys.
pub struct QueryNode {
    /// The title, ASCII lower-cased.
    pub title: String,
    /// Initial consonants of the title, lower-cased, spaces kept.
    pub cho: String,
    /// The same without white space.
    pub cho_tight: String,
}

/// The graph as the queries see it: CSR offsets and targets, search keys,
/// node ids by degree, and the root hub.
pub struct QueryGraph {
    offsets: Vec<u32>,
    targets: Vec<u32>,
    nodes: Vec<QueryNode>,
    by_degree: Vec<u32>,
    root: u32,
}

/// A valid CSR of `n` nodes: `n + 1` offsets from 0, never decreasing, the
/// last one counting the targets that follow, every target a node.
pub open spec fn csr_ok(csr: Seq<u32>, n: int) -> bool {
    &&& csr.len() >= n + 1
    &&& csr[0] == 0
    &&& csr.len() == n + 1 + csr[n]
    &&& forall|i: int, j: int| 0 <= i <= j <= n ==> #[trigger] csr[i] <= #[trigger] csr[j]
    &&& forall|k: int| n + 1 <= k < csr.len() ==> #[trigger] csr[k] < n
}

/// The search keys of a node from its title line and its consonant line (an
/// empty one is made from the title).
pub open spec fn node_keys(title: Seq<char>, cho: Seq<char>) -> (Seq<char>, Seq<char>, Seq<char>) {
    let t = ascii_lower(title);
    let c = if cho.len() == 0 {
        choseong_chars(t)
    } else {
        ascii_lower(cho)
    };
    (t, c, no_ws(c))
}

/// Node `a` comes before node `b` in degree order: higher degree first, then
/// lower id.
pub open spec fn degree_before(offsets: Seq<u32>, a: int, b: int) -> bool {
    let da = offsets[a + 1] - offsets[a];
    let db = offsets[b + 1] - offsets[b];
    da > db || (da == db && a < b)
}

impl QueryGraph {
    pub closed spec fn offsets_v(&self) -> Seq<u32> {
        self.offsets@
    }

    pub closed spec fn targets_v(&self) -> Seq<u32> {
        self.targets@
    }

    /// The search keys `(title, cho, cho_tight)` of every node.
    pub closed spec fn keys_v(&self) -> Seq<(Seq<char>, Seq<char>, Seq<char>)> {
        self.nodes@.map_values(|q: QueryNode| (q.title@, q.cho@, q.cho_tight@))
    }

    pub closed spec fn by_degree_v(&self) -> Seq<u32> {
        self.by_degree@
    }

    pub closed spec fn root_v(&self) -> u32 {
        self.root
    }

    /// Number of nodes.
    pub open spec fn n(&self) -> int {
        self.offsets_v().len() - 1
    }

    /// The CSR is valid, one set of keys per node, the degree order a
    /// permutation of the nodes.
    pub open spec fn wf(&self) -> bool {
        &&& self.offsets_v().len() >= 1
        &&& csr_ok(self.offsets_v() + self.targets_v(), self.n())
        &&& self.n() <= u32::MAX
        &&& self.keys_v().len() == self.n()
        &&& self.by_degree_v().len() == self.n()
        &&& (forall|i: int, j: int|
            0 <= i < j < self.n() ==> degree_before(
                self.offsets_v(),
                #[trigger] self.by_degree_v()[i] as int,
                #[trigger] self.by_degree_v()[j] as int,
            ))
        &&& (forall|i: int| 0 <= i < self.n() ==> #[trigger] self.by_degree_v()[i] < self.n())
    }

    /// The neighbours of `v`, in CSR order.
    pub open spec fn nbrs(&self, v: int) -> Seq<u32> {
        self.targets_v().subrange(
            self.offsets_v()[v] as int,
            self.offsets_v()[v + 1] as int,
        )
    }

    /// The degree of `v`.
    pub open spec fn deg(&self, v: int) -> int {
        self.offsets_v()[v + 1] - self.offsets_v()[v]
    }
}

/// The line of `lines` at `i`, empty past the end.
pub open spec fn line_or_empty(lines: Seq<Seq<char>>, i: int) -> Seq<char> {
    if 0 <= i < lines.len() {
        lines[i]
    } else {
        Seq::empty()
    }
}

/// What `load` accepts: an even number (at least two) of coordinates, a valid
/// CSR for half as many nodes, and exactly one title line per node.
pub open spec fn load_ok(pos_len: int, csr: Seq<u32>, titles: Seq<char>) -> bool {
    &&& pos_len >= 2
    &&& pos_len % 2 == 0
    &&& csr_ok(csr, pos_len / 2)
    &&& split(titles, '\n').len() == pos_len / 2
}

/// Node ids ordered by degree (highest first), ties by id.
fn degree_order(offsets: &Vec<u32>, n: usize) -> (r: Vec<u32>)
    requires
        offsets@.len() == n + 1,
        n <= u32::MAX,
        forall|i: int, j: int| 0 <= i <= j <= n ==> #[trigger] offsets@[i] <= #[trigger] offsets@[j],
    ensures
        r@.len() == n,
        forall|i: int, j: int|
            0 <= i < j < n ==> degree_before(offsets@, #[trigger] r@[i] as int, #[trigger] r@[j] as int),
        forall|i: int| 0 <= i < n ==> #[trigger] r@[i] < n,
{
    let mut degs: Vec<u32> = Vec::new();
    let mut d: usize = 0;
    while d < n
        invariant
            d <= n,
            offsets@.len() == n + 1,
            forall|i: int, j: int| 0 <= i <= j <= n ==> #[trigger] offsets@[i] <= #[trigger] offsets@[j],
            degs@.len() == d,
            forall|i: int| 0 <= i < d ==> #[trigger] degs@[i] == offsets@[i + 1] - offsets@[i],
        decreases n - d,
    {
        assert(offsets@[d as int] <= offsets@[d + 1]);
        degs.push(offsets[d + 1] - offsets[d]);
        d += 1;
    }
    let mut out: Vec<u32> = Vec::new();
    let mut id: usize = 0;
    while id < n
        invariant
            id <= n <= u32::MAX,
            offsets@.len() == n + 1,
            degs@.len() == n,
            forall|i: int| 0 <= i < n ==> #[trigger] degs@[i] == offsets@[i + 1] - offsets@[i],
            forall|i: int, j: int| 0 <= i <= j <= n ==> #[trigger] offsets@[i] <= #[trigger] offsets@[j],
            out@.len() == id,
            forall|i: int| 0 <= i < id ==> #[trigger] out@[i] < id,
            forall|i: int, j: int|
                0 <= i < j < id ==> degree_before(offsets@, #[trigger] out@[i] as int, #[trigger] out@[j] as int),
        decreases n - id,
    {
        let x = id as u32;
        let mut p = out.len();
        while p > 0 && degs[x as usize] > degs[out[p - 1] as usize]
            invariant
                p <= out@.len(),
                out@.len() == id,
                x == id,
                id < n,
                offsets@.len() == n + 1,
                degs@.len() == n,
                forall|i: int| 0 <= i < n ==> #[trigger] degs@[i] == offsets@[i + 1] - offsets@[i],
                forall|i: int, j: int| 0 <= i <= j <= n ==> #[trigger] offsets@[i] <= #[trigger] offsets@[j],
                forall|i: int| 0 <= i < id ==> #[trigger] out@[i] < id,
                forall|k: int| p <= k < out@.len() ==> degree_before(offsets@, x as int, #[trigger] out@[k] as int),
            decreases p,
        {
            p -= 1;
        }
        let ghost old_out = out@;
        proof {
            if p > 0 {
                let y = old_out[p - 1];
                assert(!degree_before(offsets@, x as int, y as int));
                assert(y < x);
            }
        }
        out.insert(p, x);
        proof {
            assert(out@ =~= old_out.insert(p as int, x));
            assert forall|i: int, j: int| 0 <= i < j < id + 1 implies degree_before(
                offsets@,
                #[trigger] out@[i] as int,
                #[trigger] out@[j] as int,
            ) by {
                if i < p && j == p {
                    let y = old_out[p - 1];
                    if i < p - 1 {
                        assert(degree_before(offsets@, old_out[i] as int, y as int));
                    }
                } else if i == p && j > p {
                    assert(out@[j] == old_out[j - 1]);
                } else if i < p && j > p {
                    assert(out@[j] == old_out[j - 1]);
                } else if i > p {
                    assert(out@[i] == old_out[i - 1]);
                    assert(out@[j] == old_out[j - 1]);
                }
            }
            assert forall|i: int| 0 <= i < id + 1 implies #[trigger] out@[i] < id + 1 by {
                if i < p {
                    assert(out@[i] == old_out[i]);
                } else if i > p {
                    assert(out@[i] == old_out[i - 1]);
                }
            }
        }
        id += 1;
    }
    out
}

impl QueryGraph {
    /// Loads the graph: the number of coordinates (two per node), the CSR
    /// (`[offsets N+1][targets E]`), the titles and consonant lines (one per
    /// node, `\n`-separated; a missing or empty consonant line is made from
    /// the title) and the root hub. Input that breaks the format gives
    /// `None`.
    pub fn load(pos_len: usize, csr: &[u32], titles: &str, choseong: &str, root: u32) -> (r: Option<
        QueryGraph,
    >)
        requires
            pos_len / 2 <= u32::MAX,
        ensures
            r is Some <==> load_ok(pos_len as int, csr@, titles@),
            r matches Some(g) ==> {
                let n = pos_len / 2;
                &&& g.wf()
                &&& g.n() == n
                &&& g.offsets_v() == csr@.take(n + 1)
                &&& g.targets_v() == csr@.skip(n + 1)
                &&& g.root_v() == root
                &&& forall|i: int|
                    0 <= i < n ==> #[trigger] g.keys_v()[i] == node_keys(
                        split(titles@, '\n')[i],
                        line_or_empty(split(choseong@, '\n'), i),
                    )
            },
    {
        if pos_len < 2 || pos_len % 2 != 0 {
            return None;
        }
        let n = pos_len / 2;
        let m = n + 1;
        if csr.len() < m {
            return None;
        }
        let e = csr[n] as usize;
        if csr.len() - (n + 1) != e || csr[0] != 0 {
            return None;
        }
        let mut i: usize = 0;
        while i < n
            invariant
                i <= n,
                n == pos_len / 2,
                pos_len >= 2,
                pos_len % 2 == 0,
                m == n + 1,
                n + 1 <= csr@.len(),
                forall|a: int, b: int| 0 <= a <= b <= i ==> #[trigger] csr@[a] <= #[trigger] csr@[b],
            decreases n - i,
        {
            if csr[i] > csr[i + 1] {
                return None;
            }
            i += 1;
        }
        let mut k: usize = m;
        while k < csr.len()
            invariant
                n == pos_len / 2,
                pos_len >= 2,
                pos_len % 2 == 0,
                m == n + 1,
                n + 1 <= k <= csr@.len(),
                forall|j: int| n + 1 <= j < k ==> #[trigger] csr@[j] < n,
            decreases csr.len() - k,
        {
            if csr[k] as usize >= n {
                return None;
            }
            k += 1;
        }
        let tv = chars_of(titles);
        let title_list = split_strings(&tv, '\n');
        if title_list.len() != n {
            return None;
        }
        let cv = chars_of(choseong);
        let cho_list = split_strings(&cv, '\n');
        let ghost tl = strings_view(title_list@);
        let ghost cl = strings_view(cho_list@);
        let mut offsets: Vec<u32> = Vec::new();
        let mut j: usize = 0;
        while j < m
            invariant
                m == n + 1,
                j <= n + 1 <= csr@.len(),
                offsets@ == csr@.take(j as int),
            decreases n + 1 - j,
        {
            offsets.push(csr[j]);
            assert(offsets@ =~= csr@.take(j + 1));
            j += 1;
        }
        let mut targets: Vec<u32> = Vec::new();
        let mut j: usize = m;
        while j < csr.len()
            invariant
                m == n + 1,
                n + 1 <= j <= csr@.len(),
                targets@ == csr@.subrange(n + 1, j as int),
            decreases csr.len() - j,
        {
            targets.push(csr[j]);
            assert(targets@ =~= csr@.subrange(n + 1, j + 1));
            j += 1;
        }
        assert(targets@ =~= csr@.skip(n + 1));
        let mut nodes: Vec<QueryNode> = Vec::new();
        let mut q: usize = 0;
        while q < n
            invariant
                q <= n,
                tl == strings_view(title_list@),
                cl == strings_view(cho_list@),
                tl.len() == n,
                nodes@.len() == q,
                forall|a: int|
                    0 <= a < q ==> (#[trigger] nodes@[a]).title@ == node_keys(tl[a], line_or_empty(cl, a)).0
                        && nodes@[a].cho@ == node_keys(tl[a], line_or_empty(cl, a)).1
                        && nodes@[a].cho_tight@ == node_keys(tl[a], line_or_empty(cl, a)).2,
            decreases n - q,
        {
            let tch = chars_of(title_list[q].as_str());
            let title = lower_chars(&tch);
            let raw: Vec<char> = if q < cho_list.len() {
                chars_of(cho_list[q].as_str())
            } else {
                Vec::new()
            };
            assert(raw@ == line_or_empty(cl, q as int));
            let cho = if raw.len() == 0 {
                choseong_vec(&title)
            } else {
                lower_chars(&raw)
            };
            let tight = strip_ws(&cho);
            nodes.push(QueryNode { title: string_of(&title), cho: string_of(&cho), cho_tight: string_of(&tight) });
            q += 1;
        }
        let by_degree = degree_order(&offsets, n);
        let g = QueryGraph { offsets, targets, nodes, by_degree, root };
        proof {
            assert(g.offsets_v() + g.targets_v() =~= csr@);
            assert forall|a: int| 0 <= a < n implies #[trigger] g.keys_v()[a] == node_keys(
                split(titles@, '\n')[a],
                line_or_empty(split(choseong@, '\n'), a),
            ) by {
                assert(g.keys_v()[a] == (g.nodes@[a].title@, g.nodes@[a].cho@, g.nodes@[a].cho_tight@));
            }
        }
        Some(g)
    }

    /// The number of nodes.
    pub fn node_count(&self) -> (r: usize)
        requires
            self.wf(),
        ensures
            r == self.n(),
    {
        self.offsets.len() - 1
    }

    /// The degree of a node.
    pub fn degree(&self, v: usize) -> (r: u32)
        requires
            self.wf(),
            v < self.n(),
        ensures
            r == self.deg(v as int),
    {
        proof {
            self.lemma_offsets(v as int);
        }
        self.offsets[v + 1] - self.offsets[v]
    }

    /// Node ids by degree, highest first, ties by id.
    pub fn degree_order(&self) -> (r: &Vec<u32>)
        ensures
            r@ == self.by_degree_v(),
    {
        &self.by_degree
    }

    /// A node's title key (ASCII lower-cased).
    pub fn title(&self, v: usize) -> (r: &str)
        requires
            self.wf(),
            v < self.n(),
        ensures
            r@ == self.keys_v()[v as int].0,
    {
        self.nodes[v].title.as_str()
    }

    /// `[nodes, CSR targets, undirected edges]`.
    pub fn stats(&self) -> (r: Vec<u32>)
        requires
            self.wf(),
        ensures
            r@ == seq![self.n() as u32, self.targets_v().len() as u32, (self.targets_v().len() / 2) as u32],
    {
        let n = (self.offsets.len() - 1) as u32;
        let e = self.targets.len() as u32;
        let r = vec![n, e, e / 2];
        proof {
            assert(self.targets_v().len() <= u32::MAX) by {
                assert(self.targets_v().len() == (self.offsets_v() + self.targets_v())[self.n()]);
            }
        }
        assert(r@ =~= seq![self.n() as u32, self.targets_v().len() as u32, (self.targets_v().len() / 2) as u32]);
        r
    }

    /// The neighbours of a node in CSR order (none for an unknown id).
    pub fn neighbors(&self, node_id: u32) -> (r: Vec<u32>)
        requires
            self.wf(),
        ensures
            r@ == (if node_id < self.n() {
                self.nbrs(node_id as int)
            } else {
                Seq::empty()
            }),
    {
        let n = self.offsets.len() - 1;
        let v = node_id as usize;
        if v >= n {
            return Vec::new();
        }
        proof {
            self.lemma_offsets(v as int);
        }
        let a = self.offsets[v] as usize;
        let b = self.offsets[v + 1] as usize;
        let mut out: Vec<u32> = Vec::new();
        let mut k = a;
        while k < b
            invariant
                a <= k <= b <= self.targets@.len(),
                out@ == self.targets@.subrange(a as int, k as int),
            decreases b - k,
        {
            out.push(self.targets[k]);
            assert(out@ =~= self.targets@.subrange(a as int, k + 1));
            k += 1;
        }
        out
    }

    /// Offsets of a node bound its neighbour range inside the targets.
    proof fn lemma_offsets(&self, v: int)
        requires
            self.wf(),
            0 <= v < self.n(),
        ensures
            self.offsets_v()[v] <= self.offsets_v()[v + 1] <= self.targets_v().len(),
            self.offsets_v()[v + 1] <= self.offsets_v()[self.n()],
            self.offsets_v()[self.n()] == self.targets_v().len(),
            forall|k: int| 0 <= k < self.targets_v().len() ==> #[trigger] self.targets_v()[k] < self.n(),
    {
        let c = self.offsets_v() + self.targets_v();
        assert(c[v] == self.offsets_v()[v]);
        assert(c[v + 1] == self.offsets_v()[v + 1]);
        assert(c[self.n()] == self.offsets_v()[self.n()]);
        assert(c[v] <= c[v + 1]);
        assert(c[v + 1] <= c[self.n()]);
        assert forall|k: int| 0 <= k < self.targets_v().len() implies #[trigger] self.targets_v()[k] < self.n() by {
            assert(c[self.n() + 1 + k] == self.targets_v()[k]);
        }
    }
}

// ---------------------------------------------------------------------------
// Search
// ---------------------------------------------------------------------------
/// Reading `s` for white-space separated tokens: the finished tokens and the
/// one being read.
pub open spec fn ws_fold(s: Seq<char>) -> (Seq<Seq<char>>, Seq<char>)
    decreases s.len(),
{
    if s.len() == 0 {
        (Seq::empty(), Seq::empty())
    } else {
        let (ts, cur) = ws_fold(s.drop_last());
        let c = s.last();
        if is_ws(c) {
            if cur.len() > 0 {
                (ts.push(cur), Seq::empty())
            } else {
                (ts, Seq::empty())
            }
        } else {
            (ts, cur.push(c))
        }
    }
}

/// `str::split_whitespace`: the non-empty runs of non-white-space characters.
pub open spec fn ws_tokens(s: Seq<char>) -> Seq<Seq<char>> {
    if ws_fold(s).1.len() > 0 {
        ws_fold(s).0.push(ws_fold(s).1)
    } else {
        ws_fold(s).0
    }
}

/// The query as matched: ASCII lower-cased and trimmed.
pub open spec fn search_query(query: Seq<char>) -> Seq<char> {
    trim(ascii_lower(query))
}

/// The character before position `p` of `s` is not alphanumeric (or there is
/// none).
pub open spec fn word_start_at(s: Seq<char>, p: int) -> bool {
    p <= 0 || !alnum(s[p - 1])
}

/// Every token is in the title or in the tight consonants, itself or as
/// consonants.
pub open spec fn all_tokens_match(tokens: Seq<Seq<char>>, title: Seq<char>, tight: Seq<char>) -> bool {
    forall|k: int|
        0 <= k < tokens.len() ==> (find_sub(title, #[trigger] tokens[k]) is Some || find_sub(
            tight,
            tokens[k],
        ) is Some || find_sub(tight, choseong_chars(tokens[k])) is Some)
}

/// How well a node's keys match a (non-empty, prepared) query:
/// title match at the start 400, at a word start 300, elsewhere 200; for a
/// query of jamo and ASCII letters, consonants match at the start 160,
/// elsewhere 120, spaced consonants 110; a query with syllables whose
/// consonants occur 80; failing those, every token of a multi-token query
/// somewhere 60; else 0.
pub open spec fn node_score(keys: (Seq<char>, Seq<char>, Seq<char>), q: Seq<char>) -> nat {
    let (title, cho, tight) = keys;
    let q_tight = no_ws(q);
    let q_cho = choseong_chars(q_tight);
    let q_is_jamo = forall|k: int| 0 <= k < q_tight.len() ==> is_jamo(#[trigger] q_tight[k]) || is_ascii_alnum(q_tight[k]);
    let q_has_syl = exists|k: int| 0 <= k < q.len() && is_syllable(#[trigger] q[k]);
    let tokens = ws_tokens(q);
    let base: nat = match find_sub(title, q) {
        Some(p) => if p == 0 {
            400
        } else if word_start_at(title, p) {
            300
        } else {
            200
        },
        None => if q_is_jamo {
            match find_sub(tight, q_tight) {
                Some(p) => if p == 0 {
                    160
                } else {
                    120
                },
                None => if find_sub(cho, q) is Some {
                    110
                } else {
                    0
                },
            }
        } else if q_has_syl && find_sub(tight, q_cho) is Some {
            80
        } else {
            0
        },
    };
    if base == 0 && tokens.len() > 1 && all_tokens_match(tokens, title, tight) {
        60
    } else {
        base
    }
}

proof fn lemma_no_ws_keeps(s: Seq<char>, k: int)
    requires
        0 <= k < s.len(),
        !is_ws(s[k]),
    ensures
        no_ws(s).contains(s[k]),
    decreases s.len(),
{
    if k == s.len() - 1 {
        assert(no_ws(s) == no_ws(s.drop_last()).push(s.last()));
        assert(no_ws(s)[no_ws(s).len() - 1] == s[k]);
    } else {
        assert(s.drop_last()[k] == s[k]);
        lemma_no_ws_keeps(s.drop_last(), k);
        let w = no_ws(s.drop_last());
        let q = choose|q: int| 0 <= q < w.len() && w[q] == s[k];
        if !is_ws(s.last()) {
            assert(no_ws(s)[q] == s[k]);
        }
    }
}

/// A query with a Hangul syllable finds every node whose space-free
/// consonants contain the consonants of the space-free query, whatever the
/// spacing: such a node is among the hits (its score is positive).
pub proof fn law_search_finds_syllables_by_consonants(g: &QueryGraph, v: int, query: Seq<char>)
    requires
        g.wf(),
        0 <= v < g.n(),
        search_query(query).len() > 0,
        exists|k: int| 0 <= k < search_query(query).len() && is_syllable(#[trigger] search_query(query)[k]),
        find_sub(g.keys_v()[v].2, choseong_chars(no_ws(search_query(query)))) is Some,
    ensures
        Set::new(|u: u32| u < g.n() && node_score(g.keys_v()[u as int], search_query(query)) > 0).contains(
            v as u32,
        ),
{
    let q = search_query(query);
    let k = choose|k: int| 0 <= k < q.len() && is_syllable(#[trigger] q[k]);
    assert(!is_ws(q[k]));
    lemma_no_ws_keeps(q, k);
    let qt = no_ws(q);
    let p = choose|p: int| 0 <= p < qt.len() && qt[p] == q[k];
    assert(!(is_jamo(qt[p]) || is_ascii_alnum(qt[p])));
    assert(node_score(g.keys_v()[v], q) > 0);
}

/// A node whose (lower-cased) title contains the query is among the hits;
/// so is, for a query of jamo and ASCII letters and digits, a node whose
/// space-free consonants contain the space-free query.
pub proof fn law_search_finds_title_and_consonant_matches(g: &QueryGraph, v: int, query: Seq<char>)
    requires
        g.wf(),
        0 <= v < g.n(),
        search_query(query).len() > 0,
        find_sub(g.keys_v()[v].0, search_query(query)) is Some || ((forall|k: int|
            0 <= k < no_ws(search_query(query)).len() ==> is_jamo(
                #[trigger] no_ws(search_query(query))[k],
            ) || is_ascii_alnum(no_ws(search_query(query))[k])) && find_sub(
            g.keys_v()[v].2,
            no_ws(search_query(query)),
        ) is Some),
    ensures
        Set::new(|u: u32| u < g.n() && node_score(g.keys_v()[u as int], search_query(query)) > 0).contains(
            v as u32,
        ),
{
    assert(node_score(g.keys_v()[v], search_query(query)) > 0);
}

impl QueryGraph {
    /// The sort key of a hit: score, then degree (capped).
    pub open spec fn hit_key(&self, v: int, q: Seq<char>) -> int {
        node_score(self.keys_v()[v], q) * 4096 + (if self.deg(v) < 4095 {
            self.deg(v)
        } else {
            4095
        })
    }

    /// Hit `a` is listed before hit `b`: higher key first, then lower id.
    pub open spec fn hit_before(&self, a: int, b: int, q: Seq<char>) -> bool {
        self.hit_key(a, q) > self.hit_key(b, q) || (self.hit_key(a, q) == self.hit_key(b, q) && a < b)
    }
}

fn ws_tokens_vec(s: &Vec<char>) -> (r: Vec<Vec<char>>)
    ensures
        r.deep_view() == ws_tokens(s@),
{
    let mut ts: Vec<Vec<char>> = Vec::new();
    let mut cur: Vec<char> = Vec::new();
    let mut i: usize = 0;
    assert(s@.take(0) =~= Seq::<char>::empty());
    assert(ts.deep_view() =~= Seq::<Seq<char>>::empty());
    while i < s.len()
        invariant
            i <= s@.len(),
            (ts.deep_view(), cur@) == ws_fold(s@.take(i as int)),
        decreases s.len() - i,
    {
        assert(s@.take(i + 1).drop_last() =~= s@.take(i as int));
        let c = s[i];
        if char_is_ws(c) {
            if cur.len() > 0 {
                let ghost before = ts.deep_view();
                let ghost cv = cur.deep_view();
                assert(cv =~= cur@);
                ts.push(cur);
                assert(ts.deep_view() =~= before.push(cv));
                cur = Vec::new();
            }
        } else {
            cur.push(c);
        }
        i += 1;
    }
    assert(s@.take(s@.len() as int) =~= s@);
    if cur.len() > 0 {
        let ghost before = ts.deep_view();
        let ghost cv = cur.deep_view();
        assert(cv =~= cur@);
        ts.push(cur);
        assert(ts.deep_view() =~= before.push(cv));
    }
    ts
}

fn jamo_or_ascii(v: &Vec<char>) -> (r: bool)
    ensures
        r == (forall|k: int| 0 <= k < v@.len() ==> is_jamo(#[trigger] v@[k]) || is_ascii_alnum(v@[k])),
{
    let mut i: usize = 0;
    while i < v.len()
        invariant
            i <= v@.len(),
            forall|k: int| 0 <= k < i ==> is_jamo(#[trigger] v@[k]) || is_ascii_alnum(v@[k]),
        decreases v.len() - i,
    {
        let c = v[i];
        let ok = ('\u{3131}' <= c && c <= '\u{318E}') || ('0' <= c && c <= '9') || ('a' <= c && c <= 'z') || ('A' <= c && c <= 'Z');
        if !ok {
            return false;
        }
        i += 1;
    }
    true
}

fn has_syllable(v: &Vec<char>) -> (r: bool)
    ensures
        r == (exists|k: int| 0 <= k < v@.len() && is_syllable(#[trigger] v@[k])),
{
    let mut i: usize = 0;
    while i < v.len()
        invariant
            i <= v@.len(),
            forall|k: int| 0 <= k < i ==> !is_syllable(#[trigger] v@[k]),
        decreases v.len() - i,
    {
        let c = v[i];
        if '\u{AC00}' <= c && c <= '\u{D7A3}' {
            return true;
        }
        i += 1;
    }
    false
}

/// The query's derived parts, computed once.
struct Prepared {
    q: Vec<char>,
    q_tight: Vec<char>,
    q_cho: Vec<char>,
    q_is_jamo: bool,
    q_has_syl: bool,
    tokens: Vec<Vec<char>>,
    token_chos: Vec<Vec<char>>,
}

impl Prepared {
    spec fn ok(&self) -> bool {
        &&& self.q_tight@ == no_ws(self.q@)
        &&& self.q_cho@ == choseong_chars(self.q_tight@)
        &&& self.q_is_jamo == (forall|k: int| 0 <= k < self.q_tight@.len() ==> is_jamo(#[trigger] self.q_tight@[k]) || is_ascii_alnum(self.q_tight@[k]))
        &&& self.q_has_syl == (exists|k: int| 0 <= k < self.q@.len() && is_syllable(#[trigger] self.q@[k]))
        &&& self.tokens.deep_view() == ws_tokens(self.q@)
        &&& self.token_chos@.len() == self.tokens@.len()
        &&& forall|k: int| 0 <= k < self.tokens@.len() ==> #[trigger] self.token_chos@[k]@ == choseong_chars(self.tokens@[k]@)
    }
}

fn contains(s: &Vec<char>, p: &Vec<char>) -> (r: bool)
    ensures
        r == find_sub(s@, p@) is Some,
{
    find_sub_vec(s, p).is_some()
}

fn score_of(node: &QueryNode, pq: &Prepared) -> (r: u32)
    requires
        pq.ok(),
        pq.q@.len() > 0,
    ensures
        r == node_score((node.title@, node.cho@, node.cho_tight@), pq.q@),
        r <= 400,
{
    let title = chars_of(node.title.as_str());
    let cho = chars_of(node.cho.as_str());
    let tight = chars_of(node.cho_tight.as_str());
    let mut score: u32 = 0;
    proof {
        crate::strs::lemma_find_sub_from(title@, pq.q@, 0);
    }
    if let Some(p) = find_sub_vec(&title, &pq.q) {
        score = if p == 0 {
            400
        } else if !is_alnum(title[p - 1]) {
            300
        } else {
            200
        };
    } else if pq.q_is_jamo {
        if let Some(p) = find_sub_vec(&tight, &pq.q_tight) {
            score = if p == 0 {
                160
            } else {
                120
            };
        } else if contains(&cho, &pq.q) {
            score = 110;
        }
    } else if pq.q_has_syl && contains(&tight, &pq.q_cho) {
        score = 80;
    }
    proof {
        lemma_keys_deep(&pq.tokens);
    }
    if score == 0 && pq.tokens.len() > 1 {
        let mut all = true;
        let mut k: usize = 0;
        while k < pq.tokens.len()
            invariant
                pq.ok(),
                k <= pq.tokens@.len(),
                all == (forall|j: int|
                    0 <= j < k ==> (find_sub(title@, #[trigger] ws_tokens(pq.q@)[j]) is Some || find_sub(
                        tight@,
                        ws_tokens(pq.q@)[j],
                    ) is Some || find_sub(tight@, choseong_chars(ws_tokens(pq.q@)[j])) is Some)),
                pq.tokens.deep_view().len() == pq.tokens@.len(),
                forall|j: int| 0 <= j < pq.tokens@.len() ==> #[trigger] pq.tokens.deep_view()[j] == pq.tokens@[j]@,
            decreases pq.tokens.len() - k,
        {
            let t = &pq.tokens[k];
            assert(ws_tokens(pq.q@)[k as int] == t@);
            assert(pq.token_chos@[k as int]@ == choseong_chars(t@));
            let hit = contains(&title, t) || contains(&tight, t) || contains(&tight, &pq.token_chos[k]);
            all = all && hit;
            k += 1;
        }
        if all {
            score = 60;
        }
    }
    score
}

proof fn lemma_insert_to_set(s: Seq<u32>, p: int, x: u32)
    requires
        0 <= p <= s.len(),
    ensures
        s.insert(p, x).to_set() == s.to_set().insert(x),
{
    let t = s.insert(p, x);
    assert forall|y: u32| #[trigger] t.to_set().contains(y) <==> s.to_set().insert(x).contains(y) by {
        if t.contains(y) {
            let k = choose|k: int| 0 <= k < t.len() && t[k] == y;
            if k < p {
                assert(s[k] == y);
            } else if k > p {
                assert(s[k - 1] == y);
            }
        }
        if s.contains(y) {
            let k = choose|k: int| 0 <= k < s.len() && s[k] == y;
            if k < p {
                assert(t[k] == y);
            } else {
                assert(t[k + 1] == y);
            }
        }
        if y == x {
            assert(t[p] == y);
        }
    }
    assert(t.to_set() =~= s.to_set().insert(x));
}

proof fn lemma_keys_deep(v: &Vec<Vec<char>>)
    ensures
        v.deep_view().len() == v@.len(),
        forall|k: int| 0 <= k < v@.len() ==> #[trigger] v.deep_view()[k] == v@[k]@,
{
    crate::strs::lemma_keys_view(v);
}

impl QueryGraph {
    /// Search: the ids of the nodes that match, best first (score, then
    /// degree), ties by id. An empty query finds nothing.
    pub fn search(&self, query: &str) -> (r: Vec<u32>)
        requires
            self.wf(),
        ensures
            search_query(query@).len() == 0 ==> r@.len() == 0,
            search_query(query@).len() > 0 ==> {
                &&& forall|i: int, j: int|
                    0 <= i < j < r@.len() ==> self.hit_before(
                        #[trigger] r@[i] as int,
                        #[trigger] r@[j] as int,
                        search_query(query@),
                    )
                &&& r@.to_set() == Set::new(
                    |v: u32| v < self.n() && node_score(self.keys_v()[v as int], search_query(query@)) > 0,
                )
            },
    {
        let raw = chars_of(query);
        let low = lower_chars(&raw);
        let q = trim_chars(&low);
        if q.len() == 0 {
            return Vec::new();
        }
        let q_tight = strip_ws(&q);
        let q_cho = choseong_vec(&q_tight);
        let q_is_jamo = jamo_or_ascii(&q_tight);
        let q_has_syl = has_syllable(&q);
        let tokens = ws_tokens_vec(&q);
        proof {
            lemma_keys_deep(&tokens);
        }
        let mut token_chos: Vec<Vec<char>> = Vec::new();
        let mut k: usize = 0;
        while k < tokens.len()
            invariant
                k <= tokens@.len(),
                q_tight@ == no_ws(q@),
                q_cho@ == choseong_chars(q_tight@),
                q_is_jamo == (forall|j: int| 0 <= j < q_tight@.len() ==> is_jamo(#[trigger] q_tight@[j]) || is_ascii_alnum(q_tight@[j])),
                q_has_syl == (exists|j: int| 0 <= j < q@.len() && is_syllable(#[trigger] q@[j])),
                tokens.deep_view() == ws_tokens(q@),
                tokens.deep_view().len() == tokens@.len(),
                forall|j: int| 0 <= j < tokens@.len() ==> #[trigger] tokens.deep_view()[j] == tokens@[j]@,
                token_chos@.len() == k,
                forall|j: int| 0 <= j < k ==> #[trigger] token_chos@[j]@ == choseong_chars(tokens@[j]@),
            decreases tokens.len() - k,
        {
            token_chos.push(choseong_vec(&tokens[k]));
            k += 1;
        }
        let pq = Prepared { q, q_tight, q_cho, q_is_jamo, q_has_syl, tokens, token_chos };
        let ghost qs = search_query(query@);
        assert(pq.q@ == qs);
        assert(pq.q_tight@ == no_ws(pq.q@));
        assert(pq.q_cho@ == choseong_chars(pq.q_tight@));
        assert(pq.tokens.deep_view() == ws_tokens(pq.q@));
        assert(pq.token_chos@.len() == pq.tokens@.len());
        assert(pq.q_is_jamo == (forall|k: int| 0 <= k < pq.q_tight@.len() ==> is_jamo(#[trigger] pq.q_tight@[k]) || is_ascii_alnum(pq.q_tight@[k])));
        assert(pq.q_has_syl == (exists|k: int| 0 <= k < pq.q@.len() && is_syllable(#[trigger] pq.q@[k])));
        let n = self.offsets.len() - 1;
        let mut hits: Vec<u32> = Vec::new();
        let mut keys: Vec<u32> = Vec::new();
        let mut i: usize = 0;
        assert(hits@.to_set() =~= Set::new(|v: u32| v < 0 && node_score(self.keys_v()[v as int], qs) > 0));
        while i < n
            invariant
                self.wf(),
                pq.ok(),
                pq.q@.len() > 0,
                pq.q@ == qs,
                n == self.n(),
                i <= n,
                keys@.len() == hits@.len(),
                forall|j: int| 0 <= j < hits@.len() ==> #[trigger] hits@[j] < i,
                forall|j: int| 0 <= j < hits@.len() ==> #[trigger] keys@[j] == self.hit_key(hits@[j] as int, qs),
                forall|a: int, b: int| 0 <= a < b < hits@.len() ==> self.hit_before(#[trigger] hits@[a] as int, #[trigger] hits@[b] as int, qs),
                hits@.to_set() == Set::new(|v: u32| v < i && node_score(self.keys_v()[v as int], qs) > 0),
            decreases n - i,
        {
            proof {
                self.lemma_offsets(i as int);
                assert(self.keys_v()[i as int] == (self.nodes@[i as int].title@, self.nodes@[i as int].cho@, self.nodes@[i as int].cho_tight@));
            }
            let score = score_of(&self.nodes[i], &pq);
            let ghost old_set = hits@.to_set();
            if score > 0 {
                let deg = self.offsets[i + 1] - self.offsets[i];
                let capped = if deg < 4095 {
                    deg
                } else {
                    4095
                };
                let key = score * 4096 + capped;
                let mut p = hits.len();
                while p > 0 && key > keys[p - 1]
                    invariant
                        p <= hits@.len(),
                        keys@.len() == hits@.len(),
                        key == self.hit_key(i as int, qs),
                        forall|j: int| 0 <= j < hits@.len() ==> #[trigger] keys@[j] == self.hit_key(hits@[j] as int, qs),
                        forall|j: int| p <= j < hits@.len() ==> self.hit_before(i as int, #[trigger] hits@[j] as int, qs),
                    decreases p,
                {
                    p -= 1;
                }
                let ghost old_hits = hits@;
                let ghost old_keys = keys@;
                hits.insert(p, i as u32);
                keys.insert(p, key);
                proof {
                    assert(hits@ =~= old_hits.insert(p as int, i as u32));
                    assert(keys@ =~= old_keys.insert(p as int, key));
                    if p > 0 {
                        assert(old_hits[p - 1] < i);
                        assert(!self.hit_before(i as int, old_hits[p - 1] as int, qs));
                    }
                    assert forall|a: int, b: int| 0 <= a < b < hits@.len() implies self.hit_before(
                        #[trigger] hits@[a] as int,
                        #[trigger] hits@[b] as int,
                        qs,
                    ) by {
                        if a < p && b == p {
                            if a < p - 1 {
                                assert(self.hit_before(old_hits[a] as int, old_hits[p - 1] as int, qs));
                            }
                        } else if a == p && b > p {
                            assert(hits@[b] == old_hits[b - 1]);
                        } else if a < p && b > p {
                            assert(hits@[b] == old_hits[b - 1]);
                        } else if a > p {
                            assert(hits@[a] == old_hits[a - 1]);
                            assert(hits@[b] == old_hits[b - 1]);
                        }
                    }
                    assert forall|j: int| 0 <= j < hits@.len() implies #[trigger] hits@[j] < i + 1 && keys@[j] == self.hit_key(hits@[j] as int, qs) by {
                        if j < p {
                            assert(hits@[j] == old_hits[j]);
                        } else if j > p {
                            assert(hits@[j] == old_hits[j - 1]);
                        }
                    }
                    lemma_insert_to_set(old_hits, p as int, i as u32);
                }
            }
            proof {
                assert(hits@.to_set() =~= Set::new(|v: u32| v < i + 1 && node_score(self.keys_v()[v as int], qs) > 0));
            }
            i += 1;
        }
        hits
    }
}

// ---------------------------------------------------------------------------
// Ego networks and local views
// ---------------------------------------------------------------------------
/// `ws` read in order, each one not yet in `out` appended to it.
pub open spec fn add_new(out: Seq<u32>, ws: Seq<u32>) -> Seq<u32>
    decreases ws.len(),
{
    if ws.len() == 0 {
        out
    } else {
        let o = add_new(out, ws.drop_last());
        if o.contains(ws.last()) {
            o
        } else {
            o.push(ws.last())
        }
    }
}

impl QueryGraph {
    /// A node that the ego network expands through: the centre, or any node
    /// but the root hub with at most `EXPAND_DEGREE_CUTOFF` neighbours.
    pub open spec fn expands(&self, center: int, u: int) -> bool {
        u == center || (u != self.root_v() && self.deg(u) <= EXPAND_DEGREE_CUTOFF)
    }

    /// One breadth-first level: each node of the frontier, in order, that
    /// expands adds its neighbours not seen yet.
    pub open spec fn expand_level(&self, center: int, out: Seq<u32>, frontier: Seq<u32>) -> Seq<u32>
        decreases frontier.len(),
    {
        if frontier.len() == 0 {
            out
        } else {
            let o = self.expand_level(center, out, frontier.drop_last());
            if self.expands(center, frontier.last() as int) {
                add_new(o, self.nbrs(frontier.last() as int))
            } else {
                o
            }
        }
    }

    /// The ego network after `k` levels: the nodes in discovery order, and
    /// where the last level starts.
    pub open spec fn ego_state(&self, center: int, k: nat) -> (Seq<u32>, int)
        decreases k,
    {
        if k == 0 {
            if 0 <= center < self.n() {
                (seq![center as u32], 0)
            } else {
                (Seq::empty(), 0)
            }
        } else {
            let (out, start) = self.ego_state(center, (k - 1) as nat);
            (self.expand_level(center, out, out.subrange(start, out.len() as int)), out.len() as int)
        }
    }

    /// The level at which `v` joins the ego network, within `k` levels.
    pub open spec fn first_level(&self, center: int, v: u32, k: nat) -> Option<nat>
        decreases k,
    {
        if k == 0 {
            if self.ego_state(center, 0).0.contains(v) {
                Some(0)
            } else {
                None
            }
        } else {
            match self.first_level(center, v, (k - 1) as nat) {
                Some(l) => Some(l),
                None => if self.ego_state(center, k).0.contains(v) {
                    Some(k)
                } else {
                    None
                },
            }
        }
    }
}

proof fn lemma_add_new_prefix(out: Seq<u32>, ws: Seq<u32>)
    ensures
        add_new(out, ws).len() >= out.len(),
        add_new(out, ws).subrange(0, out.len() as int) == out,
        forall|v: u32| #[trigger] add_new(out, ws).contains(v) <==> (out.contains(v) || ws.contains(v)),
    decreases ws.len(),
{
    if ws.len() > 0 {
        lemma_add_new_prefix(out, ws.drop_last());
        let o = add_new(out, ws.drop_last());
        assert(o.push(ws.last()).subrange(0, out.len() as int) =~= o.subrange(0, out.len() as int));
        assert forall|v: u32| #[trigger] add_new(out, ws).contains(v) <==> (out.contains(v) || ws.contains(v)) by {
            if ws.contains(v) && !ws.drop_last().contains(v) {
                let k = choose|k: int| 0 <= k < ws.len() && ws[k] == v;
                if k < ws.len() - 1 {
                    assert(ws.drop_last()[k] == v);
                }
            }
            if ws.drop_last().contains(v) {
                let k = choose|k: int| 0 <= k < ws.drop_last().len() && ws.drop_last()[k] == v;
                assert(ws[k] == v);
            }
            if !o.contains(ws.last()) && add_new(out, ws).contains(v) && !o.contains(v) {
                let k = choose|k: int| 0 <= k < o.push(ws.last()).len() && o.push(ws.last())[k] == v;
                assert(k == o.len());
            }
            if !o.contains(ws.last()) && o.contains(v) {
                let k = choose|k: int| 0 <= k < o.len() && o[k] == v;
                assert(o.push(ws.last())[k] == v);
            }
            if v == ws.last() && !o.contains(v) {
                assert(o.push(ws.last())[o.len() as int] == v);
            }
        }
    }
}

proof fn lemma_expand_prefix(g: &QueryGraph, center: int, out: Seq<u32>, fr: Seq<u32>)
    ensures
        g.expand_level(center, out, fr).len() >= out.len(),
        g.expand_level(center, out, fr).subrange(0, out.len() as int) == out,
    decreases fr.len(),
{
    if fr.len() > 0 {
        lemma_expand_prefix(g, center, out, fr.drop_last());
        let o = g.expand_level(center, out, fr.drop_last());
        if g.expands(center, fr.last() as int) {
            lemma_add_new_prefix(o, g.nbrs(fr.last() as int));
            assert(add_new(o, g.nbrs(fr.last() as int)).subrange(0, out.len() as int) =~= o.subrange(
                0,
                out.len() as int,
            ));
        }
    }
}

/// With an empty last level nothing more is discovered.
proof fn lemma_ego_stable(g: &QueryGraph, center: int, k: nat, m: nat)
    requires
        k <= m,
        g.ego_state(center, k).1 == g.ego_state(center, k).0.len(),
    ensures
        g.ego_state(center, m).0 == g.ego_state(center, k).0,
        g.ego_state(center, m).1 == g.ego_state(center, k).1,
    decreases m - k,
{
    if m > k {
        lemma_ego_stable(g, center, k, (m - 1) as nat);
        let (out, start) = g.ego_state(center, (m - 1) as nat);
        assert(out.subrange(start, out.len() as int) =~= Seq::<u32>::empty());
    }
}

impl QueryGraph {
    /// Appends the neighbours of `u` not seen yet, marking them seen (and, when
    /// `dist` is kept, giving them `level`).
    fn add_neighbors(&self, u: u32, out: &mut Vec<u32>, seen: &mut Vec<bool>)
        requires
            self.wf(),
            u < self.n(),
            old(seen)@.len() == self.n(),
            forall|v: int| 0 <= v < self.n() ==> #[trigger] old(seen)@[v] == old(out)@.contains(v as u32),
            forall|k: int| 0 <= k < old(out)@.len() ==> #[trigger] old(out)@[k] < self.n(),
        ensures
            final(out)@ == add_new(old(out)@, self.nbrs(u as int)),
            final(seen)@.len() == self.n(),
            forall|v: int| 0 <= v < self.n() ==> #[trigger] final(seen)@[v] == final(out)@.contains(v as u32),
            forall|k: int| 0 <= k < final(out)@.len() ==> #[trigger] final(out)@[k] < self.n(),
    {
        proof {
            self.lemma_offsets(u as int);
        }
        let a = self.offsets[u as usize] as usize;
        let b = self.offsets[u as usize + 1] as usize;
        let ghost nb = self.nbrs(u as int);
        let ghost start = out@;
        let mut k = a;
        assert(nb.take(0) =~= Seq::<u32>::empty());
        while k < b
            invariant
                self.wf(),
                a <= k <= b <= self.targets@.len(),
                nb == self.targets@.subrange(a as int, b as int),
                forall|j: int| 0 <= j < self.targets_v().len() ==> #[trigger] self.targets_v()[j] < self.n(),
                out@ == add_new(start, nb.take(k - a)),
                seen@.len() == self.n(),
                forall|v: int| 0 <= v < self.n() ==> #[trigger] seen@[v] == out@.contains(v as u32),
                forall|j: int| 0 <= j < out@.len() ==> #[trigger] out@[j] < self.n(),
            decreases b - k,
        {
            let w = self.targets[k];
            assert(w < self.n());
            assert(nb.take(k + 1 - a).drop_last() =~= nb.take(k - a));
            assert(nb.take(k + 1 - a).last() == w);
            if !seen[w as usize] {
                let ghost before = out@;
                out.push(w);
                seen.set(w as usize, true);
                proof {
                    assert forall|v: int| 0 <= v < self.n() implies #[trigger] seen@[v] == out@.contains(v as u32) by {
                        if v == w {
                            assert(out@[before.len() as int] == w);
                        } else {
                            if out@.contains(v as u32) {
                                let j = choose|j: int| 0 <= j < out@.len() && out@[j] == v as u32;
                                assert(j < before.len());
                                assert(before[j] == v as u32);
                            }
                            if before.contains(v as u32) {
                                let j = choose|j: int| 0 <= j < before.len() && before[j] == v as u32;
                                assert(out@[j] == v as u32);
                            }
                        }
                    }
                }
            }
            k += 1;
        }
        assert(nb.take(b - a) =~= nb);
    }

    /// The ego network of `node_id`: the nodes within `depth` hops, in
    /// breadth-first order with the centre first. Nodes that do not expand
    /// (the root hub, nodes of very high degree) are included but not passed
    /// through.
    pub fn ego(&self, node_id: u32, depth: u32) -> (r: Vec<u32>)
        requires
            self.wf(),
        ensures
            r@ == self.ego_state(node_id as int, depth as nat).0,
    {
        let n = self.offsets.len() - 1;
        let mut seen: Vec<bool> = Vec::new();
        let mut z: usize = 0;
        while z < n
            invariant
                z <= n,
                seen@.len() == z,
                forall|v: int| 0 <= v < z ==> !(#[trigger] seen@[v]),
            decreases n - z,
        {
            seen.push(false);
            z += 1;
        }
        let mut out: Vec<u32> = Vec::new();
        if (node_id as usize) < n {
            out.push(node_id);
            seen.set(node_id as usize, true);
        }
        proof {
            assert(out@ =~= self.ego_state(node_id as int, 0).0);
            assert forall|v: int| 0 <= v < self.n() implies #[trigger] seen@[v] == out@.contains(v as u32) by {
                if out@.contains(v as u32) {
                    assert(out@[0] == v as u32);
                }
                if v == node_id && (node_id as usize) < n {
                    assert(out@[0] == v as u32);
                }
            }
        }
        let mut start: usize = 0;
        let mut lvl: u32 = 0;
        while lvl < depth
            invariant
                self.wf(),
                n == self.n(),
                lvl <= depth,
                seen@.len() == n,
                forall|v: int| 0 <= v < self.n() ==> #[trigger] seen@[v] == out@.contains(v as u32),
                forall|k: int| 0 <= k < out@.len() ==> #[trigger] out@[k] < self.n(),
                (out@, start as int) == self.ego_state(node_id as int, lvl as nat),
                start <= out@.len(),
            decreases depth - lvl,
        {
            let end = out.len();
            if start == end {
                proof {
                    lemma_ego_stable(self, node_id as int, lvl as nat, depth as nat);
                }
                return out;
            }
            let ghost out0 = out@;
            let ghost fr = out0.subrange(start as int, end as int);
            let mut i = start;
            assert(fr.take(0) =~= Seq::<u32>::empty());
            while i < end
                invariant
                    self.wf(),
                    start <= i <= end,
                    end == out0.len(),
                    fr == out0.subrange(start as int, end as int),
                    out@.len() >= end,
                    out@.subrange(0, end as int) == out0,
                    out@ == self.expand_level(node_id as int, out0, fr.take(i - start)),
                    seen@.len() == n,
                    n == self.n(),
                    forall|v: int| 0 <= v < self.n() ==> #[trigger] seen@[v] == out@.contains(v as u32),
                    forall|k: int| 0 <= k < out@.len() ==> #[trigger] out@[k] < self.n(),
                decreases end - i,
            {
                let u = out[i];
                assert(u == out0[i as int]);
                assert(fr.take(i + 1 - start).drop_last() =~= fr.take(i - start));
                assert(fr.take(i + 1 - start).last() == u);
                proof {
                    self.lemma_offsets(u as int);
                }
                let deg = self.offsets[u as usize + 1] - self.offsets[u as usize];
                if u == node_id || (u != self.root && deg <= EXPAND_DEGREE_CUTOFF) {
                    let ghost before = out@;
                    self.add_neighbors(u, &mut out, &mut seen);
                    proof {
                        lemma_add_new_prefix(before, self.nbrs(u as int));
                        assert(out@.subrange(0, end as int) =~= before.subrange(0, end as int));
                    }
                }
                i += 1;
            }
            assert(fr.take(end - start) =~= fr);
            start = end;
            lvl += 1;
        }
        out
    }
}

proof fn lemma_ego_prefix(g: &QueryGraph, center: int, k: nat)
    ensures
        g.ego_state(center, k).1 <= g.ego_state(center, k).0.len(),
        g.ego_state(center, k + 1).0.len() >= g.ego_state(center, k).0.len(),
        g.ego_state(center, k + 1).0.subrange(0, g.ego_state(center, k).0.len() as int) == g.ego_state(center, k).0,
    decreases k,
{
    if k > 0 {
        lemma_ego_prefix(g, center, (k - 1) as nat);
    }
    let (out, start) = g.ego_state(center, k);
    lemma_expand_prefix(g, center, out, out.subrange(start, out.len() as int));
}

/// A node is in the ego network after `k` levels exactly when it joined at
/// some level up to `k`.
proof fn lemma_first_level(g: &QueryGraph, center: int, v: u32, k: nat)
    ensures
        g.first_level(center, v, k) is Some <==> g.ego_state(center, k).0.contains(v),
        g.first_level(center, v, k) matches Some(l) ==> l <= k,
    decreases k,
{
    if k > 0 {
        lemma_first_level(g, center, v, (k - 1) as nat);
        lemma_ego_prefix(g, center, (k - 1) as nat);
        let prev = g.ego_state(center, (k - 1) as nat).0;
        let cur = g.ego_state(center, k).0;
        if prev.contains(v) {
            let j = choose|j: int| 0 <= j < prev.len() && prev[j] == v;
            assert(cur.subrange(0, prev.len() as int)[j] == v);
            assert(cur[j] == v);
        }
    }
}

/// `s` without the occurrences of `x`.
pub open spec fn without(s: Seq<u32>, x: u32) -> Seq<u32>
    decreases s.len(),
{
    if s.len() == 0 {
        Seq::empty()
    } else if s.last() == x {
        without(s.drop_last(), x)
    } else {
        without(s.drop_last(), x).push(s.last())
    }
}

impl QueryGraph {
    /// The neighbours, other than the root hub, of each node of `ms` in turn.
    pub open spec fn second_ring(&self, ms: Seq<u32>) -> Seq<u32>
        decreases ms.len(),
    {
        if ms.len() == 0 {
            Seq::empty()
        } else {
            self.second_ring(ms.drop_last()) + without(self.nbrs(ms.last() as int), self.root_v())
        }
    }

    /// The local view of a section hub: the hub, its members (its
    /// neighbours but the root hub), then the members' neighbours but the
    /// root hub, each once, in that order.
    pub open spec fn local_view_of(&self, hub: int) -> Seq<u32> {
        if 0 <= hub < self.n() {
            let ms = without(self.nbrs(hub), self.root_v());
            add_new(add_new(seq![hub as u32], ms), self.second_ring(ms))
        } else {
            Seq::empty()
        }
    }
}

proof fn lemma_add_new_concat(out: Seq<u32>, a: Seq<u32>, b: Seq<u32>)
    ensures
        add_new(out, a + b) == add_new(add_new(out, a), b),
    decreases b.len(),
{
    if b.len() == 0 {
        assert(a + b =~= a);
    } else {
        lemma_add_new_concat(out, a, b.drop_last());
        assert((a + b).drop_last() =~= a + b.drop_last());
        assert((a + b).last() == b.last());
    }
}

impl QueryGraph {
    fn fresh_seen(&self) -> (r: Vec<bool>)
        requires
            self.wf(),
        ensures
            r@.len() == self.n(),
            forall|v: int| 0 <= v < self.n() ==> !(#[trigger] r@[v]),
    {
        let n = self.offsets.len() - 1;
        let mut seen: Vec<bool> = Vec::new();
        let mut z: usize = 0;
        while z < n
            invariant
                z <= n,
                seen@.len() == z,
                forall|v: int| 0 <= v < z ==> !(#[trigger] seen@[v]),
            decreases n - z,
        {
            seen.push(false);
            z += 1;
        }
        seen
    }

    /// Appends the values of `ws` that are neither `skip` nor seen yet.
    fn add_unseen(&self, ws: &Vec<u32>, skip: u32, out: &mut Vec<u32>, seen: &mut Vec<bool>)
        requires
            self.wf(),
            forall|k: int| 0 <= k < ws@.len() ==> #[trigger] ws@[k] < self.n(),
            old(seen)@.len() == self.n(),
            forall|v: int| 0 <= v < self.n() ==> #[trigger] old(seen)@[v] == old(out)@.contains(v as u32),
            forall|k: int| 0 <= k < old(out)@.len() ==> #[trigger] old(out)@[k] < self.n(),
        ensures
            final(out)@ == add_new(old(out)@, without(ws@, skip)),
            final(seen)@.len() == self.n(),
            forall|v: int| 0 <= v < self.n() ==> #[trigger] final(seen)@[v] == final(out)@.contains(v as u32),
            forall|k: int| 0 <= k < final(out)@.len() ==> #[trigger] final(out)@[k] < self.n(),
    {
        let ghost start = out@;
        let mut k: usize = 0;
        assert(ws@.take(0) =~= Seq::<u32>::empty());
        while k < ws.len()
            invariant
                self.wf(),
                k <= ws@.len(),
                forall|j: int| 0 <= j < ws@.len() ==> #[trigger] ws@[j] < self.n(),
                out@ == add_new(start, without(ws@.take(k as int), skip)),
                seen@.len() == self.n(),
                forall|v: int| 0 <= v < self.n() ==> #[trigger] seen@[v] == out@.contains(v as u32),
                forall|j: int| 0 <= j < out@.len() ==> #[trigger] out@[j] < self.n(),
            decreases ws.len() - k,
        {
            let w = ws[k];
            assert(ws@.take(k + 1).drop_last() =~= ws@.take(k as int));
            assert(ws@.take(k + 1).last() == w);
            let ghost wl = without(ws@.take(k as int), skip);
            proof {
                if w != skip {
                    assert(without(ws@.take(k + 1), skip) == wl.push(w));
                    assert(wl.push(w).drop_last() =~= wl);
                    assert(wl.push(w).last() == w);
                } else {
                    assert(without(ws@.take(k + 1), skip) == wl);
                }
            }
            if w != skip && !seen[w as usize] {
                let ghost before = out@;
                out.push(w);
                seen.set(w as usize, true);
                proof {
                    assert forall|v: int| 0 <= v < self.n() implies #[trigger] seen@[v] == out@.contains(v as u32) by {
                        if v == w {
                            assert(out@[before.len() as int] == w);
                        } else {
                            if out@.contains(v as u32) {
                                let j = choose|j: int| 0 <= j < out@.len() && out@[j] == v as u32;
                                assert(j < before.len());
                                assert(before[j] == v as u32);
                            }
                            if before.contains(v as u32) {
                                let j = choose|j: int| 0 <= j < before.len() && before[j] == v as u32;
                                assert(out@[j] == v as u32);
                            }
                        }
                    }
                }
            }
            k += 1;
        }
        assert(ws@.take(ws@.len() as int) =~= ws@);
    }

    /// The local view of section hub `hub_id` (empty for an unknown id).
    pub fn local_view(&self, hub_id: u32) -> (r: Vec<u32>)
        requires
            self.wf(),
        ensures
            r@ == self.local_view_of(hub_id as int),
    {
        let n = self.offsets.len() - 1;
        if (hub_id as usize) >= n {
            return Vec::new();
        }
        let mut seen = self.fresh_seen();
        let mut out: Vec<u32> = Vec::new();
        out.push(hub_id);
        seen.set(hub_id as usize, true);
        proof {
            assert forall|v: int| 0 <= v < self.n() implies #[trigger] seen@[v] == out@.contains(v as u32) by {
                if out@.contains(v as u32) {
                    assert(out@[0] == v as u32);
                }
                if v == hub_id {
                    assert(out@[0] == v as u32);
                }
            }
            self.lemma_offsets(hub_id as int);
        }
        let nb = self.neighbors(hub_id);
        let mut members: Vec<u32> = Vec::new();
        let mut k: usize = 0;
        assert(nb@.take(0) =~= Seq::<u32>::empty());
        while k < nb.len()
            invariant
                self.wf(),
                k <= nb@.len(),
                nb@ == self.nbrs(hub_id as int),
                forall|j: int| 0 <= j < self.targets_v().len() ==> #[trigger] self.targets_v()[j] < self.n(),
                self.offsets_v()[hub_id as int] <= self.offsets_v()[hub_id + 1] <= self.targets_v().len(),
                members@ == without(nb@.take(k as int), self.root),
                forall|j: int| 0 <= j < members@.len() ==> #[trigger] members@[j] < self.n(),
            decreases nb.len() - k,
        {
            assert(nb@.take(k + 1).drop_last() =~= nb@.take(k as int));
            assert(nb@[k as int] == self.targets_v()[self.offsets_v()[hub_id as int] + k]);
            if nb[k] != self.root {
                members.push(nb[k]);
            }
            k += 1;
        }
        assert(nb@.take(nb@.len() as int) =~= nb@);
        let ghost ms = members@;
        proof {
            assert forall|j: int| 0 <= j < nb@.len() implies #[trigger] nb@[j] < self.n() by {
                assert(nb@[j] == self.targets_v()[self.offsets_v()[hub_id as int] + j]);
            }
        }
        self.add_unseen(&nb, self.root, &mut out, &mut seen);
        let ghost base = out@;
        let mut i: usize = 0;
        assert(ms.take(0) =~= Seq::<u32>::empty());
        assert(self.second_ring(ms.take(0)) =~= Seq::<u32>::empty());
        while i < members.len()
            invariant
                self.wf(),
                i <= members@.len(),
                ms == members@,
                forall|j: int| 0 <= j < members@.len() ==> #[trigger] members@[j] < self.n(),
                out@ == add_new(base, self.second_ring(ms.take(i as int))),
                seen@.len() == self.n(),
                forall|v: int| 0 <= v < self.n() ==> #[trigger] seen@[v] == out@.contains(v as u32),
                forall|j: int| 0 <= j < out@.len() ==> #[trigger] out@[j] < self.n(),
            decreases members.len() - i,
        {
            let m = members[i];
            let mn = self.neighbors(m);
            proof {
                self.lemma_offsets(m as int);
                assert forall|j: int| 0 <= j < mn@.len() implies #[trigger] mn@[j] < self.n() by {
                    assert(mn@[j] == self.targets_v()[self.offsets_v()[m as int] + j]);
                }
            }
            let ghost before = out@;
            self.add_unseen(&mn, self.root, &mut out, &mut seen);
            proof {
                assert(ms.take(i + 1).drop_last() =~= ms.take(i as int));
                assert(ms.take(i + 1).last() == m);
                lemma_add_new_concat(base, self.second_ring(ms.take(i as int)), without(mn@, self.root));
            }
            i += 1;
        }
        assert(ms.take(ms.len() as int) =~= ms);
        out
    }

    /// Hops from `node_id` to every node (255 when not reached), by the rule
    /// of `ego`, up to `min(depth, 254)` levels.
    pub fn ego_depths(&self, node_id: u32, depth: u32) -> (r: Vec<u8>)
        requires
            self.wf(),
        ensures
            r@.len() == self.n(),
            forall|v: int|
                0 <= v < self.n() ==> #[trigger] r@[v] == (match self.first_level(
                    node_id as int,
                    v as u32,
                    (if depth < 254 {
                        depth
                    } else {
                        254
                    }) as nat,
                ) {
                    Some(l) => l as u8,
                    None => 255u8,
                }),
    {
        let n = self.offsets.len() - 1;
        let cap: u32 = if depth < 254 {
            depth
        } else {
            254
        };
        let ghost c = node_id as int;
        let mut dist: Vec<u8> = Vec::new();
        let mut z: usize = 0;
        while z < n
            invariant
                z <= n,
                dist@.len() == z,
                forall|v: int| 0 <= v < z ==> #[trigger] dist@[v] == 255u8,
            decreases n - z,
        {
            dist.push(255u8);
            z += 1;
        }
        let mut seen = self.fresh_seen();
        let mut out: Vec<u32> = Vec::new();
        if (node_id as usize) < n {
            out.push(node_id);
            seen.set(node_id as usize, true);
            dist.set(node_id as usize, 0u8);
        }
        proof {
            assert(out@ =~= self.ego_state(c, 0).0);
            assert forall|v: int| 0 <= v < self.n() implies #[trigger] seen@[v] == out@.contains(v as u32) by {
                if out@.contains(v as u32) {
                    assert(out@[0] == v as u32);
                }
                if v == node_id && (node_id as usize) < n {
                    assert(out@[0] == v as u32);
                }
            }
            assert forall|v: int| 0 <= v < self.n() implies #[trigger] dist@[v] == (match self.first_level(c, v as u32, 0) {
                Some(l) => l as u8,
                None => 255u8,
            }) by {
                if v == node_id && (node_id as usize) < n {
                    assert(out@[0] == v as u32);
                } else if out@.contains(v as u32) {
                    assert(out@[0] == v as u32);
                }
            }
        }
        let mut start: usize = 0;
        let mut lvl: u32 = 0;
        while lvl < cap
            invariant
                self.wf(),
                n == self.n(),
                c == node_id as int,
                cap == (if depth < 254 {
                    depth
                } else {
                    254
                }),
                lvl <= cap <= 254,
                seen@.len() == n,
                dist@.len() == n,
                forall|v: int| 0 <= v < self.n() ==> #[trigger] seen@[v] == out@.contains(v as u32),
                forall|k: int| 0 <= k < out@.len() ==> #[trigger] out@[k] < self.n(),
                (out@, start as int) == self.ego_state(c, lvl as nat),
                start <= out@.len(),
                forall|v: int|
                    0 <= v < self.n() ==> #[trigger] dist@[v] == (match self.first_level(c, v as u32, lvl as nat) {
                        Some(l) => l as u8,
                        None => 255u8,
                    }),
            decreases cap - lvl,
        {
            let end = out.len();
            if start == end {
                proof {
                    lemma_ego_stable(self, c, lvl as nat, cap as nat);
                    assert forall|v: int| 0 <= v < self.n() implies #[trigger] dist@[v] == (match self.first_level(c, v as u32, cap as nat) {
                        Some(l) => l as u8,
                        None => 255u8,
                    }) by {
                        lemma_first_level_stable(self, c, v as u32, lvl as nat, cap as nat);
                    }
                }
                return dist;
            }
            let ghost out0 = out@;
            let ghost fr = out0.subrange(start as int, end as int);
            let mut i = start;
            assert(fr.take(0) =~= Seq::<u32>::empty());
            while i < end
                invariant
                    self.wf(),
                    start <= i <= end,
                    end == out0.len(),
                    fr == out0.subrange(start as int, end as int),
                    out@.len() >= end,
                    out@.subrange(0, end as int) == out0,
                    out@ == self.expand_level(c, out0, fr.take(i - start)),
                    c == node_id as int,
                    seen@.len() == n,
                    n == self.n(),
                    forall|v: int| 0 <= v < self.n() ==> #[trigger] seen@[v] == out@.contains(v as u32),
                    forall|k: int| 0 <= k < out@.len() ==> #[trigger] out@[k] < self.n(),
                decreases end - i,
            {
                let u = out[i];
                assert(u == out0[i as int]);
                assert(fr.take(i + 1 - start).drop_last() =~= fr.take(i - start));
                assert(fr.take(i + 1 - start).last() == u);
                proof {
                    self.lemma_offsets(u as int);
                }
                let deg = self.offsets[u as usize + 1] - self.offsets[u as usize];
                if u == node_id || (u != self.root && deg <= EXPAND_DEGREE_CUTOFF) {
                    let ghost before = out@;
                    self.add_neighbors(u, &mut out, &mut seen);
                    proof {
                        lemma_add_new_prefix(before, self.nbrs(u as int));
                        assert(out@.subrange(0, end as int) =~= before.subrange(0, end as int));
                    }
                }
                i += 1;
            }
            assert(fr.take(end - start) =~= fr);
            let ghost out1 = out@;
            let d = (lvl + 1) as u8;
            let mut j = end;
            proof {
                assert forall|v: int| 0 <= v < self.n() implies #[trigger] dist@[v] == (if out0.contains(v as u32) {
                    dist@[v]
                } else if out1.subrange(end as int, end as int).contains(v as u32) {
                    d
                } else {
                    255u8
                }) by {
                    lemma_first_level(self, c, v as u32, lvl as nat);
                }
            }
            let ghost dist0 = dist@;
            proof {
                assert forall|v: int| 0 <= v < self.n() implies (#[trigger] dist0[v] == 255u8 <==> !out0.contains(v as u32)) by {
                    lemma_first_level(self, c, v as u32, lvl as nat);
                }
            }
            while j < out.len()
                invariant
                    self.wf(),
                    end <= j <= out@.len(),
                    out@ == out1,
                    dist@.len() == n,
                    n == self.n(),
                    forall|k: int| 0 <= k < out@.len() ==> #[trigger] out@[k] < self.n(),
                    forall|v: int| 0 <= v < self.n() ==> #[trigger] dist@[v] == (if out0.contains(v as u32) {
                        dist0[v]
                    } else if out1.subrange(end as int, j as int).contains(v as u32) {
                        d
                    } else {
                        255u8
                    }),
                    forall|v: int| 0 <= v < self.n() ==> (#[trigger] dist0[v] == 255u8 <==> !out0.contains(v as u32)),
                decreases out.len() - j,
            {
                let w = out[j];
                let ghost dprev = dist@;
                if dist[w as usize] == 255u8 {
                    dist.set(w as usize, d);
                }
                assert(forall|v: int| 0 <= v < self.n() ==> #[trigger] dist@[v] == (if v == w && dprev[v] == 255u8 {
                    d
                } else {
                    dprev[v]
                }));
                proof {
                    assert forall|v: int| 0 <= v < self.n() implies #[trigger] dist@[v] == (if out0.contains(v as u32) {
                        dist0[v]
                    } else if out1.subrange(end as int, j + 1).contains(v as u32) {
                        d
                    } else {
                        255u8
                    }) by {
                        let sa = out1.subrange(end as int, j + 1);
                        let sb = out1.subrange(end as int, j as int);
                        if sa.contains(v as u32) && !sb.contains(v as u32) {
                            let q = choose|q: int| 0 <= q < sa.len() && #[trigger] sa[q] == v as u32;
                            if q < sb.len() {
                                assert(sb[q] == v as u32);
                            }
                        }
                        if sb.contains(v as u32) {
                            let q = choose|q: int| 0 <= q < sb.len() && #[trigger] sb[q] == v as u32;
                            assert(sa[q] == v as u32);
                        }
                        if v == w {
                            assert(sa[j - end] == v as u32);
                        }
                    }
                }
                j += 1;
            }
            proof {
                lemma_ego_prefix(self, c, lvl as nat);
                assert forall|v: int| 0 <= v < self.n() implies #[trigger] dist@[v] == (match self.first_level(c, v as u32, (lvl + 1) as nat) {
                    Some(l) => l as u8,
                    None => 255u8,
                }) by {
                    lemma_first_level(self, c, v as u32, lvl as nat);
                    lemma_first_level(self, c, v as u32, (lvl + 1) as nat);
                    if out1.contains(v as u32) && !out0.contains(v as u32) {
                        let q = choose|q: int| 0 <= q < out1.len() && out1[q] == v as u32;
                        if q < end {
                            assert(out1.subrange(0, end as int)[q] == v as u32);
                        } else {
                            assert(out1.subrange(end as int, out1.len() as int)[q - end] == v as u32);
                        }
                    }
                    let tail = out1.subrange(end as int, out1.len() as int);
                    if tail.contains(v as u32) {
                        let q = choose|q: int| 0 <= q < tail.len() && #[trigger] tail[q] == v as u32;
                        assert(out1[q + end] == v as u32);
                    }
                }
            }
            start = end;
            lvl += 1;
        }
        dist
    }
}

proof fn lemma_first_level_stable(g: &QueryGraph, center: int, v: u32, k: nat, m: nat)
    requires
        k <= m,
        g.ego_state(center, k).1 == g.ego_state(center, k).0.len(),
    ensures
        g.first_level(center, v, m) == g.first_level(center, v, k),
    decreases m - k,
{
    if m > k {
        lemma_first_level_stable(g, center, v, k, (m - 1) as nat);
        lemma_ego_stable(g, center, k, m);
        lemma_ego_stable(g, center, k, (m - 1) as nat);
        lemma_first_level(g, center, v, (m - 1) as nat);
    }
}

/// The depths agree with the ego network: within `k` (at most 254) levels,
/// a node has a depth other than 255 exactly when the ego network of that
/// many levels holds it, and that depth is at most `k`.
pub proof fn law_depths_match_ego(g: &QueryGraph, center: int, v: u32, k: nat)
    requires
        k <= 254,
    ensures
        (match g.first_level(center, v, k) {
            Some(l) => l as u8,
            None => 255u8,
        }) != 255u8 <==> g.ego_state(center, k).0.contains(v),
        g.first_level(center, v, k) matches Some(l) ==> l <= k,
{
    lemma_first_level(g, center, v, k);
}

proof fn lemma_ego_prefix_across(g: &QueryGraph, center: int, l: nat, k: nat)
    requires
        l <= k,
    ensures
        g.ego_state(center, k).0.len() >= g.ego_state(center, l).0.len(),
        g.ego_state(center, k).0.subrange(0, g.ego_state(center, l).0.len() as int) == g.ego_state(
            center,
            l,
        ).0,
    decreases k - l,
{
    if k > l {
        lemma_ego_prefix_across(g, center, l, (k - 1) as nat);
        lemma_ego_prefix(g, center, (k - 1) as nat);
        let a = g.ego_state(center, l).0;
        let b = g.ego_state(center, (k - 1) as nat).0;
        let c = g.ego_state(center, k).0;
        assert(c.subrange(0, a.len() as int) =~= b.subrange(0, a.len() as int)) by {
            assert forall|q: int| 0 <= q < a.len() implies c[q] == b[q] by {
                assert(c.subrange(0, b.len() as int)[q] == c[q]);
            }
        }
    }
}

proof fn lemma_first_level_within(g: &QueryGraph, center: int, v: u32, l: nat, k: nat)
    requires
        l <= k,
        g.ego_state(center, l).0.contains(v),
    ensures
        g.first_level(center, v, k) matches Some(x) && x <= l,
    decreases k - l,
{
    if k == l {
        lemma_first_level(g, center, v, k);
    } else {
        lemma_first_level_within(g, center, v, l, (k - 1) as nat);
    }
}

proof fn lemma_first_level_member(g: &QueryGraph, center: int, v: u32, k: nat)
    requires
        g.first_level(center, v, k) is Some,
    ensures
        g.ego_state(center, g.first_level(center, v, k)->0).0.contains(v),
    decreases k,
{
    if k > 0 && g.first_level(center, v, (k - 1) as nat) is Some {
        lemma_first_level_member(g, center, v, (k - 1) as nat);
    }
}

proof fn lemma_ego_empty(g: &QueryGraph, center: int, k: nat)
    requires
        !(0 <= center < g.n()),
    ensures
        g.ego_state(center, k).0.len() == 0,
    decreases k,
{
    if k > 0 {
        lemma_ego_empty(g, center, (k - 1) as nat);
        lemma_ego_prefix(g, center, (k - 1) as nat);
        let (out, start) = g.ego_state(center, (k - 1) as nat);
        assert(start >= 0);
        assert(out.subrange(start, out.len() as int) =~= Seq::<u32>::empty());
    }
}

/// The depths never decrease along the ego network's order: a node listed
/// earlier was reached at the same level or an earlier one.
pub proof fn law_depths_follow_ego_order(g: &QueryGraph, center: int, k: nat, i: int, j: int)
    requires
        0 <= i < j < g.ego_state(center, k).0.len(),
    ensures
        g.first_level(center, g.ego_state(center, k).0[i], k) matches Some(a) && g.first_level(
            center,
            g.ego_state(center, k).0[j],
            k,
        ) matches Some(b) && a <= b,
{
    let w = g.ego_state(center, k).0;
    assert(w.contains(w[i]));
    assert(w.contains(w[j]));
    lemma_first_level(g, center, w[i], k);
    lemma_first_level(g, center, w[j], k);
    let b = g.first_level(center, w[j], k)->0;
    lemma_first_level_member(g, center, w[j], k);
    lemma_ego_prefix_across(g, center, b, k);
    law_ego_distinct(g, center, k);
    let wb = g.ego_state(center, b).0;
    let q = choose|q: int| 0 <= q < wb.len() && wb[q] == w[j];
    assert(wb[q] == w[q]);
    assert(q == j);
    assert(wb[i] == w[i]);
    assert(wb.contains(w[i]));
    lemma_first_level_within(g, center, w[i], b, k);
}

/// The centre has depth 0; when the centre is not a node, no node has a
/// depth (all are 255).
pub proof fn law_depth_of_centre(g: &QueryGraph, center: int, v: u32, k: nat)
    ensures
        0 <= center < g.n() ==> g.first_level(center, center as u32, k) == Some(0nat),
        !(0 <= center < g.n()) ==> g.first_level(center, v, k) is None,
{
    if 0 <= center < g.n() {
        assert(g.ego_state(center, 0).0[0] == center as u32);
        assert(g.ego_state(center, 0).0.contains(center as u32));
        lemma_first_level_within(g, center, center as u32, 0, k);
    } else {
        lemma_ego_empty(g, center, k);
        lemma_first_level(g, center, v, k);
    }
}

proof fn lemma_add_new_tail(out: Seq<u32>, ws: Seq<u32>)
    ensures
        forall|j: int|
            out.len() <= j < add_new(out, ws).len() ==> ws.contains(#[trigger] add_new(out, ws)[j]),
    decreases ws.len(),
{
    if ws.len() > 0 {
        lemma_add_new_tail(out, ws.drop_last());
        lemma_add_new_prefix(out, ws.drop_last());
        let o = add_new(out, ws.drop_last());
        assert forall|j: int| out.len() <= j < add_new(out, ws).len() implies ws.contains(
            #[trigger] add_new(out, ws)[j],
        ) by {
            if j < o.len() {
                assert(add_new(out, ws)[j] == o[j]);
                let q = choose|q: int| 0 <= q < ws.drop_last().len() && ws.drop_last()[q] == o[j];
                assert(ws[q] == o[j]);
            } else {
                assert(add_new(out, ws)[j] == ws.last());
                assert(ws[ws.len() - 1] == ws.last());
            }
        }
    }
}

proof fn lemma_expand_tail(g: &QueryGraph, center: int, out: Seq<u32>, fr: Seq<u32>)
    ensures
        forall|j: int|
            out.len() <= j < g.expand_level(center, out, fr).len() ==> exists|q: int|
                0 <= q < fr.len() && g.expands(center, fr[q] as int) && g.nbrs(fr[q] as int).contains(
                    #[trigger] g.expand_level(center, out, fr)[j],
                ),
    decreases fr.len(),
{
    if fr.len() > 0 {
        lemma_expand_tail(g, center, out, fr.drop_last());
        let o = g.expand_level(center, out, fr.drop_last());
        let e = g.expand_level(center, out, fr);
        let u = fr.last();
        lemma_expand_prefix(g, center, out, fr.drop_last());
        if g.expands(center, u as int) {
            lemma_add_new_prefix(o, g.nbrs(u as int));
            lemma_add_new_tail(o, g.nbrs(u as int));
        }
        assert forall|j: int| out.len() <= j < e.len() implies exists|q: int|
            0 <= q < fr.len() && g.expands(center, fr[q] as int) && g.nbrs(fr[q] as int).contains(
                #[trigger] e[j],
            ) by {
            if j < o.len() {
                if g.expands(center, u as int) {
                    assert(e.subrange(0, o.len() as int)[j] == e[j]);
                }
                assert(e[j] == o[j]);
                let q = choose|q: int|
                    0 <= q < fr.drop_last().len() && g.expands(center, fr.drop_last()[q] as int)
                        && g.nbrs(fr.drop_last()[q] as int).contains(#[trigger] o[j]);
                assert(fr[q] == fr.drop_last()[q]);
            } else {
                assert(g.expands(center, u as int));
                assert(fr[fr.len() - 1] == u);
            }
        }
    }
}

/// The ego network does not expand through the root hub or through a node
/// of more than `EXPAND_DEGREE_CUTOFF` neighbours (other than the centre):
/// every node after the centre is a neighbour of an earlier node that is
/// the centre, or is not the root hub and has at most that many neighbours.
pub proof fn law_ego_expands_through_small_nodes(g: &QueryGraph, center: int, k: nat, j: int)
    requires
        0 < j < g.ego_state(center, k).0.len(),
    ensures
        exists|i: int|
            0 <= i < j && ({
                let u = #[trigger] g.ego_state(center, k).0[i];
                &&& (u == center || (u != g.root_v() && g.deg(u as int) <= EXPAND_DEGREE_CUTOFF))
                &&& g.nbrs(u as int).contains(g.ego_state(center, k).0[j])
            }),
    decreases k,
{
    if k == 0 {
        if 0 <= center < g.n() {
            assert(g.ego_state(center, 0).0.len() == 1);
        }
    } else {
        let (out, start) = g.ego_state(center, (k - 1) as nat);
        let w = g.ego_state(center, k).0;
        lemma_ego_prefix(g, center, (k - 1) as nat);
        let fr = out.subrange(start, out.len() as int);
        if j < out.len() {
            law_ego_expands_through_small_nodes(g, center, (k - 1) as nat, j);
            let i = choose|i: int|
                0 <= i < j && ({
                    let u = #[trigger] out[i];
                    &&& (u == center || (u != g.root_v() && g.deg(u as int) <= EXPAND_DEGREE_CUTOFF))
                    &&& g.nbrs(u as int).contains(out[j])
                });
            assert(w.subrange(0, out.len() as int)[i] == w[i]);
            assert(w.subrange(0, out.len() as int)[j] == w[j]);
        } else {
            lemma_expand_tail(g, center, out, fr);
            assert(w == g.expand_level(center, out, fr));
            let q = choose|q: int|
                0 <= q < fr.len() && g.expands(center, fr[q] as int) && g.nbrs(fr[q] as int).contains(
                    #[trigger] w[j],
                );
            let i = start + q;
            assert(fr[q] == out[i]);
            assert(w.subrange(0, out.len() as int)[i] == w[i]);
            assert(w[i] == out[i]);
        }
    }
}

proof fn lemma_add_new_distinct(out: Seq<u32>, ws: Seq<u32>)
    requires
        out.no_duplicates(),
    ensures
        add_new(out, ws).no_duplicates(),
    decreases ws.len(),
{
    if ws.len() > 0 {
        lemma_add_new_distinct(out, ws.drop_last());
        let o = add_new(out, ws.drop_last());
        if !o.contains(ws.last()) {
            assert forall|i: int, j: int| 0 <= i < j < o.push(ws.last()).len() implies o.push(ws.last())[i] != o.push(ws.last())[j] by {
                if j == o.len() {
                    assert(o[i] != ws.last()) by {
                        if o[i] == ws.last() {
                            assert(o.contains(ws.last()));
                        }
                    }
                }
            }
        }
    }
}

proof fn lemma_expand_distinct(g: &QueryGraph, center: int, out: Seq<u32>, fr: Seq<u32>)
    requires
        out.no_duplicates(),
    ensures
        g.expand_level(center, out, fr).no_duplicates(),
    decreases fr.len(),
{
    if fr.len() > 0 {
        lemma_expand_distinct(g, center, out, fr.drop_last());
        let o = g.expand_level(center, out, fr.drop_last());
        if g.expands(center, fr.last() as int) {
            lemma_add_new_distinct(o, g.nbrs(fr.last() as int));
        }
    }
}

/// The ego network lists each node once, the centre (when it is a node)
/// first.
pub proof fn law_ego_distinct(g: &QueryGraph, center: int, k: nat)
    ensures
        g.ego_state(center, k).0.no_duplicates(),
        0 <= center < g.n() ==> g.ego_state(center, k).0.len() >= 1 && g.ego_state(center, k).0[0]
            == center as u32,
    decreases k,
{
    if k > 0 {
        law_ego_distinct(g, center, (k - 1) as nat);
        let (out, start) = g.ego_state(center, (k - 1) as nat);
        lemma_expand_distinct(g, center, out, out.subrange(start, out.len() as int));
        lemma_ego_prefix(g, center, (k - 1) as nat);
        if 0 <= center < g.n() {
            assert(g.ego_state(center, k).0.subrange(0, out.len() as int)[0] == out[0]);
        }
    }
}

/// The local view of a hub lists each node once, the hub first.
pub proof fn law_local_view_distinct(g: &QueryGraph, hub: int)
    ensures
        g.local_view_of(hub).no_duplicates(),
        0 <= hub < g.n() ==> g.local_view_of(hub).len() >= 1 && g.local_view_of(hub)[0] == hub as u32,
{
    if 0 <= hub < g.n() {
        let ms = without(g.nbrs(hub), g.root_v());
        let a = add_new(seq![hub as u32], ms);
        lemma_add_new_distinct(seq![hub as u32], ms);
        lemma_add_new_distinct(a, g.second_ring(ms));
        lemma_add_new_prefix(seq![hub as u32], ms);
        lemma_add_new_prefix(a, g.second_ring(ms));
        assert(a.subrange(0, 1)[0] == hub as u32);
        assert(g.local_view_of(hub).subrange(0, a.len() as int)[0] == a[0]);
    }
}

} // verus!
