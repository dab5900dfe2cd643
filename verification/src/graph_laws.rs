//! Laws of the note graph: every undirected edge joins two distinct nodes of
//! the graph, and the CSR stores each edge twice, so the targets are twice
//! as many as the edges.

use vstd::prelude::*;
use crate::graph::{
    all_cands, bullet_target, edge_fold, first_plain_readme, first_readme, flatten_u32, hub_of,
    intra_cands, is_csr, is_graph_of, links_in_range, membership_cands, neighbours, node_total,
    note_links_of, pop_ge, readme_direct_cands, readme_of, root_cands, section_names_view,
    section_set, tree_fold, Cand, Graph,
};
use crate::links::{KindView, LinkRecordView};
use crate::order::{lemma_seq_lt_irreflexive, sorted_u32};
use crate::strs::lemma_index_of;

verus! {

/// Every edge joins a lower node to a higher one, both below `n`.
pub open spec fn edges_below(edges: Set<(u32, u32)>, n: int) -> bool {
    forall|e: (u32, u32)| #[trigger] edges.contains(e) ==> e.0 < e.1 && e.1 < n
}

/// The neighbour counts of the nodes `0..n`, added up.
pub open spec fn degree_sum(edges: Set<(u32, u32)>, n: nat) -> nat
    decreases n,
{
    if n == 0 {
        0
    } else {
        degree_sum(edges, (n - 1) as nat) + neighbours(edges, (n - 1) as u32).len()
    }
}

proof fn lemma_neighbours_finite(edges: Set<(u32, u32)>, v: u32)
    requires
        edges.finite(),
    ensures
        neighbours(edges, v).finite(),
{
    let firsts = edges.map(|e: (u32, u32)| e.0);
    let seconds = edges.map(|e: (u32, u32)| e.1);
    edges.lemma_map_finite(|e: (u32, u32)| e.0);
    edges.lemma_map_finite(|e: (u32, u32)| e.1);
    let ends = firsts.union(seconds);
    vstd::set::axiom_set_union_finite(firsts, seconds);
    assert forall|u: u32| neighbours(edges, v).contains(u) implies ends.contains(u) by {
        if edges.contains((v, u)) {
            assert(seconds.contains(u)) by {
                assert((|e: (u32, u32)| e.1)((v, u)) == u);
            }
        } else {
            assert(firsts.contains(u)) by {
                assert((|e: (u32, u32)| e.0)((u, v)) == u);
            }
        }
    }
    assert(neighbours(edges, v).subset_of(ends));
    vstd::set_lib::lemma_set_subset_finite(ends, neighbours(edges, v));
}

proof fn lemma_degree_sum_empty(n: nat)
    ensures
        degree_sum(Set::<(u32, u32)>::empty(), n) == 0,
    decreases n,
{
    if n > 0 {
        lemma_degree_sum_empty((n - 1) as nat);
        assert(neighbours(Set::<(u32, u32)>::empty(), (n - 1) as u32) =~= Set::<u32>::empty());
    }
}

/// Removing edge `(a, b)` takes one neighbour from `a` and one from `b`.
proof fn lemma_degree_sum_remove(edges: Set<(u32, u32)>, a: u32, b: u32, n: nat)
    requires
        edges.finite(),
        edges.contains((a, b)),
        a < b,
        edges_below(edges, u32::MAX as int + 1),
        n <= u32::MAX as int + 1,
    ensures
        degree_sum(edges, n) == degree_sum(edges.remove((a, b)), n) + (if a < n {
            1nat
        } else {
            0
        }) + (if b < n {
            1nat
        } else {
            0
        }),
    decreases n,
{
    let rest = edges.remove((a, b));
    if n > 0 {
        lemma_degree_sum_remove(edges, a, b, (n - 1) as nat);
        let v = (n - 1) as u32;
        vstd::set::axiom_set_remove_finite(edges, (a, b));
        lemma_neighbours_finite(rest, v);
        let before = neighbours(edges, v);
        let after = neighbours(rest, v);
        assert(!edges.contains((b, a)));
        if v == a {
            assert(before =~= after.insert(b));
            assert(!after.contains(b));
            vstd::set::axiom_set_insert_len(after, b);
        } else if v == b {
            assert(before =~= after.insert(a));
            assert(!after.contains(a));
            vstd::set::axiom_set_insert_len(after, a);
        } else {
            assert(before =~= after);
        }
    }
}

/// Each undirected edge adds one to the neighbour count of each of its two
/// ends.
proof fn lemma_handshake(edges: Set<(u32, u32)>, n: nat)
    requires
        edges.finite(),
        edges_below(edges, n as int),
        n <= u32::MAX as int + 1,
    ensures
        degree_sum(edges, n) == 2 * edges.len(),
    decreases edges.len(),
{
    if edges.len() == 0 {
        assert(edges =~= Set::<(u32, u32)>::empty()) by {
            if exists|e: (u32, u32)| edges.contains(e) {
                let e = choose|e: (u32, u32)| edges.contains(e);
                vstd::set::axiom_set_remove_len(edges, e);
            }
        }
        lemma_degree_sum_empty(n);
    } else {
        let e = edges.choose();
        vstd::set::axiom_set_choose_len(edges);
        let rest = edges.remove(e);
        vstd::set::axiom_set_remove_finite(edges, e);
        vstd::set::axiom_set_remove_len(edges, e);
        lemma_handshake(rest, n);
        lemma_degree_sum_remove(edges, e.0, e.1, n);
    }
}

proof fn lemma_flatten_degree(adj: Seq<Seq<u32>>, edges: Set<(u32, u32)>, k: nat)
    requires
        k <= adj.len(),
        adj.len() <= u32::MAX as int + 1,
        edges.finite(),
        forall|v: int|
            0 <= v < adj.len() ==> sorted_u32(#[trigger] adj[v]) && adj[v].to_set() == neighbours(
                edges,
                v as u32,
            ),
    ensures
        flatten_u32(adj.take(k as int)).len() == degree_sum(edges, k),
    decreases k,
{
    if k == 0 {
        assert(adj.take(0) =~= Seq::<Seq<u32>>::empty());
    } else {
        lemma_flatten_degree(adj, edges, (k - 1) as nat);
        let s = adj[k - 1];
        assert(adj.take(k as int).drop_last() =~= adj.take(k - 1));
        assert(s.no_duplicates()) by {
            assert forall|i: int, j: int| 0 <= i < s.len() && 0 <= j < s.len() && i != j implies s[i] != s[j] by {
                if i < j {
                    assert(s[i] < s[j]);
                } else {
                    assert(s[j] < s[i]);
                }
            }
        }
        s.unique_seq_to_set();
    }
}

/// The CSR stores each undirected edge twice, once from each end: its
/// targets are exactly twice as many as the edges.
pub proof fn law_csr_stores_each_edge_twice(
    adj: Seq<Seq<u32>>,
    edges: Set<(u32, u32)>,
    node_count: nat,
    offsets: Seq<u32>,
    targets: Seq<u32>,
    degrees: Seq<u32>,
)
    requires
        is_csr(adj, edges, node_count, offsets, targets, degrees),
        edges.finite(),
        edges_below(edges, node_count as int),
        node_count <= u32::MAX as int + 1,
    ensures
        targets.len() == 2 * edges.len(),
{
    lemma_flatten_degree(adj, edges, node_count);
    assert(adj.take(node_count as int) =~= adj);
    lemma_handshake(edges, node_count);
}

/// The CSR is symmetric: node `u` lists `v` exactly when `v` lists `u`
/// (each undirected edge is stored from both ends).
pub proof fn law_csr_symmetric(
    adj: Seq<Seq<u32>>,
    edges: Set<(u32, u32)>,
    node_count: nat,
    offsets: Seq<u32>,
    targets: Seq<u32>,
    degrees: Seq<u32>,
    u: u32,
    v: u32,
)
    requires
        is_csr(adj, edges, node_count, offsets, targets, degrees),
        u < node_count,
        v < node_count,
    ensures
        adj[u as int].contains(v) <==> adj[v as int].contains(u),
{
    assert(adj[u as int].to_set() == neighbours(edges, u));
    assert(adj[v as int].to_set() == neighbours(edges, v));
    if adj[u as int].contains(v) {
        assert(adj[u as int].to_set().contains(v));
        assert(adj[v as int].to_set().contains(u));
    }
    if adj[v as int].contains(u) {
        assert(adj[v as int].to_set().contains(u));
        assert(adj[u as int].to_set().contains(v));
    }
}

proof fn lemma_flatten_prefix_len(adj: Seq<Seq<u32>>, k: int, j: int)
    requires
        0 <= k <= j <= adj.len(),
    ensures
        flatten_u32(adj.take(k)).len() <= flatten_u32(adj.take(j)).len(),
    decreases j - k,
{
    if j > k {
        lemma_flatten_prefix_len(adj, k, j - 1);
        assert(adj.take(j).drop_last() =~= adj.take(j - 1));
    }
}

/// In the CSR the degree of node `v` is `offsets[v+1] - offsets[v]`, the
/// offsets start at 0 and end at the number of targets (when the targets fit
/// the `u32` format).
pub proof fn law_degree_is_offset_gap(
    adj: Seq<Seq<u32>>,
    edges: Set<(u32, u32)>,
    node_count: nat,
    offsets: Seq<u32>,
    targets: Seq<u32>,
    degrees: Seq<u32>,
)
    requires
        is_csr(adj, edges, node_count, offsets, targets, degrees),
        targets.len() <= u32::MAX,
    ensures
        offsets.len() == node_count + 1,
        offsets[0] == 0,
        offsets[node_count as int] == targets.len(),
        forall|v: int| 0 <= v < node_count ==> #[trigger] degrees[v] == offsets[v + 1] - offsets[v],
{
    assert(adj.take(0) =~= Seq::<Seq<u32>>::empty());
    assert(adj.take(node_count as int) =~= adj);
    assert forall|v: int| 0 <= v < node_count implies #[trigger] degrees[v] == offsets[v + 1] - offsets[v] by {
        assert(adj.take(v + 1).drop_last() =~= adj.take(v));
        assert(adj.take(v + 1).last() == adj[v]);
        lemma_flatten_prefix_len(adj, v + 1, node_count as int);
    }
}

// ---------------------------------------------------------------------------
// The edges of a built graph stay inside it
// ---------------------------------------------------------------------------
/// Every candidate is a self-loop or joins two nodes below `n`.
pub open spec fn cands_below(cs: Seq<Cand>, n: int) -> bool {
    forall|k: int|
        0 <= k < cs.len() ==> (#[trigger] cs[k]).0 == cs[k].1 || (0 <= cs[k].0 < n && 0 <= cs[k].1
            < n)
}

proof fn lemma_fold_below(cs: Seq<Cand>, n: int)
    requires
        cands_below(cs, n),
        n <= u32::MAX as int + 1,
    ensures
        edges_below(edge_fold(cs).0, n),
        edge_fold(cs).0.finite(),
    decreases cs.len(),
{
    if cs.len() > 0 {
        assert(cands_below(cs.drop_last(), n)) by {
            assert forall|k: int| 0 <= k < cs.drop_last().len() implies (#[trigger] cs.drop_last()[k]).0
                == cs.drop_last()[k].1 || (0 <= cs.drop_last()[k].0 < n && 0 <= cs.drop_last()[k].1 < n) by {
                assert(cs.drop_last()[k] == cs[k]);
            }
        }
        lemma_fold_below(cs.drop_last(), n);
        let c = cs.last();
        assert(c == cs[cs.len() - 1]);
    }
}

proof fn lemma_below_concat(a: Seq<Cand>, b: Seq<Cand>, n: int)
    requires
        cands_below(a, n),
        cands_below(b, n),
    ensures
        cands_below(a + b, n),
{
    assert forall|k: int| 0 <= k < (a + b).len() implies (#[trigger] (a + b)[k]).0 == (a + b)[k].1 || (0
        <= (a + b)[k].0 < n && 0 <= (a + b)[k].1 < n) by {
        if k < a.len() {
            assert((a + b)[k] == a[k]);
        } else {
            assert((a + b)[k] == b[k - a.len()]);
        }
    }
}

proof fn lemma_hub_below(names: Seq<Seq<char>>, n: int, name: Seq<char>)
    ensures
        hub_of(names, n, name) matches Some(h) ==> n <= h < n + names.len(),
{
    lemma_index_of(names, name);
}

proof fn lemma_note_links_below(i: int, recs: Seq<LinkRecordView>, n: int)
    requires
        forall|k: int|
            0 <= k < recs.len() ==> ((#[trigger] recs[k]).kind matches KindView::Note(j) ==> (i == j || (
                0 <= i < n && j < n))),
    ensures
        cands_below(note_links_of(i, recs), n),
    decreases recs.len(),
{
    if recs.len() > 0 {
        assert forall|k: int| 0 <= k < recs.drop_last().len() implies ((#[trigger] recs.drop_last()[k]).kind matches KindView::Note(
            j,
        ) ==> (i == j || (0 <= i < n && j < n))) by {
            assert(recs.drop_last()[k] == recs[k]);
        }
        lemma_note_links_below(i, recs.drop_last(), n);
        let tail: Seq<Cand> = match recs.last().kind {
            KindView::Note(j) => seq![(i, j as int, 3)],
            _ => Seq::empty(),
        };
        assert(recs.last() == recs[recs.len() - 1]);
        lemma_below_concat(note_links_of(i, recs.drop_last()), tail, n);
    }
}

proof fn lemma_intra_below(records: Seq<Seq<LinkRecordView>>, n: int)
    requires
        links_in_range(records, n),
        n >= 0,
    ensures
        cands_below(intra_cands(records), n),
    decreases records.len(),
{
    if records.len() > 0 {
        let last = records.len() - 1;
        assert(links_in_range(records.drop_last(), n)) by {
            assert forall|i: int, k: int|
                0 <= i < records.drop_last().len() && 0 <= k < records.drop_last()[i].len() implies ((
                #[trigger] records.drop_last()[i][k]).kind matches KindView::Note(j) ==> (i == j || (i < n
                && j < n))) by {
                assert(records.drop_last()[i] == records[i]);
                assert(records[i][k] == records.drop_last()[i][k]);
            }
        }
        lemma_intra_below(records.drop_last(), n);
        assert forall|k: int| 0 <= k < records.last().len() implies ((#[trigger] records.last()[k]).kind matches KindView::Note(
            j,
        ) ==> (last == j || (0 <= last < n && j < n))) by {
            assert(records.last()[k] == records[last][k]);
        }
        lemma_note_links_below(last, records.last(), n);
        lemma_below_concat(intra_cands(records.drop_last()), note_links_of(last, records.last()), n);
    }
}

proof fn lemma_direct_below(rd: int, recs: Seq<LinkRecordView>, names: Seq<Seq<char>>, n: int, big: int)
    requires
        0 <= rd < big,
        0 <= n,
        n + names.len() <= big,
        forall|k: int|
            0 <= k < recs.len() ==> ((#[trigger] recs[k]).kind matches KindView::Note(j) ==> (rd == j || j
                < big)),
    ensures
        cands_below(readme_direct_cands(rd, recs, names, n), big),
    decreases recs.len(),
{
    if recs.len() > 0 {
        assert forall|k: int| 0 <= k < recs.drop_last().len() implies ((#[trigger] recs.drop_last()[k]).kind matches KindView::Note(
            j,
        ) ==> (rd == j || j < big)) by {
            assert(recs.drop_last()[k] == recs[k]);
        }
        lemma_direct_below(rd, recs.drop_last(), names, n, big);
        assert(recs.last() == recs[recs.len() - 1]);
        let tail: Seq<Cand> = match recs.last().kind {
            KindView::Note(j) => seq![(rd, j as int, 4)],
            KindView::Section(name) => match hub_of(names, n, name) {
                Some(h) => seq![(rd, h, 6)],
                None => Seq::empty(),
            },
            _ => Seq::empty(),
        };
        if let KindView::Section(name) = recs.last().kind {
            lemma_hub_below(names, n, name);
        }
        assert(cands_below(tail, big));
        lemma_below_concat(readme_direct_cands(rd, recs.drop_last(), names, n), tail, big);
    }
}

proof fn lemma_pop_ge_sub(st: Seq<(nat, Option<int>)>, indent: nat)
    ensures
        pop_ge(st, indent).len() <= st.len(),
        forall|k: int| 0 <= k < pop_ge(st, indent).len() ==> #[trigger] pop_ge(st, indent)[k] == st[k],
    decreases st.len(),
{
    if st.len() > 0 && st.last().0 >= indent {
        lemma_pop_ge_sub(st.drop_last(), indent);
        assert forall|k: int| 0 <= k < pop_ge(st, indent).len() implies #[trigger] pop_ge(st, indent)[k] == st[k] by {
            assert(pop_ge(st, indent)[k] == st.drop_last()[k]);
        }
    }
}

/// Open items of the README lists all point below `big`, and so do the
/// parent-child candidates.
proof fn lemma_tree_below(rd: int, recs: Seq<LinkRecordView>, names: Seq<Seq<char>>, n: int, big: int)
    requires
        0 <= rd < big,
        0 <= n,
        n + names.len() <= big,
        forall|k: int|
            0 <= k < recs.len() ==> ((#[trigger] recs[k]).kind matches KindView::Note(j) ==> (rd == j || (0 <= j && j
                < big))),
    ensures
        cands_below(tree_fold(recs, names, n).1, big),
        forall|k: int|
            0 <= k < tree_fold(recs, names, n).0.len() ==> ((#[trigger] tree_fold(recs, names, n).0[k]).1 matches Some(t)
                ==> 0 <= t < big),
    decreases recs.len(),
{
    if recs.len() > 0 {
        assert forall|k: int| 0 <= k < recs.drop_last().len() implies ((#[trigger] recs.drop_last()[k]).kind matches KindView::Note(
            j,
        ) ==> (rd == j || (0 <= j && j < big))) by {
            assert(recs.drop_last()[k] == recs[k]);
        }
        lemma_tree_below(rd, recs.drop_last(), names, n, big);
        let (st, cs) = tree_fold(recs.drop_last(), names, n);
        let r = recs.last();
        assert(r == recs[recs.len() - 1]);
        if r.bullet {
            let target = bullet_target(r, names, n);
            if let KindView::Section(name) = r.kind {
                lemma_hub_below(names, n, name);
            }
            assert(target matches Some(t) ==> 0 <= t < big);
            let st2 = pop_ge(st, r.indent);
            lemma_pop_ge_sub(st, r.indent);
            let parent = if st2.len() > 0 {
                st2.last().1
            } else {
                None
            };
            if st2.len() > 0 {
                assert(st2.last() == st[st2.len() - 1]);
            }
            assert(parent matches Some(p) ==> 0 <= p < big);
            let inherit = match target {
                Some(t) => Some(t),
                None => parent,
            };
            let st3 = st2.push((r.indent, inherit));
            assert forall|k: int| 0 <= k < st3.len() implies ((#[trigger] st3[k]).1 matches Some(t) ==> 0 <= t < big) by {
                if k < st2.len() {
                    assert(st3[k] == st[k]);
                }
            }
            match (parent, target) {
                (Some(p), Some(t)) => {
                    assert forall|k: int| 0 <= k < cs.push((p, t, 5)).len() implies (#[trigger] cs.push((p, t, 5))[k]).0
                        == cs.push((p, t, 5))[k].1 || (0 <= cs.push((p, t, 5))[k].0 < big && 0 <= cs.push((p, t, 5))[k].1 < big) by {
                        if k < cs.len() {
                            assert(cs.push((p, t, 5))[k] == cs[k]);
                        }
                    }
                },
                _ => {},
            }
        }
    }
}

proof fn lemma_readme_bound(notes: Seq<Seq<char>>)
    ensures
        first_plain_readme(notes) matches Some(i) ==> 0 <= i < notes.len(),
        first_readme(notes) matches Some(i) ==> 0 <= i < notes.len(),
        readme_of(notes) matches Some(i) ==> 0 <= i < notes.len(),
    decreases notes.len(),
{
    if notes.len() > 0 {
        lemma_readme_bound(notes.drop_last());
    }
}

/// The edges of a built graph join two distinct nodes of the graph, and its
/// CSR stores each of them twice: the targets are twice as many as the
/// edges (`meta.json`'s `edges` is that target count).
pub proof fn law_graph_stores_each_edge_twice(
    g: Graph,
    notes: Seq<Seq<char>>,
    records: Seq<Seq<LinkRecordView>>,
)
    requires
        is_graph_of(g, notes, records),
        notes.len() + section_set(notes).len() <= u32::MAX,
        links_in_range(records, node_total(notes)),
        readme_of(notes) matches Some(rd) ==> rd < records.len(),
    ensures
        edges_below(g.edges@.to_set(), g.node_count as int),
        g.targets@.len() == 2 * g.edges@.len(),
{
    let names = section_names_view(g.sections@);
    let n = notes.len() as int;
    let big = g.node_count as int;
    // The section names are distinct, so there are as many as sections.
    assert(names.no_duplicates()) by {
        assert forall|i: int, j: int| 0 <= i < names.len() && 0 <= j < names.len() && i != j implies names[i] != names[j] by {
            if i < j {
                assert(crate::order::seq_lt(names[i], names[j]));
            } else {
                assert(crate::order::seq_lt(names[j], names[i]));
            }
            lemma_seq_lt_irreflexive(names[i]);
        }
    }
    names.unique_seq_to_set();
    assert(big == node_total(notes));
    // Every candidate is a self-loop or stays below the node count.
    assert(cands_below(membership_cands(notes, names), big)) by {
        assert forall|k: int| 0 <= k < membership_cands(notes, names).len() implies (#[trigger] membership_cands(notes, names)[k]).0
            == membership_cands(notes, names)[k].1 || (0 <= membership_cands(notes, names)[k].0 < big && 0
            <= membership_cands(notes, names)[k].1 < big) by {
            lemma_hub_below(names, n, crate::graph::top_section_of(notes[k]));
        }
    }
    assert(cands_below(root_cands(n, names.len()), big));
    lemma_intra_below(records, big);
    lemma_readme_bound(notes);
    let head = membership_cands(notes, names) + root_cands(n, names.len());
    lemma_below_concat(membership_cands(notes, names), root_cands(n, names.len()), big);
    lemma_below_concat(head, intra_cands(records), big);
    match readme_of(notes) {
        Some(rd) => {
            let recs = records[rd];
            assert forall|k: int| 0 <= k < recs.len() implies ((#[trigger] recs[k]).kind matches KindView::Note(j) ==> (rd == j
                || (0 <= j && j < big))) by {
                assert(recs[k] == records[rd][k]);
            }
            lemma_direct_below(rd, recs, names, n, big);
            lemma_tree_below(rd, recs, names, n, big);
            lemma_below_concat(readme_direct_cands(rd, recs, names, n), tree_fold(recs, names, n).1, big);
            lemma_below_concat(
                head + intra_cands(records),
                readme_direct_cands(rd, recs, names, n) + tree_fold(recs, names, n).1,
                big,
            );
            assert(all_cands(notes, records, names) =~= head + intra_cands(records) + (readme_direct_cands(rd, recs, names, n) + tree_fold(recs, names, n).1));
        },
        None => {
            assert(all_cands(notes, records, names) =~= head + intra_cands(records));
        },
    }
    let eset = edge_fold(all_cands(notes, records, names)).0;
    lemma_fold_below(all_cands(notes, records, names), big);
    let adj = choose|adj: Seq<Seq<u32>>|
        #[trigger] is_csr(adj, eset, g.node_count as nat, g.offsets@, g.targets@, g.degrees@);
    law_csr_stores_each_edge_twice(adj, eset, g.node_count as nat, g.offsets@, g.targets@, g.degrees@);
    // The edge list has no duplicates, so it is as long as its set.
    assert(g.edges@.no_duplicates()) by {
        assert forall|i: int, j: int| 0 <= i < g.edges@.len() && 0 <= j < g.edges@.len() && i != j implies g.edges@[i] != g.edges@[j] by {
            if i < j {
                assert(crate::links::pair_lt(g.edges@[i], g.edges@[j]));
            } else {
                assert(crate::links::pair_lt(g.edges@[j], g.edges@[i]));
            }
        }
    }
    g.edges@.unique_seq_to_set();
}


// ---------------------------------------------------------------------------
// The README's nested lists
// ---------------------------------------------------------------------------
/// The items of `ix` (indices into `recs`) left once those indented at
/// least `d` are taken off the end.
spec fn pop_idx(ix: Seq<int>, recs: Seq<LinkRecordView>, d: nat) -> Seq<int>
    decreases ix.len(),
{
    if ix.len() > 0 && recs[ix.last()].indent >= d {
        pop_idx(ix.drop_last(), recs, d)
    } else {
        ix
    }
}

/// The indices of the open list items after reading `recs`.
spec fn tree_idx(recs: Seq<LinkRecordView>) -> Seq<int>
    decreases recs.len(),
{
    if recs.len() == 0 {
        Seq::empty()
    } else {
        let ix = tree_idx(recs.drop_last());
        if !recs.last().bullet {
            ix
        } else {
            pop_idx(ix, recs, recs.last().indent).push(recs.len() - 1)
        }
    }
}

/// Bullet `m` is still open after `k` records: no later bullet before `k` is
/// indented as little or less.
spec fn visible(recs: Seq<LinkRecordView>, m: int, k: int) -> bool {
    forall|x: int| m < x < k && (#[trigger] recs[x]).bullet ==> recs[x].indent > recs[m].indent
}

spec fn stack_agrees(
    st: Seq<(nat, Option<int>)>,
    ix: Seq<int>,
    recs: Seq<LinkRecordView>,
    names: Seq<Seq<char>>,
    n: int,
    k: int,
) -> bool {
    &&& st.len() == ix.len()
    &&& forall|q: int|
        0 <= q < ix.len() ==> {
            &&& 0 <= #[trigger] ix[q] < k
            &&& recs[ix[q]].bullet
            &&& st[q].0 == recs[ix[q]].indent
            &&& (bullet_target(recs[ix[q]], names, n) matches Some(t) ==> st[q].1 == Some(t))
        }
    &&& forall|q1: int, q2: int|
        0 <= q1 < q2 < ix.len() ==> #[trigger] ix[q1] < #[trigger] ix[q2] && recs[ix[q1]].indent
            < recs[ix[q2]].indent
}

spec fn stack_matches(
    st: Seq<(nat, Option<int>)>,
    ix: Seq<int>,
    recs: Seq<LinkRecordView>,
    names: Seq<Seq<char>>,
    n: int,
    k: int,
) -> bool {
    &&& stack_agrees(st, ix, recs, names, n, k)
    &&& forall|m: int| 0 <= m < k && recs[m].bullet ==> (ix.contains(m) <==> visible(recs, m, k))
}

proof fn lemma_pop_pair(
    st: Seq<(nat, Option<int>)>,
    ix: Seq<int>,
    recs: Seq<LinkRecordView>,
    names: Seq<Seq<char>>,
    n: int,
    k: int,
    d: nat,
)
    requires
        stack_agrees(st, ix, recs, names, n, k),
    ensures
        pop_idx(ix, recs, d).len() <= ix.len(),
        pop_ge(st, d).len() == pop_idx(ix, recs, d).len(),
        pop_ge(st, d) == st.take(pop_ge(st, d).len() as int),
        pop_idx(ix, recs, d) == ix.take(pop_idx(ix, recs, d).len() as int),
        forall|q: int| 0 <= q < pop_idx(ix, recs, d).len() ==> recs[#[trigger] ix[q]].indent < d,
        forall|q: int|
            pop_idx(ix, recs, d).len() <= q < ix.len() ==> recs[#[trigger] ix[q]].indent >= d,
    decreases ix.len(),
{
    if ix.len() > 0 && recs[ix.last()].indent >= d {
        let st1 = st.drop_last();
        let ix1 = ix.drop_last();
        assert(stack_agrees(st1, ix1, recs, names, n, k)) by {
            assert forall|q: int| 0 <= q < ix1.len() implies {
                &&& 0 <= #[trigger] ix1[q] < k
                &&& recs[ix1[q]].bullet
                &&& st1[q].0 == recs[ix1[q]].indent
                &&& (bullet_target(recs[ix1[q]], names, n) matches Some(t) ==> st1[q].1 == Some(t))
            } by {
                assert(ix1[q] == ix[q]);
            }
            assert forall|q1: int, q2: int| 0 <= q1 < q2 < ix1.len() implies #[trigger] ix1[q1]
                < #[trigger] ix1[q2] && recs[ix1[q1]].indent < recs[ix1[q2]].indent by {
                assert(ix1[q1] == ix[q1] && ix1[q2] == ix[q2]);
            }
        }
        lemma_pop_pair(st1, ix1, recs, names, n, k, d);
        assert(st[st.len() - 1].0 == recs[ix[ix.len() - 1]].indent);
        assert(pop_ge(st, d) == pop_ge(st1, d));
        assert(st1.take(pop_ge(st1, d).len() as int) =~= st.take(pop_ge(st1, d).len() as int));
        assert(ix1.take(pop_idx(ix1, recs, d).len() as int) =~= ix.take(pop_idx(ix1, recs, d).len() as int));
        assert forall|q: int| pop_idx(ix, recs, d).len() <= q < ix.len() implies recs[#[trigger] ix[q]].indent >= d by {
            if q < ix.len() - 1 {
                assert(ix1[q] == ix[q]);
            }
        }
        assert forall|q: int| 0 <= q < pop_idx(ix, recs, d).len() implies recs[#[trigger] ix[q]].indent < d by {
            assert(ix1[q] == ix[q]);
        }
    } else {
        if ix.len() > 0 {
            assert(st[st.len() - 1].0 == recs[ix[ix.len() - 1]].indent);
            assert forall|q: int| 0 <= q < ix.len() implies recs[#[trigger] ix[q]].indent < d by {
                if q < ix.len() - 1 {
                    assert(ix[q] < ix[ix.len() - 1]);
                }
            }
        }
        assert(st.take(st.len() as int) =~= st);
        assert(ix.take(ix.len() as int) =~= ix);
    }
}

proof fn lemma_tree_stack(recs: Seq<LinkRecordView>, names: Seq<Seq<char>>, n: int)
    ensures
        stack_matches(tree_fold(recs, names, n).0, tree_idx(recs), recs, names, n, recs.len() as int),
    decreases recs.len(),
{
    if recs.len() > 0 {
        let prev = recs.drop_last();
        let k = prev.len() as int;
        lemma_tree_stack(prev, names, n);
        let st = tree_fold(prev, names, n).0;
        let ix = tree_idx(prev);
        let r = recs.last();
        assert forall|x: int| 0 <= x < k implies #[trigger] recs[x] == prev[x] by {}
        // the old stack, read against the longer record list
        assert(stack_agrees(st, ix, recs, names, n, k)) by {
            assert forall|q: int| 0 <= q < ix.len() implies {
                &&& 0 <= #[trigger] ix[q] < k
                &&& recs[ix[q]].bullet
                &&& st[q].0 == recs[ix[q]].indent
                &&& (bullet_target(recs[ix[q]], names, n) matches Some(t) ==> st[q].1 == Some(t))
            } by {
                assert(recs[ix[q]] == prev[ix[q]]);
            }
            assert forall|q1: int, q2: int| 0 <= q1 < q2 < ix.len() implies #[trigger] ix[q1]
                < #[trigger] ix[q2] && recs[ix[q1]].indent < recs[ix[q2]].indent by {
                assert(recs[ix[q1]] == prev[ix[q1]]);
                assert(recs[ix[q2]] == prev[ix[q2]]);
            }
        }
        assert forall|m: int| 0 <= m < k && recs[m].bullet implies (ix.contains(m) <==> visible(
            recs,
            m,
            k,
        )) by {
            assert(recs[m] == prev[m]);
            assert(visible(recs, m, k) == visible(prev, m, k)) by {
                assert forall|x: int| m < x < k implies #[trigger] recs[x] == prev[x] by {}
            }
        }
        let st1 = tree_fold(recs, names, n).0;
        let ix1 = tree_idx(recs);
        if !r.bullet {
            assert(st1 == st);
            assert(ix1 == ix);
            assert forall|m: int| 0 <= m < k + 1 && recs[m].bullet implies (ix1.contains(m)
                <==> visible(recs, m, k + 1)) by {
                assert(visible(recs, m, k + 1) == visible(recs, m, k)) by {
                    assert forall|x: int| m < x < k + 1 && (#[trigger] recs[x]).bullet implies x < k by {}
                }
            }
        } else {
            let d = r.indent;
            lemma_pop_pair(st, ix, recs, names, n, k, d);
            let l = pop_idx(ix, recs, d).len() as int;
            let px = ix.take(l);
            assert(ix1 == px.push(k));
            assert(st1.len() == l + 1);
            assert(stack_agrees(st1, ix1, recs, names, n, k + 1)) by {
                assert forall|q: int| 0 <= q < ix1.len() implies {
                    &&& 0 <= #[trigger] ix1[q] < k + 1
                    &&& recs[ix1[q]].bullet
                    &&& st1[q].0 == recs[ix1[q]].indent
                    &&& (bullet_target(recs[ix1[q]], names, n) matches Some(t) ==> st1[q].1 == Some(t))
                } by {
                    if q < l {
                        assert(ix1[q] == ix[q]);
                        assert(st1[q] == st[q]);
                    } else {
                        assert(ix1[q] == k);
                        assert(recs[k] == r);
                    }
                }
                assert forall|q1: int, q2: int| 0 <= q1 < q2 < ix1.len() implies #[trigger] ix1[q1]
                    < #[trigger] ix1[q2] && recs[ix1[q1]].indent < recs[ix1[q2]].indent by {
                    assert(ix1[q1] == ix[q1]);
                    if q2 < l {
                        assert(ix1[q2] == ix[q2]);
                    } else {
                        assert(ix1[q2] == k);
                        assert(recs[ix[q1]].indent < d);
                    }
                }
            }
            assert forall|m: int| 0 <= m < k + 1 && recs[m].bullet implies (ix1.contains(m)
                <==> visible(recs, m, k + 1)) by {
                if m == k {
                    assert(ix1[l] == k);
                } else {
                    if ix1.contains(m) {
                        let q = choose|q: int| 0 <= q < ix1.len() && ix1[q] == m;
                        if q == l {
                            assert(ix1[q] == k);
                        }
                        assert(ix[q] == m);
                        assert(ix.contains(m));
                        assert(recs[ix[q]].indent < d);
                        assert forall|x: int| m < x < k + 1 && (#[trigger] recs[x]).bullet implies recs[x].indent
                            > recs[m].indent by {
                            if x < k {
                                assert(visible(recs, m, k));
                            }
                        }
                    }
                    if visible(recs, m, k + 1) {
                        assert forall|x: int| m < x < k && (#[trigger] recs[x]).bullet implies recs[x].indent
                            > recs[m].indent by {
                            assert(visible(recs, m, k + 1));
                        }
                        assert(visible(recs, m, k));
                        assert(ix.contains(m));
                        let q = choose|q: int| 0 <= q < ix.len() && ix[q] == m;
                        assert(recs[k].indent > recs[m].indent);
                        if q >= l {
                            assert(recs[ix[q]].indent >= d);
                        }
                        assert(ix1[q] == m);
                    }
                }
            }
        }
    }
}

proof fn lemma_visible_after(recs: Seq<LinkRecordView>, m: int, k: int, d: nat)
    requires
        0 <= m < k,
        recs[m].bullet,
        recs[m].indent < d,
    ensures
        exists|m2: int|
            m <= m2 < k && (#[trigger] recs[m2]).bullet && recs[m2].indent < d && visible(recs, m2, k),
    decreases k - m,
{
    if !visible(recs, m, k) {
        let x = choose|x: int|
            m < x < k && (#[trigger] recs[x]).bullet && !(recs[x].indent > recs[m].indent);
        lemma_visible_after(recs, x, k, d);
    } else {
        assert(recs[m].bullet);
    }
}

/// The open item that a new list item at indent `d` hangs under is the last
/// bullet item indented strictly less than `d`.
proof fn lemma_parent_is_nearest(prev: Seq<LinkRecordView>, names: Seq<Seq<char>>, n: int, d: nat)
    requires
        pop_ge(tree_fold(prev, names, n).0, d).len() > 0,
    ensures
        exists|j: int|
            0 <= j < prev.len() && (#[trigger] prev[j]).bullet && prev[j].indent < d && (forall|x: int|
                j < x < prev.len() && (#[trigger] prev[x]).bullet ==> prev[x].indent >= d) && (
            bullet_target(prev[j], names, n) matches Some(t) ==> pop_ge(
                tree_fold(prev, names, n).0,
                d,
            ).last().1 == Some(t)),
{
    let k = prev.len() as int;
    let st = tree_fold(prev, names, n).0;
    let ix = tree_idx(prev);
    lemma_tree_stack(prev, names, n);
    lemma_pop_pair(st, ix, prev, names, n, k, d);
    let st2 = pop_ge(st, d);
    let l = st2.len() as int;
    let j = ix[l - 1];
    assert(st2[l - 1] == st[l - 1]);
    assert forall|x: int| j < x < k && (#[trigger] prev[x]).bullet implies prev[x].indent >= d by {
        if prev[x].indent < d {
            lemma_visible_after(prev, x, k, d);
            let m2 = choose|m2: int|
                x <= m2 < k && (#[trigger] prev[m2]).bullet && prev[m2].indent < d && visible(
                    prev,
                    m2,
                    k,
                );
            assert(ix.contains(m2));
            let q2 = choose|q2: int| 0 <= q2 < ix.len() && ix[q2] == m2;
            if q2 >= l {
                assert(prev[ix[q2]].indent >= d);
            }
            if q2 < l - 1 {
                assert(ix[q2] < ix[l - 1]);
            }
        }
    }
    assert(prev[j].bullet);
}

/// The parent in the README's nested lists is the nearest shallower item:
/// every parent-child edge (rule 5) joins list item `i` to the last bullet
/// item `j` above it indented strictly less (every bullet item in between
/// is indented at least as deep as `i`), so two items at the same indent
/// are never parent and child. The edge runs from `j`'s target (when `j`
/// points somewhere) to `i`'s.
pub proof fn law_readme_parent_is_nearest_shallower(
    recs: Seq<LinkRecordView>,
    names: Seq<Seq<char>>,
    n: int,
    q: int,
)
    requires
        0 <= q < tree_fold(recs, names, n).1.len(),
    ensures
        exists|i: int, j: int|
            0 <= j < i < recs.len() && ({
                let c = tree_fold(recs, names, n).1[q];
                &&& (#[trigger] recs[i]).bullet
                &&& (#[trigger] recs[j]).bullet
                &&& recs[j].indent < recs[i].indent
                &&& (forall|x: int|
                    j < x < i && (#[trigger] recs[x]).bullet ==> recs[x].indent >= recs[i].indent)
                &&& bullet_target(recs[i], names, n) == Some(c.1)
                &&& c.2 == 5
                &&& (bullet_target(recs[j], names, n) matches Some(t) ==> c.0 == t)
            }),
    decreases recs.len(),
{
    let prev = recs.drop_last();
    let k = prev.len() as int;
    let (st, cs) = tree_fold(prev, names, n);
    let cs1 = tree_fold(recs, names, n).1;
    assert forall|x: int| 0 <= x < k implies #[trigger] recs[x] == prev[x] by {}
    if q < cs.len() {
        assert(cs1[q] == cs[q]);
        law_readme_parent_is_nearest_shallower(prev, names, n, q);
        let (i, j) = choose|i: int, j: int|
            0 <= j < i < prev.len() && ({
                let c = cs[q];
                &&& (#[trigger] prev[i]).bullet
                &&& (#[trigger] prev[j]).bullet
                &&& prev[j].indent < prev[i].indent
                &&& (forall|x: int|
                    j < x < i && (#[trigger] prev[x]).bullet ==> prev[x].indent >= prev[i].indent)
                &&& bullet_target(prev[i], names, n) == Some(c.1)
                &&& c.2 == 5
                &&& (bullet_target(prev[j], names, n) matches Some(t) ==> c.0 == t)
            });
        assert(recs[i] == prev[i] && recs[j] == prev[j]);
    } else {
        let r = recs.last();
        let d = r.indent;
        assert(recs[k] == r);
        lemma_parent_is_nearest(prev, names, n, d);
        let j = choose|j: int|
            0 <= j < prev.len() && (#[trigger] prev[j]).bullet && prev[j].indent < d && (forall|x: int|
                j < x < prev.len() && (#[trigger] prev[x]).bullet ==> prev[x].indent >= d) && (
            bullet_target(prev[j], names, n) matches Some(t) ==> pop_ge(st, d).last().1 == Some(t));
        assert(recs[j] == prev[j]);
    }
}

} // verus!
