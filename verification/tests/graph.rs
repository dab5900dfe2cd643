use graph_core::graph::{build, top_section, EdgeBreakdown};
use graph_core::links::{Kind, LinkRecord};

fn rec(line: usize, indent: usize, bullet: bool, kind: Kind) -> LinkRecord {
    LinkRecord { line, indent, bullet, raw: String::new(), kind }
}

#[test]
fn graph_sections() {
    assert_eq!(top_section("A/b/c.md"), "A");
    assert_eq!(top_section("README.md"), "");
    let z = EdgeBreakdown::default();
    assert_eq!(z.total_unique, 0);
}

#[test]
fn graph_small_build() {
    let notes: Vec<String> = ["A/x.md", "A/y.md", "README.md"].iter().map(|s| s.to_string()).collect();
    let records = vec![
        vec![rec(1, 0, false, Kind::Note(1))],
        vec![],
        vec![
            rec(1, 0, true, Kind::Section("A".to_string())),
            rec(2, 2, true, Kind::Note(0)),
        ],
    ];
    let g = build(&notes, &records);
    assert_eq!(g.note_count, 3);
    assert_eq!(g.node_count, 5);
    assert_eq!(g.root_hub, 4);
    assert_eq!(g.sections, vec![("A".to_string(), 2)]);
    assert_eq!(g.section_hubs, vec![("A".to_string(), 3)]);
    assert_eq!(g.edges, vec![(0, 1), (0, 2), (0, 3), (1, 3), (2, 3), (2, 4), (3, 4)]);
    assert_eq!(g.offsets, vec![0, 3, 5, 8, 12, 14]);
    assert_eq!(g.targets, vec![1, 2, 3, 0, 3, 0, 3, 4, 0, 1, 2, 4, 2, 3]);
    assert_eq!(g.degrees, vec![3, 2, 3, 4, 2]);
    assert_eq!(g.breakdown.section_membership, 3);
    assert_eq!(g.breakdown.root_to_section, 1);
    assert_eq!(g.breakdown.intra_note, 2);
    assert_eq!(g.breakdown.readme_direct, 0);
    assert_eq!(g.breakdown.readme_parent_child, 0);
    assert_eq!(g.breakdown.readme_to_section, 1);
    assert_eq!(g.breakdown.total_unique, 7);
    assert_eq!(g.targets.len(), 2 * g.edges.len());
    let bytes = g.csr_bytes();
    assert_eq!(bytes.len(), 4 * (6 + 14));
    assert_eq!(&bytes[0..8], &[0, 0, 0, 0, 3, 0, 0, 0]);
}

#[test]
fn graph_readme_hierarchy() {
    let notes: Vec<String> = ["A/x.md", "B/y.md", "README.md"].iter().map(|s| s.to_string()).collect();
    let records = vec![
        vec![],
        vec![],
        vec![
            rec(1, 0, true, Kind::Note(0)),
            rec(2, 2, true, Kind::External),
            rec(3, 4, true, Kind::Note(1)),
        ],
    ];
    let g = build(&notes, &records);
    // notes 0,1,2; hubs A=3, B=4; root 5
    assert!(g.edges.contains(&(0, 1)));
    assert_eq!(g.breakdown.readme_parent_child, 1);
    assert_eq!(g.breakdown.intra_note, 2);
}

#[test]
fn graph_csr_is_symmetric() {
    let notes: Vec<String> = ["A/x.md", "A/y.md", "B/z.md", "README.md"].iter().map(|s| s.to_string()).collect();
    let records = vec![
        vec![rec(1, 0, false, Kind::Note(2))],
        vec![rec(1, 0, false, Kind::Note(0))],
        vec![],
        vec![rec(1, 0, true, Kind::Section("B".to_string()))],
    ];
    let g = build(&notes, &records);
    let nbrs = |v: usize| &g.targets[g.offsets[v] as usize..g.offsets[v + 1] as usize];
    for u in 0..g.node_count {
        for &v in nbrs(u) {
            assert!(nbrs(v as usize).contains(&(u as u32)), "{} lists {} but not back", u, v);
        }
    }
}
