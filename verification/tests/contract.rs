use graph_core::contract::render;
use graph_core::graph::EdgeBreakdown;
use graph_core::links::Stats;
use graph_core::Report;

fn report(recovered: usize) -> Report {
    let mut stats = Stats::default();
    stats.inline_total = 10;
    stats.internal = 7;
    stats.note_links = 5;
    stats.section_links = 1;
    stats.asset_links = 1;
    stats.rewritten = 4;
    stats.recovered_basename = recovered;
    stats.recovered = vec!["a.md:1 -> x.png  =>  img/x.png".to_string()];
    stats.unresolved = vec!["b.md:2 -> nope".to_string()];
    let mut bd = EdgeBreakdown::default();
    bd.section_membership = 3;
    bd.root_to_section = 1;
    bd.intra_note = 2;
    bd.readme_to_section = 1;
    bd.total_unique = 7;
    Report {
        root: "/r".to_string(),
        stage: "/r/.cache/content".to_string(),
        out: "/r/site/generated".to_string(),
        base_path: "/estudy/".to_string(),
        files_scanned: 4,
        notes_scanned: 3,
        dirs_scanned: 1,
        excluded_dirs: vec![],
        notes_staged: 3,
        files_copied: 1,
        gh_blob_left: 0,
        stats,
        nodes: 5,
        section_count: 1,
        edges_unique: 7,
        csr_targets: 14,
        node_hubs: 2,
        breakdown: bd,
        sections: vec![("A".to_string(), 2)],
        seed: 20_260_917,
        iterations: 300,
        layout_seconds: "0.25".to_string(),
        determinism_pos: true,
        determinism_graph: true,
        determinism_search: false,
        pos_bounds: ("-1.000".to_string(), "1.000".to_string(), "-0.500".to_string(), "0.500".to_string()),
        root_sha256: "abc".to_string(),
        built_at: "2024-01-01T00:00:00Z".to_string(),
        titles_from_filename: 1,
        pos_bytes: 40,
        graph_bytes: 80,
        search_bytes: 300,
        meta_bytes: 200,
        contract_bytes: 0,
    }
}

#[test]
fn contract_document_figures() {
    let d = render(&report(0));
    assert!(d.starts_with("# site/generated 산출물 계약 (L1 content-pipeline)\n\n"));
    assert!(d.contains("- root: `/r`\n- stage: `/r/.cache/content`\n- out: `/r/site/generated`\n- base path: `/estudy/`\n\n"));
    assert!(d.contains("- 노드 수 `N = 5` = 노트 `3` + 섹션 허브 `1` + 루트 허브 `1`.\n"));
    assert!(d.contains("- node id `0..2`: 노트."));
    assert!(d.contains("- node id `3..3`: 톱레벨 섹션 허브(디렉터리 이름 오름차순). node id `4`: 루트 허브(가장 마지막).\n"));
    assert!(d.contains("섹션 소속 3 + 루트↔섹션 1 + 노트↔노트 2 + README→노트 0 + README 부모→자식 0 + README→섹션 1 = **7 무방향 엣지** (CSR 타깃 14).\n\n"));
    assert!(d.contains("- seed: `20260917` (splitmix64 로 초기 좌표 생성), iterations: `300` (고정).\n"));
    assert!(d.contains("- 실측 범위: x [-1.000, 1.000] / y [-0.500, 0.500].\n"));
    assert!(d.contains("- 레이아웃: 0.25 초 (2회 대조 동일). 그래프 재직렬화 대조 동일. search.json 재직렬화 대조 불일치.\n"));
    assert!(d.contains("**미해석 1 개**"));
    assert!(!d.contains("### 자동 복구한 링크"));
    assert!(d.ends_with("\n## 9. 섹션 목록\n\n- `A`: 2 개\n\n"));
}

#[test]
fn contract_document_recovered_links() {
    let d = render(&report(1));
    assert!(d.contains("\n### 자동 복구한 링크\n\n"));
    assert!(d.contains("- `a.md:1 -> x.png  =>  img/x.png`\n"));
    let mut empty = report(0);
    empty.notes_scanned = 0;
    empty.section_count = 0;
    empty.nodes = 1;
    empty.sections = vec![];
    let e = render(&empty);
    assert!(e.contains("- node id `0..0`: 노트."));
    assert!(e.contains("- node id `0..0`: 톱레벨 섹션 허브(디렉터리 이름 오름차순). node id `0`: 루트 허브(가장 마지막).\n"));
    assert!(e.ends_with("\n## 9. 섹션 목록\n\n\n"));
}
