use graph_core::query::{to_choseong, QueryGraph};

fn small(root: u32) -> QueryGraph {
    let csr = [0u32, 1, 3, 4, 1, 0, 2, 1];
    QueryGraph::load(6, &csr, "Alpha\nBeta Gamma\n정규화", "", root).expect("valid graph")
}

#[test]
fn choseong_of_syllables() {
    assert_eq!(to_choseong("정규화"), "ㅈㄱㅎ");
    assert_eq!(to_choseong("ORM의 개념"), "ORMㅇ ㄱㄴ");
}

#[test]
fn query_load_rejects() {
    let csr = [0u32, 1, 3, 4, 1, 0, 2, 1];
    assert!(QueryGraph::load(5, &csr, "a\nb\nc", "", 0).is_none());
    assert!(QueryGraph::load(0, &csr, "", "", 0).is_none());
    assert!(QueryGraph::load(6, &csr, "a\nb", "", 0).is_none());
    assert!(QueryGraph::load(6, &csr[..7], "a\nb\nc", "", 0).is_none());
    assert!(QueryGraph::load(6, &[1u32, 1, 3, 4, 1, 0, 2, 1], "a\nb\nc", "", 0).is_none());
    assert!(QueryGraph::load(6, &[0u32, 2, 1, 4, 1, 0, 2, 1], "a\nb\nc", "", 0).is_none());
    assert!(QueryGraph::load(6, &[0u32, 1, 3, 4, 1, 0, 3, 1], "a\nb\nc", "", 0).is_none());
    assert!(QueryGraph::load(6, &csr, "a\nb\nc", "", 0).is_some());
}

#[test]
fn query_stats_neighbors() {
    let g = small(2);
    assert_eq!(g.stats(), vec![3, 4, 2]);
    assert_eq!(g.neighbors(1), vec![0, 2]);
    assert_eq!(g.neighbors(0), vec![1]);
    assert_eq!(g.neighbors(5), Vec::<u32>::new());
}

#[test]
fn query_search() {
    let g = small(2);
    assert_eq!(g.search("beta"), vec![1]);
    assert_eq!(g.search("  GAMMA "), vec![1]);
    assert_eq!(g.search("ㅈㄱㅎ"), vec![2]);
    assert_eq!(g.search("정규"), vec![2]);
    assert_eq!(g.search("a"), vec![0, 1]);
    assert_eq!(g.search("   "), Vec::<u32>::new());
    assert_eq!(g.search("alpha beta"), Vec::<u32>::new());
    assert_eq!(g.search("ga be"), vec![1]);
    assert_eq!(g.search("zzz"), Vec::<u32>::new());
}

#[test]
fn query_search_consonants_from_given_lines() {
    let csr = [0u32, 0, 0];
    let g = QueryGraph::load(4, &csr, "Kafka 소개\n정규화 원리", "\nㅈㄱㅎ ㅇㄹ", 0).expect("valid");
    assert_eq!(g.search("ㅇㄹ"), vec![1]);
    assert_eq!(g.search("ㅈㄱㅎㅇㄹ"), vec![1]);
    assert_eq!(g.search("소개"), vec![0]);
    assert_eq!(g.search("카프"), Vec::<u32>::new());
}

#[test]
fn query_ego_networks() {
    let g = small(2);
    assert_eq!(g.ego(0, 0), vec![0]);
    assert_eq!(g.ego(0, 1), vec![0, 1]);
    assert_eq!(g.ego(0, 2), vec![0, 1, 2]);
    assert_eq!(g.ego(2, 2), vec![2, 1, 0]);
    assert_eq!(g.ego(7, 3), Vec::<u32>::new());
    let h = small(1);
    assert_eq!(h.ego(0, 5), vec![0, 1]);
    assert_eq!(h.ego(1, 1), vec![1, 0, 2]);
}

#[test]
fn query_ego_depths() {
    let g = small(2);
    assert_eq!(g.ego_depths(0, 5), vec![0, 1, 2]);
    assert_eq!(g.ego_depths(0, 1), vec![0, 1, 255]);
    assert_eq!(g.ego_depths(7, 3), vec![255, 255, 255]);
    let h = small(1);
    assert_eq!(h.ego_depths(0, 5), vec![0, 1, 255]);
}

#[test]
fn query_local_views() {
    let g = small(2);
    assert_eq!(g.local_view(1), vec![1, 0]);
    assert_eq!(g.local_view(0), vec![0, 1]);
    assert_eq!(g.local_view(9), Vec::<u32>::new());
    let h = small(0);
    assert_eq!(h.local_view(1), vec![1, 2]);
}

#[test]
fn query_depths_follow_ego_order() {
    for root in 0..3u32 {
        let g = small(root);
        for c in 0..4u32 {
            for depth in 0..4u32 {
                let d = g.ego_depths(c, depth);
                let e = g.ego(c, depth);
                if c < 3 {
                    assert_eq!(d[c as usize], 0);
                }
                for w in e.windows(2) {
                    assert!(d[w[0] as usize] <= d[w[1] as usize]);
                }
                for v in 0..3u32 {
                    assert_eq!(d[v as usize] != 255, e.contains(&v));
                }
            }
        }
    }
}
