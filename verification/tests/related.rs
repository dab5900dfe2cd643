use graph_core::related::{adjacency, select_pairs, to_le_bytes, tokens};

#[test]
fn related_tokens_of_text_and_path() {
    let t = tokens(
        "The Kafka consumer-group, 2024 offsets; 카프카 컨슈머 그리고 a x9",
        "brains/Kafka/consumer.md",
    );
    let want: Vec<String> = ["brains", "consumer", "group", "kafka", "offsets", "x9", "카프카", "컨슈머"]
        .iter()
        .map(|s| s.to_string())
        .collect();
    assert_eq!(t, want);
}

#[test]
fn related_token_limits() {
    let long = "a".repeat(25);
    let ok = "b".repeat(24);
    let t = tokens(&format!("{} {} 12345 ÉCOLE", long, ok), "");
    assert_eq!(t, vec![ok, "école".to_string()]);
    assert_eq!(tokens("", ""), Vec::<String>::new());
}

#[test]
fn related_bytes() {
    assert_eq!(
        to_le_bytes(&[(1, 2), (258, 0)]),
        vec![1, 0, 0, 0, 2, 0, 0, 0, 2, 1, 0, 0, 0, 0, 0, 0]
    );
    assert_eq!(to_le_bytes(&[]), Vec::<u8>::new());
}

#[test]
fn related_adjacency() {
    let adj = adjacency(4, &[(0, 1), (1, 2), (1, 0), (3, 3)]);
    assert_eq!(adj, vec![vec![1], vec![0, 2], vec![1], vec![3]]);
    let sym = adjacency(3, &[(2, 0)]);
    assert_eq!(sym, vec![vec![2], vec![], vec![0]]);
}

#[test]
fn select_pairs_keeps_top_k_and_skips_explicit() {
    // note 0 ranks 2, 1, 3; note 1 ranks 0, 3; note 2 ranks 0; note 3 ranks nothing
    let ranked = vec![vec![2, 1, 3], vec![0, 3], vec![0], vec![]];
    // (1, 0) is already an explicit link: written either way round
    let explicit = vec![(1u32, 0u32)];
    let pairs = select_pairs(&ranked, &explicit, 2);
    assert_eq!(pairs, vec![(0, 2), (0, 3), (1, 3)]);
}

#[test]
fn select_pairs_top_k_zero_and_empty() {
    let ranked = vec![vec![1], vec![0]];
    assert!(select_pairs(&ranked, &[], 0).is_empty());
    assert!(select_pairs(&Vec::new(), &[], 8).is_empty());
    assert_eq!(select_pairs(&ranked, &[], 1), vec![(0, 1)]);
}
