use graph_core::scan::{
    excluded_dir, excluded_root_file, finish_scan, rebase_scan, rel_string, Entry, Scan,
};
use std::path::PathBuf;

fn entry(rel: &str, size: u64) -> Entry {
    Entry { rel: rel.to_string(), abs: PathBuf::from(format!("/repo/{}", rel)), size }
}

fn rels(s: &Scan) -> Vec<String> {
    s.files.iter().map(|e| e.rel.clone()).collect()
}

#[test]
fn scan_exclusions() {
    assert!(excluded_dir(".git"));
    assert!(excluded_dir("brains-en"));
    assert!(excluded_dir("node_modules"));
    assert!(!excluded_dir("src"));
    assert!(excluded_root_file("Cargo.toml"));
    assert!(excluded_root_file("README.en.md"));
    assert!(!excluded_root_file("README.md"));
}

#[test]
fn scan_note_and_rel_text() {
    let s = Scan::default();
    assert!(s.is_note("a/b.md"));
    assert!(!s.is_note("a/b.mdx"));
    assert!(!s.is_note("md"));
    assert_eq!(rel_string("a\\b\\c.md"), "a/b/c.md");
    assert_eq!(rel_string("\u{1100}\u{1161}.md"), "가.md");
}

#[test]
fn scan_order() {
    let files = vec![entry("b.md", 3), entry("a/c.png", 10), entry("a/b.md", 7)];
    let sc = finish_scan(
        files,
        vec!["a".to_string(), "a".to_string(), ".x".to_string()],
        vec!["z".to_string(), ".git".to_string(), "z".to_string()],
    );
    assert_eq!(rels(&sc), vec!["a/b.md", "a/c.png", "b.md"]);
    assert_eq!(sc.files[0].size, 7);
    assert_eq!(sc.files[0].abs, PathBuf::from("/repo/a/b.md"));
    assert_eq!(sc.notes, vec![0, 2]);
    assert_eq!(sc.dirs, vec![".x".to_string(), "a".to_string()]);
    assert_eq!(sc.skipped, vec![".git".to_string(), "z".to_string(), "z".to_string()]);
}

#[test]
fn scan_rebase_prefix() {
    let sc = finish_scan(
        vec![entry("brains/x.md", 1), entry("README.md", 2), entry("brains/a/y.png", 3)],
        vec!["brains".to_string(), "brains/a".to_string()],
        vec![],
    );
    let r = rebase_scan(sc, "/brains/");
    assert_eq!(rels(&r), vec!["README.md", "a/y.png", "x.md"]);
    assert_eq!(r.notes, vec![0, 2]);
    assert_eq!(r.dirs, vec!["a".to_string()]);
    assert_eq!(r.files[2].abs, PathBuf::from("/repo/brains/x.md"));
    let same = rebase_scan(finish_scan(vec![entry("b", 1), entry("a", 1)], vec![], vec![]), "//");
    assert_eq!(rels(&same), vec!["a", "b"]);
}

#[test]
fn scan_stable_for_equal_paths() {
    let sc = finish_scan(vec![entry("b", 1), entry("a", 2), entry("a", 3)], vec![], vec![]);
    assert_eq!(rels(&sc), vec!["a", "a", "b"]);
    assert_eq!(sc.files[0].size, 2);
    assert_eq!(sc.files[1].size, 3);
}
