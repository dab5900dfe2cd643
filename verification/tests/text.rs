use graph_core::text::{
    basename, choseong, components, dirname, encode_path_component, excerpt, extension, nfc,
    normalize_rel_path, percent_decode, with_extension,
};

#[test]
fn choseong_basic() {
    assert_eq!(choseong("전문검색인덱스"), "ㅈㅁㄱㅅㅇㄷㅅ");
    assert_eq!(choseong("Redis 분산락"), "Redis ㅂㅅㄹ");
}

#[test]
fn normalize_paths() {
    assert_eq!(normalize_rel_path("a/./b/../c.md"), "a/c.md");
    assert_eq!(normalize_rel_path("../x/foo.md"), "x/foo.md");
    assert_eq!(dirname("a/b/c.md"), "a/b");
    assert_eq!(with_extension("a/b/c.m", ".md"), "a/b/c.md");
}

#[test]
fn percent() {
    assert_eq!(percent_decode("a%20b%2Fc.md"), "a b/c.md");
    assert_eq!(encode_path_component("성능 비교.png"), "성능%20비교.png");
}

#[test]
fn excerpt_strips_markdown() {
    let src = "---\ntitle: x\n---\n\n# 제목 줄\n\n본문 **강조** [링크](http://x/y) ![그림](image/a.png) 끝.\n\n```\n코드 블록\n```\n\n- 목록 항목\n";
    let e = excerpt(src, 60);
    assert!(e.starts_with("본문 강조 링크 끝."), "got: {e}");
    assert!(!e.contains("코드"), "코드펜스가 남았다: {e}");
    assert!(!e.contains("image/"), "이미지 경로가 남았다: {e}");
    assert!(!e.contains('#'), "제목이 남았다: {e}");
}

#[test]
fn excerpt_truncates() {
    let e = excerpt("가나다라마바사", 4);
    assert_eq!(e, "가나다라…");
    assert_eq!(excerpt("짧다", 10), "짧다");
}

#[test]
fn path_pieces() {
    assert_eq!(basename("a/b/c.md"), "c.md");
    assert_eq!(basename("c"), "c");
    assert_eq!(dirname("c"), "");
    assert_eq!(extension("a/b.tar.gz"), ".gz");
    assert_eq!(extension("a/.hidden"), "");
    assert_eq!(extension("a.b/c"), "");
    assert_eq!(with_extension("noext", ".md"), "noext.md");
    assert_eq!(with_extension("x.m", ".md"), "x.md");
    assert_eq!(components("/a//b/"), vec!["a".to_string(), "b".to_string()]);
    assert_eq!(components(""), Vec::<String>::new());
}

#[test]
fn normalize_edges() {
    assert_eq!(normalize_rel_path("./a//b/./c/../d"), "a/b/d");
    assert_eq!(normalize_rel_path("../../"), "");
    assert_eq!(normalize_rel_path(""), "");
    let once = normalize_rel_path("x/../y/./z/");
    assert_eq!(normalize_rel_path(&once), once);
}

#[test]
fn percent_edges() {
    assert_eq!(percent_decode("100%"), "100%");
    assert_eq!(percent_decode("%zz"), "%zz");
    assert_eq!(percent_decode("ab%2"), "ab%2");
    assert_eq!(percent_decode("%E2%9C%93"), "✓");
    assert_eq!(percent_decode("%ff"), "\u{FFFD}");
    assert_eq!(encode_path_component("a#b?c(d)<e>\"f'g%"), "a%23b%3Fc%28d%29%3Ce%3E%22f%27g%25");
    let s = "성능 비교 (v2) #1.png";
    assert_eq!(percent_decode(&encode_path_component(s)), s);
}

#[test]
fn nfc_composes() {
    assert_eq!(nfc("\u{1100}\u{1161}"), "가");
    assert_eq!(choseong("\u{1100}\u{1161}\u{11a8}"), "ㄱ");
}

#[test]
fn excerpt_front_matter_and_links() {
    let src = "\u{feff}---\na: 1\n---\r\n\nHello *world*";
    assert_eq!(excerpt(src, 80), "Hello world");
    assert_eq!(excerpt("See [docs][1] and <b>bold</b> text", 80), "See docs and bold text");
    assert_eq!(excerpt("- item one\n- item two", 80), "item one item two");
    assert_eq!(excerpt("```\ncode\n```\nafter\n~~~\nmore\n", 80), "after");
    assert_eq!(excerpt("# only a heading\n<!-- c -->\n---\n<br>", 80), "");
    assert_eq!(excerpt("| a | b |", 80), "a b");
}

#[test]
fn excerpt_cut_edges() {
    assert_eq!(excerpt("ab cd", 3), "ab…");
    assert_eq!(excerpt("abc", 0), "…");
    assert_eq!(excerpt("abc", 3), "abc");
    assert_eq!(excerpt("one\ntwo three", 5), "one t…");
}

#[test]
fn percent_decode_undoes_encode_path_component() {
    for s in ["a b", "100% (draft)?", "카프카 #1 <x> \"q\" 'r'", "plain", "", "%2G%"] {
        assert_eq!(percent_decode(&encode_path_component(s)), s);
    }
}

#[test]
fn dirname_slash_basename_gives_the_path_back() {
    for p in ["a/b/c.md", "/x", "a/", "dir/sub/"] {
        assert_eq!(format!("{}/{}", dirname(p), basename(p)), p);
    }
    assert_eq!(dirname("c.md"), "");
    assert_eq!(basename("c.md"), "c.md");
}

#[test]
fn extension_reads_back_what_with_extension_set() {
    for p in ["dir/note.md", "note", ".bashrc", "a.b/c", "x/y.tar.gz"] {
        assert_eq!(extension(&with_extension(p, ".html")), ".html");
    }
}
