use graph_core::pipeline::{
    base_path_clean, manifest_entry, meta_json, note_title, note_url, parse_u64, search_entry,
    search_json, sha256_hex,
};
use graph_core::Options;

#[test]
fn pipeline_titles() {
    assert_eq!(note_title("intro\n# Hello World \nbody", "a/x.md"), ("Hello World".to_string(), false));
    assert_eq!(note_title("no heading", "a/b/Note.md"), ("Note".to_string(), true));
    assert_eq!(note_title("#nospace\n#  \r\n", "c.txt"), ("c.txt".to_string(), true));
    assert_eq!(note_title("# \u{1100}\u{1161}\r\n", "z.md"), ("가".to_string(), false));
}

#[test]
fn pipeline_base_path() {
    assert_eq!(base_path_clean("estudy"), "/estudy/");
    assert_eq!(base_path_clean("/"), "/");
    assert_eq!(base_path_clean("/a/"), "/a/");
    assert_eq!(base_path_clean(""), "/");
    assert_eq!(base_path_clean(&base_path_clean("x/y")), "/x/y/");
}

#[test]
fn pipeline_fingerprint() {
    assert_eq!(
        sha256_hex(b"abc"),
        "ba7816bf8f01cfea414140de5dae2223b00361a396177a9cb410ff61f20015ad"
    );
    assert_eq!(
        sha256_hex(b""),
        "e3b0c44298fc1c149afbf4c8996fb92427ae41e4649b934ca495991b7852b855"
    );
    let mut want = b"a.md\x003\x00".to_vec();
    want.extend_from_slice(b"ba7816bf8f01cfea414140de5dae2223b00361a396177a9cb410ff61f20015ad\n");
    assert_eq!(manifest_entry("a.md", b"abc"), want);
}

#[test]
fn pipeline_numbers() {
    assert_eq!(parse_u64("42"), Some(42));
    assert_eq!(parse_u64("+7"), Some(7));
    assert_eq!(parse_u64("007"), Some(7));
    assert_eq!(parse_u64(""), None);
    assert_eq!(parse_u64("+"), None);
    assert_eq!(parse_u64("-1"), None);
    assert_eq!(parse_u64("1a"), None);
    assert_eq!(parse_u64(" 1"), None);
    assert_eq!(parse_u64("18446744073709551615"), Some(u64::MAX));
    assert_eq!(parse_u64("18446744073709551616"), None);
}

#[test]
fn pipeline_search_objects() {
    assert_eq!(
        search_entry(0, "제목", "a/b.md", "/estudy/a/b.html", 10, 3),
        "{\"id\":0,\"title\":\"제목\",\"path\":\"a/b.md\",\"url\":\"/estudy/a/b.html\",\"section\":\"a\",\"choseong\":\"ㅈㅁ\",\"size\":10,\"degree\":3}"
    );
    assert_eq!(
        search_entry(12, "Read \"me\"", "README.md", "/README.html", 0, 40),
        "{\"id\":12,\"title\":\"Read \\\"me\\\"\",\"path\":\"README.md\",\"url\":\"/README.html\",\"section\":\"root\",\"choseong\":\"Read \\\"me\\\"\",\"size\":0,\"degree\":40}"
    );
    let page = vec!["a b".to_string(), "c(1).html".to_string()];
    assert_eq!(note_url("/estudy/", &page), "/estudy/a%20b/c%281%29.html");
}

#[test]
fn pipeline_search_array() {
    let titles = vec!["X".to_string(), "가".to_string()];
    let paths = vec!["A/x.md".to_string(), "y.md".to_string()];
    let pages = vec![
        vec!["A".to_string(), "x.html".to_string()],
        vec!["y.html".to_string()],
    ];
    let s = search_json(&titles, &paths, &pages, "/", &vec![5, 6], &vec![1, 2, 9]);
    assert_eq!(
        s,
        "[{\"id\":0,\"title\":\"X\",\"path\":\"A/x.md\",\"url\":\"/A/x.html\",\"section\":\"A\",\"choseong\":\"X\",\"size\":5,\"degree\":1},{\"id\":1,\"title\":\"가\",\"path\":\"y.md\",\"url\":\"/y.html\",\"section\":\"root\",\"choseong\":\"ㄱ\",\"size\":6,\"degree\":2}]"
    );
    assert_eq!(search_json(&vec![], &vec![], &vec![], "/", &vec![], &vec![]), "[]");
}

#[test]
fn pipeline_meta() {
    let m = meta_json(5, 8, &vec![("A".to_string(), 2), ("B".to_string(), 1)], "2024-01-01T00:00:00Z", "abc", 7);
    assert_eq!(
        m,
        "{\n  \"nodes\": 5,\n  \"edges\": 8,\n  \"sections\": [\n    {\"name\":\"A\",\"count\":2},\n    {\"name\":\"B\",\"count\":1}\n  ],\n  \"built_at\": \"2024-01-01T00:00:00Z\",\n  \"root_sha256\": \"abc\",\n  \"layout\": \"fa2\",\n  \"seed\": 7\n}\n"
    );
    let e = meta_json(1, 0, &vec![], "t", "h", 0);
    assert_eq!(
        e,
        "{\n  \"nodes\": 1,\n  \"edges\": 0,\n  \"sections\": [],\n  \"built_at\": \"t\",\n  \"root_sha256\": \"h\",\n  \"layout\": \"fa2\",\n  \"seed\": 0\n}\n"
    );
}

#[test]
fn pipeline_default_options() {
    let o = Options::default();
    assert_eq!(o.base_path, "/estudy/");
    assert_eq!(o.content_prefix, "brains");
    assert_eq!(o.seed, 20_260_917);
    assert_eq!(o.iterations, 300);
    assert_eq!(o.root, std::path::PathBuf::from("."));
    assert_eq!(o.out, std::path::PathBuf::from("site/generated"));
    assert_eq!(o.stage, std::path::PathBuf::from(".cache/content"));
}
