use graph_core::links::{
    count_gh_blob, page_components_for_note, relative_url, rewrite_note, sorted_vec,
    staged_path_for_note, strip_content_prefix, Kind, Resolver, Stats,
};
use graph_core::text::{normalize_rel_path, percent_decode};
use std::collections::BTreeSet;

fn strs(v: &[&str]) -> Vec<String> {
    v.iter().map(|s| s.to_string()).collect()
}

fn resolver() -> Resolver {
    Resolver::new(
        &strs(&["JAVA/gc.md", "JAVA/jvm.md", "README.md"]),
        &strs(&["JAVA/gc.md", "JAVA/image/a.png", "JAVA/jvm.md", "README.md"]),
        &strs(&["JAVA", "JAVA/image"]),
        "",
    )
}

#[test]
fn links_prefix_and_pages() {
    assert_eq!(strip_content_prefix("brains/a.md", "brains"), "a.md");
    assert_eq!(strip_content_prefix("brains", "/brains/"), "");
    assert_eq!(strip_content_prefix("brainsx/a", "brains"), "brainsx/a");
    assert_eq!(strip_content_prefix("brains//a", "brains"), "a");
    assert_eq!(strip_content_prefix("a.md", ""), "a.md");
    assert_eq!(staged_path_for_note("DataBase/index.md"), "DataBase/_index.md");
    assert_eq!(staged_path_for_note("index.md"), "_index.md");
    assert_eq!(staged_path_for_note("a/b.md"), "a/b.md");
    assert_eq!(page_components_for_note("DataBase/_index.md"), strs(&["DataBase", "index.html"]));
    assert_eq!(page_components_for_note("a/b.md"), strs(&["a", "b.html"]));
    assert_eq!(page_components_for_note("x.md"), strs(&["x.html"]));
}

#[test]
fn links_relative_urls() {
    assert_eq!(relative_url(&strs(&["JAVA", "jvm.html"]), &strs(&["JAVA", "gc.html"]), ""), "gc.html");
    assert_eq!(relative_url(&strs(&["a", "b.html"]), &strs(&["c", "d e.html"]), "#x"), "../c/d%20e.html#x");
    assert_eq!(relative_url(&strs(&["x.html"]), &strs(&["x.html"]), ""), "x.html");
    assert_eq!(relative_url(&[], &[], "#top"), ".#top");
}

#[test]
fn links_resolution() {
    let r = resolver();
    let mut st = Stats::default();
    assert_eq!(r.resolve("jvm.md", "JAVA/gc.md", &mut st), Kind::Note(1));
    assert_eq!(r.resolve("../README.md", "JAVA/gc.md", &mut st), Kind::Note(2));
    assert_eq!(r.resolve("#x", "JAVA/gc.md", &mut st), Kind::Anchor);
    assert_eq!(r.resolve("", "JAVA/gc.md", &mut st), Kind::Anchor);
    assert_eq!(r.resolve("https://example.com/a", "JAVA/gc.md", &mut st), Kind::External);
    assert_eq!(r.resolve("mailto:x@y", "JAVA/gc.md", &mut st), Kind::External);
    assert_eq!(
        r.resolve("https://github.com/rlaope/estudy/blob/master/JAVA/jvm.md", "README.md", &mut st),
        Kind::Note(1)
    );
    assert_eq!(st.case_fixed, 0);
    assert_eq!(r.resolve("Jvm.md", "JAVA/gc.md", &mut st), Kind::Note(1));
    assert_eq!(st.case_fixed, 1);
    assert_eq!(r.resolve("image", "JAVA/gc.md", &mut st), Kind::Section("JAVA".to_string()));
    assert_eq!(r.resolve("image/a.png", "JAVA/gc.md", &mut st), Kind::Asset("JAVA/image/a.png".to_string()));
    assert_eq!(r.resolve("missing.md", "JAVA/gc.md", &mut st), Kind::Unresolved);
    assert_eq!(r.resolve("a.png", "README.md", &mut st), Kind::Asset("JAVA/image/a.png".to_string()));
    assert_eq!(st.recovered_basename, 1);
    assert_eq!(r.resolve("gc.m", "JAVA/jvm.md", &mut st), Kind::Note(0));
    assert_eq!(st.ext_swap, 1);
    assert_eq!(r.note_of("java/GC.md"), Some((0, true)));
    assert_eq!(r.file_of("JAVA/image/a.png"), Some((1, false)));
    assert_eq!(r.dir_of("java"), Some(("JAVA".to_string(), true)));
    assert_eq!(r.section_for_dir("JAVA/image"), Some("JAVA".to_string()));
    assert_eq!(r.url_components(&Kind::Section("JAVA".to_string())), strs(&["JAVA", "index.html"]));
    assert_eq!(r.url_components(&Kind::Anchor), Vec::<String>::new());
}

#[test]
fn links_rewrite() {
    let r = resolver();
    let mut st = Stats::default();
    let src = "See [jvm](jvm.md) and [home](../README.md#top).\n```\n[x](jvm.md)\n```\n  - [ext](https://a.b)\n";
    let (out, recs) = rewrite_note(src, 0, &r, &mut st);
    assert_eq!(
        out,
        "See [jvm](jvm.html) and [home](../README.html#top).\n```\n[x](jvm.md)\n```\n  - [ext](https://a.b)\n"
    );
    assert_eq!(recs.len(), 3);
    assert_eq!(recs[0].kind, Kind::Note(1));
    assert_eq!(recs[1].raw, "../README.md#top");
    assert_eq!(recs[2].line, 5);
    assert_eq!(recs[2].indent, 2);
    assert!(recs[2].bullet);
    assert_eq!(recs[2].kind, Kind::External);
    assert_eq!(st.inline_total, 4);
    assert_eq!(st.in_fence_skipped, 1);
    assert_eq!(st.rewritten, 2);
    assert_eq!(st.note_links, 2);
    assert_eq!(st.internal, 2);
    assert_eq!(st.external, 1);
}

#[test]
fn links_unresolved_recorded() {
    let r = resolver();
    let mut st = Stats::default();
    let (out, recs) = rewrite_note("[a](nope.md)", 2, &r, &mut st);
    assert_eq!(out, "[a](nope.md)");
    assert_eq!(recs[0].kind, Kind::Unresolved);
    assert_eq!(st.unresolved, vec!["README.md:1 -> nope.md".to_string()]);
}

#[test]
fn links_blob_count_and_sorted() {
    assert_eq!(count_gh_blob("x github.com/rlaope/estudy/blob/master/a y https://github.com/rlaope/estudy/blob/master/b"), 2);
    assert_eq!(count_gh_blob("github.com/rlaope/estudy/blob/main/"), 0);
    let mut set = BTreeSet::new();
    set.insert((3u32, 4u32));
    set.insert((1, 9));
    set.insert((1, 2));
    assert_eq!(sorted_vec(set), vec![(1, 2), (1, 9), (3, 4)]);
}

#[test]
fn links_relative_url_text_leads_to_target() {
    let cases: [(&[&str], &[&str]); 4] = [
        (&["a", "b", "p.html"], &["a", "c", "d e.html"]),
        (&["x.html"], &["y (1)#?.html"]),
        (&["a", "p.html"], &["q.html"]),
        (&["카프카", "소개.html"], &["카프카", "개념 정리.html"]),
    ];
    for (from, to) in cases {
        let (from, to) = (strs(from), strs(to));
        let url = relative_url(&from, &to, "");
        let joined = format!("{}/{}", from[..from.len() - 1].join("/"), percent_decode(&url));
        assert_eq!(normalize_rel_path(&joined), to.join("/"));
    }
}
