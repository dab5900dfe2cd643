use graph_core::json::{escape, string, Arr};

#[test]
fn json_escape_specials() {
    assert_eq!(escape("a\"b\\c\nd\re\tf"), "a\\\"b\\\\c\\nd\\re\\tf");
    assert_eq!(escape("\u{8}\u{c}"), "\\b\\f");
    assert_eq!(escape("\u{1}\u{1f}"), "\\u0001\\u001f");
    assert_eq!(escape("한글 ✓"), "한글 ✓");
    assert_eq!(string("x\"y"), "\"x\\\"y\"");
    assert_eq!(string(""), "\"\"");
}

#[test]
fn json_arrays() {
    let mut a = Arr::new();
    assert!(a.is_empty());
    a.push("1".to_string());
    a.push("{\"k\":2}".to_string());
    assert!(!a.is_empty());
    assert_eq!(a.finish(), "[1,{\"k\":2}]");
    assert_eq!(Arr::default().finish(), "[]");
    let mut p = Arr::new();
    p.push("1".to_string());
    p.push("2".to_string());
    assert_eq!(p.finish_pretty("    "), "[\n    1,\n    2\n  ]");
    assert_eq!(Arr::new().finish_pretty("    "), "[]");
    let mut q = Arr::new();
    q.push("x".to_string());
    assert_eq!(q.finish_pretty(" "), "[\n x\n]");
}
