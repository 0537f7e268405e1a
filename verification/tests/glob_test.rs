use agentrust::tools::glob_tool::{glob_match, match_component, skip_entry, GlobTool};

fn some(s: &str) -> Option<String> {
    Some(s.to_string())
}

fn strings(v: &[&str]) -> Vec<String> {
    v.iter().map(|s| s.to_string()).collect()
}

#[test]
fn star_matches_single_component() {
    assert!(glob_match("*.rs", "lib.rs"));
    assert!(!glob_match("*.rs", "a/b.rs"));
}

#[test]
fn double_star_crosses_components() {
    assert!(glob_match("**/*.rs", "a/b/c.rs"));
    assert!(glob_match("**/*.rs", "lib.rs"));
}

#[test]
fn question_matches_one_char() {
    assert!(glob_match("?.rs", "a.rs"));
    assert!(!glob_match("?.rs", "ab.rs"));
}

#[test]
fn char_class() {
    assert!(glob_match("[ab].rs", "a.rs"));
    assert!(glob_match("[ab].rs", "b.rs"));
    assert!(!glob_match("[ab].rs", "c.rs"));
    assert!(glob_match("[!ab].rs", "c.rs"));
}

#[test]
fn classes_list_their_characters() {
    assert!(match_component("[a-c]x", "-x"));
    assert!(!match_component("[a-c]x", "bx"));
    assert!(match_component("[ab", "[ab"));
    assert!(match_component("é?", "éü"));
}

#[test]
fn double_star_matches_everything() {
    assert!(glob_match("**", "a"));
    assert!(glob_match("**", "a/b/c"));
    assert!(glob_match("a/**/z", "a/z"));
    assert!(glob_match("a/**/z", "a/b/c/z"));
    assert!(!glob_match("a/**/z", "b/z"));
}

#[test]
fn some_directories_are_left_out() {
    assert!(skip_entry(".git", 1));
    assert!(skip_entry("node_modules", 2));
    assert!(skip_entry("target", 1));
    assert!(!skip_entry("src", 1));
    assert!(!skip_entry(".git", 0));
}

#[test]
fn a_pattern_is_required() {
    let t = GlobTool::new();
    let e = t.request(&None, None).unwrap_err();
    assert_eq!(e.message, "pattern is required");
    assert_eq!(e.code, some("missing_parameter"));
    assert!(t.request(&some(""), None).is_err());
}

#[test]
fn matches_are_selected_up_to_the_limit() {
    let t = GlobTool::new();
    let q = t.request(&some("*.rs"), Some(2)).unwrap();
    let paths = strings(&["b.rs", "x.txt", "a.rs", "c.rs"]);
    let picked = t.select(&q, &paths);
    assert_eq!(picked, strings(&["b.rs", "a.rs"]));
    let out = t.report(&q, &picked).content;
    assert!(out.contains("a.rs\nb.rs"), "got {}", out);
}

#[test]
fn no_match_is_reported() {
    let t = GlobTool::new();
    let q = t.request(&some("*.rs"), None).unwrap();
    let out = t.report(&q, &Vec::new()).content;
    assert!(out.contains("*.rs"), "got {}", out);
}
