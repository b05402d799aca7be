use otogo::glob::{GlobSet, Pattern};

fn m(pat: &str, path: &str) -> bool {
    Pattern::new(pat).matches(path)
}

#[test]
fn trailing_double_star_covers_everything_beneath() {
    assert!(m("goals/corpus/**", "goals/corpus/a.txt"));
    assert!(m("goals/corpus/**", "goals/corpus/deep/b.txt"));
    assert!(!m("goals/corpus/**", "goals/other.txt"));
}

#[test]
fn leading_double_star_slash_matches_zero_components() {
    assert!(m("**/*_test.go", "a_test.go"));
    assert!(m("**/*_test.go", "internal/store/a_test.go"));
    assert!(!m("**/*_test.go", "internal/store/a.go"));
}

#[test]
fn single_star_does_not_cross_a_separator() {
    assert!(m("docs/*.md", "docs/parity.md"));
    assert!(!m("docs/*.md", "docs/nested/parity.md"));
}

#[test]
fn question_matches_one_non_separator() {
    assert!(m("v?.json", "v1.json"));
    assert!(!m("v?.json", "v10.json"));
    assert!(!m("a?b", "a/b"));
}

#[test]
fn bare_double_star_matches_the_whole_tree() {
    assert!(m("**", "anything/at/all.txt"));
    assert!(m("**", "top.txt"));
}

#[test]
fn first_matching_pattern_is_reported() {
    let gs = GlobSet::new(vec!["docs/**".into(), "**".into()]);
    assert_eq!(gs.match_of("docs/x.md"), Some("docs/**"));
}

#[test]
fn a_pattern_keeps_its_source() {
    assert_eq!(Pattern::new("src/**/*.rs").source(), "src/**/*.rs");
}

#[test]
fn a_literal_pattern_matches_only_itself() {
    assert!(m("goals/loop.json", "goals/loop.json"));
    assert!(!m("goals/loop.json", "goals/loop.jsonx"));
    assert!(!m("goals/loop.json", "goals/loop.jso"));
}

#[test]
fn star_star_in_the_middle_spans_whole_components() {
    assert!(m("a/**/b", "a/b"));
    assert!(m("a/**/b", "a/x/y/b"));
    assert!(!m("a/**/b", "a/xb"));
}

#[test]
fn a_set_with_no_pattern_matches_nothing() {
    let gs = GlobSet::new(vec![]);
    assert!(!gs.is_match("anything"));
    assert_eq!(gs.match_of("anything"), None);
    assert!(gs.sources().is_empty());
}

#[test]
fn a_set_lists_its_sources_in_order() {
    let gs = GlobSet::new(vec!["b/**".into(), "a/*".into()]);
    assert_eq!(gs.sources(), vec!["b/**", "a/*"]);
    assert!(gs.is_match("a/x"));
    assert!(!gs.is_match("a/x/y"));
    assert_eq!(gs.match_of("b/c/d"), Some("b/**"));
}

#[test]
fn a_path_matches_when_it_cuts_into_one_piece_per_token() {
    // `a/**/x?.rs`: "a", "/", "" or text ending in "/", "x", one non-separator, ".rs"
    assert!(m("a/**/x?.rs", "a/xy.rs"));
    assert!(m("a/**/x?.rs", "a/b/c/xy.rs"));
    assert!(!m("a/**/x?.rs", "a/b/x/.rs"));
    assert!(!m("a/**/x?.rs", "a/bxy.rs"));
    // `*` takes text without "/", `**` any text
    assert!(m("*.md", "notes.md"));
    assert!(!m("*.md", "docs/notes.md"));
    assert!(m("**.md", "docs/notes.md"));
}
