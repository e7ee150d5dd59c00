use hstr::app::Application;
use hstr::filter::{apply, highlight_spans};

fn strings(items: &[&str]) -> Vec<String> {
    items.iter().map(|s| s.to_string()).collect()
}

#[test]
fn literal_queries_always_compile() {
    for query in ["print(", "a[", "(((", "\\", "^$.*+?"] {
        let mut app = Application::new("bash");
        app.search_string = query.to_string();
        assert!(app.create_search_regex().is_some());
    }
}

#[test]
fn invalid_regex_queries_yield_no_matcher() {
    let mut app = Application::new("bash");
    app.regex_mode = true;
    app.search_string = "print(".to_string();
    assert!(app.create_search_regex().is_none());
}

#[test]
fn apply_keeps_matching_entries_in_order() {
    let mut app = Application::new("bash");
    app.search_string = "spam".to_string();
    let matcher = app.create_search_regex().unwrap();
    let entries = strings(&["cat spam", "ls", "grep spam .", "make"]);
    assert_eq!(apply(&matcher, &entries), &["cat spam", "grep spam ."]);
}

#[test]
fn matcher_respects_case_flag() {
    let mut app = Application::new("bash");
    app.search_string = "SPAM".to_string();
    app.case_sensitivity = true;
    let sensitive = app.create_search_regex().unwrap();
    let entries = strings(&["cat spam", "cat SPAM"]);
    assert_eq!(apply(&sensitive, &entries), &["cat SPAM"]);
    app.case_sensitivity = false;
    let insensitive = app.create_search_regex().unwrap();
    assert_eq!(apply(&insensitive, &entries), &["cat spam", "cat SPAM"]);
}

#[test]
fn literal_query_matches_metacharacters_literally() {
    let mut app = Application::new("bash");
    app.search_string = "a.b".to_string();
    let matcher = app.create_search_regex().unwrap();
    let entries = strings(&["a.b", "axb", "ab"]);
    assert_eq!(apply(&matcher, &entries), &["a.b"]);
}

#[test]
fn highlight_spans_cover_each_match() {
    let mut app = Application::new("bash");
    app.search_string = "spam".to_string();
    let matcher = app.create_search_regex().unwrap();
    assert_eq!(highlight_spans(&matcher, "cat spam"), [4, 5, 6, 7]);
    assert_eq!(highlight_spans(&matcher, "spam spam"), [0, 1, 2, 3, 5, 6, 7, 8]);
    assert_eq!(highlight_spans(&matcher, "nothing"), Vec::<usize>::new());
}

#[test]
fn highlight_spans_count_characters_not_bytes() {
    let mut app = Application::new("bash");
    app.search_string = "spam".to_string();
    let matcher = app.create_search_regex().unwrap();
    // the umlaut takes two bytes but only one character position
    assert_eq!(highlight_spans(&matcher, "\u{fc}ber spam"), [5, 6, 7, 8]);
}
