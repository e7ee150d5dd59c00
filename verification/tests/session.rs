use hstr::app::{Application, ViewMode};

fn strings(items: &[&str]) -> Vec<String> {
    items.iter().map(|s| s.to_string()).collect()
}

fn loaded_app(history: &[&str], favorites: &[&str]) -> Application {
    let mut app = Application::new("bash");
    app.load_commands(strings(history), strings(favorites));
    app
}

#[test]
fn load_populates_all_three_views() {
    let mut app = loaded_app(
        &["cat spam", "ls", "cat spam", "make"],
        &["make"],
    );
    app.view = ViewMode::All;
    assert_eq!(app.get_commands(), &["cat spam", "ls", "make"]);
    app.view = ViewMode::Sorted;
    assert_eq!(app.get_commands(), &["cat spam", "make", "ls"]);
    app.view = ViewMode::Favorites;
    assert_eq!(app.get_commands(), &["make"]);
}

#[test]
fn literal_search_matches_substring() {
    let mut app = loaded_app(&["print(x)", "ls", "sprint"], &[]);
    app.view = ViewMode::All;
    app.search_string = "print(".to_string();
    app.search();
    assert_eq!(app.get_commands(), &["print(x)"]);
}

#[test]
fn invalid_regex_search_is_a_no_op() {
    let mut app = loaded_app(&["print(x)", "ls", "sprint"], &[]);
    app.view = ViewMode::All;
    app.regex_mode = true;
    app.search_string = "print(".to_string();
    app.search();
    assert_eq!(app.get_commands(), &["print(x)", "ls", "sprint"]);
}

#[test]
fn case_sensitive_search_distinguishes_case() {
    let mut app = loaded_app(&["cat spam", "cat SPAM"], &[]);
    app.view = ViewMode::All;
    app.case_sensitivity = true;
    app.search_string = "SPAM".to_string();
    app.search();
    assert_eq!(app.get_commands(), &["cat SPAM"]);
}

#[test]
fn case_insensitive_search_matches_both_cases() {
    let mut app = loaded_app(&["cat spam", "cat SPAM", "ls"], &[]);
    app.view = ViewMode::All;
    app.case_sensitivity = false;
    app.search_string = "SPAM".to_string();
    app.search();
    assert_eq!(app.get_commands(), &["cat spam", "cat SPAM"]);
}

#[test]
fn regex_search_filters_by_pattern() {
    let mut app = loaded_app(&["make -j4", "ls", "ping -c 10 host"], &[]);
    app.view = ViewMode::All;
    app.regex_mode = true;
    app.search_string = "[0-9]+".to_string();
    app.search();
    assert_eq!(app.get_commands(), &["make -j4", "ping -c 10 host"]);
}

#[test]
fn restore_rewinds_a_destructive_search() {
    let mut app = loaded_app(&["ls", "echo ok", "clear"], &[]);
    app.view = ViewMode::All;
    app.search_string = "cl".to_string();
    app.search();
    assert_eq!(app.get_commands(), &["clear"]);
    // dropping the last keystroke must widen the result set again
    app.search_string.pop();
    app.restore();
    app.search();
    assert_eq!(app.get_commands(), &["echo ok", "clear"]);
}

#[test]
fn add_or_rm_fav() {
    for command in ["cat spam", "grep -r spam .", "ping -c 10 www.google.com"] {
        let mut app = loaded_app(
            &["cat spam", "grep -r spam .", "ping -c 10 www.google.com"],
            &[],
        );
        app.add_or_rm_fav(command.to_string());
        assert!(app
            .commands
            .as_ref()
            .unwrap()
            .favorites
            .contains(&command.to_string()));
        app.add_or_rm_fav(command.to_string());
        assert!(!app
            .commands
            .as_ref()
            .unwrap()
            .favorites
            .contains(&command.to_string()));
    }
}

#[test]
fn toggling_favorite_twice_restores_the_list() {
    let mut app = loaded_app(&["a", "b", "c"], &["a", "b"]);
    app.add_or_rm_fav("c".to_string());
    app.add_or_rm_fav("c".to_string());
    assert_eq!(app.commands.as_ref().unwrap().favorites, &["a", "b"]);
    app.add_or_rm_fav("a".to_string());
    app.add_or_rm_fav("a".to_string());
    let favorites = &app.commands.as_ref().unwrap().favorites;
    assert_eq!(favorites.len(), 2);
    assert!(favorites.contains(&"a".to_string()));
    assert!(favorites.contains(&"b".to_string()));
}

#[test]
fn delete_from_history() {
    for command in ["cat spam", "grep -r spam .", "ping -c 10 www.google.com"] {
        let mut app = loaded_app(
            &["cat spam", "grep -r spam .", "ping -c 10 www.google.com"],
            &[],
        );
        app.delete_from_history(command.to_string());
        assert!(!app.get_commands().contains(&command.to_string()));
    }
}

#[test]
fn delete_removes_every_exact_occurrence_only() {
    let mut app = Application::new("bash");
    app.load_commands(
        strings(&["ls", "ls -la", "ls", "cat ls"]),
        strings(&["ls"]),
    );
    app.delete_from_history("ls".to_string());
    app.view = ViewMode::All;
    assert_eq!(app.get_commands(), &["ls -la", "cat ls"]);
    app.view = ViewMode::Favorites;
    assert_eq!(app.get_commands(), &Vec::<String>::new());
}

#[test]
fn toggle_view_cycles_through_all_three() {
    let cases = [
        (ViewMode::Sorted, ViewMode::Favorites),
        (ViewMode::Favorites, ViewMode::All),
        (ViewMode::All, ViewMode::Sorted),
    ];
    for (before, after) in cases {
        let mut app = Application::new("bash");
        app.view = before;
        app.toggle_view();
        assert_eq!(app.view, after);
    }
}

#[test]
fn toggle_regex_mode() {
    for regex_mode in [true, false] {
        let mut app = Application::new("bash");
        app.regex_mode = regex_mode;
        app.toggle_regex_mode();
        assert_eq!(app.regex_mode, !regex_mode);
    }
}

#[test]
fn toggle_case() {
    for case_sensitivity in [true, false] {
        let mut app = Application::new("bash");
        app.case_sensitivity = case_sensitivity;
        app.toggle_case();
        assert_eq!(app.case_sensitivity, !case_sensitivity);
    }
}
