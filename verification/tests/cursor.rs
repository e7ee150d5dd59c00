use hstr::ui::UserInterface;

fn entries(n: usize) -> Vec<String> {
    (0..n).map(|i| format!("command {}", i)).collect()
}

#[test]
fn new_cursor_starts_at_top_of_first_page() {
    let ui = UserInterface::new(5);
    assert_eq!(ui.page, 1);
    assert_eq!(ui.selected, 0);
}

#[test]
fn turn_page_wraps_forward_from_last_page() {
    // 20 entries at 5 per page fill exactly 4 pages
    let commands = entries(20);
    let mut ui = UserInterface::new(5);
    ui.set_page(4);
    ui.turn_page(&commands, 1);
    assert_eq!(ui.page, 1);
}

#[test]
fn turn_page_wraps_backward_from_first_page() {
    let commands = entries(20);
    let mut ui = UserInterface::new(5);
    ui.turn_page(&commands, -1);
    assert_eq!(ui.page, 4);
}

#[test]
fn turn_page_with_no_entries_stays_on_page_one() {
    let commands = entries(0);
    let mut ui = UserInterface::new(5);
    ui.turn_page(&commands, 1);
    assert_eq!(ui.page, 1);
    ui.turn_page(&commands, -1);
    assert_eq!(ui.page, 1);
}

#[test]
fn last_page_may_be_shorter() {
    let commands = entries(12);
    let mut ui = UserInterface::new(5);
    assert_eq!(ui.get_page_size(&commands), 5);
    ui.set_page(3);
    assert_eq!(ui.get_page_size(&commands), 2);
    assert_eq!(ui.get_page(&commands), &["command 10", "command 11"]);
}

#[test]
fn page_out_of_range_is_empty() {
    let commands = entries(12);
    let mut ui = UserInterface::new(5);
    ui.set_page(4);
    assert_eq!(ui.get_page(&commands), Vec::<String>::new());
    assert_eq!(ui.get_page_size(&commands), 0);
}

#[test]
fn moving_past_bottom_of_page_turns_to_next_page() {
    let commands = entries(12);
    let mut ui = UserInterface::new(5);
    ui.set_selected(4);
    ui.move_selected(&commands, 1);
    assert_eq!(ui.page, 2);
    assert_eq!(ui.selected, 0);
}

#[test]
fn moving_above_top_of_page_turns_to_previous_page() {
    let commands = entries(12);
    let mut ui = UserInterface::new(5);
    ui.set_page(2);
    ui.move_selected(&commands, -1);
    assert_eq!(ui.page, 1);
    // the previous page holds five entries, so its bottom row is selected
    assert_eq!(ui.selected, 4);
}

#[test]
fn backward_wrap_lands_on_size_of_new_page() {
    // wrapping from page 1 reaches the short last page
    let commands = entries(12);
    let mut ui = UserInterface::new(5);
    ui.move_selected(&commands, -1);
    assert_eq!(ui.page, 3);
    assert_eq!(ui.selected, 1);
}

#[test]
fn plain_moves_stay_on_the_page() {
    let commands = entries(12);
    let mut ui = UserInterface::new(5);
    ui.move_selected(&commands, 1);
    assert_eq!(ui.page, 1);
    assert_eq!(ui.selected, 1);
    ui.move_selected(&commands, -1);
    assert_eq!(ui.page, 1);
    assert_eq!(ui.selected, 0);
}

#[test]
fn get_selected_returns_the_highlighted_entry() {
    let commands = entries(12);
    let mut ui = UserInterface::new(5);
    ui.set_page(2);
    ui.set_selected(3);
    assert_eq!(ui.get_selected(&commands), "command 8");
}

#[test]
fn status_labels() {
    let ui = UserInterface::new(5);
    assert_eq!(ui.display_view(hstr::app::ViewMode::Sorted), "sorted");
    assert_eq!(ui.display_view(hstr::app::ViewMode::Favorites), "favorites");
    assert_eq!(ui.display_view(hstr::app::ViewMode::All), "all");
    assert_eq!(ui.display_case(true), "sensitive");
    assert_eq!(ui.display_case(false), "insensitive");
    assert_eq!(ui.display_regex_mode(true), "on");
    assert_eq!(ui.display_regex_mode(false), "off");
}
