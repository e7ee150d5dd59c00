use hstr::sort::{frequency_map, position_map, unique};

#[test]
fn sort() {
    let vec = vec![3, 2, 4, 6, 2, 4, 3, 3, 4, 5, 6, 3, 2, 4, 5, 5, 3];
    let sorted_vec = hstr::sort::sort(vec);
    assert_eq!(sorted_vec, [3, 4, 5, 2, 6]);
}

#[test]
fn test_sort() {
    let vec = vec![3, 2, 4, 6, 2, 4, 3, 3, 4, 5, 6, 3, 2, 4, 5, 5, 3];
    let vec = hstr::sort::sort(vec);
    assert_eq!(vec, [3, 4, 5, 2, 6]);
}

#[test]
fn sort_empty_input_gives_empty_output() {
    let vec: Vec<i32> = Vec::new();
    assert_eq!(hstr::sort::sort(vec), Vec::<i32>::new());
}

#[test]
fn sort_all_distinct_is_pure_recency_order() {
    let vec = vec![10, 20, 30, 40];
    assert_eq!(hstr::sort::sort(vec), [40, 30, 20, 10]);
}

#[test]
fn sort_strings_by_frequency_then_recency() {
    let history: Vec<String> = ["make", "ls", "make", "cd ..", "ls", "make"]
        .iter()
        .map(|s| s.to_string())
        .collect();
    let ranked = hstr::sort::sort(history);
    assert_eq!(ranked, ["make", "ls", "cd .."]);
}

#[test]
fn unique_keeps_first_occurrences_in_order() {
    let history: Vec<String> = ["b", "a", "b", "c", "a"].iter().map(|s| s.to_string()).collect();
    let deduped = unique(&history);
    assert_eq!(deduped, ["b", "a", "c"]);
}

#[test]
fn frequency_map_counts_each_position() {
    let entries = vec![3, 2, 3, 3];
    assert_eq!(frequency_map(&entries), [3, 1, 3, 3]);
}

#[test]
fn position_map_gives_last_occurrence() {
    let entries = vec![3, 2, 3, 3];
    assert_eq!(position_map(&entries), [3, 1, 3, 3]);
    let entries = vec![7, 8, 7, 9];
    assert_eq!(position_map(&entries), [2, 1, 2, 3]);
}
