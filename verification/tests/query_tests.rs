use rustodo::query::{apply, EmptyKind};
use rustodo::task::{ListOptions, Task};

fn tasks(pairs: &[(&str, bool)]) -> Vec<Task> {
    pairs
        .iter()
        .map(|(title, done)| Task::new(String::from(*title), *done))
        .collect()
}

fn pairs(ts: Vec<Task>) -> Vec<(String, bool)> {
    ts.into_iter().map(|t| (t.title, t.is_done)).collect()
}

fn options(completed: bool, pending: bool, sort_by_title: bool, reverse: bool) -> ListOptions {
    ListOptions { completed, pending, sort_by_title, reverse }
}

#[test]
fn completed_filter_keeps_done_tasks() {
    let r = apply(tasks(&[("a", true), ("b", false)]), &options(true, false, false, false));
    assert_eq!(pairs(r.unwrap()), vec![(String::from("a"), true)]);
}

#[test]
fn pending_filter_keeps_open_tasks() {
    let r = apply(tasks(&[("a", true), ("b", false)]), &options(false, true, false, false));
    assert_eq!(pairs(r.unwrap()), vec![(String::from("b"), false)]);
}

#[test]
fn completed_wins_when_both_filters_set() {
    let r = apply(tasks(&[("a", true), ("b", false)]), &options(true, true, false, false));
    assert_eq!(pairs(r.unwrap()), vec![(String::from("a"), true)]);
}

#[test]
fn no_filter_keeps_everything() {
    let r = apply(tasks(&[("a", true), ("b", false)]), &options(false, false, false, false));
    assert_eq!(
        pairs(r.unwrap()),
        vec![(String::from("a"), true), (String::from("b"), false)]
    );
}

#[test]
fn sort_orders_by_title_ascending() {
    let r = apply(
        tasks(&[("b", false), ("a", false), ("c", false)]),
        &options(false, false, true, false),
    );
    let got: Vec<String> = pairs(r.unwrap()).into_iter().map(|p| p.0).collect();
    assert_eq!(got, vec!["a", "b", "c"]);
}

#[test]
fn sort_then_reverse_gives_descending_titles() {
    let r = apply(
        tasks(&[("b", false), ("a", false), ("c", false)]),
        &options(false, false, true, true),
    );
    let got: Vec<String> = pairs(r.unwrap()).into_iter().map(|p| p.0).collect();
    assert_eq!(got, vec!["c", "b", "a"]);
}

#[test]
fn reverse_alone_reverses_input_order() {
    let r = apply(
        tasks(&[("b", false), ("a", false), ("c", false)]),
        &options(false, false, false, true),
    );
    let got: Vec<String> = pairs(r.unwrap()).into_iter().map(|p| p.0).collect();
    assert_eq!(got, vec!["c", "a", "b"]);
}

#[test]
fn sort_is_stable_for_equal_titles() {
    let r = apply(
        tasks(&[("same", false), ("alpha", true), ("same", true)]),
        &options(false, false, true, false),
    );
    assert_eq!(
        pairs(r.unwrap()),
        vec![
            (String::from("alpha"), true),
            (String::from("same"), false),
            (String::from("same"), true),
        ]
    );
}

#[test]
fn empty_store_and_empty_filter_are_distinct() {
    let none = apply(tasks(&[]), &options(false, false, false, false)).unwrap_err();
    assert!(matches!(none, EmptyKind::NoTasks));
    let no_match = apply(tasks(&[("b", false)]), &options(true, false, false, false)).unwrap_err();
    assert!(matches!(no_match, EmptyKind::NoMatch));
    assert_ne!(none.message(), no_match.message());
    assert!(!none.message().is_empty());
    assert!(!no_match.message().is_empty());
}
