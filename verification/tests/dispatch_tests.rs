use rustodo::dispatch::{mark_task_as_done, run, RunOutcome};
use rustodo::query::EmptyKind;
use rustodo::store::Store;
use rustodo::task::{ActionType, ListOptions, RustodoArgs, Task};

fn scan_pairs(store: &Store) -> Vec<(String, bool)> {
    store
        .scan()
        .unwrap()
        .into_iter()
        .map(|t| (t.title, t.is_done))
        .collect()
}

fn store_with(pairs: &[(&str, bool)]) -> Store {
    let mut store = Store::open_or_create(None);
    for (title, done) in pairs {
        store.append(&Task::new(String::from(*title), *done));
    }
    store
}

#[test]
fn mark_sets_the_flag() {
    let mut store = store_with(&[("a", false), ("b", false)]);
    mark_task_as_done(&mut store, &String::from("b")).unwrap();
    assert_eq!(
        scan_pairs(&store),
        vec![(String::from("a"), false), (String::from("b"), true)]
    );
}

#[test]
fn mark_twice_does_not_toggle_back() {
    let mut store = store_with(&[("a", false)]);
    mark_task_as_done(&mut store, &String::from("a")).unwrap();
    mark_task_as_done(&mut store, &String::from("a")).unwrap();
    assert_eq!(scan_pairs(&store), vec![(String::from("a"), true)]);
}

#[test]
fn mark_missing_title_leaves_content_identical() {
    let mut store = store_with(&[("a", false), ("b", true)]);
    let before = store.content().clone();
    mark_task_as_done(&mut store, &String::from("zzz")).unwrap();
    assert_eq!(store.content(), &before);
}

#[test]
fn mark_touches_only_the_first_duplicate() {
    let mut store = store_with(&[("twin", false), ("twin", false)]);
    mark_task_as_done(&mut store, &String::from("twin")).unwrap();
    assert_eq!(
        scan_pairs(&store),
        vec![(String::from("twin"), true), (String::from("twin"), false)]
    );
}

#[test]
fn run_add_appends_a_pending_task() {
    let mut store = Store::open_or_create(None);
    let args = RustodoArgs { action: ActionType::Add(Task::new(String::from("new"), true)) };
    let out = run(args, &mut store).unwrap();
    assert!(matches!(out, RunOutcome::Added));
    // whatever flag the parsed task carried, an added task starts pending
    assert_eq!(scan_pairs(&store), vec![(String::from("new"), false)]);
}

#[test]
fn run_list_returns_the_filtered_view() {
    let mut store = store_with(&[("a", true), ("b", false)]);
    let args = RustodoArgs {
        action: ActionType::List(ListOptions {
            completed: true,
            pending: false,
            sort_by_title: false,
            reverse: false,
        }),
    };
    match run(args, &mut store).unwrap() {
        RunOutcome::Listed(v) => {
            assert_eq!(v.len(), 1);
            assert_eq!(v[0].title, "a");
            assert!(v[0].is_done);
        },
        other => panic!("expected a listing, got {:?}", other),
    }
}

#[test]
fn run_list_distinguishes_the_empty_conditions() {
    let all = ListOptions { completed: false, pending: false, sort_by_title: false, reverse: false };
    let only_done =
        ListOptions { completed: true, pending: false, sort_by_title: false, reverse: false };

    let mut empty_store = Store::open_or_create(None);
    let args = RustodoArgs { action: ActionType::List(all) };
    match run(args, &mut empty_store).unwrap() {
        RunOutcome::Empty(k) => assert!(matches!(k, EmptyKind::NoTasks)),
        other => panic!("expected an empty outcome, got {:?}", other),
    }

    let mut pending_store = store_with(&[("b", false)]);
    let args = RustodoArgs { action: ActionType::List(only_done) };
    match run(args, &mut pending_store).unwrap() {
        RunOutcome::Empty(k) => assert!(matches!(k, EmptyKind::NoMatch)),
        other => panic!("expected an empty outcome, got {:?}", other),
    }
}

#[test]
fn run_mark_rewrites_the_store() {
    let mut store = store_with(&[("a", false)]);
    let args = RustodoArgs { action: ActionType::Mark(Task::new(String::from("a"), false)) };
    let out = run(args, &mut store).unwrap();
    assert!(matches!(out, RunOutcome::Marked));
    assert_eq!(scan_pairs(&store), vec![(String::from("a"), true)]);
}

#[test]
fn run_reset_then_open_scans_empty() {
    let mut store = store_with(&[("a", false)]);
    let args = RustodoArgs { action: ActionType::Reset };
    let out = run(args, &mut store).unwrap();
    assert!(matches!(out, RunOutcome::Cleared));
    assert_eq!(store.content(), "");
    let reopened = Store::open_or_create(None);
    assert_eq!(scan_pairs(&reopened), vec![]);
    assert_eq!(reopened.content(), "title,is_done\n");
}
