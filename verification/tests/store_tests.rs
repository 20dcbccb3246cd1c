use rustodo::codec::DecodeError;
use rustodo::store::{Store, StoreError};
use rustodo::task::Task;

fn scan_pairs(store: &Store) -> Vec<(String, bool)> {
    store
        .scan()
        .unwrap()
        .into_iter()
        .map(|t| (t.title, t.is_done))
        .collect()
}

#[test]
fn record_round_trip_plain() {
    let t = Task::new(String::from("buy milk"), false);
    let rec = t.to_record();
    assert_eq!(rec, vec![String::from("buy milk"), String::from("false")]);
    let back = Task::from_record(rec).unwrap();
    assert_eq!(back.title, "buy milk");
    assert!(!back.is_done);
}

#[test]
fn record_round_trip_comma_title() {
    let t = Task::new(String::from("eggs, bacon, bread"), true);
    let rec = t.to_record();
    assert_eq!(rec[0], "eggs, bacon, bread");
    assert_eq!(rec[1], "true");
    let back = Task::from_record(rec).unwrap();
    assert_eq!(back.title, "eggs, bacon, bread");
    assert!(back.is_done);
}

#[test]
fn record_rejects_wrong_field_count() {
    let e = Task::from_record(vec![String::from("only one")]).unwrap_err();
    assert!(matches!(e, DecodeError::FieldCount));
    let e = Task::from_record(vec![
        String::from("a"),
        String::from("true"),
        String::from("extra"),
    ])
    .unwrap_err();
    assert!(matches!(e, DecodeError::FieldCount));
}

#[test]
fn record_rejects_bad_flag() {
    let e = Task::from_record(vec![String::from("a"), String::from("maybe")]).unwrap_err();
    assert!(matches!(e, DecodeError::Flag));
    assert!(!e.reason().is_empty());
}

#[test]
fn fresh_store_has_header_and_scans_empty() {
    let store = Store::open_or_create(None);
    assert_eq!(store.content(), "title,is_done\n");
    assert_eq!(scan_pairs(&store), vec![]);
}

#[test]
fn empty_file_gets_header_too() {
    let store = Store::open_or_create(Some(String::new()));
    assert_eq!(store.content(), "title,is_done\n");
    assert_eq!(scan_pairs(&store), vec![]);
}

#[test]
fn existing_content_is_kept() {
    let text = String::from("title,is_done\nwalk dog,false\n");
    let store = Store::open_or_create(Some(text.clone()));
    assert_eq!(store.content(), &text);
    assert_eq!(scan_pairs(&store), vec![(String::from("walk dog"), false)]);
}

#[test]
fn append_then_scan_keeps_order_and_values() {
    let mut store = Store::open_or_create(None);
    store.append(&Task::new(String::from("plain"), false));
    store.append(&Task::new(String::from("with, comma"), true));
    store.append(&Task::new(String::from("with \"quote\""), false));
    store.append(&Task::new(String::from("line\nbreak"), true));
    assert_eq!(
        scan_pairs(&store),
        vec![
            (String::from("plain"), false),
            (String::from("with, comma"), true),
            (String::from("with \"quote\""), false),
            (String::from("line\nbreak"), true),
        ]
    );
}

#[test]
fn comma_title_is_quoted_on_disk() {
    let mut store = Store::open_or_create(None);
    store.append(&Task::new(String::from("a,b"), true));
    assert_eq!(store.content(), "title,is_done\n\"a,b\",true\n");
}

#[test]
fn quote_title_is_doubled_on_disk() {
    let mut store = Store::open_or_create(None);
    store.append(&Task::new(String::from("say \"hi\""), false));
    assert_eq!(store.content(), "title,is_done\n\"say \"\"hi\"\"\",false\n");
}

#[test]
fn scan_rejects_wrong_field_count() {
    let store = Store::open_or_create(Some(String::from("title,is_done\nlonely\n")));
    let e = store.scan().unwrap_err();
    assert!(matches!(e, StoreError::Decode(DecodeError::FieldCount)));
}

#[test]
fn scan_rejects_bad_flag() {
    let store = Store::open_or_create(Some(String::from("title,is_done\na,perhaps\n")));
    let e = store.scan().unwrap_err();
    assert!(matches!(e, StoreError::Decode(DecodeError::Flag)));
}

#[test]
fn scan_rejects_unterminated_quote() {
    let store = Store::open_or_create(Some(String::from("title,is_done\n\"open,true\n")));
    let e = store.scan().unwrap_err();
    assert!(matches!(e, StoreError::Decode(DecodeError::Malformed)));
}

#[test]
fn scan_rejects_stray_quote_in_unquoted_field() {
    let store = Store::open_or_create(Some(String::from("title,is_done\nab\"c,true\n")));
    let e = store.scan().unwrap_err();
    assert!(matches!(e, StoreError::Decode(DecodeError::Malformed)));
}

#[test]
fn rewrite_all_replaces_content() {
    let mut store = Store::open_or_create(None);
    store.append(&Task::new(String::from("old"), false));
    store.rewrite_all(&vec![
        Task::new(String::from("one"), true),
        Task::new(String::from("two"), false),
    ]);
    assert_eq!(
        scan_pairs(&store),
        vec![(String::from("one"), true), (String::from("two"), false)]
    );
}

#[test]
fn reset_then_open_scans_empty() {
    let mut store = Store::open_or_create(None);
    store.append(&Task::new(String::from("gone soon"), false));
    store.reset();
    assert_eq!(store.content(), "");
    let reopened = Store::open_or_create(Some(store.content().clone()));
    assert_eq!(reopened.content(), "title,is_done\n");
    assert_eq!(scan_pairs(&reopened), vec![]);
}
