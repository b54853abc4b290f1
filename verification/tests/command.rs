use mru_sort::command::{load, record_usage, Backing};
use mru_sort::error::MruError;
use mru_sort::store::MruRecord;

fn present(text: &str) -> Backing {
    Backing::Present { text: text.as_bytes().to_vec() }
}

#[test]
fn load_of_unused_realm_is_empty() {
    let record = load(Backing::Absent).unwrap();
    assert!(record.is_empty());
}

#[test]
fn load_reads_what_is_stored() {
    let record = load(present(r#"{"a": 100, "b": 200}"#)).unwrap();
    assert_eq!(record.get("a"), Some(100));
    assert_eq!(record.get("b"), Some(200));
    assert_eq!(record.len(), 2);
}

#[test]
fn load_of_unreadable_store_is_unavailable() {
    match load(Backing::Unreadable { cause: "permission denied".to_string() }) {
        Err(MruError::StoreUnavailable { detail }) => assert_eq!(detail, "permission denied"),
        other => panic!("expected an unavailable store, got {:?}", other),
    }
}

#[test]
fn load_of_invalid_content_is_corrupt() {
    assert!(matches!(load(present("{oops")), Err(MruError::StoreCorrupt { .. })));
    assert!(matches!(load(present("")), Err(MruError::StoreCorrupt { .. })));
}

#[test]
fn use_on_invalid_content_is_corrupt() {
    let written = record_usage(present("{oops"), "a".to_string(), Some(5));
    assert!(matches!(written, Err(MruError::StoreCorrupt { .. })));
}

#[test]
fn use_on_unreadable_store_is_unavailable() {
    let backing = Backing::Unreadable { cause: "is a directory".to_string() };
    match record_usage(backing, "a".to_string(), Some(5)) {
        Err(MruError::StoreUnavailable { detail }) => assert_eq!(detail, "is a directory"),
        other => panic!("expected an unavailable store, got {:?}", other),
    }
}

#[test]
fn use_without_time_is_clock_failure() {
    let written = record_usage(present("{}"), "a".to_string(), None);
    assert!(matches!(written, Err(MruError::ClockFailure)));
}

#[test]
fn load_failure_comes_before_clock_failure() {
    let written = record_usage(present("[]"), "a".to_string(), None);
    assert!(matches!(written, Err(MruError::StoreCorrupt { .. })));
}

#[test]
fn use_on_unused_realm_stores_one_value() {
    let text = record_usage(Backing::Absent, "a".to_string(), Some(1234)).unwrap();
    assert_eq!(text, br#"{"a":1234}"#.to_vec());
}

#[test]
fn use_adds_to_what_is_stored() {
    let text = record_usage(present(r#"{"a": 100, "b": 200}"#), "c".to_string(), Some(300)).unwrap();
    let record = MruRecord::decode(&text).unwrap();
    assert_eq!(
        record.to_pairs(),
        vec![("a".to_string(), 100), ("b".to_string(), 200), ("c".to_string(), 300)]
    );
}

#[test]
fn use_overwrites_the_earlier_time() {
    let first = record_usage(Backing::Absent, "v".to_string(), Some(10)).unwrap();
    let second = record_usage(Backing::Present { text: first }, "v".to_string(), Some(20)).unwrap();
    let record = load(Backing::Present { text: second }).unwrap();
    assert_eq!(record.to_pairs(), vec![("v".to_string(), 20)]);
}

#[test]
fn store_then_load_round_trips() {
    let mut record = MruRecord::new();
    record.record_use("x".to_string(), 1);
    record.record_use("y".to_string(), 2);
    let loaded = load(Backing::Present { text: record.encode().unwrap() }).unwrap();
    assert_eq!(loaded.to_pairs(), record.to_pairs());
}

#[test]
fn messages_name_the_failure() {
    let corrupt = MruError::StoreCorrupt { detail: "expected value at line 1 column 1".to_string() };
    assert_eq!(corrupt.message(), "mru parsing failed: expected value at line 1 column 1");
    let unavailable = MruError::StoreUnavailable { detail: "permission denied".to_string() };
    assert_eq!(unavailable.message(), "mru store unavailable: permission denied");
    assert_eq!(MruError::ClockFailure.message(), "system clock is before the Unix epoch");
}

#[test]
fn two_uses_keep_only_the_later_time() {
    let first = record_usage(present(r#"{"a": 100, "b": 200}"#), "a".to_string(), Some(300)).unwrap();
    let second = record_usage(Backing::Present { text: first }, "a".to_string(), Some(400)).unwrap();
    let record = load(Backing::Present { text: second }).unwrap();
    assert_eq!(record.to_pairs(), vec![("a".to_string(), 400), ("b".to_string(), 200)]);
}

#[test]
fn empty_record_round_trips_as_stored_text() {
    let text = MruRecord::new().encode().unwrap();
    let record = load(Backing::Present { text }).unwrap();
    assert!(record.is_empty());
}

#[test]
fn corrupt_store_carries_the_parse_failure() {
    match load(present("{\"a\": }")) {
        Err(error @ MruError::StoreCorrupt { .. }) => {
            assert_eq!(error.message(), "mru parsing failed: expected value at line 1 column 7");
        }
        other => panic!("expected a corrupt store, got {:?}", other),
    }
}
