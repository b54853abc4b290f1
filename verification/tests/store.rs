use mru_sort::error::MruError;
use mru_sort::store::MruRecord;
use std::collections::HashMap;

fn pair(value: &str, stamp: u64) -> (String, u64) {
    (value.to_string(), stamp)
}

#[test]
fn new_record_is_empty() {
    let record = MruRecord::new();
    assert!(record.is_empty());
    assert_eq!(record.len(), 0);
    assert_eq!(record.get("a"), None);
    assert_eq!(record.score("a"), 0);
}

#[test]
fn record_use_inserts() {
    let mut record = MruRecord::new();
    record.record_use("a".to_string(), 100);
    assert_eq!(record.get("a"), Some(100));
    assert_eq!(record.score("a"), 100);
    assert_eq!(record.len(), 1);
    assert!(!record.is_empty());
    assert_eq!(record.get("b"), None);
}

#[test]
fn record_use_last_write_wins() {
    let mut record = MruRecord::new();
    record.record_use("v".to_string(), 10);
    record.record_use("v".to_string(), 20);
    assert_eq!(record.get("v"), Some(20));
    assert_eq!(record.len(), 1);
}

#[test]
fn record_use_overwrites_with_lower_time() {
    let mut record = MruRecord::new();
    record.record_use("v".to_string(), 20);
    record.record_use("v".to_string(), 10);
    assert_eq!(record.get("v"), Some(10));
}

#[test]
fn record_use_leaves_other_values() {
    let mut record = MruRecord::new();
    record.record_use("b".to_string(), 2);
    record.record_use("a".to_string(), 1);
    record.record_use("c".to_string(), 3);
    record.record_use("b".to_string(), 9);
    assert_eq!(record.get("a"), Some(1));
    assert_eq!(record.get("b"), Some(9));
    assert_eq!(record.get("c"), Some(3));
    assert_eq!(record.len(), 3);
}

#[test]
fn record_use_accepts_empty_value_and_extremes() {
    let mut record = MruRecord::new();
    record.record_use(String::new(), u64::MAX);
    record.record_use("zero".to_string(), 0);
    assert_eq!(record.get(""), Some(u64::MAX));
    assert_eq!(record.get("zero"), Some(0));
    assert_eq!(record.score("zero"), 0);
}

#[test]
fn to_pairs_is_in_byte_order() {
    let mut record = MruRecord::new();
    for (value, stamp) in [("b", 2), ("é", 5), ("", 7), ("a", 1), ("ab", 3), ("B", 4)] {
        record.record_use(value.to_string(), stamp);
    }
    assert_eq!(
        record.to_pairs(),
        vec![pair("", 7), pair("B", 4), pair("a", 1), pair("ab", 3), pair("b", 2), pair("é", 5)]
    );
}

#[test]
fn from_pairs_later_pair_overrides() {
    let record = MruRecord::from_pairs(vec![pair("a", 1), pair("b", 2), pair("a", 3)]);
    assert_eq!(record.to_pairs(), vec![pair("a", 3), pair("b", 2)]);
}

#[test]
fn from_pairs_of_nothing_is_empty() {
    assert!(MruRecord::from_pairs(Vec::new()).is_empty());
}

#[test]
fn many_values_are_all_found() {
    let mut record = MruRecord::new();
    for i in 0..500u64 {
        record.record_use(format!("value-{}", (i * 7919) % 500), i);
    }
    assert_eq!(record.len(), 500);
    for i in 0..500u64 {
        assert_eq!(record.get(&format!("value-{}", (i * 7919) % 500)), Some(i));
    }
    assert_eq!(record.get("value-500"), None);
}

#[test]
fn decode_reads_a_mapping() {
    let record = MruRecord::decode(br#"{"a": 100, "b": 200}"#).unwrap();
    assert_eq!(record.to_pairs(), vec![pair("a", 100), pair("b", 200)]);
}

#[test]
fn decode_ignores_whitespace() {
    let record = MruRecord::decode(b" {\n\t\"k\" :\r\n 5 }\n").unwrap();
    assert_eq!(record.to_pairs(), vec![pair("k", 5)]);
}

#[test]
fn decode_reads_empty_mapping() {
    assert!(MruRecord::decode(b"{}").unwrap().is_empty());
}

#[test]
fn decode_reads_escapes_and_largest_time() {
    let record = MruRecord::decode(r#"{"a\"\né": 18446744073709551615}"#.as_bytes()).unwrap();
    assert_eq!(record.get("a\"\né"), Some(u64::MAX));
}

#[test]
fn decode_refuses_what_is_no_mapping() {
    let texts: Vec<&[u8]> = vec![
        b"",
        b"not json",
        b"[1, 2]",
        b"42",
        br#"{"a": -1}"#,
        br#"{"a": "1"}"#,
        br#"{"a": 1.5}"#,
        br#"{"a": 18446744073709551616}"#,
        br#"{"a": 1} trailing"#,
        br#"{"a": 1"#,
        br#"{"a": null}"#,
    ];
    for text in texts {
        match MruRecord::decode(text) {
            Err(MruError::StoreCorrupt { detail }) => assert!(!detail.is_empty()),
            other => panic!("expected a corrupt store, got {:?}", other),
        }
    }
}

#[test]
fn encode_writes_the_mapping() {
    let mut record = MruRecord::new();
    record.record_use("a".to_string(), 100);
    record.record_use("b \"quoted\"".to_string(), 200);
    record.record_use("é".to_string(), u64::MAX);
    let text = record.encode().unwrap();
    let read: HashMap<String, u64> = serde_json::from_slice(&text).unwrap();
    let mut expected = HashMap::new();
    expected.insert("a".to_string(), 100);
    expected.insert("b \"quoted\"".to_string(), 200);
    expected.insert("é".to_string(), u64::MAX);
    assert_eq!(read, expected);
}

#[test]
fn encode_of_empty_record_is_empty_object() {
    assert_eq!(MruRecord::new().encode().unwrap(), b"{}".to_vec());
}

#[test]
fn encode_then_decode_gives_the_record_back() {
    let mut record = MruRecord::new();
    for (i, value) in ["", "a", "b", "line with spaces", "日本語", "\\", "\u{0}"].iter().enumerate() {
        record.record_use(value.to_string(), 1_700_000_000 + i as u64);
    }
    let text = record.encode().unwrap();
    let again = MruRecord::decode(&text).unwrap();
    assert_eq!(again.to_pairs(), record.to_pairs());
}

#[test]
fn decode_names_what_is_wrong() {
    let texts: Vec<&[u8]> = vec![b"", b"{oops", b"[1, 2]", br#"{"a": -1}"#, b"{\n  \"a\": 1,\n  \"b\": x\n}"];
    for text in texts {
        let expected = serde_json::from_reader::<&[u8], HashMap<String, u64>>(text)
            .unwrap_err()
            .to_string();
        match MruRecord::decode(text) {
            Err(MruError::StoreCorrupt { detail }) => assert_eq!(detail, expected),
            other => panic!("expected a corrupt store, got {:?}", other),
        }
    }
    match MruRecord::decode(b"{\n  \"a\": 1,\n  \"b\": x\n}") {
        Err(MruError::StoreCorrupt { detail }) => assert!(detail.ends_with("at line 3 column 8")),
        other => panic!("expected a corrupt store, got {:?}", other),
    }
}

#[test]
fn encode_gives_one_object_with_integer_members() {
    let mut record = MruRecord::new();
    record.record_use("a".to_string(), 100);
    assert_eq!(record.encode().unwrap(), br#"{"a":100}"#.to_vec());
    let value: serde_json::Value = serde_json::from_slice(&record.encode().unwrap()).unwrap();
    let object = value.as_object().unwrap();
    assert_eq!(object.len(), 1);
    assert_eq!(object.get("a").unwrap().as_u64(), Some(100));
    assert!(!object.get("a").unwrap().is_string());
    assert!(!object.get("a").unwrap().is_f64());
}

#[test]
fn encode_of_small_record_holds_nothing_else() {
    let mut record = MruRecord::new();
    record.record_use("c".to_string(), 5);
    let text = record.encode().unwrap();
    assert_eq!(text, br#"{"c":5}"#.to_vec());
    assert_eq!(MruRecord::decode(&text).unwrap().to_pairs(), vec![pair("c", 5)]);
}

#[test]
fn encode_keeps_empty_key_quotes_and_largest_time() {
    let mut record = MruRecord::new();
    record.record_use(String::new(), 0);
    record.record_use("a\"b".to_string(), 1);
    record.record_use("k".to_string(), u64::MAX);
    let again = MruRecord::decode(&record.encode().unwrap()).unwrap();
    assert_eq!(again.to_pairs(), vec![pair("", 0), pair("a\"b", 1), pair("k", u64::MAX)]);
    assert_eq!(again.get("k"), Some(18446744073709551615));
}

#[test]
fn encode_succeeds_on_many_values() {
    let mut record = MruRecord::new();
    for i in 0..200u64 {
        record.record_use(format!("line {}\t\"{}\"\n", i, i * i), i);
    }
    let again = MruRecord::decode(&record.encode().unwrap()).unwrap();
    assert_eq!(again.to_pairs(), record.to_pairs());
}
