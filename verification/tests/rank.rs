use mru_sort::rank::{rank, RankOptions};
use mru_sort::store::MruRecord;

fn lines(values: &[&str]) -> Vec<String> {
    values.iter().map(|value| value.to_string()).collect()
}

fn sample_record() -> MruRecord {
    let mut record = MruRecord::new();
    record.record_use("a".to_string(), 100);
    record.record_use("b".to_string(), 200);
    record
}

fn options(unique: bool, reverse: bool) -> RankOptions {
    RankOptions { unique, reverse }
}

#[test]
fn default_options_are_off() {
    let defaults = RankOptions::default();
    assert!(!defaults.unique);
    assert!(!defaults.reverse);
}

#[test]
fn rank_puts_unused_first_then_older() {
    let out = rank(&sample_record(), &lines(&["a", "b", "c"]), &RankOptions::default());
    assert_eq!(out, lines(&["c", "a", "b"]));
}

#[test]
fn rank_unique_drops_repeats() {
    let out = rank(&sample_record(), &lines(&["b", "b", "a"]), &options(true, false));
    assert_eq!(out, lines(&["a", "b"]));
}

#[test]
fn rank_unique_reverse() {
    let out = rank(&sample_record(), &lines(&["b", "b", "a"]), &options(true, true));
    assert_eq!(out, lines(&["b", "a"]));
}

#[test]
fn rank_keeps_repeats_without_unique() {
    let out = rank(&sample_record(), &lines(&["b", "b", "a"]), &options(false, false));
    assert_eq!(out, lines(&["a", "b", "b"]));
}

#[test]
fn rank_of_nothing_is_nothing() {
    for unique in [false, true] {
        for reverse in [false, true] {
            let out = rank(&sample_record(), &[], &options(unique, reverse));
            assert!(out.is_empty());
        }
    }
}

#[test]
fn rank_with_empty_record_sorts_by_bytes() {
    let out = rank(&MruRecord::new(), &lines(&["b", "", "ab", "a", "B", "é"]), &options(false, false));
    assert_eq!(out, lines(&["", "B", "a", "ab", "b", "é"]));
}

#[test]
fn rank_breaks_ties_by_bytes() {
    let mut record = MruRecord::new();
    for value in ["pear", "apple", "fig"] {
        record.record_use(value.to_string(), 50);
    }
    let out = rank(&record, &lines(&["pear", "zebra", "fig", "apple", "ant"]), &options(false, false));
    assert_eq!(out, lines(&["ant", "zebra", "apple", "fig", "pear"]));
}

#[test]
fn rank_takes_empty_line_as_a_value() {
    let mut record = MruRecord::new();
    record.record_use(String::new(), 7);
    let out = rank(&record, &lines(&["", "x", ""]), &options(false, false));
    assert_eq!(out, lines(&["x", "", ""]));
    let out = rank(&record, &lines(&["", "x", ""]), &options(true, true));
    assert_eq!(out, lines(&["", "x"]));
}

#[test]
fn rank_reverse_is_exact_reversal() {
    let record = sample_record();
    let input = lines(&["b", "q", "a", "b", "", "c", "a", "q"]);
    let forward = rank(&record, &input, &options(false, false));
    let mut backward = rank(&record, &input, &options(false, true));
    backward.reverse();
    assert_eq!(forward, backward);
    assert_eq!(forward, lines(&["", "c", "q", "q", "a", "a", "b", "b"]));
}

#[test]
fn rank_is_idempotent() {
    let record = sample_record();
    let input = lines(&["b", "q", "a", "b", "", "c", "a", "q"]);
    for unique in [false, true] {
        for reverse in [false, true] {
            let once = rank(&record, &input, &options(unique, reverse));
            let twice = rank(&record, &once, &options(unique, reverse));
            assert_eq!(once, twice);
        }
    }
}

#[test]
fn rank_unique_leaves_each_line_once() {
    let record = sample_record();
    let input = lines(&["b", "q", "a", "b", "", "c", "a", "q", "b"]);
    let out = rank(&record, &input, &options(true, false));
    assert_eq!(out, lines(&["", "c", "q", "a", "b"]));
}

#[test]
fn rank_does_not_change_the_record() {
    let record = sample_record();
    let before = record.to_pairs();
    rank(&record, &lines(&["x", "a"]), &options(true, true));
    assert_eq!(record.to_pairs(), before);
}

#[test]
fn rank_agrees_with_sorting_pairs() {
    let mut record = MruRecord::new();
    let mut input = Vec::new();
    let mut state: u64 = 12345;
    for i in 0..300u64 {
        state = state.wrapping_mul(6364136223846793005).wrapping_add(1442695040888963407);
        let value = format!("v{}", (state >> 33) % 40);
        if i % 3 == 0 {
            record.record_use(value.clone(), (state >> 20) % 5);
        }
        input.push(value);
    }
    let mut expected: Vec<(u64, String)> =
        input.iter().map(|line| (record.score(line), line.clone())).collect();
    expected.sort();
    let plain: Vec<String> = expected.iter().map(|pair| pair.1.clone()).collect();
    assert_eq!(rank(&record, &input, &options(false, false)), plain);
    expected.dedup();
    expected.reverse();
    let deduped: Vec<String> = expected.iter().map(|pair| pair.1.clone()).collect();
    assert_eq!(rank(&record, &input, &options(true, true)), deduped);
}
