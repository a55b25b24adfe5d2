use easyenglish::history::HistoryStore;

#[test]
fn cap_zero_record_is_noop() {
    let mut h = HistoryStore::with_capacity(0);
    h.record("apple");
    assert!(h.is_empty());
}

#[test]
fn record_single() {
    let mut h = HistoryStore::with_capacity(10);
    h.record("apple");
    assert_eq!(h.len(), 1);
    assert_eq!(h.recent().first().map(|e| e.word.as_str()), Some("apple"));
}

#[test]
fn record_dedups_existing_word_and_moves_to_front() {
    let mut h = HistoryStore::with_capacity(10);
    h.record("apple");
    h.record("banana");
    h.record("apple");
    let words: Vec<String> = h.recent().into_iter().map(|e| e.word).collect();
    assert_eq!(words, vec!["apple".to_string(), "banana".to_string()]);
    assert_eq!(h.len(), 2);
}

#[test]
fn record_evicts_oldest_when_over_cap() {
    let mut h = HistoryStore::with_capacity(2);
    h.record("a");
    h.record("b");
    h.record("c");
    let words: Vec<String> = h.recent().into_iter().map(|e| e.word).collect();
    assert_eq!(words, vec!["c".to_string(), "b".to_string()]);
}

#[test]
fn record_empty_input_is_noop() {
    let mut h = HistoryStore::with_capacity(10);
    h.record("");
    h.record("   ");
    assert!(h.is_empty());
}

#[test]
fn clear_empties_the_store() {
    let mut h = HistoryStore::with_capacity(10);
    h.record("apple");
    h.record("banana");
    h.clear();
    assert!(h.is_empty());
}

#[test]
fn record_at_sets_timestamp_and_canonical_word() {
    let mut h = HistoryStore::with_capacity(3);
    h.record_at("  Apple ", 100);
    h.record_at("pear", 200);
    h.record_at("APPLE", 300);
    let entries: Vec<(String, i64)> =
        h.recent().into_iter().map(|e| (e.word, e.at_unix_secs)).collect();
    assert_eq!(entries, vec![("apple".to_string(), 300), ("pear".to_string(), 200)]);
}

#[test]
fn record_at_capacity_one_keeps_latest() {
    let mut h = HistoryStore::with_capacity(1);
    h.record_at("a", 1);
    h.record_at("b", 2);
    let entries: Vec<(String, i64)> =
        h.recent().into_iter().map(|e| (e.word, e.at_unix_secs)).collect();
    assert_eq!(entries, vec![("b".to_string(), 2)]);
}
