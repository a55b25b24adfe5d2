use easyenglish::cn_dataset::{build_cn_dataset, CnEntry, MAX_CN_ENGLISH};
use easyenglish::dataset::SourceRow;

fn row(word: &str, translation: &str, exchange: &str, frq: i64, bnc: i64) -> SourceRow {
    SourceRow {
        word: word.to_string(),
        phonetic: String::new(),
        translation: translation.to_string(),
        exchange: exchange.to_string(),
        frq,
        bnc,
        collins: 0,
        oxford: 0,
        tag: String::new(),
    }
}

fn terms(entries: &[CnEntry]) -> Vec<&str> {
    entries.iter().map(|e| e.term.as_str()).collect()
}

#[test]
fn terms_are_alphabetical_and_words_most_frequent_first() {
    let rows = vec![
        row("apple", "n. 苹果, 家伙", "", 100, 0),
        row("fruit", "n. 水果, 苹果", "", 50, 0),
        row("pomme", "n. 苹果", "", 0, 10),
        row("Apple", "n. 苹果公司", "", 1, 0),
        row("running", "n. 跑步", "0:run", 5, 0),
        row("rare", "n. 稀有", "", 0, 0),
    ];
    let entries = build_cn_dataset(&rows);
    assert_eq!(terms(&entries), vec!["家伙", "水果", "苹果"]);
    let apple = &entries[2];
    assert_eq!(apple.english, vec!["fruit".to_string(), "apple".to_string(), "pomme".to_string()]);
    assert_eq!(entries[0].english, vec!["apple".to_string()]);
}

#[test]
fn best_rank_of_a_word_counts_and_ties_are_alphabetical() {
    let rows = vec![
        row("beta", "n. 测试", "", 9, 0),
        row("alpha", "n. 测试", "", 9, 0),
        row("gamma", "n. 测试", "", 30, 0),
        row("gamma", "n. 测试", "", 3, 0),
    ];
    let entries = build_cn_dataset(&rows);
    assert_eq!(entries.len(), 1);
    assert_eq!(
        entries[0].english,
        vec!["gamma".to_string(), "alpha".to_string(), "beta".to_string()]
    );
}

#[test]
fn at_most_ten_english_words_per_term() {
    let words = [
        "aa", "bb", "cc", "dd", "ee", "ff", "gg", "hh", "ii", "jj", "kk", "ll",
    ];
    let rows: Vec<SourceRow> = words
        .iter()
        .enumerate()
        .map(|(i, w)| row(w, "n. 字母", "", 100 - i as i64, 0))
        .collect();
    let entries = build_cn_dataset(&rows);
    assert_eq!(entries.len(), 1);
    assert_eq!(entries[0].english.len(), MAX_CN_ENGLISH);
    assert_eq!(entries[0].english[0], "ll");
    assert!(!entries[0].english.contains(&"aa".to_string()));
}

#[test]
fn no_rows_give_no_terms() {
    assert!(build_cn_dataset(&Vec::new()).is_empty());
}
