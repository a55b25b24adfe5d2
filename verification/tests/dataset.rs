use easyenglish::dataset::{candidate_of, keeps_row, select_words, word_list, Candidate, SourceRow};

fn row(word: &str, phonetic: &str, translation: &str, exchange: &str, frq: i64, bnc: i64) -> SourceRow {
    SourceRow {
        word: word.to_string(),
        phonetic: phonetic.to_string(),
        translation: translation.to_string(),
        exchange: exchange.to_string(),
        frq,
        bnc,
        collins: 0,
        oxford: 0,
        tag: String::new(),
    }
}

fn ranking(c: &Candidate) -> (u8, i64, i64) {
    (c.tier, c.rank, c.tie)
}

#[test]
fn frequency_ranked_word_is_tier_zero() {
    let c = candidate_of(&row("apple", "ˈæpl", "n. 苹果", "s:apples", 1200, 900)).unwrap();
    assert_eq!(c.key, "apple");
    assert_eq!(ranking(&c), (0, 1200, 0));
    assert_eq!(c.word_en.word, "apple");
    assert_eq!(c.word_en.pronunciation.as_ref().unwrap().ipa, "ˈæpl");
    assert_eq!(c.word_en.inflections.as_ref().unwrap().plural.as_deref(), Some("apples"));
}

#[test]
fn bnc_ranked_word_breaks_ties_by_length() {
    let c = candidate_of(&row("orchard", "", "n. 果园", "", 0, 4000)).unwrap();
    assert_eq!(ranking(&c), (1, 4000, 7));
    assert!(c.word_en.pronunciation.is_none());
}

#[test]
fn tagged_word_ranks_by_collins_and_oxford() {
    let mut r = row("zest", "", "n. 热情", "", 0, 0);
    r.collins = 3;
    r.oxford = 1;
    let c = candidate_of(&r).unwrap();
    assert_eq!(ranking(&c), (2, -31, 4));

    let mut t = row("zeal", "", "n. 热心", "", 0, 0);
    t.tag = " cet4 ".to_string();
    assert_eq!(ranking(&candidate_of(&t).unwrap()), (2, 0, 4));
}

#[test]
fn untagged_word_needs_phonetic_vowel_and_three_letters() {
    assert_eq!(ranking(&candidate_of(&row("quux", "kwʌks", "n. 示例", "", 0, 0)).unwrap()), (3, 4, 0));
    assert!(candidate_of(&row("quux", "  ", "n. 示例", "", 0, 0)).is_none());
    assert!(candidate_of(&row("brr", "bɜː", "int. 冷", "", 0, 0)).is_none());
    assert!(candidate_of(&row("ox", "ɒks", "n. 牛", "", 0, 0)).is_none());
}

#[test]
fn proper_nouns_inflections_and_unclean_words_are_dropped() {
    assert!(candidate_of(&row("Paris", "", "n. 巴黎", "", 10, 0)).is_none());
    assert!(candidate_of(&row("running", "", "n. 跑", "0:run/1:i", 10, 0)).is_none());
    assert!(candidate_of(&row("co-op", "", "n. 合作社", "", 10, 0)).is_none());
    // A word that names itself as its lemma is kept.
    assert!(candidate_of(&row("run", "", "v. 跑", "0:run", 10, 0)).is_some());
}

#[test]
fn selection_is_most_common_first_and_keeps_best_occurrence() {
    let rows = vec![
        row("zebra", "", "n. 斑马", "", 0, 3000),
        row("apple", "", "n. 苹果", "", 500, 0),
        row("apple", "", "n. 苹果公司", "", 90, 0),
        row("Apple", "", "n. 苹果", "", 1, 0),
        row("the", "", "art. 这", "", 1, 0),
        row("xyzzy", "", "n. 咒语", "", 0, 0),
    ];
    let sel = select_words(&rows);
    let keys: Vec<&str> = sel.iter().map(|c| c.key.as_str()).collect();
    assert_eq!(keys, vec!["the", "apple", "zebra"]);
    // The better-ranked occurrence of "apple" (frq 90) is the one kept.
    assert_eq!(sel[1].rank, 90);
    let defs = sel[1].word_en.definitions.as_ref().unwrap();
    assert_eq!(defs[0].meanings, vec!["苹果公司".to_string()]);
}

#[test]
fn selection_breaks_equal_ranks_alphabetically() {
    let rows = vec![row("beta", "", "n. 贝塔", "", 7, 0), row("alpha", "", "n. 阿尔法", "", 7, 0)];
    let keys: Vec<String> = select_words(&rows).into_iter().map(|c| c.key).collect();
    assert_eq!(keys, vec!["alpha".to_string(), "beta".to_string()]);
}

#[test]
fn word_list_is_alphabetical() {
    let rows = vec![
        row("the", "", "art. 这", "", 1, 0),
        row("apple", "", "n. 苹果", "", 90, 0),
        row("zebra", "", "n. 斑马", "", 0, 3000),
    ];
    let sel = select_words(&rows);
    assert_eq!(word_list(&sel), vec!["apple".to_string(), "the".to_string(), "zebra".to_string()]);
}

#[test]
fn keeps_row_matches_the_word_filter() {
    assert!(keeps_row(&row("apple", "", "n. 苹果", "", 0, 0)));
    assert!(!keeps_row(&row("Paris", "", "n. 巴黎", "", 0, 0)));
    assert!(!keeps_row(&row("running", "", "n. 跑", "0:run", 0, 0)));
    assert!(!keeps_row(&row("co-op", "", "n. 合作社", "", 0, 0)));
}
