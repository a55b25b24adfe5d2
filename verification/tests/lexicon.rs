use easyenglish::lexicon::{
    english_freq_rank, extract_cn_terms, has_vowel, is_all_cjk, is_clean_word, is_inflection_of_other,
    parse_inflections, parse_translation, split_pos, strip_brackets, build_word_en,
};

#[test]
fn clean_word_filters_shape() {
    assert!(is_clean_word("indicator"));
    assert!(is_clean_word("i"));
    assert!(!is_clean_word("e"));
    assert!(!is_clean_word("two words"));
    assert!(!is_clean_word("co-op"));
    assert!(!is_clean_word("3d"));
}

#[test]
fn clean_word_length_bounds() {
    assert!(is_clean_word("ab"));
    assert!(is_clean_word(&"a".repeat(22)));
    assert!(!is_clean_word(&"a".repeat(23)));
    assert!(is_clean_word("a"));
    assert!(!is_clean_word(""));
    assert!(is_clean_word("Apple"));
}

#[test]
fn inflection_of_other_detected() {
    // running's lemma is run → dropped.
    assert!(is_inflection_of_other("0:run/1:i", "running"));
    // run is its own lemma → kept.
    assert!(!is_inflection_of_other("i:running/3:runs", "run"));
    assert!(!is_inflection_of_other("", "run"));
}

#[test]
fn inflection_lemma_is_case_and_space_insensitive() {
    assert!(!is_inflection_of_other("0: RUN /1:i", "run"));
    assert!(!is_inflection_of_other("0:   ", "run"));
    assert!(is_inflection_of_other("p:ran/0:Go", "went"));
}

#[test]
fn vowel_detection() {
    assert!(has_vowel("rhythm"));
    assert!(has_vowel("APPLE"));
    assert!(!has_vowel("brr"));
    assert!(!has_vowel(""));
}

#[test]
fn split_pos_extracts_known_pos() {
    assert_eq!(
        split_pos("n. 苹果, 家伙"),
        ("n.".to_string(), "苹果, 家伙".to_string())
    );
    assert_eq!(
        split_pos("vt. 申请"),
        ("vt.".to_string(), "申请".to_string())
    );
    // Domain-tag line has no POS prefix.
    assert_eq!(
        split_pos("[计] 指示器"),
        (String::new(), "[计] 指示器".to_string())
    );
}

#[test]
fn split_pos_without_space_or_stem() {
    assert_eq!(split_pos("n."), (String::new(), "n.".to_string()));
    assert_eq!(split_pos(". x"), (String::new(), ". x".to_string()));
    assert_eq!(split_pos("adj.   fine  "), ("adj.".to_string(), "fine".to_string()));
}

#[test]
fn parse_translation_builds_major_and_defs() {
    let (major, defs) = parse_translation("n. 指示器, 指示剂\n[计] 指示器");
    assert_eq!(major.as_deref(), Some("指示器, 指示剂"));
    let defs = defs.unwrap();
    assert_eq!(defs.len(), 2);
    assert_eq!(defs[0].pos, "n.");
    assert_eq!(defs[0].meanings, vec!["指示器, 指示剂".to_string()]);
    assert_eq!(defs[1].pos, "");
}

#[test]
fn parse_translation_caps_and_skips_blank_lines() {
    let text = (0..12).map(|i| format!("n. m{i}")).collect::<Vec<_>>().join("\n\n");
    let (major, defs) = parse_translation(&text);
    assert_eq!(major.as_deref(), Some("m0"));
    let defs = defs.unwrap();
    assert_eq!(defs.len(), 8);
    assert_eq!(defs[7].meanings, vec!["m7".to_string()]);
    let (none_major, none_defs) = parse_translation("  \n \n");
    assert!(none_major.is_none());
    assert!(none_defs.is_none());
}

#[test]
fn parse_inflections_maps_exchange() {
    let inf = parse_inflections("d:perceived/p:perceived/3:perceives/i:perceiving").unwrap();
    assert_eq!(inf.past_tense.as_deref(), Some("perceived"));
    assert_eq!(inf.past_participle.as_deref(), Some("perceived"));
    assert_eq!(inf.third_singular.as_deref(), Some("perceives"));
    assert_eq!(inf.present_participle.as_deref(), Some("perceiving"));
    assert!(inf.plural.is_none());
    assert!(parse_inflections("").is_none());
}

#[test]
fn parse_inflections_ignores_unknown_and_empty() {
    assert!(parse_inflections("0:run/1:i/x:y").is_none());
    assert!(parse_inflections("s:").is_none());
    let inf = parse_inflections("s:apples/s:pears").unwrap();
    assert_eq!(inf.plural.as_deref(), Some("pears"));
}

#[test]
fn strip_brackets_removes_tags() {
    assert_eq!(strip_brackets("[计] 指示器"), " 指示器");
    assert_eq!(strip_brackets("（使）弯曲"), "弯曲");
    assert_eq!(strip_brackets("苹果"), "苹果");
}

#[test]
fn strip_brackets_nested_and_unmatched() {
    assert_eq!(strip_brackets("a[b(c)d]e"), "ae");
    assert_eq!(strip_brackets("a]b"), "ab");
    assert_eq!(strip_brackets("【x"), "");
}

#[test]
fn extract_cn_terms_splits_and_filters() {
    // POS stripped, comma-split, pure-CJK terms kept and deduped.
    assert_eq!(extract_cn_terms("n. 苹果, 家伙"), vec!["苹果", "家伙"]);
    // Bracket tag removed; single clean term remains.
    assert_eq!(extract_cn_terms("[计] 指示器"), vec!["指示器"]);
    // Pieces containing non-CJK (ellipsis, latin) are dropped.
    assert_eq!(extract_cn_terms("vt. 把…弄弯, abc, 弯曲"), vec!["弯曲"]);
    // Multi-line dedup across lines.
    assert_eq!(extract_cn_terms("n. 苹果\n[医] 苹果"), vec!["苹果"]);
}

#[test]
fn extract_cn_terms_length_limit() {
    assert_eq!(extract_cn_terms("一二三四五六七八"), vec!["一二三四五六七八"]);
    assert!(extract_cn_terms("一二三四五六七八九").is_empty());
    assert_eq!(extract_cn_terms("甲；乙、丙/丁"), vec!["甲", "乙", "丙", "丁"]);
}

#[test]
fn all_cjk_detection() {
    assert!(is_all_cjk("苹果"));
    assert!(!is_all_cjk(""));
    assert!(!is_all_cjk("苹果a"));
}

#[test]
fn english_freq_rank_orders_frq_before_bnc() {
    let frq = english_freq_rank(2695, 2446).unwrap();
    let bnc_only = english_freq_rank(0, 3000).unwrap();
    assert!(frq < bnc_only, "frq-ranked must sort before bnc-only");
    assert!(english_freq_rank(0, 0).is_none());
}

#[test]
fn english_freq_rank_exact_values() {
    assert_eq!(english_freq_rank(7, 0), Some(7));
    assert_eq!(english_freq_rank(0, 3000), Some(1_003_000));
    assert_eq!(english_freq_rank(-1, -5), None);
}

#[test]
fn build_word_en_maps_row() {
    let w = build_word_en("apply", " əˈplaɪ ", "v. 申请\n[计] 应用", "p:applied/3:applies");
    assert_eq!(w.word, "apply");
    assert_eq!(w.pronunciation.as_ref().map(|p| p.ipa.as_str()), Some("əˈplaɪ"));
    let defs = w.definitions.unwrap();
    assert_eq!(defs.len(), 2);
    assert_eq!(defs[0].pos, "v.");
    assert_eq!(defs[1].meanings, vec!["[计] 应用".to_string()]);
    let inf = w.inflections.unwrap();
    assert_eq!(inf.past_tense.as_deref(), Some("applied"));
    assert_eq!(inf.third_singular.as_deref(), Some("applies"));
    assert!(w.examples.is_none());
    let bare = build_word_en("x", "  ", "", "");
    assert!(bare.pronunciation.is_none());
    assert!(bare.definitions.is_none());
    assert!(bare.inflections.is_none());
}

#[test]
fn strip_brackets_laws_on_examples() {
    let once = strip_brackets("a[b(c)d]e（f）g【h】i]j");
    assert_eq!(once, "aegij");
    assert_eq!(strip_brackets(&once), once);
    assert_eq!(strip_brackets("苹果, 家伙"), "苹果, 家伙");
}
