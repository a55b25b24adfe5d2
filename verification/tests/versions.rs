use easyenglish::versions::{highest_version, parse_usize, version_of};

#[test]
fn parses_decimal_versions_like_str_parse() {
    assert_eq!(parse_usize("42"), Some(42));
    assert_eq!(parse_usize("+7"), Some(7));
    assert_eq!(parse_usize("007"), Some(7));
    assert_eq!(parse_usize(""), None);
    assert_eq!(parse_usize("+"), None);
    assert_eq!(parse_usize("4a"), None);
    assert_eq!(parse_usize("-1"), None);
    assert_eq!(parse_usize(&usize::MAX.to_string()), Some(usize::MAX));
    assert_eq!(parse_usize(&format!("{}0", usize::MAX)), None);
}

#[test]
fn reads_versions_of_databases_and_word_lists() {
    assert_eq!(version_of("word_en_v3.sqlite", "word_en_v", true), Some(3));
    assert_eq!(version_of("word_en_v3", "word_en_v", true), None);
    assert_eq!(version_of("word_en_v3", "word_en_v", false), Some(3));
    assert_eq!(version_of("word_en_v3.sqlite", "word_en_v", false), None);
    assert_eq!(version_of("word_cn_v3.sqlite", "word_en_v", true), None);
    assert_eq!(version_of("word_en_v.sqlite", "word_en_v", true), None);
}

#[test]
fn picks_the_highest_version() {
    let names: Vec<String> = [
        "word_en_v1.sqlite",
        "word_en_v3.sqlite",
        "word_en_v2.sqlite",
        "word_en_v3",
        "word_cn_v9.sqlite",
        "readme.txt",
    ]
    .iter()
    .map(|s| s.to_string())
    .collect();
    assert_eq!(highest_version(&names, "word_en", true), Some(1));
    assert_eq!(highest_version(&names, "word_en", false), Some(3));
    assert_eq!(highest_version(&names, "word_cn", true), Some(4));
    assert_eq!(highest_version(&names, "word_cn", false), None);
    let zero = vec!["word_en_v0.sqlite".to_string()];
    assert_eq!(highest_version(&zero, "word_en", true), None);
}
