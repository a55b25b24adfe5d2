use easyenglish::dict::{
    finish_lookup, levenshtein, lookup_key, parse_definitions, seed_row, suggest, DictError,
};

fn headwords() -> Vec<String> {
    vec!["apple".to_string(), "apply".to_string(), "book".to_string()]
}

#[test]
fn levenshtein_empty_inputs() {
    assert_eq!(levenshtein("", ""), 0);
    assert_eq!(levenshtein("apple", ""), 5);
    assert_eq!(levenshtein("", "apple"), 5);
}

#[test]
fn levenshtein_basic_distances() {
    assert_eq!(levenshtein("apple", "apple"), 0);
    assert_eq!(levenshtein("apple", "appl"), 1);
    assert_eq!(levenshtein("kitten", "sitting"), 3);
}

#[test]
fn levenshtein_counts_bytes() {
    // Each of these ideographs is three UTF-8 bytes.
    assert_eq!(levenshtein("苹", ""), 3);
    assert_eq!(levenshtein("苹", "果"), 3);
    assert_eq!(levenshtein("苹", "苹"), 0);
}

#[test]
fn parse_definitions_handles_empty_and_bad_json() {
    assert!(parse_definitions("").is_empty());
    assert!(parse_definitions("not json").is_empty());
    assert!(parse_definitions("{\"k\":\"v\"}").is_empty());
    assert_eq!(parse_definitions(r#"["a","b"]"#), vec!["a", "b"]);
}

#[test]
fn parse_definitions_keeps_only_strings() {
    assert_eq!(parse_definitions(r#"["a", 1, null, "b", ["c"]]"#), vec!["a", "b"]);
}

#[test]
fn lookup_key_validates() {
    assert_eq!(lookup_key("  apple ").unwrap(), "apple");
    for empty in ["", "   ", "\t\n"] {
        assert!(matches!(lookup_key(empty), Err(DictError::InvalidInput)));
    }
    let too_long = "x".repeat(200);
    assert!(matches!(lookup_key(&too_long), Err(DictError::InvalidInput)));
    assert!(lookup_key(&"x".repeat(128)).is_ok());
    // 43 ideographs are 129 bytes.
    assert!(matches!(lookup_key(&"苹".repeat(43)), Err(DictError::InvalidInput)));
    assert!(lookup_key(&"苹".repeat(42)).is_ok());
}

#[test]
fn lookup_hit_returns_canonical_entry() {
    let e = finish_lookup(Some((
        "apple".to_string(),
        "/ˈæp.əl/".to_string(),
        r#"["苹果","苹果树"]"#.to_string(),
    )))
    .expect("hit");
    assert_eq!(e.headword, "apple");
    assert_eq!(e.phonetic, "/ˈæp.əl/");
    assert_eq!(e.definitions, vec!["苹果".to_string(), "苹果树".to_string()]);
}

#[test]
fn lookup_unknown_word_returns_not_found() {
    assert!(matches!(finish_lookup(None), Err(DictError::NotFound)));
}

#[test]
fn lookup_row_with_empty_definitions_is_a_miss() {
    let r = finish_lookup(Some(("x".to_string(), String::new(), "[]".to_string())));
    assert!(matches!(r, Err(DictError::NotFound)));
    let r = finish_lookup(Some(("x".to_string(), String::new(), "garbage".to_string())));
    assert!(matches!(r, Err(DictError::NotFound)));
}

#[test]
fn seed_row_skips_blank_and_lowercases() {
    let defs = vec!["苹果".to_string()];
    assert!(seed_row("   ", "", &defs).unwrap().is_none());
    assert!(seed_row("apple", "", &Vec::new()).unwrap().is_none());
    let row = seed_row("Apple", "/ˈæp.əl/", &defs).unwrap().unwrap();
    assert_eq!(row.headword, "apple");
    assert_eq!(row.phonetic, "/ˈæp.əl/");
    assert_eq!(row.definitions_json, r#"["苹果"]"#);
    assert_eq!(parse_definitions(&row.definitions_json), defs);
}

#[test]
fn suggest_empty_returns_empty() {
    assert!(suggest(&headwords(), "", 5).is_empty());
    assert!(suggest(&headwords(), "   ", 5).is_empty());
}

#[test]
fn suggest_max_zero_returns_empty() {
    assert!(suggest(&headwords(), "apple", 0).is_empty());
}

#[test]
fn suggest_exact_match_ranks_first() {
    let results = suggest(&headwords(), "apple", 3);
    assert_eq!(results.first().map(String::as_str), Some("apple"));
}

#[test]
fn suggest_typo_ranks_correct_word_first() {
    let results = suggest(&headwords(), "appel", 1);
    assert_eq!(
        results.first().map(String::as_str),
        Some("apple"),
        "distance-1 hit `apple` must beat distance-2 `apply`; got {results:?}"
    );
}

#[test]
fn suggest_respects_max_limit() {
    assert!(suggest(&headwords(), "z", 2).len() <= 2);
}

#[test]
fn suggest_orders_by_distance_keeping_list_order_on_ties() {
    let hw = vec!["bbb".to_string(), "aaa".to_string(), "abc".to_string()];
    // distances from "abb": bbb=1, aaa=2, abc=1 → ties keep list order.
    assert_eq!(suggest(&hw, " ABB ", 3), vec!["bbb", "abc", "aaa"]);
    assert!(suggest(&hw, &"x".repeat(129), 3).is_empty());
}

#[test]
fn dict_error_messages() {
    assert_eq!(DictError::NotFound.message(), "word not found");
    assert_eq!(DictError::InvalidInput.message(), "invalid input");
    assert_eq!(DictError::Seed("bad".to_string()).message(), "seed error: bad");
}

#[test]
fn seed_row_encodes_definitions_as_json_array() {
    let defs = vec!["say \"hi\"".to_string(), "a\\b".to_string(), "line\nbreak\u{1}".to_string()];
    let row = seed_row("Hello", "", &defs).unwrap().unwrap();
    assert_eq!(row.definitions_json, "[\"say \\\"hi\\\"\",\"a\\\\b\",\"line\\nbreak\\u0001\"]");
    let one = seed_row("x", "", &vec!["plain".to_string()]).unwrap().unwrap();
    assert_eq!(one.definitions_json, "[\"plain\"]");
}
