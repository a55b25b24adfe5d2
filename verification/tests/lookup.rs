use easyenglish::dict::{DictError, Entry};
use easyenglish::lookup::{LookupError, LookupHit, LookupService, LookupStep};
use easyenglish::notes::NoteStore;

fn entry(word: &str) -> Entry {
    Entry { headword: word.to_string(), phonetic: String::new(), definitions: vec!["释义".to_string()] }
}

/// A dictionary holding `apple`, `apply` and `book`.
fn tiny_dict(word: &str) -> Result<Entry, DictError> {
    let w = word.trim().to_lowercase();
    if ["apple", "apply", "book"].contains(&w.as_str()) {
        Ok(entry(&w))
    } else {
        Err(DictError::NotFound)
    }
}

fn query(svc: &LookupService, word: &str, notes: &NoteStore) -> Result<LookupHit, LookupError> {
    match svc.begin(word, notes) {
        LookupStep::Done(r) => r,
        LookupStep::NeedDict(t) => svc.finish(&t, notes, tiny_dict(&t)),
    }
}

#[test]
fn note_first_hit_returns_note_without_touching_dict() {
    let mut notes = NoteStore::new();
    notes.set("apple", "custom translation".to_string());
    let svc = LookupService::new(true);
    match svc.begin("apple", &notes) {
        LookupStep::Done(Ok(LookupHit::Note(n))) => {
            assert_eq!(n.word, "apple");
            assert_eq!(n.content, "custom translation");
        }
        other => panic!("expected Note hit without a dictionary step, got {other:?}"),
    }
}

#[test]
fn note_first_falls_back_to_dict_when_no_note() {
    let notes = NoteStore::new();
    let svc = LookupService::new(true);
    let hit = query(&svc, "apply", &notes).expect("hit");
    assert!(matches!(hit, LookupHit::Dict(_)));
}

#[test]
fn dict_first_hit_returns_dict_even_when_note_exists() {
    let mut notes = NoteStore::new();
    notes.set("apple", "should be ignored".to_string());
    let svc = LookupService::new(false);
    match query(&svc, "apple", &notes).expect("hit") {
        LookupHit::Dict(e) => assert_eq!(e.headword, "apple"),
        LookupHit::Note(_) => panic!("expected Dict hit with dict-first policy"),
    }
}

#[test]
fn dict_first_falls_back_to_note_when_dict_misses() {
    let mut notes = NoteStore::new();
    notes.set("mango", "芒果".to_string());
    let svc = LookupService::new(false);
    match query(&svc, "mango", &notes).expect("hit") {
        LookupHit::Note(n) => assert_eq!(n.content, "芒果"),
        LookupHit::Dict(_) => panic!("expected Note fallback"),
    }
}

#[test]
fn both_miss_returns_not_found() {
    let notes = NoteStore::new();
    let svc = LookupService::new(true);
    let err = query(&svc, "nosuch", &notes).expect_err("miss");
    assert!(matches!(err, LookupError::NotFound), "got: {err:?}");
}

#[test]
fn invalid_input_short_circuits_before_either_store() {
    let notes = NoteStore::new();
    let svc = LookupService::new(true);
    for empty in ["", "   ", "\t\n"] {
        match svc.begin(empty, &notes) {
            LookupStep::Done(Err(LookupError::InvalidInput)) => {}
            other => panic!("expected InvalidInput for {empty:?}, got: {other:?}"),
        }
    }
    let too_long = "x".repeat(200);
    assert!(matches!(
        svc.begin(&too_long, &notes),
        LookupStep::Done(Err(LookupError::InvalidInput))
    ));
}

#[test]
fn case_insensitive_in_both_orderings() {
    let mut notes = NoteStore::new();
    notes.set("apple", "n".to_string());
    let note_first = LookupService::new(true);
    let dict_first = LookupService::new(false);
    assert!(query(&note_first, "APPLE", &notes).is_ok());
    assert!(query(&dict_first, "APPLE", &notes).is_ok());
}

#[test]
fn dictionary_asked_with_trimmed_word() {
    let notes = NoteStore::new();
    let svc = LookupService::new(true);
    match svc.begin("  Book  ", &notes) {
        LookupStep::NeedDict(t) => assert_eq!(t, "Book"),
        other => panic!("expected a dictionary step, got {other:?}"),
    }
}

#[test]
fn dictionary_errors_are_passed_on() {
    let notes = NoteStore::new();
    let svc = LookupService::new(true);
    let r = svc.finish("x", &notes, Err(DictError::Seed("broken".to_string())));
    assert!(matches!(r, Err(LookupError::Storage(DictError::Seed(_)))));
    let r = svc.finish("x", &notes, Err(DictError::InvalidInput));
    assert!(matches!(r, Err(LookupError::InvalidInput)));
}

#[test]
fn hit_word_is_canonical() {
    let mut notes = NoteStore::new();
    notes.set("Pear", "梨".to_string());
    let svc = LookupService::new(true);
    let hit = query(&svc, "PEAR", &notes).unwrap();
    assert_eq!(hit.word(), "pear");
    let hit = query(&svc, "book", &notes).unwrap();
    assert_eq!(hit.word(), "book");
}

#[test]
fn lookup_error_messages() {
    assert_eq!(LookupError::NotFound.message(), "word not found");
    assert_eq!(LookupError::InvalidInput.message(), "invalid input");
    assert_eq!(
        LookupError::Storage(DictError::Seed("bad".to_string())).message(),
        "dictionary storage failure: seed error: bad"
    );
}
