use easyenglish::config::Config;
use easyenglish::dict::{DictError, Entry};
use easyenglish::lookup::LookupHit;
use easyenglish::state::{AppState, SubmitStep};

/// A dictionary holding `apple` and `book`.
fn tiny_dict(word: &str) -> Result<Entry, DictError> {
    let w = word.trim().to_lowercase();
    if w == "apple" || w == "book" {
        Ok(Entry { headword: w, phonetic: String::new(), definitions: vec!["释义".to_string()] })
    } else {
        Err(DictError::NotFound)
    }
}

fn submit(state: &mut AppState) {
    if let SubmitStep::NeedDict(w) = state.begin_submit() {
        let answer = tiny_dict(&w);
        state.finish_submit(&w, answer);
    }
}

fn fresh_state() -> AppState {
    AppState::new(Config::defaults())
}

#[test]
fn default_state_is_empty() {
    let state = fresh_state();
    assert!(state.input().is_empty());
    assert!(state.last_hit().is_none());
    assert!(state.status().is_empty());
    assert!(state.recent().is_empty());
    assert!(state.notes().is_empty());
}

#[test]
fn submit_empty_input_is_noop() {
    let mut state = fresh_state();
    submit(&mut state);
    assert!(state.status().is_empty());
    assert!(state.last_hit().is_none());
}

#[test]
fn submit_hit_records_to_history_and_sets_status_found() {
    let mut state = fresh_state();
    state.set_input("apple");
    submit(&mut state);
    assert!(matches!(state.last_hit(), Some(LookupHit::Dict(_))));
    assert_eq!(state.status(), "Found");
    let recent = state.recent();
    assert_eq!(recent.len(), 1);
    assert_eq!(recent[0].word, "apple");
}

#[test]
fn submit_miss_clears_last_hit_with_not_found_status() {
    let mut state = fresh_state();
    state.set_input("nosuch");
    submit(&mut state);
    assert!(state.last_hit().is_none());
    assert!(state.status().contains("Not found"));
    assert_eq!(state.status(), "Not found: nosuch");
    assert!(state.recent().is_empty());
}

#[test]
fn submit_invalid_and_storage_statuses() {
    let mut state = fresh_state();
    state.set_input(&"x".repeat(200));
    submit(&mut state);
    assert_eq!(state.status(), "Invalid input");
    state.set_input("word");
    assert!(matches!(state.begin_submit(), SubmitStep::NeedDict(_)));
    state.finish_submit("word", Err(DictError::Seed("gone".to_string())));
    assert_eq!(state.status(), "Storage error: seed error: gone");
    assert!(state.last_hit().is_none());
}

#[test]
fn reset_clears_buffer_and_hit() {
    let mut state = fresh_state();
    state.set_input("apple");
    submit(&mut state);
    state.reset();
    assert!(state.input().is_empty());
    assert!(state.last_hit().is_none());
    assert!(state.status().is_empty());
}

#[test]
fn add_note_then_submit_returns_note_hit() {
    let mut state = fresh_state();
    state.add_note("apple", "user-defined".to_string());
    state.set_input("apple");
    submit(&mut state);
    match state.last_hit() {
        Some(LookupHit::Note(n)) => assert_eq!(n.content, "user-defined"),
        other => panic!("expected Note hit, got {other:?}"),
    }
}

#[test]
fn remove_note_then_submit_returns_dict_hit_again() {
    let mut state = fresh_state();
    state.add_note("apple", "user".to_string());
    assert!(state.remove_note("APPLE"));
    state.set_input("apple");
    submit(&mut state);
    assert!(matches!(state.last_hit(), Some(LookupHit::Dict(_))));
}

#[test]
fn get_note_round_trip() {
    let mut state = fresh_state();
    state.add_note("apple", "fruit".to_string());
    assert_eq!(state.get_note("apple").map(|n| n.content.as_str()), Some("fruit"));
    assert!(state.get_note("missing").is_none());
}
