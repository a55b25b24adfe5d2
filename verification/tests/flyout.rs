use easyenglish::flyout::{
    bing_search_url, cn_row_choice, ime_composing_after, ImeEvent, layout_results, CnRowChoice, plan_query, poll_outcome, step_focus, wake_transition, PollSignal,
};
use easyenglish::focus::AnimationState;

fn strings(v: &[&str]) -> Vec<String> {
    v.iter().map(|s| s.to_string()).collect()
}

#[test]
fn typing_plans_exact_key_then_suggestions() {
    let list = ["apple", "apply", "ape", "zebra"];
    let plan = plan_query("  Apple ", "", false, &list, &[]).unwrap();
    assert_eq!(plan.raw, "apple");
    assert_eq!(plan.search_key, "apple");
    assert!(!plan.chinese);
    assert_eq!(plan.keys, strings(&["apple", "apply", "ape"]));
    assert_eq!(plan.focus_index, 0);
}

#[test]
fn unchanged_input_plans_nothing() {
    assert!(plan_query(" APPLE", "apple", false, &["apple"], &[]).is_none());
}

#[test]
fn bang_input_plans_exact_lookup_and_preview_jump_focuses_card() {
    let plan = plan_query("! Apply", "", true, &["apple", "apply"], &[]).unwrap();
    assert_eq!(plan.search_key, "apply");
    assert_eq!(plan.keys, strings(&["apply"]));
    assert_eq!(plan.focus_index, 1);
}

#[test]
fn cleared_input_queries_nothing() {
    let plan = plan_query("   ", "apple", false, &["apple"], &[]).unwrap();
    assert_eq!(plan.raw, "");
    assert!(plan.keys.is_empty());
}

#[test]
fn chinese_input_plans_prefix_completions() {
    let plan = plan_query("苹", "", false, &["apple"], &["苹果", "苹", "水果"]).unwrap();
    assert!(plan.chinese);
    assert_eq!(plan.search_key, "苹");
    assert_eq!(plan.keys, strings(&["苹", "苹果"]));
}

#[test]
fn results_split_into_card_and_previews() {
    let keys = strings(&["apply", "apple", "apple", "ape"]);
    let layout = layout_results(&keys, "apple", true, false, 0);
    assert_eq!(layout.exact, Some(1));
    assert_eq!(layout.previews, vec![0, 2, 3]);
    assert!(!layout.chinese_mode);
    assert_eq!(layout.total_items, 1 + 1 + 3 + 1);
}

#[test]
fn previews_are_capped_at_five() {
    let keys = strings(&["a1", "a2", "a3", "a4", "a5", "a6", "a7"]);
    let layout = layout_results(&keys, "zz", true, false, 0);
    assert_eq!(layout.exact, None);
    assert_eq!(layout.previews, vec![0, 1, 2, 3, 4]);
    assert_eq!(layout.total_items, 1 + 5 + 1);
}

#[test]
fn layout_without_text_records_or_with_ime() {
    assert_eq!(layout_results(&Vec::new(), "", true, false, 0).total_items, 1);
    assert_eq!(layout_results(&Vec::new(), "apple", true, false, 0).total_items, 2);
    let composing = layout_results(&strings(&["apple"]), "apple", false, false, 0);
    assert_eq!(composing.exact, None);
    assert!(composing.previews.is_empty());
    assert_eq!(composing.total_items, 1);
}

#[test]
fn chinese_layout_counts_rows() {
    let layout = layout_results(&strings(&["苹果", "苹"]), "苹", true, true, 2);
    assert!(layout.chinese_mode);
    assert_eq!(layout.total_items, 4);
}

#[test]
fn arrow_keys_move_focus_within_items() {
    assert_eq!(step_focus(0, 4, true, false), 1);
    assert_eq!(step_focus(3, 4, true, false), 3);
    assert_eq!(step_focus(2, 4, false, true), 1);
    assert_eq!(step_focus(0, 4, false, true), 0);
    assert_eq!(step_focus(1, 4, true, true), 1);
}

#[test]
fn wake_fades_in_and_relocates() {
    let fresh = wake_transition(AnimationState::Hidden, false);
    assert_eq!(fresh.state, AnimationState::FadingIn);
    assert!(fresh.retarget && fresh.reset_opacity);

    let moved = wake_transition(AnimationState::Visible, false);
    assert_eq!(moved.state, AnimationState::Visible);
    assert!(moved.retarget && !moved.reset_opacity);

    let refresh = wake_transition(AnimationState::Visible, true);
    assert!(!refresh.retarget);

    let back = wake_transition(AnimationState::FadingOut, true);
    assert_eq!(back.state, AnimationState::FadingIn);
    assert!(!back.retarget && !back.reset_opacity);
}

#[test]
fn polls_take_current_results_and_drop_stale_queries() {
    let changed = poll_outcome(PollSignal::Changed, true);
    assert!(changed.take_records && !changed.clear_query);
    let stale = poll_outcome(PollSignal::Changed, false);
    assert!(!stale.take_records && stale.clear_query);
    let done = poll_outcome(PollSignal::Finished, true);
    assert!(done.take_records && done.clear_query);
    let failed = poll_outcome(PollSignal::Failed, true);
    assert!(!failed.take_records && failed.clear_query);
    let idle = poll_outcome(PollSignal::TimedOut, true);
    assert!(idle.take_records && !idle.clear_query);
}

#[test]
fn web_search_url_percent_encodes_the_query() {
    assert_eq!(bing_search_url("apple pie"), "https://www.bing.com/search?q=apple%20pie");
    assert_eq!(bing_search_url("a-b"), "https://www.bing.com/search?q=a%2Db");
    assert_eq!(bing_search_url("苹果"), "https://www.bing.com/search?q=%E8%8B%B9%E6%9E%9C");
    assert_eq!(bing_search_url("é"), "https://www.bing.com/search?q=%C3%A9");
    assert_eq!(bing_search_url("😀"), "https://www.bing.com/search?q=%F0%9F%98%80");
    assert_eq!(bing_search_url(""), "https://www.bing.com/search?q=");
}

#[test]
fn chinese_row_interactions_by_priority() {
    // Enter on the focused button activates it, even over a click.
    assert_eq!(
        cn_row_choice(Some(0), None, true, true, Some(2), false, 3),
        Some(CnRowChoice::Activate(2))
    );
    // Enter on a whole row with a single word activates that word.
    assert_eq!(cn_row_choice(None, None, false, true, None, true, 1), Some(CnRowChoice::Activate(0)));
    // Enter on a whole row with several words does nothing by itself.
    assert_eq!(cn_row_choice(None, None, false, true, None, true, 2), None);
    assert_eq!(cn_row_choice(Some(1), Some(2), true, false, None, false, 3), Some(CnRowChoice::Activate(1)));
    assert_eq!(cn_row_choice(None, Some(2), true, false, None, false, 3), Some(CnRowChoice::HoverButton(2)));
    assert_eq!(cn_row_choice(None, None, true, false, None, false, 3), Some(CnRowChoice::HoverRow));
}

#[test]
fn ime_composition_follows_preedit_text() {
    assert!(ime_composing_after(false, &ImeEvent::Preedit("pin".to_string())));
    assert!(!ime_composing_after(true, &ImeEvent::Preedit(String::new())));
    assert!(!ime_composing_after(true, &ImeEvent::Commit));
    assert!(!ime_composing_after(true, &ImeEvent::Disabled));
    assert!(ime_composing_after(true, &ImeEvent::Enabled));
    assert!(!ime_composing_after(false, &ImeEvent::Enabled));
}
