use easyenglish::focus::{evaluate_focus_hide, AnimationState, FocusHideDecision};
use easyenglish::ui::{
    cn_focus_step, cn_row_activation_index, exact_query_for, focus_for_new_query, input_is_chinese,
    launch_on_startup_run_value, parse_query_input, should_focus_on_pointer_hover, CnNavKey,
};

#[test]
fn focus_hide_waits_when_unfocused_in_grace_never_focused() {
    let decision = evaluate_focus_hide(AnimationState::Visible, Some(false), false, false, false, true);
    assert_eq!(decision, FocusHideDecision::WaitForFocus);
}

#[test]
fn focus_hide_hides_when_grace_expired_without_focus() {
    let decision = evaluate_focus_hide(AnimationState::Visible, Some(false), false, false, true, true);
    assert_eq!(decision, FocusHideDecision::Hide);
}

#[test]
fn focus_hide_hides_after_losing_acquired_focus_when_sustained() {
    let decision = evaluate_focus_hide(AnimationState::Visible, Some(false), false, true, false, true);
    assert_eq!(decision, FocusHideDecision::Hide);
}

#[test]
fn focus_hide_waits_on_transient_focus_blip() {
    let decision = evaluate_focus_hide(AnimationState::Visible, Some(false), false, true, true, false);
    assert_eq!(decision, FocusHideDecision::WaitForFocus);
}

#[test]
fn focus_hide_keeps_while_focused() {
    let decision = evaluate_focus_hide(AnimationState::Visible, Some(true), false, true, true, true);
    assert_eq!(decision, FocusHideDecision::Keep);
}

#[test]
fn focus_hide_keeps_when_focus_unknown() {
    let decision = evaluate_focus_hide(AnimationState::Visible, None, false, true, true, true);
    assert_eq!(decision, FocusHideDecision::Keep);
}

#[test]
fn focus_hide_keeps_while_composing_ime() {
    let decision = evaluate_focus_hide(AnimationState::Visible, Some(false), true, true, true, true);
    assert_eq!(decision, FocusHideDecision::Keep);
}

#[test]
fn focus_hide_keeps_when_not_visible() {
    let decision = evaluate_focus_hide(AnimationState::FadingIn, Some(false), false, true, true, true);
    assert_eq!(decision, FocusHideDecision::Keep);
}

#[test]
fn focus_hide_never_hides_hidden_or_fading_out() {
    for state in [AnimationState::Hidden, AnimationState::FadingOut] {
        assert_eq!(
            evaluate_focus_hide(state, Some(false), false, true, true, true),
            FocusHideDecision::Keep
        );
    }
}

#[test]
fn launch_on_startup_run_value_quotes_exe_path() {
    assert_eq!(
        launch_on_startup_run_value("C:\\Program Files\\EasyEnglish\\ee-win.exe"),
        "\"C:\\Program Files\\EasyEnglish\\ee-win.exe\""
    );
}

#[test]
fn parse_query_plain_is_fuzzy() {
    assert_eq!(parse_query_input("apple"), ("apple".to_string(), false));
}

#[test]
fn parse_query_bang_is_exact() {
    assert_eq!(parse_query_input("!apple"), ("apple".to_string(), true));
}

#[test]
fn parse_query_bang_trims_inner_space() {
    assert_eq!(parse_query_input("!  apple"), ("apple".to_string(), true));
}

#[test]
fn parse_query_bang_only_is_empty_exact() {
    assert_eq!(parse_query_input("!"), (String::new(), true));
}

#[test]
fn parse_query_empty_is_plain() {
    assert_eq!(parse_query_input(""), (String::new(), false));
}

#[test]
fn exact_query_prefixes_bang_and_space() {
    assert_eq!(exact_query_for("apple"), "! apple");
    assert_eq!(exact_query_for("new york"), "! new york");
}

#[test]
fn exact_query_round_trips_to_exact_lookup() {
    let raw = exact_query_for("Apple").to_lowercase();
    assert_eq!(parse_query_input(&raw), ("apple".to_string(), true));
}

#[test]
fn exact_query_round_trips_without_lowercasing() {
    let raw = exact_query_for("  new york ");
    assert_eq!(raw, "! new york");
    assert_eq!(parse_query_input(&raw), ("new york".to_string(), true));
}

#[test]
fn preview_jump_focuses_card_others_focus_input() {
    assert_eq!(focus_for_new_query(true), 1);
    assert_eq!(focus_for_new_query(false), 0);
}

#[test]
fn input_is_chinese_detects_cjk() {
    assert!(input_is_chinese("苹果"));
    assert!(input_is_chinese("a苹果"));
    assert!(!input_is_chinese("apple"));
    assert!(!input_is_chinese(""));
}

#[test]
fn pointer_hover_focus_requires_hover_and_motion() {
    assert!(should_focus_on_pointer_hover(true, true));
    assert!(!should_focus_on_pointer_hover(true, false));
    assert!(!should_focus_on_pointer_hover(false, true));
    assert!(!should_focus_on_pointer_hover(false, false));
}

#[test]
fn cn_focus_right_enters_and_advances_buttons() {
    assert_eq!(cn_focus_step(CnNavKey::Right, 1, None, 2, 3), (1, Some(0)));
    assert_eq!(cn_focus_step(CnNavKey::Right, 1, Some(0), 2, 3), (1, Some(1)));
    assert_eq!(cn_focus_step(CnNavKey::Right, 1, Some(2), 2, 3), (1, Some(2)));
    assert_eq!(cn_focus_step(CnNavKey::Right, 1, None, 2, 0), (1, None));
    assert_eq!(cn_focus_step(CnNavKey::Right, 0, None, 2, 3), (0, None));
}

#[test]
fn cn_focus_left_retreats_then_returns_to_row() {
    assert_eq!(cn_focus_step(CnNavKey::Left, 1, Some(2), 2, 3), (1, Some(1)));
    assert_eq!(cn_focus_step(CnNavKey::Left, 1, Some(0), 2, 3), (1, None));
    assert_eq!(cn_focus_step(CnNavKey::Left, 1, None, 2, 3), (1, None));
}

#[test]
fn cn_focus_up_down_move_rows_and_drop_buttons() {
    assert_eq!(cn_focus_step(CnNavKey::Down, 1, Some(1), 2, 3), (2, None));
    assert_eq!(cn_focus_step(CnNavKey::Up, 1, Some(1), 2, 3), (0, None));
    assert_eq!(cn_focus_step(CnNavKey::Down, 3, None, 2, 0), (3, None));
    assert_eq!(cn_focus_step(CnNavKey::Up, 0, None, 2, 0), (0, None));
}

#[test]
fn cn_single_candidate_row_activates_on_space() {
    assert_eq!(cn_row_activation_index(None, true, 1), Some(0));
}

#[test]
fn cn_multi_candidate_row_needs_explicit_button() {
    assert_eq!(cn_row_activation_index(None, true, 3), None);
    assert_eq!(cn_row_activation_index(Some(2), true, 3), Some(2));
}

#[test]
fn cn_activation_ignores_unselected_or_empty_rows() {
    assert_eq!(cn_row_activation_index(None, false, 1), None);
    assert_eq!(cn_row_activation_index(None, true, 0), None);
    assert_eq!(cn_row_activation_index(Some(5), true, 3), None);
}
