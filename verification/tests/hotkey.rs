use easyenglish::hotkey::{key_event, tray_action, wheel_event, GestureKey, Modifiers, TrayAction};

#[test]
fn alt_shift_up_wakes_the_flyout() {
    let none = Modifiers { left_alt: false, left_shift: false };
    let a = key_event(none, GestureKey::LeftAlt, true);
    assert!(!a.wake);
    let b = key_event(a.modifiers, GestureKey::LeftShift, true);
    assert!(!b.wake);
    let up = key_event(b.modifiers, GestureKey::Up, true);
    assert!(up.wake);
    let released = key_event(up.modifiers, GestureKey::LeftAlt, false);
    assert!(!key_event(released.modifiers, GestureKey::Up, true).wake);
    assert!(!key_event(b.modifiers, GestureKey::Up, false).wake);
    assert!(!key_event(b.modifiers, GestureKey::Other, true).wake);
}

#[test]
fn wheel_up_with_both_modifiers_wakes() {
    let both = Modifiers { left_alt: true, left_shift: true };
    assert!(wheel_event(both, 120));
    assert!(!wheel_event(both, -120));
    assert!(!wheel_event(Modifiers { left_alt: true, left_shift: false }, 120));
}

#[test]
fn tray_commands_map_to_actions() {
    assert_eq!(tray_action(1001, 1001, 1002), TrayAction::Show);
    assert_eq!(tray_action(1002, 1001, 1002), TrayAction::Exit);
    assert_eq!(tray_action(0, 1001, 1002), TrayAction::Nothing);
}
