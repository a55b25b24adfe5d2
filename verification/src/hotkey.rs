//! The global wake gesture: with the left Alt and left Shift keys held, the
//! Up arrow or an upward wheel turn wakes the flyout (and is swallowed). The
//! modifier state is tracked from the key events themselves, independently of
//! which window has focus. The tray menu offers Show and Exit.
use vstd::prelude::*;

verus! {

/// Which modifiers are held.
#[derive(Debug, Clone, Copy, PartialEq, Eq, Structural)]
pub struct Modifiers {
    pub left_alt: bool,
    pub left_shift: bool,
}

/// The keys the gesture cares about.
#[derive(Debug, Clone, Copy, PartialEq, Eq, Structural)]
pub enum GestureKey {
    LeftAlt,
    LeftShift,
    Up,
    Other,
}

/// What a keyboard event does: the modifiers afterwards, and whether it
/// wakes the flyout (and is swallowed).
pub struct KeyOutcome {
    pub modifiers: Modifiers,
    pub wake: bool,
}

/// A key going down (`down`) or up: a left Alt or left Shift transition
/// updates the held modifiers; the Up arrow going down with both held wakes
/// the flyout.
pub fn key_event(m: Modifiers, key: GestureKey, down: bool) -> (r: KeyOutcome)
    ensures
        r.modifiers.left_alt == (if key == GestureKey::LeftAlt { down } else { m.left_alt }),
        r.modifiers.left_shift == (if key == GestureKey::LeftShift { down } else { m.left_shift }),
        r.wake == (down && key == GestureKey::Up && m.left_alt && m.left_shift),
{
    let modifiers = match key {
        GestureKey::LeftAlt => Modifiers { left_alt: down, left_shift: m.left_shift },
        GestureKey::LeftShift => Modifiers { left_alt: m.left_alt, left_shift: down },
        _ => m,
    };
    let wake = down && key == GestureKey::Up && modifiers.left_alt && modifiers.left_shift;
    KeyOutcome { modifiers, wake }
}

/// A wheel turn (`delta` positive is upward) wakes the flyout when it turns
/// up with both modifiers held.
pub fn wheel_event(m: Modifiers, delta: i16) -> (r: bool)
    ensures
        r == (delta > 0 && m.left_alt && m.left_shift),
{
    delta > 0 && m.left_alt && m.left_shift
}

/// A choice in the tray menu.
#[derive(Debug, Clone, Copy, PartialEq, Eq, Structural)]
pub enum TrayAction {
    Show,
    Exit,
    Nothing,
}

/// The action of the tray menu command `cmd`, given the commands of its two
/// entries.
pub fn tray_action(cmd: i32, show_id: i32, exit_id: i32) -> (r: TrayAction)
    ensures
        r == (if cmd == show_id {
            TrayAction::Show
        } else if cmd == exit_id {
            TrayAction::Exit
        } else {
            TrayAction::Nothing
        }),
{
    if cmd == show_id {
        TrayAction::Show
    } else if cmd == exit_id {
        TrayAction::Exit
    } else {
        TrayAction::Nothing
    }
}

} // verus!
