//! The overlay's animation states and the decision of whether a visible,
//! unfocused overlay should hide itself.
use vstd::prelude::*;

verus! {

/// Where the overlay is in its show/hide animation.
#[derive(Debug, Clone, Copy, PartialEq, Eq, Structural)]
pub enum AnimationState {
    Hidden,
    FadingIn,
    Visible,
    FadingOut,
}

/// What to do about focus loss.
#[derive(Debug, Clone, Copy, PartialEq, Eq, Structural)]
pub enum FocusHideDecision {
    /// Begin fading out.
    Hide,
    /// Keep waiting (and repainting) for focus to arrive.
    WaitForFocus,
    /// Nothing to do.
    Keep,
}

/// The auto-hide decision (see [`evaluate_focus_hide`]).
pub open spec fn focus_hide_decision(
    state: AnimationState,
    focused: Option<bool>,
    ime_composing: bool,
    was_focused: bool,
    grace_expired: bool,
    unfocused_long_enough: bool,
) -> FocusHideDecision {
    if state != AnimationState::Visible || ime_composing {
        FocusHideDecision::Keep
    } else if focused != Some(false) {
        FocusHideDecision::Keep
    } else if (was_focused || grace_expired) && unfocused_long_enough {
        FocusHideDecision::Hide
    } else {
        FocusHideDecision::WaitForFocus
    }
}

/// Whether the overlay should auto-hide on focus loss. Only a fully visible
/// overlay that is not composing IME text is considered; unknown focus
/// (`None`) counts as focused. A genuinely unfocused overlay hides once the
/// loss has lasted past the debounce window (`unfocused_long_enough`) and
/// either focus had been acquired before or the post-wake grace window has
/// expired; otherwise it keeps waiting.
pub fn evaluate_focus_hide(
    state: AnimationState,
    focused: Option<bool>,
    ime_composing: bool,
    was_focused: bool,
    grace_expired: bool,
    unfocused_long_enough: bool,
) -> (r: FocusHideDecision)
    ensures
        r == focus_hide_decision(
            state,
            focused,
            ime_composing,
            was_focused,
            grace_expired,
            unfocused_long_enough,
        ),
{
    if state != AnimationState::Visible || ime_composing {
        return FocusHideDecision::Keep;
    }
    let focused_or_unknown = match focused {
        Some(f) => f,
        None => true,
    };
    if focused_or_unknown {
        return FocusHideDecision::Keep;
    }
    if (was_focused || grace_expired) && unfocused_long_enough {
        FocusHideDecision::Hide
    } else {
        FocusHideDecision::WaitForFocus
    }
}

/// Focus is never lost on uncertainty: while the overlay is visible, it hides
/// only when it is known to be unfocused, and never while IME text is being
/// composed.
pub proof fn law_hide_requires_known_focus_loss(
    state: AnimationState,
    focused: Option<bool>,
    ime_composing: bool,
    was_focused: bool,
    grace_expired: bool,
    unfocused_long_enough: bool,
)
    ensures
        ({
            let r = focus_hide_decision(
                state,
                focused,
                ime_composing,
                was_focused,
                grace_expired,
                unfocused_long_enough,
            );
            &&& r == FocusHideDecision::Hide ==> state == AnimationState::Visible && !ime_composing
                && focused == Some(false) && unfocused_long_enough
            &&& !unfocused_long_enough ==> r != FocusHideDecision::Hide
        }),
{
}

} // verus!
