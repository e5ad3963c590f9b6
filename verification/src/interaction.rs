//! Which of a widget's per-state values it shows in each pointer state.

use vstd::prelude::*;

verus! {

/// The value shown for the pointer state: `active` while pressed, `hover`
/// while hovered, `base` otherwise, where an unset state keeps the one below
/// it (an unset `active` falls back to `hover`, an unset `hover` to `base`).
pub open spec fn state_target<C>(
    base: C,
    hover: Option<C>,
    active: Option<C>,
    hovered: bool,
    pressed: bool,
) -> C {
    let hover_value = match hover {
        Some(h) => h,
        None => base,
    };
    if pressed {
        match active {
            Some(a) => a,
            None => hover_value,
        }
    } else if hovered {
        hover_value
    } else {
        base
    }
}

/// Pick the value a widget shows right now from its per-state values.
pub fn state_value<C: Copy>(
    base: C,
    hover: Option<C>,
    active: Option<C>,
    hovered: bool,
    pressed: bool,
) -> (r: C)
    ensures
        r == state_target(base, hover, active, hovered, pressed),
{
    let hover_value = match hover {
        Some(h) => h,
        None => base,
    };
    if pressed {
        match active {
            Some(a) => a,
            None => hover_value,
        }
    } else if hovered {
        hover_value
    } else {
        base
    }
}

/// What a widget shows in each pointer state: while pressed, a set pressed
/// value always, whatever the hover value; while pressed with no pressed
/// value, what it would show hovered; while hovered and not pressed, a set
/// hover value, else the base; and with the pointer away, always the base.
pub proof fn lemma_state_value_fallbacks<C>(
    base: C,
    hover: Option<C>,
    active: Option<C>,
    hovered: bool,
    pressed: bool,
    r: C,
)
    requires
        r == state_target(base, hover, active, hovered, pressed),
    ensures
        pressed && active is Some ==> r == active->0,
        pressed && active is None ==> r == state_target(base, hover, active, true, false),
        !pressed && hovered && hover is Some ==> r == hover->0,
        !pressed && hovered && hover is None ==> r == base,
        !pressed && !hovered ==> r == base,
{
}

} // verus!
