//! Signal-to-position decisions that do not depend on prices.

use vstd::prelude::*;

use crate::events::SignalDirection;

verus! {

/// The sign of the position a signal asks for: `None` for no action, `0`
/// for flat, `+1` for long, `-1` for short. Short signals are answered with a
/// flat position when shorting is not allowed.
pub open spec fn target_sign(direction: SignalDirection, allow_short: bool) -> Option<i8> {
    match direction {
        SignalDirection::Hold => None,
        SignalDirection::Exit => Some(0i8),
        SignalDirection::Long => Some(1i8),
        SignalDirection::Short => if allow_short {
            Some(-1i8)
        } else {
            Some(0i8)
        },
    }
}

/// The sign of the position that `direction` calls for (see [`target_sign`]).
/// The size of a non-flat target follows from equity, allocation and price.
pub fn target_exposure(direction: SignalDirection, allow_short: bool) -> (r: Option<i8>)
    ensures
        r == target_sign(direction, allow_short),
        direction == SignalDirection::Long ==> r == Some(1i8),
        direction == SignalDirection::Exit ==> r == Some(0i8),
        direction == SignalDirection::Short ==> r == (if allow_short { Some(-1i8) } else { Some(0i8) }),
        direction == SignalDirection::Hold ==> r is None,
{
    match direction {
        SignalDirection::Hold => None,
        SignalDirection::Exit => Some(0),
        SignalDirection::Long => Some(1),
        SignalDirection::Short => {
            if allow_short {
                Some(-1)
            } else {
                Some(0)
            }
        },
    }
}

/// How signals map to target positions: a long signal always asks for a
/// long position and an exit for a flat one, whether or not shorting is
/// allowed; only a short signal depends on it, asking for a short position
/// (the opposite of a long one) when shorting is allowed and for a flat one
/// when it is not; a hold signal, and only a hold signal, asks for no action.
pub proof fn lemma_target_sign_by_direction(direction: SignalDirection, allow_short: bool)
    ensures
        target_sign(SignalDirection::Long, allow_short) == Some(1i8),
        target_sign(SignalDirection::Exit, allow_short) == Some(0i8),
        target_sign(SignalDirection::Short, true) == Some(-1i8),
        target_sign(SignalDirection::Short, false) == Some(0i8),
        direction != SignalDirection::Short ==> target_sign(direction, true) == target_sign(direction, false),
        (target_sign(direction, allow_short) is None) <==> direction == SignalDirection::Hold,
{
}

} // verus!
