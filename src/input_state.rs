//! The state of one key or button across two input frames.

use vstd::prelude::*;

verus! {

#[derive(Debug, Clone, Copy, PartialEq, Eq, Structural)]
pub enum RawInputState {
    NotPressed,
    Pressed,
    Held,
    Released,
}

impl Default for RawInputState {
    fn default() -> (r: Self)
        ensures
            r == RawInputState::NotPressed,
    {
        RawInputState::NotPressed
    }
}

impl RawInputState {
    /// Down in this frame, whether newly or still.
    pub fn is_active(&self) -> (r: bool)
        ensures
            r == (*self == RawInputState::Pressed || *self == RawInputState::Held),
    {
        match self {
            RawInputState::Pressed | RawInputState::Held => true,
            _ => false,
        }
    }

    pub fn is_just_pressed(&self) -> (r: bool)
        ensures
            r == (*self == RawInputState::Pressed),
    {
        match self {
            RawInputState::Pressed => true,
            _ => false,
        }
    }

    pub fn is_just_released(&self) -> (r: bool)
        ensures
            r == (*self == RawInputState::Released),
    {
        match self {
            RawInputState::Released => true,
            _ => false,
        }
    }

    /// The state from whether the input was down in the previous and in the
    /// current frame.
    pub fn from_raw_states(previous: bool, current: bool) -> (r: Self)
        ensures
            r == if !previous && current {
                RawInputState::Pressed
            } else if previous && current {
                RawInputState::Held
            } else if previous && !current {
                RawInputState::Released
            } else {
                RawInputState::NotPressed
            },
            r.is_active_spec() == current,
    {
        match (previous, current) {
            (false, true) => RawInputState::Pressed,
            (true, true) => RawInputState::Held,
            (true, false) => RawInputState::Released,
            (false, false) => RawInputState::NotPressed,
        }
    }

    pub open spec fn is_active_spec(&self) -> bool {
        *self == RawInputState::Pressed || *self == RawInputState::Held
    }
}

} // verus!
