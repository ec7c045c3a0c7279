//! Per-controller input snapshots, as the engines consume them.
//!
//! Analog button and axis values are carried as integer milli-units
//! (a raw reading of 1.0 is 1000), so thresholds are exact integers.

use vstd::prelude::*;

verus! {

/// A controller fires its accept or decline input when the raw value
/// exceeds 0.9, that is 900 milli-units.
pub const FIRE_THRESHOLD_MILLI: u32 = 900;

/// Raw directional values at or below 0.1 (100 milli-units) discretize to -1.
pub const LOW_THRESHOLD_MILLI: u32 = 100;

/// One tick's cached reading of a single live controller.
///
/// `devpath` is the kernel's identifier for the current device node; the
/// engines resolve it to a stable minimal path through an `EventPathLookup`.
/// A directional axis that the device does not report is `None`.
pub struct GamepadInput {
    pub devpath: String,
    pub accept_milli: u32,
    pub decline_milli: u32,
    pub horizontal_milli: Option<u32>,
    pub vertical_milli: Option<u32>,
}

/// Mathematical image of a `GamepadInput`.
pub struct GamepadInputView {
    pub devpath: Seq<char>,
    pub accept_milli: u32,
    pub decline_milli: u32,
    pub horizontal_milli: Option<u32>,
    pub vertical_milli: Option<u32>,
}

impl View for GamepadInput {
    type V = GamepadInputView;

    open spec fn view(&self) -> GamepadInputView {
        GamepadInputView {
            devpath: self.devpath@,
            accept_milli: self.accept_milli,
            decline_milli: self.decline_milli,
            horizontal_milli: self.horizontal_milli,
            vertical_milli: self.vertical_milli,
        }
    }
}

impl DeepView for GamepadInput {
    type V = GamepadInputView;

    open spec fn deep_view(&self) -> GamepadInputView {
        self.view()
    }
}

/// Whether a milli-unit reading counts as a firing press (raw value > 0.9).
pub open spec fn spec_fires(value_milli: u32) -> bool {
    value_milli > FIRE_THRESHOLD_MILLI
}

/// Discretization of one directional axis reading to {-1, 0, +1}:
/// below 0.1 is -1, above 0.9 is +1, anything else (including an
/// absent reading) is 0.
pub open spec fn spec_discretize(value_milli: Option<u32>) -> int {
    match value_milli {
        Option::None => 0,
        Option::Some(v) => if v < LOW_THRESHOLD_MILLI {
            -1
        } else if v > FIRE_THRESHOLD_MILLI {
            1
        } else {
            0
        },
    }
}

/// Exact test for a firing press.
pub fn fires(value_milli: u32) -> (r: bool)
    ensures
        r == spec_fires(value_milli),
{
    value_milli > FIRE_THRESHOLD_MILLI
}

/// Discretize one directional axis reading to {-1, 0, +1}.
pub fn discretize(value_milli: Option<u32>) -> (r: i32)
    ensures
        r as int == spec_discretize(value_milli),
{
    match value_milli {
        Option::None => 0,
        Option::Some(v) => {
            if v < LOW_THRESHOLD_MILLI {
                -1
            } else if v > FIRE_THRESHOLD_MILLI {
                1
            } else {
                0
            }
        },
    }
}

} // verus!
