//! The battery segment: the charge as a whole percentage, then a heart for
//! the state.

use crate::numeral::{push_rounded, rounded};
use crate::percent::{hundredfold, percent};
use crate::policy::FailureKind;
use crate::reading::Reading;
use vstd::prelude::*;
use vstd::string::StringExecFns;

verus! {

/// Shown while the battery fills or holds its charge.
pub const FULL_HEART: char = '♥';

/// Shown while the battery drains.
pub const HOLLOW_HEART: char = '♡';

/// Shown for a state this library has no heart for.
pub const NO_HEART: char = '?';

/// What the power subsystem says the battery is doing.
#[derive(Clone, Copy, Debug, PartialEq, Eq, Structural)]
pub enum BatteryState {
    Charging,
    Discharging,
    Empty,
    Full,
    Unknown,
    /// A state reported by the platform that is none of the above.
    Other,
}

/// The first battery the platform reports.
#[derive(Clone, Copy, Debug, PartialEq, Eq, Structural)]
pub struct BatteryInfo {
    /// State of charge as a fraction of the full charge, 0 to 1.
    pub charge: Reading,
    pub state: BatteryState,
}

/// Why there is no battery information. The text is the platform's own
/// account of the failure.
#[derive(Debug, PartialEq, Eq)]
pub enum BatteryFailure {
    Manager(String),
    Iterator(String),
    Access(String),
    NoBattery,
}

/// The heart for a state. `Unknown` counts as charged: a battery held at
/// its charge limit is reported so.
pub open spec fn heart_of(state: BatteryState) -> char {
    match state {
        BatteryState::Charging => FULL_HEART,
        BatteryState::Discharging => HOLLOW_HEART,
        BatteryState::Empty => HOLLOW_HEART,
        BatteryState::Full => FULL_HEART,
        BatteryState::Unknown => FULL_HEART,
        BatteryState::Other => NO_HEART,
    }
}

pub fn heart(state: BatteryState) -> (glyph: char)
    ensures
        glyph == heart_of(state),
{
    match state {
        BatteryState::Charging => FULL_HEART,
        BatteryState::Discharging => HOLLOW_HEART,
        BatteryState::Empty => HOLLOW_HEART,
        BatteryState::Full => FULL_HEART,
        BatteryState::Unknown => FULL_HEART,
        BatteryState::Other => NO_HEART,
    }
}

/// A space, the charge in percent rounded to a whole number, the heart.
pub open spec fn battery_text(info: BatteryInfo) -> Seq<char> {
    (seq![' '] + rounded(hundredfold(info.charge))).push(heart_of(info.state))
}

/// The diagnostic for a failure.
pub open spec fn failure_text(failure: BatteryFailure) -> Seq<char> {
    match failure {
        BatteryFailure::Manager(why) => "Failed to create battery manager: "@ + why@,
        BatteryFailure::Iterator(why) => "Failed to create batteries iterator: "@ + why@,
        BatteryFailure::Access(why) => "Failed to access battery information: "@ + why@,
        BatteryFailure::NoBattery => "Failed to find any batteries"@,
    }
}

/// The kind of a failure.
pub open spec fn kind_of(failure: BatteryFailure) -> FailureKind {
    match failure {
        BatteryFailure::Manager(_) => FailureKind::ConstructionFailed,
        BatteryFailure::Iterator(_) => FailureKind::ConstructionFailed,
        BatteryFailure::Access(_) => FailureKind::ReadFailed,
        BatteryFailure::NoBattery => FailureKind::NotFound,
    }
}

impl BatteryFailure {
    pub fn kind(&self) -> (kind: FailureKind)
        ensures
            kind == kind_of(*self),
    {
        match self {
            BatteryFailure::Manager(_) => FailureKind::ConstructionFailed,
            BatteryFailure::Iterator(_) => FailureKind::ConstructionFailed,
            BatteryFailure::Access(_) => FailureKind::ReadFailed,
            BatteryFailure::NoBattery => FailureKind::NotFound,
        }
    }
}

/// The battery percent and indicator string for the outcome of a probe, or
/// the diagnostic that says why there is none.
pub fn get_battery_string(probe: &Result<BatteryInfo, BatteryFailure>) -> (segment: Result<
    String,
    String,
>)
    ensures
        match *probe {
            Ok(info) => segment matches Ok(text) && text@ == battery_text(info),
            Err(failure) => segment matches Err(text) && text@ == failure_text(failure),
        },
{
    match probe {
        Ok(info) => {
            let mut text = String::new();
            text.push(' ');
            push_rounded(&mut text, percent(info.charge));
            text.push(heart(info.state));
            Ok(text)
        },
        Err(BatteryFailure::Manager(why)) => {
            let mut text = String::from_str("Failed to create battery manager: ");
            text.append(why.as_str());
            Err(text)
        },
        Err(BatteryFailure::Iterator(why)) => {
            let mut text = String::from_str("Failed to create batteries iterator: ");
            text.append(why.as_str());
            Err(text)
        },
        Err(BatteryFailure::Access(why)) => {
            let mut text = String::from_str("Failed to access battery information: ");
            text.append(why.as_str());
            Err(text)
        },
        Err(BatteryFailure::NoBattery) => Err(String::from_str("Failed to find any batteries")),
    }
}

} // verus!
