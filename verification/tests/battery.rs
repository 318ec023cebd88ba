use statusline::battery::{
    get_battery_string, heart, BatteryFailure, BatteryInfo, BatteryState, FULL_HEART,
    HOLLOW_HEART, NO_HEART,
};
use statusline::policy::FailureKind;
use statusline::reading::Reading;

fn battery(fraction: f32, state: BatteryState) -> Result<BatteryInfo, BatteryFailure> {
    Ok(BatteryInfo { charge: Reading::from_bits(fraction.to_bits()), state })
}

const STATES: [BatteryState; 6] = [
    BatteryState::Charging,
    BatteryState::Discharging,
    BatteryState::Empty,
    BatteryState::Full,
    BatteryState::Unknown,
    BatteryState::Other,
];

#[test]
fn hearts() {
    assert_eq!(FULL_HEART, '♥');
    assert_eq!(HOLLOW_HEART, '♡');
    assert_eq!(NO_HEART, '?');
    assert_eq!(heart(BatteryState::Charging), '♥');
    assert_eq!(heart(BatteryState::Discharging), '♡');
    assert_eq!(heart(BatteryState::Empty), '♡');
    assert_eq!(heart(BatteryState::Full), '♥');
    assert_eq!(heart(BatteryState::Unknown), '♥');
    assert_eq!(heart(BatteryState::Other), '?');
}

#[test]
fn discharging_at_seventy_seven() {
    assert_eq!(get_battery_string(&battery(0.77, BatteryState::Discharging)), Ok(String::from(" 77♡")));
}

#[test]
fn every_state_has_its_segment() {
    let expected = [" 50♥", " 50♡", " 50♡", " 50♥", " 50♥", " 50?"];
    for (state, text) in STATES.iter().zip(expected) {
        assert_eq!(get_battery_string(&battery(0.5, *state)), Ok(String::from(text)));
    }
}

#[test]
fn charge_is_rounded_to_the_nearest_percent() {
    let cases = [
        (0.0f32, " 0♥"),
        (0.004, " 0♥"),
        (0.006, " 1♥"),
        (0.094, " 9♥"),
        (0.096, " 10♥"),
        (0.634, " 63♥"),
        (0.636, " 64♥"),
        (0.994, " 99♥"),
        (0.996, " 100♥"),
        (1.0, " 100♥"),
    ];
    for (fraction, text) in cases {
        assert_eq!(get_battery_string(&battery(fraction, BatteryState::Full)), Ok(String::from(text)), "{fraction}");
    }
}

#[test]
fn segment_matches_the_formatter() {
    for step in 0..=1000 {
        let fraction = step as f32 / 1000.0;
        for state in STATES {
            let expected = format!(" {:.0}{}", fraction * 100.0, heart(state));
            assert_eq!(get_battery_string(&battery(fraction, state)), Ok(expected), "{fraction}");
        }
    }
}

#[test]
fn charge_off_the_scale_is_still_written() {
    assert_eq!(get_battery_string(&battery(2.5, BatteryState::Other)), Ok(String::from(" 250?")));
    assert_eq!(get_battery_string(&battery(-0.03, BatteryState::Other)), Ok(String::from(" -3?")));
    assert_eq!(get_battery_string(&battery(f32::NAN, BatteryState::Other)), Ok(String::from(" NaN?")));
    assert_eq!(get_battery_string(&battery(f32::INFINITY, BatteryState::Other)), Ok(String::from(" inf?")));
    assert_eq!(get_battery_string(&battery(f32::MAX, BatteryState::Other)), Ok(String::from(" inf?")));
}

#[test]
fn no_battery_is_an_error_with_its_diagnostic() {
    assert_eq!(
        get_battery_string(&Err(BatteryFailure::NoBattery)),
        Err(String::from("Failed to find any batteries"))
    );
}

#[test]
fn every_failure_has_its_diagnostic() {
    assert_eq!(
        get_battery_string(&Err(BatteryFailure::Manager(String::from("no power supply class")))),
        Err(String::from("Failed to create battery manager: no power supply class"))
    );
    assert_eq!(
        get_battery_string(&Err(BatteryFailure::Iterator(String::from("permission denied")))),
        Err(String::from("Failed to create batteries iterator: permission denied"))
    );
    assert_eq!(
        get_battery_string(&Err(BatteryFailure::Access(String::from("invalid data")))),
        Err(String::from("Failed to access battery information: invalid data"))
    );
    assert_eq!(
        get_battery_string(&Err(BatteryFailure::Manager(String::new()))),
        Err(String::from("Failed to create battery manager: "))
    );
}

#[test]
fn every_failure_has_its_kind() {
    assert_eq!(BatteryFailure::Manager(String::from("x")).kind(), FailureKind::ConstructionFailed);
    assert_eq!(BatteryFailure::Iterator(String::from("x")).kind(), FailureKind::ConstructionFailed);
    assert_eq!(BatteryFailure::Access(String::from("x")).kind(), FailureKind::ReadFailed);
    assert_eq!(BatteryFailure::NoBattery.kind(), FailureKind::NotFound);
}
