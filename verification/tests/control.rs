use heater::control::elapsed_readout;
use heater::State;

#[test]
fn state_names() {
    assert_eq!(State::Heating.name(), "HEATING");
    assert_eq!(State::Holding.name(), "HOLDING");
}

#[test]
fn heating_switches_to_holding_at_goal() {
    assert_eq!(State::Heating.step(false), State::Heating);
    assert_eq!(State::Heating.step(true), State::Holding);
}

#[test]
fn holding_stays_holding() {
    assert_eq!(State::Holding.step(false), State::Holding);
    assert_eq!(State::Holding.step(true), State::Holding);
}

#[test]
fn elapsed_readout_seconds_then_minutes() {
    assert_eq!(elapsed_readout(0), ("S", 0));
    assert_eq!(elapsed_readout(59), ("S", 59));
    assert_eq!(elapsed_readout(60), ("M", 1));
    assert_eq!(elapsed_readout(3599), ("M", 59));
    assert_eq!(elapsed_readout(u64::MAX), ("M", (u64::MAX / 60) as u32));
}
