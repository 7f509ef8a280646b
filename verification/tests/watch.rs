use gazelle_aggregate::config::{Config, DeviceConfig};
use gazelle_aggregate::watch::{reload, Outcome, Scripted};

fn named(key: &str) -> Config {
    let mut config = Config::default_config();
    config.devices.push(DeviceConfig::keyed(key.to_string()));
    config
}

/// A driver with Device A in force, whose file now names Device B.
fn fake() -> Scripted {
    Scripted::new(named("Device B"), "a test".to_string(), "Device A".to_string())
}

#[test]
fn a_change_with_nothing_streaming_is_taken_up_quietly() {
    let mut fake = fake();
    assert_eq!(reload(&mut fake, 1), Outcome::Adopted);
    assert_eq!(fake.done, vec!["adopt", "adopted 1"]);
    assert_eq!(fake.in_force, "Device B");
}

#[test]
fn a_change_while_a_daw_is_streaming_asks_the_host_to_reset_exactly_once() {
    let mut fake = fake();
    fake.streaming = true;
    assert_eq!(reload(&mut fake, 4), Outcome::ResetAsked);
    assert_eq!(fake.done, vec!["queue", "reset"], "queued first, so the plan is there when it comes back");
    assert_eq!(fake.done.iter().filter(|what| *what == "reset").count(), 1);
    assert_eq!(fake.in_force, "Device A", "nothing has changed under the DAW yet");
}

#[test]
fn a_change_with_nothing_streaming_never_asks_the_host_for_anything() {
    let mut fake = fake();
    reload(&mut fake, 1);
    assert!(!fake.done.iter().any(|what| what == "reset"), "{:?}", fake.done);
    assert!(!fake.done.iter().any(|what| what == "queue"));
}

#[test]
fn a_configuration_that_does_not_parse_is_refused_and_the_plan_in_force_stays() {
    let mut fake = fake();
    fake.config = Err("aggregate.json is not valid: expected a comma".to_string());
    assert_eq!(reload(&mut fake, 2), Outcome::Refused);
    assert_eq!(fake.done, vec!["refused 2: aggregate.json is not valid: expected a comma"]);
    assert_eq!(fake.in_force, "Device A");
}

#[test]
fn a_configuration_that_names_no_device_on_this_pc_is_refused_before_anything_is_touched() {
    let mut fake = fake();
    fake.objection = Some("Device C is in the configuration but no driver on this PC matches it".to_string());
    assert_eq!(reload(&mut fake, 3), Outcome::Refused);
    assert_eq!(fake.done.len(), 1, "nothing was adopted, queued or reset: {:?}", fake.done);
    assert!(fake.done[0].contains("Device C"));
    assert_eq!(fake.in_force, "Device A");
}

#[test]
fn a_configuration_that_a_device_refuses_when_it_is_opened_leaves_the_old_one_in_force() {
    let mut fake = fake();
    fake.adoption = Some("Device B refused 96000 Hz".to_string());
    assert_eq!(reload(&mut fake, 5), Outcome::Refused);
    assert_eq!(fake.done, vec!["adopt refused", "refused 5: Device B refused 96000 Hz"]);
    assert_eq!(fake.in_force, "Device A");
}
