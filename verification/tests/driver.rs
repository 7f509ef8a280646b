use gazelle_aggregate::{class_id, DRIVER_NAME, REGISTRY_KEY};

#[test]
fn the_class_id_is_the_one_written_down() {
    // A change here is a change to what every DAW has remembered. If this test fails, the
    // class id was edited, and that is the one edit this crate must never make.
    assert_eq!(class_id().to_registry_string(), "{F18C80B4-2DE1-43B8-AC84-19DDC22EBFC8}");
}

#[test]
fn the_driver_is_not_named_after_anyone_elses_technology() {
    let lower = DRIVER_NAME.to_ascii_lowercase();
    assert!(!lower.contains("asio"), "the trademark rules forbid it in a product name");
    assert_eq!(DRIVER_NAME, REGISTRY_KEY);
}

#[test]
fn a_counter_is_read_as_seconds_and_the_rest_of_a_second() {
    assert_eq!(gazelle_aggregate::nanos_of(3_000_000, 1_000_000), 3_000_000_000);
    assert_eq!(gazelle_aggregate::nanos_of(10_000_001, 10_000_000), 1_000_000_100);
    assert_eq!(gazelle_aggregate::nanos_of(5, 0), 0, "a counter with no rate reads as nothing");
}

#[test]
fn a_tone_counts_up_from_where_it_was_asked_to_start() {
    assert_eq!(gazelle_aggregate::daw::tone(4, 10), vec![10, 11, 12, 13]);
    assert!(gazelle_aggregate::daw::tone(0, 10).is_empty());
}
