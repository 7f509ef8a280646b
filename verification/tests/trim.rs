use gazelle_aggregate::rig::Direction;
use gazelle_aggregate::trim::implied_by;

#[test]
fn the_interface_that_recorded_late_takes_a_positive_trim() {
    let late = implied_by("Studio+", "measured", true, 28, Direction::Inputs, 0, false);
    assert_eq!(late.measured, 28);
    assert_eq!(late.new, 28, "positive, not negative: a trim of -28 made 28 samples into 53");
    assert_eq!(late.field, "input_trim");
    assert!(late.not_applied.is_none());
    let early = implied_by("Studio+", "measured", true, -28, Direction::Inputs, 0, false);
    assert_eq!(early.new, -28);
}

#[test]
fn a_trim_that_was_already_there_is_added_to_and_never_replaced() {
    let change = implied_by("Studio+", "measured", true, 4, Direction::Inputs, 28, false);
    assert_eq!((change.old, change.measured, change.new), (28, 4, 32));
    let settled = implied_by("Studio+", "measured", true, 0, Direction::Inputs, 28, false);
    assert_eq!(settled.new, 28);
    assert_eq!(settled.measured, 0);
}

#[test]
fn the_reference_interfaces_trim_never_moves() {
    let change = implied_by("Quadro", "measured", true, 3, Direction::Inputs, 12, true);
    assert_eq!((change.old, change.measured, change.new), (12, 0, 12));
    assert!(change.is_reference);
    assert_eq!(
        change.not_applied.as_deref(),
        Some(
            "Quadro is the interface the others were measured against, so its trim is what everything else moved \
             to meet and it does not change"
        )
    );
}

#[test]
fn a_reading_a_trim_cannot_be_made_from_leaves_the_file_alone_and_says_why() {
    let change = implied_by("Studio+", "nothing arrived on Studio+'s input", false, 28, Direction::Inputs, 28, false);
    assert_eq!(change.new, 28, "a cable fault must never rewrite a trim");
    assert_eq!(change.measured, 0);
    assert_eq!(change.not_applied.as_deref(), Some("nothing arrived on Studio+'s input"));
}

#[test]
fn measuring_the_outputs_writes_the_other_field_by_the_same_rule() {
    let change = implied_by("Studio+", "measured", true, 28, Direction::Outputs, 0, false);
    assert_eq!(change.field, "output_trim");
    assert_eq!(change.new, 28);
    assert_eq!(change.direction, Direction::Outputs);
}
