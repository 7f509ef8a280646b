use gazelle_aggregate::session::{in_use_refusal, no_hardware_refusal, NO_HARDWARE};

#[test]
fn the_variable_that_keeps_a_test_off_the_hardware_refuses_this_outright() {
    let refusal = no_hardware_refusal(Some("1")).expect("set means refuse");
    assert!(refusal.contains(NO_HARDWARE), "{refusal}");
    assert!(refusal.contains("real converters"), "it says what it would have done: {refusal}");
    assert_eq!(no_hardware_refusal(None), None);
    assert_eq!(no_hardware_refusal(Some("0")), None);
    assert_eq!(no_hardware_refusal(Some("")), None);
    assert_eq!(no_hardware_refusal(Some("false")), None);
}

#[test]
fn a_driver_that_already_has_the_interfaces_is_a_refusal_that_says_what_to_close() {
    let refusal = in_use_refusal(true, false).expect("open is enough");
    assert!(refusal.contains("already open"), "{refusal}");
    assert!(refusal.contains("close the DAW"), "{refusal}");
    assert!(in_use_refusal(false, true).is_some(), "streaming counts too");
    assert_eq!(in_use_refusal(false, false), None);
}

#[test]
fn the_variable_is_read_without_the_spaces_around_it() {
    assert_eq!(no_hardware_refusal(Some("  0 ")), None);
    assert_eq!(no_hardware_refusal(Some(" false\n")), None);
    assert_eq!(no_hardware_refusal(Some("   ")), None);
    assert!(no_hardware_refusal(Some("yes")).is_some());
    assert!(no_hardware_refusal(Some("FALSE")).is_some(), "only the word itself, as written, means no");
    assert_eq!(
        no_hardware_refusal(Some("true")).unwrap(),
        "GAZELLE_NO_HARDWARE is set, and this measurement drives real converters: it plays a click out of an \
         interface and records it back. Unset GAZELLE_NO_HARDWARE to run it deliberately."
    );
}
