use gazelle_aggregate::names::{channel_name, labelled_name, MAX_NAME};
use gazelle_aggregate::plan::looks_like_ours;

#[test]
fn a_long_device_name_still_leaves_room_for_the_channel_number() {
    let name = channel_name("A Very Long Interface Name Indeed", 12);
    assert!(name.len() <= MAX_NAME, "{name} is {} characters", name.len());
    assert!(name.ends_with(" 12"));
    assert_eq!(channel_name("Quadro", 1), "Quadro 1");
}

#[test]
fn a_name_too_long_to_carry_the_reference_keeps_the_persons_own_words() {
    // Half a bracket reads as a name that was cut off, so it is all of the reference or none.
    let name = labelled_name("Quadro", 1, Some("The big valve preamp in the rack"));
    assert!(name.chars().count() <= MAX_NAME, "{name} is {} characters", name.chars().count());
    assert_eq!(name, "The big valve preamp in the rac");
    assert!(!name.contains('('), "{name}");
    // A name that fills the last character the interface carries still keeps the reference.
    let exact = labelled_name("Quadro", 1, Some("Twenty characters ok"));
    assert_eq!(exact, "Twenty characters ok (Quadro 1)");
    assert_eq!(exact.chars().count(), MAX_NAME);
    // One character more, and the reference goes rather than half of it.
    assert_eq!(labelled_name("Quadro", 1, Some("Twenty characters oks")), "Twenty characters oks");
}

#[test]
fn a_name_in_somebody_elses_alphabet_is_cut_between_characters_and_never_inside_one() {
    let long = "\u{3053}".repeat(40);
    let name = labelled_name("Quadro", 1, Some(&long));
    assert!(name.len() <= MAX_NAME, "{name} is {} bytes", name.len());
    assert!(long.starts_with(&name), "it is the beginning of what was asked for: {name}");
    assert_eq!(labelled_name("Quadro", 1, Some("Caf\u{e9}")), "Caf\u{e9} (Quadro 1)");
}

#[test]
fn a_long_name_is_cut_exactly_where_the_interface_stops_carrying_it() {
    assert_eq!(channel_name("A Very Long Interface Name Indeed", 12), "A Very Long Interface Name I 12");
    assert_eq!(labelled_name("Quadro", 3, Some("  ")), "Quadro 3", "spaces are nobody's name");
    assert_eq!(labelled_name("Quadro", 3, None), "Quadro 3");
    assert_eq!(labelled_name("Quadro", 3, Some(" DI ")), "DI (Quadro 3)");
}

#[test]
fn with_no_file_the_makers_own_drivers_are_the_ones_opened() {
    assert!(looks_like_ours("Zen Quadro Synergy Core", None, Some(r"c:\program files\antelope audio\x.dll")));
    assert!(looks_like_ours("Antelope Audio Thunderbolt", None, None));
    assert!(looks_like_ours("Something", Some("Antelope Audio USB"), None));
    assert!(!looks_like_ours("Realtek ASIO", None, Some(r"c:\realtek\rtasio.dll")));
}
