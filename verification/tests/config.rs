use gazelle_aggregate::config::{parse_u32, Labels};

fn chars(text: &str) -> Vec<char> {
    text.chars().collect()
}

fn field(key: &str, value: Option<&str>) -> (String, Option<String>) {
    (key.to_string(), value.map(str::to_string))
}

#[test]
fn channel_names_are_read_by_the_devices_own_numbers() {
    let labels = Labels::read(Some(vec![field("0", Some("Vocal mic")), field(" 2 ", Some("DI"))]));
    assert_eq!(labels.problem(), None);
    assert_eq!(labels.get(0), Some("Vocal mic"));
    assert_eq!(labels.get(2), Some("DI"));
    assert_eq!(labels.get(1), None);
}

#[test]
fn channel_names_that_are_not_an_object_are_refused_in_plain_words() {
    let labels = Labels::read(None);
    assert_eq!(
        labels.problem().map(String::as_str),
        Some("channel names are written as an object of channel number to name, such as {\"0\": \"Vocal mic\"}")
    );
    let keyed = Labels::read(Some(vec![field("first", Some("Vocal mic"))]));
    assert_eq!(
        keyed.problem().map(String::as_str),
        Some("\"first\" is not a channel number, and channel names are keyed by the device's own channel numbers, from zero")
    );
    let numbered = Labels::read(Some(vec![field("3", None)]));
    assert_eq!(numbered.problem().map(String::as_str), Some("the name for channel 3 is not text"));
    assert!(numbered.is_empty(), "nothing is kept from a list that was refused");
}

#[test]
fn a_channel_number_is_read_the_way_rust_reads_one() {
    assert_eq!(parse_u32(&chars("0")), Some(0));
    assert_eq!(parse_u32(&chars("+17")), Some(17));
    assert_eq!(parse_u32(&chars("4294967295")), Some(u32::MAX));
    assert_eq!(parse_u32(&chars("4294967296")), None);
    assert_eq!(parse_u32(&chars("-1")), None);
    assert_eq!(parse_u32(&chars("")), None);
    assert_eq!(parse_u32(&chars("+")), None);
    assert_eq!(parse_u32(&chars("1 2")), None);
}

#[test]
fn a_channel_named_twice_keeps_the_last_name_it_was_given() {
    let labels = Labels::read(Some(vec![field("1", Some("Kick")), field("01", Some("Snare")), field("2", Some("Hat"))]));
    assert_eq!(labels.get(1), Some("Snare"));
    assert_eq!(labels.get(2), Some("Hat"));
    let pairs = Labels::from_pairs(vec![(4, "Left".to_string()), (4, "Right".to_string())]);
    assert_eq!(pairs.get(4), Some("Right"));
    assert_eq!(pairs.get(5), None);
}
