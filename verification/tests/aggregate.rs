use gazelle_aggregate::aggregate::{
    block_refusal, buffer_map, channel_info, choose_drivers, count_refusal, output_ready, start_order, stop_order,
    Entry, Wanted, INT32_LSB,
};
use gazelle_aggregate::config::{Config, DeviceConfig};
use gazelle_aggregate::plan::ChannelRef;

fn entry(key: &str, description: Option<&str>, dll: Option<&str>) -> Entry {
    Entry {
        key: key.to_string(),
        clsid: "{00000000-0000-0000-0000-000000000000}".to_string(),
        description: description.map(str::to_string),
        dll: dll.map(str::to_string),
    }
}

fn at(device: usize, slot: usize) -> ChannelRef {
    ChannelRef { device, slot }
}

#[test]
fn with_no_devices_in_the_file_every_one_of_the_makers_drivers_is_chosen_in_registry_order() {
    let entries = vec![
        entry("Realtek ASIO", None, Some(r"c:\realtek\rtasio.dll")),
        entry("Zen Quadro Synergy Core", None, Some(r"c:\program files\antelope audio\x.dll")),
        entry("Antelope Audio Thunderbolt", None, None),
    ];
    assert_eq!(choose_drivers(&entries, &Config::default_config(), &vec![]), Ok(vec![1, 2]));
    assert_eq!(
        choose_drivers(&entries[..1], &Config::default_config(), &vec![]),
        Err("no Antelope drivers are registered on this PC, and the configuration file names none either".to_string())
    );
}

#[test]
fn each_configured_device_finds_the_first_driver_it_matches_in_the_files_order() {
    let entries = vec![entry("Zen Studio", None, None), entry("Zen Quadro Synergy Core", None, None)];
    let mut config = Config::default_config();
    config.devices = vec![DeviceConfig::keyed("quadro".to_string()), DeviceConfig::keyed("zen".to_string())];
    let none = vec![vec![false, false], vec![false, false]];
    assert_eq!(choose_drivers(&entries, &config, &none), Ok(vec![1, 0]));
    config.devices.push(DeviceConfig::keyed("Orion".to_string()));
    let three = vec![vec![false, false], vec![false, false], vec![false, false]];
    assert_eq!(
        choose_drivers(&entries, &config, &three),
        Err("Orion is in the configuration but no driver on this PC matches it".to_string())
    );
}

#[test]
fn a_device_named_by_class_id_is_found_by_that_alone() {
    let entries = vec![entry("Zen Studio", None, None), entry("Zen Quadro", None, None)];
    let mut by_class = DeviceConfig::keyed("studio".to_string());
    by_class.clsid = Some("{AE4A4452-A316-11E5-A113-080027F6C1F4}".to_string());
    let mut config = Config::default_config();
    config.devices = vec![by_class];
    assert_eq!(choose_drivers(&entries, &config, &vec![vec![false, true]]), Ok(vec![1]));
}

#[test]
fn more_devices_than_one_aggregate_holds_are_refused() {
    assert_eq!(count_refusal(8), None);
    assert_eq!(count_refusal(9), Some("9 devices were configured and this driver holds at most 8".to_string()));
}

#[test]
fn a_block_outside_what_every_device_takes_is_refused_with_the_range() {
    assert_eq!(block_refusal(512, 32, 2048), None);
    assert_eq!(block_refusal(32, 32, 2048), None);
    assert_eq!(
        block_refusal(4096, 32, 2048),
        Some("4096 samples is outside what these devices will take, which is 32 to 2048".to_string())
    );
}

#[test]
fn each_buffer_the_daw_asks_for_is_the_aggregate_channel_it_names_in_the_daws_order() {
    let inputs = vec![at(0, 0), at(0, 1), at(1, 0)];
    let outputs = vec![at(0, 0), at(1, 0)];
    let wanted = vec![
        Wanted { is_input: true, channel: 2 },
        Wanted { is_input: false, channel: 1 },
        Wanted { is_input: true, channel: 0 },
    ];
    let (ins, outs, order) = buffer_map(&inputs, &outputs, &wanted).expect("every channel is there");
    assert_eq!(ins, vec![at(1, 0), at(0, 0)]);
    assert_eq!(outs, vec![at(1, 0)]);
    assert_eq!(order, vec![(true, 0), (false, 0), (true, 1)]);
    assert_eq!(
        buffer_map(&inputs, &outputs, &[Wanted { is_input: false, channel: 2 }]).unwrap_err(),
        "there is no output channel 2: this aggregate has 2"
    );
    assert_eq!(
        buffer_map(&inputs, &outputs, &[Wanted { is_input: true, channel: -1 }]).unwrap_err(),
        "channel -1 is not a channel"
    );
}

#[test]
fn a_channel_is_named_and_says_whether_the_daw_asked_for_it() {
    let names = vec!["Quadro 1".to_string(), "Quadro 2".to_string()];
    let wanted = vec![Wanted { is_input: true, channel: 1 }];
    let second = channel_info(&names, &wanted, true, 1).expect("there are two");
    assert_eq!(second.name, "Quadro 2");
    assert!(second.active);
    assert_eq!((second.group, second.sample_type), (0, INT32_LSB));
    assert!(!channel_info(&names, &wanted, false, 1).unwrap().active, "an output is not the input asked for");
    assert!(channel_info(&names, &wanted, true, 2).is_none());
    assert!(channel_info(&names, &wanted, true, -1).is_none());
}

#[test]
fn the_master_starts_last_and_stops_first() {
    assert_eq!(start_order(3, 1), vec![0, 2, 1]);
    assert_eq!(stop_order(3, 1), vec![1, 0, 2]);
    assert_eq!(start_order(1, 0), vec![0]);
}

#[test]
fn output_ready_is_offered_only_when_every_device_takes_it() {
    assert!(output_ready(&[true, true]));
    assert!(!output_ready(&[true, false]));
    assert!(!output_ready(&[]));
}

#[test]
fn numbers_in_a_refusal_are_written_as_rust_writes_them() {
    assert_eq!(
        block_refusal(i32::MIN, 0, i32::MAX),
        Some(format!("{} samples is outside what these devices will take, which is 0 to {}", i32::MIN, i32::MAX))
    );
    assert_eq!(
        block_refusal(-7, 10, 90),
        Some("-7 samples is outside what these devices will take, which is 10 to 90".to_string())
    );
    assert_eq!(
        count_refusal(usize::MAX),
        Some(format!("{} devices were configured and this driver holds at most 8", usize::MAX))
    );
    assert_eq!(count_refusal(10), Some("10 devices were configured and this driver holds at most 8".to_string()));
}
