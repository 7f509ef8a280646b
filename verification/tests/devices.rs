use gazelle_aggregate::devices::{create_device_buffers, dispose_devices, start_devices, stop_devices, Bench};
use gazelle_aggregate::plan::{DevicePlan, Plan};

fn names() -> Vec<String> {
    vec!["Device A".to_string(), "Device B".to_string(), "Device C".to_string()]
}

fn device(name: &str, inputs: Vec<i32>, outputs: Vec<i32>) -> DevicePlan {
    DevicePlan {
        name: name.to_string(),
        driver_name: name.to_string(),
        inputs,
        outputs,
        input_type: 18,
        output_type: 18,
        input_width: 4,
        output_width: 4,
        latency_in: 0,
        latency_out: 0,
        pad_in: 0,
        pad_out: 0,
        buffered: true,
        phase: None,
        reserved_inputs: Vec::new(),
        reserved_outputs: Vec::new(),
    }
}

fn three_devices() -> Plan {
    let mut plan = Plan::empty_for_tests();
    plan.devices = vec![
        device("Device A", vec![0, 1], vec![0]),
        device("Device B", vec![2], vec![0, 1]),
        device("Device C", vec![0], vec![]),
    ];
    plan.master = 1;
    plan
}

#[test]
fn the_device_that_drives_the_callback_is_started_last_and_stopped_first() {
    let mut bench = Bench::new(3);
    assert_eq!(start_devices(&mut bench, 1, &names()), Ok(()));
    stop_devices(&mut bench, 1);
    assert_eq!(bench.calls, vec!["0: start", "2: start", "1: start", "1: stop", "0: stop", "2: stop"]);
}

#[test]
fn a_device_that_will_not_start_is_named_and_the_ones_that_did_are_stopped_newest_first() {
    let mut bench = Bench::new(3);
    bench.refuses_start = Some((1, "no clock".to_string()));
    // Device C drives the callback, so A and B go first.
    assert_eq!(start_devices(&mut bench, 2, &names()), Err("Device B would not start: no clock".to_string()));
    assert_eq!(bench.calls, vec!["0: start", "1: start refused", "0: stop"]);

    // And the master itself refusing leaves every follower stopped again, the last of them first.
    let mut bench = Bench::new(3);
    bench.refuses_start = Some((0, "it is busy".to_string()));
    assert_eq!(start_devices(&mut bench, 0, &names()), Err("Device A would not start: it is busy".to_string()));
    assert_eq!(bench.calls, vec!["1: start", "2: start", "0: start refused", "2: stop", "1: stop"]);
}

#[test]
fn a_device_with_no_name_is_called_by_its_place() {
    let mut bench = Bench::new(3);
    bench.refuses_start = Some((2, "gone".to_string()));
    assert_eq!(start_devices(&mut bench, 0, &[]), Err("device 2 would not start: gone".to_string()));
}

#[test]
fn every_device_makes_its_buffers_for_the_channels_the_plan_opens_on_it() {
    let mut bench = Bench::new(3);
    assert_eq!(create_device_buffers(&mut bench, &three_devices(), 64), Ok(()));
    assert_eq!(bench.calls, vec!["0: create", "1: create", "2: create"]);
}

#[test]
fn a_device_that_refuses_the_buffer_size_is_named_and_the_ones_that_made_theirs_let_them_go() {
    let mut bench = Bench::new(3);
    bench.refuses_buffers = Some((2, "64 is too small".to_string()));
    assert_eq!(
        create_device_buffers(&mut bench, &three_devices(), 64),
        Err("Device C would not take 64 samples a buffer: 64 is too small".to_string())
    );
    assert_eq!(bench.calls, vec!["0: create", "1: create", "2: create refused", "1: dispose", "0: dispose"]);
}

#[test]
fn letting_the_buffers_go_stops_every_device_first_and_then_lets_each_go() {
    let mut bench = Bench::new(3);
    dispose_devices(&mut bench, 2, true);
    assert_eq!(
        bench.calls,
        vec!["2: stop", "0: stop", "1: stop", "0: dispose", "0: detach", "1: dispose", "1: detach", "2: dispose", "2: detach"]
    );
    // With no buffers made there is nothing running to stop.
    let mut bench = Bench::new(2);
    dispose_devices(&mut bench, 0, false);
    assert_eq!(bench.calls, vec!["0: dispose", "0: detach", "1: dispose", "1: detach"]);
}

fn described(name: &str, inputs: i32) -> (
    gazelle_aggregate::plan::Description,
    gazelle_aggregate::plan::SampleKind,
    gazelle_aggregate::plan::SampleKind,
) {
    let kind = gazelle_aggregate::plan::SampleKind { convertible: true, width: Some(4), name: "Int32LSB".to_string() };
    (
        gazelle_aggregate::plan::Description {
            name: name.to_string(),
            version: 1,
            inputs,
            outputs: 2,
            min: 32,
            max: 2048,
            preferred: 512,
            granularity: -1,
            latency_in: 600,
            latency_out: 700,
            input_type: 18,
            output_type: 18,
            output_ready: true,
        },
        kind.clone(),
        kind,
    )
}

fn entry(key: &str) -> gazelle_aggregate::aggregate::Entry {
    gazelle_aggregate::aggregate::Entry {
        key: key.to_string(),
        clsid: "{00000000-0000-0000-0000-000000000000}".to_string(),
        description: None,
        dll: None,
    }
}

#[test]
fn every_chosen_driver_is_opened_started_up_and_read_in_the_slot_of_its_place() {
    let entries = vec![entry("Device A"), entry("Device B")];
    let mut config = gazelle_aggregate::config::Config::default_config();
    let mut second = gazelle_aggregate::config::DeviceConfig::keyed("Device A".to_string());
    second.name = Some("Quadro".to_string());
    second.input_trim = Some(12);
    config.devices = vec![gazelle_aggregate::config::DeviceConfig::keyed("Device B".to_string()), second];
    let mut shelf = gazelle_aggregate::devices::Shelf::new(vec![described("B's driver", 4), described("A's driver", 8)]);
    let found = gazelle_aggregate::devices::open_devices(&mut shelf, &entries, &config, &[1, 0]).expect("both open");
    assert_eq!(shelf.calls, vec!["open 1", "init 0", "describe 0", "open 0", "init 1", "describe 1"]);
    assert_eq!(found.len(), 2);
    assert_eq!(found[0].name, "Device B", "no name in the file is the registry key");
    assert_eq!(found[1].name, "Quadro", "and a name in the file is the name");
    assert_eq!(found[0].description.inputs, 4);
    assert_eq!(found[1].description.name, "A's driver");
    assert_eq!((found[0].input_trim, found[1].input_trim), (0, 12));
}

#[test]
fn with_no_devices_in_the_file_each_is_called_by_its_key_and_asked_nothing() {
    let entries = vec![entry("Device A")];
    let config = gazelle_aggregate::config::Config::default_config();
    let mut shelf = gazelle_aggregate::devices::Shelf::new(vec![described("A's driver", 4)]);
    let found = gazelle_aggregate::devices::open_devices(&mut shelf, &entries, &config, &[0]).expect("it opens");
    assert_eq!(found[0].name, "Device A");
    assert_eq!(found[0].wanted_inputs, None);
    assert_eq!(found[0].output_trim, 0);
}

#[test]
fn a_driver_that_will_not_open_start_up_or_be_read_is_named_with_what_it_said() {
    let entries = vec![entry("Device A"), entry("Device B")];
    let config = gazelle_aggregate::config::Config::default_config();

    let mut shelf = gazelle_aggregate::devices::Shelf::new(vec![described("A", 4), described("B", 4)]);
    shelf.refuses_open = Some((1, "class not registered".to_string()));
    let refused = gazelle_aggregate::devices::open_devices(&mut shelf, &entries, &config, &[0, 1]).err();
    assert_eq!(refused, Some("Device B could not be opened: class not registered".to_string()));
    assert_eq!(shelf.calls, vec!["open 0", "init 0", "describe 0", "open 1"]);

    let mut shelf = gazelle_aggregate::devices::Shelf::new(vec![described("A", 4)]);
    shelf.refuses_init = Some((0, "the interface is switched off".to_string()));
    let refused = gazelle_aggregate::devices::open_devices(&mut shelf, &entries, &config, &[0]).err();
    assert_eq!(refused, Some("Device A refused to start up: the interface is switched off".to_string()));

    let mut shelf = gazelle_aggregate::devices::Shelf::new(Vec::new());
    let refused = gazelle_aggregate::devices::open_devices(&mut shelf, &entries, &config, &[0]).err();
    assert_eq!(refused, Some("Device A could not be read: nothing is there".to_string()));
}

#[test]
fn more_devices_than_one_aggregate_holds_are_refused_before_any_is_opened() {
    let keys: Vec<String> = (0..9).map(|index| format!("Device {index}")).collect();
    let entries: Vec<_> = keys.iter().map(|key| entry(key)).collect();
    let mut config = gazelle_aggregate::config::Config::default_config();
    config.devices = keys.iter().map(|key| gazelle_aggregate::config::DeviceConfig::keyed(key.clone())).collect();
    let same_class = vec![vec![false; entries.len()]; config.devices.len()];
    let mut shelf = gazelle_aggregate::devices::Shelf::new(Vec::new());
    let refused = gazelle_aggregate::devices::open_everything(&mut shelf, &entries, &config, &same_class).err();
    assert_eq!(refused, Some("9 devices were configured and this driver holds at most 8".to_string()));
    assert!(shelf.calls.is_empty());
}

#[test]
fn a_configured_device_the_pc_does_not_have_is_refused_before_any_is_opened() {
    let entries = vec![entry("Device A")];
    let mut config = gazelle_aggregate::config::Config::default_config();
    config.devices = vec![gazelle_aggregate::config::DeviceConfig::keyed("Device Z".to_string())];
    let mut shelf = gazelle_aggregate::devices::Shelf::new(vec![described("A", 4)]);
    let refused = gazelle_aggregate::devices::open_everything(&mut shelf, &entries, &config, &vec![vec![false]]);
    assert!(refused.is_err());
    assert!(shelf.calls.is_empty());
    let mut config = gazelle_aggregate::config::Config::default_config();
    config.devices = vec![gazelle_aggregate::config::DeviceConfig::keyed("Device A".to_string())];
    let found = gazelle_aggregate::devices::open_everything(&mut shelf, &entries, &config, &vec![vec![false]])
        .expect("the one device there is opens");
    assert_eq!(found.len(), 1);
    assert_eq!(shelf.calls, vec!["open 0", "init 0", "describe 0"]);
}

#[test]
fn a_configuration_that_will_not_open_puts_back_the_one_that_did() {
    let entries = vec![entry("Device A")];
    let mut was = gazelle_aggregate::config::Config::default_config();
    was.devices = vec![gazelle_aggregate::config::DeviceConfig::keyed("Device A".to_string())];
    let mut config = gazelle_aggregate::config::Config::default_config();
    config.devices = vec![gazelle_aggregate::config::DeviceConfig::keyed("Device Z".to_string())];
    let table = vec![vec![false]];

    let mut shelf = gazelle_aggregate::devices::Shelf::new(vec![described("A", 4)]);
    let (adopted, back) =
        gazelle_aggregate::devices::reconfigure(&mut shelf, &entries, &was, &table, &config, &table, true, true);
    assert_eq!(adopted.err(), Some("the configuration cannot be changed while a DAW has the buffers".to_string()));
    assert!(back.is_none());
    assert!(shelf.calls.is_empty(), "nothing is pulled out from under a DAW");

    let (adopted, back) =
        gazelle_aggregate::devices::reconfigure(&mut shelf, &entries, &was, &table, &config, &table, false, true);
    assert!(adopted.is_err(), "the new configuration names a device this PC does not have");
    let back = back.expect("what was in force is opened again").expect("and it opens");
    assert_eq!(back[0].name, "Device A");
    assert_eq!(shelf.calls, vec!["open 0", "init 0", "describe 0"]);

    let mut shelf = gazelle_aggregate::devices::Shelf::new(vec![described("A", 4)]);
    let (adopted, back) =
        gazelle_aggregate::devices::reconfigure(&mut shelf, &entries, &config, &table, &was, &table, false, false);
    assert_eq!(adopted.map(|found| found.len()), Ok(1));
    assert!(back.is_none());
}
