use gazelle_aggregate::config::{Alignment, Config, DeviceConfig, Labels, PhaseConfig};
use gazelle_aggregate::names::{labelled_name, MAX_NAME};
use gazelle_aggregate::plan::{plan, ChannelRef, Description, Found, SampleKind};
use gazelle_aggregate::rig::Layout;

fn described(name: &str, inputs: i32, outputs: i32, latency_in: i32, latency_out: i32) -> Description {
    Description {
        name: name.to_string(),
        version: 1,
        inputs,
        outputs,
        min: 32,
        max: 2048,
        preferred: 512,
        granularity: -1,
        latency_in,
        latency_out,
        input_type: 18,
        output_type: 18,
        output_ready: true,
    }
}

fn thirty_two_bit() -> SampleKind {
    SampleKind { convertible: true, width: Some(4), name: "32 bit little endian".to_string() }
}

fn found(name: &str, inputs: i32, outputs: i32, latency_in: i32, latency_out: i32) -> Found {
    Found {
        name: name.to_string(),
        description: described(name, inputs, outputs, latency_in, latency_out),
        input_sample: thirty_two_bit(),
        output_sample: thirty_two_bit(),
        wanted_inputs: None,
        wanted_outputs: None,
        input_trim: 0,
        output_trim: 0,
        input_labels: Labels::none(),
        output_labels: Labels::none(),
        phase: None,
    }
}

/// A cable from the master's output to this device's input, as the file declares one.
fn phase_over(master_output: i32, input: i32) -> PhaseConfig {
    PhaseConfig { master_output: Some(master_output), input: Some(input), reference: None }
}

/// Labels as the file gives them: the device's own channel number, and what to call it.
fn labels(pairs: &[(u32, &str)]) -> Labels {
    Labels::from_pairs(pairs.iter().map(|(channel, label)| (*channel, (*label).to_string())).collect())
}

/// Two devices, at 96 kHz.
fn this_pc() -> Vec<Found> {
    vec![found("Quadro", 16, 16, 639, 799), found("Studio+", 24, 24, 636, 700)]
}

#[test]
fn every_channel_of_every_device_is_exposed_in_order_and_named() {
    let plan = plan(&this_pc(), &Config::default_config(), None).expect("two ordinary devices");
    assert_eq!(plan.inputs.len(), 40);
    assert_eq!(plan.outputs.len(), 40);
    assert_eq!(plan.input_names[0], "Quadro 1");
    assert_eq!(plan.input_names[15], "Quadro 16");
    assert_eq!(plan.input_names[16], "Studio+ 1");
    assert_eq!(plan.input_names[39], "Studio+ 24");
    assert_eq!(plan.inputs[16], ChannelRef { device: 1, slot: 0 });
    assert_eq!(plan.outputs[39], ChannelRef { device: 1, slot: 23 });
}

#[test]
fn a_third_device_needs_no_code_only_a_line_in_the_file() {
    let mut devices = this_pc();
    devices.push(found("Orion", 32, 32, 700, 800));
    let plan = plan(&devices, &Config::default_config(), None).expect("three devices are no different");
    assert_eq!(plan.inputs.len(), 16 + 24 + 32);
    assert_eq!(plan.input_names.last().unwrap(), "Orion 32");
    assert!(plan.devices[2].buffered);
}

#[test]
fn only_the_channels_the_file_asks_for_are_exposed() {
    let mut devices = this_pc();
    devices[0].wanted_inputs = Some(vec![0, 1]);
    devices[0].wanted_outputs = Some(vec![4, 5]);
    devices[1].wanted_inputs = Some(vec![2, 99]);
    let plan = plan(&devices, &Config::default_config(), None).expect("a narrowed device is still a device");
    assert_eq!(plan.input_names, vec!["Quadro 1", "Quadro 2", "Studio+ 3"], "a channel the device has not got is dropped");
    assert_eq!(plan.output_names[0], "Quadro 5", "channels are named by the device's own numbering");
    assert_eq!(plan.outputs.len(), 2 + 24);
}

#[test]
fn the_master_is_the_first_device_unless_the_file_says_otherwise() {
    let config = Config::default_config();
    assert_eq!(plan(&this_pc(), &config, None).unwrap().master, 0);
    let studio = Config { callback_master: Some("Studio+".into()), ..Config::default_config() };
    assert_eq!(plan(&this_pc(), &studio, None).unwrap().master, 1);
    let by_part = Config { callback_master: Some("studio".into()), ..Config::default_config() };
    assert_eq!(plan(&this_pc(), &by_part, None).unwrap().master, 1);
}

#[test]
fn a_master_that_is_not_there_is_a_refusal_that_names_the_devices() {
    let config = Config { callback_master: Some("Orion".into()), ..Config::default_config() };
    let error = plan(&this_pc(), &config, None).expect_err("a master must exist");
    assert!(error.contains("Orion"), "{error}");
    assert!(error.contains("Quadro") && error.contains("Studio+"), "{error}");
}

#[test]
fn lining_up_pads_the_earlier_device_and_reports_one_figure() {
    let plan = plan(&this_pc(), &Config::default_config(), Some(512)).expect("the default is aligned");
    // The master is direct; the other device crosses a buffer, so its path is a block longer.
    assert_eq!(plan.input_latency, 636 + 512);
    assert_eq!(plan.output_latency, 700 + 512);
    assert_eq!(plan.devices[0].pad_in, 1148 - 639);
    assert_eq!(plan.devices[0].pad_out, 1212 - 799);
    assert_eq!(plan.devices[1].pad_in, 0);
    assert_eq!(plan.devices[1].pad_out, 0);
    // Which is the whole point: every device's path is now the same length.
    for (index, device) in plan.devices.iter().enumerate() {
        let buffered = if index == plan.master { 0 } else { plan.block };
        assert_eq!(device.latency_in + device.pad_in + buffered, plan.input_latency);
        assert_eq!(device.latency_out + device.pad_out + buffered, plan.output_latency);
    }
}

#[test]
fn the_lowest_latency_setting_pads_nothing() {
    let config = Config { alignment: Alignment::LowestLatency, ..Config::default_config() };
    let plan = plan(&this_pc(), &config, Some(512)).expect("two devices");
    assert!(plan.devices.iter().all(|d| d.pad_in == 0 && d.pad_out == 0));
    // The figure reported is still the longest path, because that is the honest one.
    assert_eq!(plan.input_latency, 636 + 512);
    assert_eq!(plan.output_latency, 700 + 512);
}

#[test]
fn one_device_alone_costs_nothing_at_all() {
    let plan = plan(&this_pc()[..1], &Config::default_config(), Some(512)).expect("one device is a valid aggregate");
    assert_eq!(plan.input_latency, 639);
    assert_eq!(plan.output_latency, 799);
    assert_eq!(plan.devices[0].pad_in, 0);
    assert!(!plan.devices[0].buffered);
}

#[test]
fn plan_the_buffer_sizes_offered_are_the_ones_every_device_can_take() {
    let mut devices = this_pc();
    devices[0].description.min = 64;
    devices[0].description.max = 1024;
    devices[1].description.min = 32;
    devices[1].description.max = 2048;
    devices[1].description.preferred = 256;
    let plan = plan(&devices, &Config::default_config(), None).expect("they overlap");
    assert_eq!(plan.min, 64);
    assert_eq!(plan.max, 1024);
    assert_eq!(plan.preferred, 512, "the larger of the two preferred sizes, which both can take");
}

#[test]
fn the_file_can_ask_for_a_buffer_size_and_it_is_held_inside_what_is_possible() {
    let config = Config { buffer_size: Some(128), ..Config::default_config() };
    assert_eq!(plan(&this_pc(), &config, None).unwrap().preferred, 128);
    let silly = Config { buffer_size: Some(99_999), ..Config::default_config() };
    assert_eq!(plan(&this_pc(), &silly, None).unwrap().preferred, 2048, "held inside what the devices will take");
}

#[test]
fn devices_that_share_no_buffer_size_are_refused_rather_than_guessed_at() {
    let mut devices = this_pc();
    devices[0].description.min = 1024;
    devices[1].description.max = 512;
    let error = plan(&devices, &Config::default_config(), None).expect_err("there is no size both will take");
    assert!(error.contains("1024") && error.contains("512"), "{error}");
}

#[test]
fn a_sample_type_the_copy_path_does_not_know_is_refused_by_name() {
    let mut devices = this_pc();
    devices[1].description.output_type = 2; // big endian, which no Windows driver reports
    devices[1].output_sample = SampleKind { convertible: false, width: Some(4), name: "32 bit big endian".to_string() };
    let error = plan(&devices, &Config::default_config(), None).expect_err("an unknown type is a refusal");
    assert!(error.contains("Studio+") && error.contains("outputs"), "{error}");
}

#[test]
fn nothing_to_aggregate_is_a_refusal_in_plain_words() {
    let error = plan(&[], &Config::default_config(), None).expect_err("no devices");
    assert!(error.contains("no devices"), "{error}");
    let mut devices = this_pc();
    for device in &mut devices {
        device.wanted_inputs = Some(Vec::new());
        device.wanted_outputs = Some(Vec::new());
    }
    assert!(plan(&devices, &Config::default_config(), None).is_err(), "no channels is no device");
}

#[test]
fn a_channel_the_person_has_named_keeps_the_automatic_name_in_brackets() {
    let mut devices = this_pc();
    devices[0].input_labels = labels(&[(0, "Vocal mic"), (2, "DI")]);
    devices[0].output_labels = labels(&[(0, "Main L"), (1, "Main R")]);
    let plan = plan(&devices, &Config::default_config(), None).expect("two ordinary devices");
    assert_eq!(plan.input_names[0], "Vocal mic (Quadro 1)");
    assert_eq!(plan.input_names[2], "DI (Quadro 3)");
    assert_eq!(plan.output_names[0], "Main L (Quadro 1)");
    assert_eq!(plan.output_names[1], "Main R (Quadro 2)");
    assert!(plan.input_names.iter().all(|name| name.chars().count() <= MAX_NAME), "{:?}", plan.input_names);
}

#[test]
fn a_channel_nobody_has_named_is_called_exactly_what_it_always_was() {
    let mut devices = this_pc();
    devices[0].input_labels = labels(&[(0, "Vocal mic")]);
    let plan = plan(&devices, &Config::default_config(), None).expect("two ordinary devices");
    assert_eq!(plan.input_names[1], "Quadro 2", "the channel beside a named one is untouched");
    assert_eq!(plan.output_names[0], "Quadro 1", "and so is the same channel the other way round");
    assert_eq!(plan.input_names[16], "Studio+ 1", "and so is every channel of a device with no names at all");
}

#[test]
fn a_name_for_a_channel_that_is_not_exposed_is_simply_unused() {
    let mut devices = this_pc();
    devices[0].wanted_inputs = Some(vec![0, 1]);
    devices[0].input_labels = labels(&[(0, "Vocal mic"), (9, "A channel nobody asked for")]);
    let plan = plan(&devices, &Config::default_config(), None).expect("a narrowed device is still a device");
    assert_eq!(plan.input_names[0], "Vocal mic (Quadro 1)");
    assert_eq!(plan.input_names[1], "Quadro 2");
    assert!(!plan.input_names.iter().any(|name| name.contains("nobody asked for")), "{:?}", plan.input_names);
}

#[test]
fn a_name_that_is_empty_or_only_spaces_is_not_a_name() {
    let mut devices = this_pc();
    devices[0].input_labels = labels(&[(0, ""), (1, "   ")]);
    let plan = plan(&devices, &Config::default_config(), None).expect("two ordinary devices");
    assert_eq!(plan.input_names[0], "Quadro 1");
    assert_eq!(plan.input_names[1], "Quadro 2");
    assert_eq!(labelled_name("Quadro", 1, None), "Quadro 1");
    assert_eq!(labelled_name("Quadro", 1, Some("  Vocal mic  ")), "Vocal mic (Quadro 1)", "the spaces around one are not part of it");
}

#[test]
fn devices_are_matched_by_class_id_first_and_then_by_name() {
    let mut by_clsid = DeviceConfig::keyed("zen quadro".to_string());
    by_clsid.clsid = Some("{AE4A4452-A316-11E5-A113-080027F6C1F4}".into());
    // With a class id, the class id alone decides, whatever the key says.
    assert!(gazelle_aggregate::plan::matches("ZenStudioTB ASIO Driver", true, None, &by_clsid));
    assert!(!gazelle_aggregate::plan::matches("Zen Quadro", false, None, &by_clsid));
    let by_key = DeviceConfig::keyed("zen quadro".to_string());
    assert!(gazelle_aggregate::plan::matches("Zen Quadro Synergy Core", false, None, &by_key));
    assert!(!gazelle_aggregate::plan::matches("ZenStudioTB ASIO Driver", true, None, &by_key), "without a class id in the file, the key decides");
    assert!(gazelle_aggregate::plan::matches("Something", false, Some("The ZEN QUADRO driver"), &by_key), "or the description");
    let padded = DeviceConfig::keyed("  Zen Quadro  ".to_string());
    assert!(gazelle_aggregate::plan::matches("zen quadro", false, None, &padded));
}

#[test]
fn a_device_can_be_trimmed_by_a_measured_number_of_samples() {
    // A device's real converter latency can differ from the figure its driver reports. Measured
    // at the devices on 2026-09-21: with the same source into both, the Studio+'s recording sat
    // about 28 samples behind the Quadro's, and it stayed there when the two microphones were
    // swapped, so it belongs to the device and not to the microphone. A trim nulls it: a device
    // that records late admits to less latency than it has, so its trim is positive and the
    // others are held back to meet it. A trim of the wrong sign doubles the error.
    let mut devices = this_pc();
    devices[1].input_trim = -28;
    let plan = plan(&devices, &Config::default_config(), None).expect("two ordinary devices");
    let (quadro, studio) = (&plan.devices[0], &plan.devices[1]);
    // The Studio+ is buffered, so its path is 636 + 512 = 1148, less the 28 it is trimmed by;
    // the Quadro's is 639. Everything is held back to the longest, which is still the Studio+.
    assert_eq!(plan.input_latency, 1120, "the trim shortens the longest path, so the DAW is told less");
    assert_eq!(studio.pad_in, 0);
    assert_eq!(quadro.pad_in, 1120 - 639, "and the Quadro waits that much longer");
    // The trim moves only the inputs: an output trim is its own field.
    assert_eq!(plan.output_latency, 1212);
    assert_eq!(studio.pad_out, 0);
    assert_eq!(quadro.pad_out, 1212 - 799);
}

/// What a phase measurement costs the DAW: the two channels it runs over, which the DAW never
/// sees, so nothing it plays can land on the measurement channel.
#[test]
fn the_channels_a_phase_is_measured_over_are_kept_out_of_the_daws_list() {
    let mut devices = this_pc();
    devices[1].phase = Some(phase_over(8, 20));
    let plan = plan(&devices, &Config::default_config(), None).expect("two ordinary devices and a cable");
    // The Quadro's output 8 and the Studio+'s input 20 are opened at the devices...
    assert!(plan.devices[0].outputs.contains(&8));
    assert!(plan.devices[1].inputs.contains(&20));
    let measured = plan.devices[1].phase.expect("the follower is measured");
    assert_eq!((measured.master_output, measured.input), (8, 20));
    assert_eq!(plan.devices[0].outputs[measured.master_slot], 8);
    assert_eq!(plan.devices[1].inputs[measured.input_slot], 20);
    // ...and neither is in the list the DAW is given, nor named in it.
    assert_eq!(plan.outputs.len(), 16 + 24 - 1, "one of the Quadro's outputs is the driver's own");
    assert_eq!(plan.inputs.len(), 16 + 24 - 1);
    assert!(!plan.output_names.contains(&"Quadro 9".to_string()), "{:?}", plan.output_names);
    assert!(!plan.input_names.contains(&"Studio+ 21".to_string()), "{:?}", plan.input_names);
    // The channels beside them are untouched, and still name the sockets they are on.
    assert_eq!(plan.output_names[7], "Quadro 8");
    assert_eq!(plan.output_names[8], "Quadro 10", "the numbering follows the device, not the list");
    assert_eq!(plan.devices[0].phase, None, "the device that drives the callback is not measured");
}

/// A channel the file did not ask to expose is still opened when the measurement needs it.
#[test]
fn a_measurement_channel_outside_what_the_file_exposes_is_opened_anyway_and_still_kept_back() {
    let mut devices = this_pc();
    devices[0].wanted_outputs = Some(vec![0, 1]);
    devices[1].wanted_inputs = Some(vec![0, 1]);
    devices[1].phase = Some(phase_over(8, 20));
    let plan = plan(&devices, &Config::default_config(), None).expect("two ordinary devices and a cable");
    assert_eq!(plan.devices[0].outputs, vec![0, 1, 8], "it is opened at the device");
    assert_eq!(plan.devices[1].inputs, vec![0, 1, 20]);
    assert_eq!(plan.output_names.iter().filter(|name| name.starts_with("Quadro")).count(), 2, "and not exposed");
    assert_eq!(plan.input_names.iter().filter(|name| name.starts_with("Studio+")).count(), 2);
}

/// Three interfaces, each follower measured against the one that drives the callback.
#[test]
fn every_follower_is_measured_against_the_master_on_its_own_channels() {
    let mut devices = this_pc();
    devices.push(found("Orion", 32, 32, 700, 800));
    devices[1].phase = Some(phase_over(8, 20));
    devices[2].phase = Some(phase_over(9, 30));
    let three = plan(&devices, &Config::default_config(), None).expect("three devices are no different");
    assert_eq!(three.devices[1].phase.unwrap().input, 20);
    assert_eq!(three.devices[2].phase.unwrap().input, 30);
    // Both cables leave the master, on channels of its own, and both are kept back from the DAW.
    assert_eq!(three.devices[0].reserved_outputs.len(), 2);
    assert_eq!(three.outputs.len(), 16 - 2 + 24 + 32);
    assert_eq!(three.inputs.len(), 16 + 24 - 1 + 32 - 1);

    // Two followers may share one of the master's outputs, which is one cable split in two.
    devices[2].phase = Some(phase_over(8, 30));
    let shared = plan(&devices, &Config::default_config(), None).expect("one output feeding both");
    assert_eq!(shared.devices[0].reserved_outputs.len(), 1, "the same output is kept back once");
    assert_eq!(shared.outputs.len(), 16 - 1 + 24 + 32);
}

#[test]
fn a_phase_measured_over_a_channel_that_is_not_there_is_refused_by_name() {
    let mut devices = this_pc();
    devices[1].phase = Some(phase_over(99, 20));
    let no_output = plan(&devices, &Config::default_config(), None).expect_err("the Quadro has 16 outputs");
    assert!(no_output.contains("Studio+") && no_output.contains("99") && no_output.contains("16"), "{no_output}");

    devices[1].phase = Some(phase_over(8, 99));
    let no_input = plan(&devices, &Config::default_config(), None).expect_err("the Studio+ has 24 inputs");
    assert!(no_input.contains("Studio+") && no_input.contains("99") && no_input.contains("24"), "{no_input}");
}

#[test]
fn the_device_that_drives_the_callback_cannot_be_measured_against_itself() {
    let mut devices = this_pc();
    devices[0].phase = Some(phase_over(8, 20));
    let error = plan(&devices, &Config::default_config(), None).expect_err("there is nothing to measure it against");
    assert!(error.contains("Quadro") && error.contains("drives the callback"), "{error}");
    // The same setting on the device that is not the master is an ordinary measurement.
    let mut moved = this_pc();
    moved[1].phase = Some(phase_over(8, 20));
    assert!(plan(&moved, &Config::default_config(), None).is_ok());
}

#[test]
fn a_device_with_no_phase_setting_is_planned_exactly_as_it_always_was() {
    let plain = plan(&this_pc(), &Config::default_config(), Some(512)).expect("two ordinary devices");
    assert!(plain.devices.iter().all(|device| device.phase.is_none()));
    assert!(plain.devices.iter().all(|device| device.reserved_inputs.is_empty() && device.reserved_outputs.is_empty()));
    assert_eq!(plain.inputs.len(), 40);
    assert_eq!(plain.input_latency, 636 + 512);
    assert_eq!(plain.devices[0].pad_in, 1148 - 639);
}

#[test]
fn a_trim_can_hold_a_device_back_as_well_as_bring_it_forward() {
    let mut devices = this_pc();
    devices[0].input_trim = 30;
    devices[0].output_trim = 12;
    let plan = plan(&devices, &Config::default_config(), None).expect("two ordinary devices");
    assert_eq!(plan.devices[0].pad_in, 1148 - (639 + 30));
    assert_eq!(plan.devices[0].pad_out, 1212 - (799 + 12));
}

#[test]
fn the_layout_of_an_opened_aggregate_is_read_from_its_plan() {
    let mut devices = this_pc();
    devices[1].phase = Some(phase_over(8, 20));
    let planned = plan(&devices, &Config::default_config(), None).unwrap();
    let drivers = vec![described("Quadro", 16, 16, 639, 799), described("Studio+", 24, 24, 636, 700)];
    let layout = Layout::of(&planned, &drivers);
    assert_eq!(layout.interfaces[0].phase_outputs, vec![(8, "Studio+".to_string())]);
    assert!(layout.interfaces[1].phase_outputs.is_empty());
    assert_eq!(layout.interfaces[1].phase_input, Some(20));
    assert_eq!(layout.inputs.len(), 39);
    assert_eq!(layout.inputs[16], (1, 0));
    assert!(!layout.outputs.contains(&(0, 8)), "the phase output is not the DAW's");
    assert!(!layout.inputs.contains(&(1, 20)), "and neither is the phase input");
    // Without the drivers' own answers, one more than the highest channel opened is said.
    let guessed = Layout::of(&planned, &[]);
    assert_eq!(guessed.interfaces[1].inputs, 24);
    assert_eq!(guessed.interfaces[0].outputs, 16);
    assert_eq!(guessed.interfaces[0].name, "Quadro");
}

#[test]
fn every_refusal_of_a_plan_is_said_in_full() {
    assert_eq!(
        plan(&[], &Config::default_config(), None).unwrap_err(),
        "no devices to aggregate: nothing in the configuration matched a driver on this PC"
    );
    let mut devices = this_pc();
    devices[0].description.min = 1024;
    devices[1].description.max = 512;
    assert_eq!(
        plan(&devices, &Config::default_config(), None).unwrap_err(),
        "these devices share no buffer size: the smallest any of them will take is 1024 and the largest is 512"
    );
    let config = Config { callback_master: Some("  Orion ".into()), ..Config::default_config() };
    assert_eq!(
        plan(&this_pc(), &config, None).unwrap_err(),
        "callback_master is \"Orion\", which is none of the devices: Quadro, Studio+"
    );
    let mut devices = this_pc();
    devices[1].phase = Some(phase_over(99, 20));
    assert_eq!(
        plan(&devices, &Config::default_config(), None).unwrap_err(),
        "Studio+'s phase is measured over Quadro's output 99, and Quadro has 16 outputs, numbered from zero"
    );
    devices[1].phase = Some(phase_over(8, 99));
    assert_eq!(
        plan(&devices, &Config::default_config(), None).unwrap_err(),
        "Studio+'s phase is measured on its own input 99, and it has 24 inputs, numbered from zero"
    );
    let mut devices = this_pc();
    devices[0].input_sample = SampleKind { convertible: false, width: None, name: "64 bit floats".to_string() };
    assert_eq!(
        plan(&devices, &Config::default_config(), None).unwrap_err(),
        "Quadro's inputs are 64 bit floats, which this driver will not convert"
    );
    let mut devices = this_pc();
    for device in &mut devices {
        device.wanted_inputs = Some(Vec::new());
        device.wanted_outputs = Some(Vec::new());
    }
    assert_eq!(
        plan(&devices, &Config::default_config(), None).unwrap_err(),
        "the configuration exposes no channels at all"
    );
}

#[test]
fn the_steps_between_buffer_sizes_are_the_coarsest_any_device_asks_for() {
    let plain = plan(&this_pc(), &Config::default_config(), None).unwrap();
    assert_eq!(plain.granularity, -1, "every device takes powers of two");
    let mut devices = this_pc();
    devices[1].description.granularity = 16;
    assert_eq!(plan(&devices, &Config::default_config(), None).unwrap().granularity, 16);
    assert_eq!(plain.block, 512, "with no block asked for, the preferred one");
    assert_eq!(plan(&this_pc(), &Config::default_config(), Some(64)).unwrap().block, 64);
    assert_eq!(plain.devices[0].input_width, 4);
}

#[test]
fn a_plan_of_nothing_has_the_shape_of_one() {
    let empty = gazelle_aggregate::plan::Plan::empty_for_tests();
    assert!(empty.devices.is_empty() && empty.inputs.is_empty() && empty.output_names.is_empty());
    assert_eq!(empty.granularity, -1);
    assert_eq!(empty.alignment, Alignment::Aligned);
}
