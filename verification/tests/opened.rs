use gazelle_aggregate::aggregate::{Aggregate, Wanted};
use gazelle_aggregate::config::{Config, Labels};
use gazelle_aggregate::devices::Bench;
use gazelle_aggregate::plan::{Description, Found, SampleKind};

fn found(name: &str, inputs: i32, outputs: i32) -> Found {
    let kind = SampleKind { convertible: true, width: Some(4), name: "32 bit little endian".to_string() };
    Found {
        name: name.to_string(),
        description: Description {
            name: name.to_string(),
            version: 1,
            inputs,
            outputs,
            min: 32,
            max: 2048,
            preferred: 512,
            granularity: -1,
            latency_in: 600,
            latency_out: 700,
            input_type: 18,
            output_type: 18,
            output_ready: true,
        },
        input_sample: kind.clone(),
        output_sample: kind,
        wanted_inputs: None,
        wanted_outputs: None,
        input_trim: 0,
        output_trim: 0,
        input_labels: Labels::none(),
        output_labels: Labels::none(),
        phase: None,
    }
}

fn opened() -> Aggregate<Bench> {
    let mut aggregate =
        Aggregate::new(Bench::new(2), Config::default_config(), vec![found("Quadro", 4, 4), found("Studio", 2, 2)]);
    assert_eq!(aggregate.init(), Ok(()));
    aggregate
}

fn asked() -> Vec<Wanted> {
    vec![Wanted { is_input: true, channel: 5 }, Wanted { is_input: false, channel: 0 }, Wanted { is_input: true, channel: 0 }]
}

#[test]
fn a_block_outside_what_the_devices_take_is_refused_before_any_device_is_asked() {
    let mut aggregate = opened();
    let refused = aggregate.create_buffers(&asked(), 16);
    let why = "16 samples is outside what these devices will take, which is 32 to 2048";
    assert_eq!(refused, Err(why.to_string()));
    assert_eq!(aggregate.last_error(), why);
    assert!(aggregate.devices().calls.is_empty());
    assert!(!aggregate.has_buffers());
}

#[test]
fn a_channel_the_aggregate_does_not_have_is_refused_before_any_device_is_asked() {
    let mut aggregate = opened();
    let refused = aggregate.create_buffers(&[Wanted { is_input: false, channel: 6 }], 64);
    assert_eq!(refused, Err("there is no output channel 6: this aggregate has 6".to_string()));
    assert!(aggregate.devices().calls.is_empty());
}

#[test]
fn buffers_are_asked_of_a_driver_that_was_never_opened_in_vain() {
    let mut aggregate = Aggregate::new(Bench::new(1), Config::default_config(), vec![found("Quadro", 4, 4)]);
    let refused = aggregate.create_buffers(&asked(), 64);
    assert_eq!(refused, Err("the driver was asked for buffers before it was opened".to_string()));
    assert_eq!(aggregate.last_error(), "the driver was asked for buffers before it was opened");
}

#[test]
fn every_device_makes_its_buffers_and_each_request_is_placed_in_the_daws_order() {
    let mut aggregate = opened();
    let made = aggregate.create_buffers(&asked(), 64);
    assert_eq!(made, Ok(vec![(true, 0), (false, 0), (true, 1)]));
    assert_eq!(aggregate.devices().calls, vec!["0: create", "1: create"]);
    assert!(aggregate.has_buffers());
    assert_eq!(aggregate.create_buffers(&asked(), 64), Err("the buffers are already made".to_string()));
    assert_eq!(aggregate.devices().calls.len(), 2, "a second request asks no device anything");
}

#[test]
fn a_device_that_refuses_the_block_leaves_no_buffers_anywhere() {
    let mut bench = Bench::new(2);
    bench.refuses_buffers = Some((1, "64 is too small".to_string()));
    let mut aggregate_with_refusal =
        Aggregate::new(bench, Config::default_config(), vec![found("Quadro", 4, 4), found("Studio", 2, 2)]);
    assert_eq!(aggregate_with_refusal.init(), Ok(()));
    let refused = aggregate_with_refusal.create_buffers(&asked(), 64);
    assert_eq!(refused, Err("Studio would not take 64 samples a buffer: 64 is too small".to_string()));
    assert_eq!(aggregate_with_refusal.devices().calls, vec!["0: create", "1: create refused", "0: dispose"]);
    assert!(!aggregate_with_refusal.has_buffers());
}

#[test]
fn the_devices_start_with_the_master_last_and_are_let_go_after_stopping() {
    let mut aggregate = opened();
    assert_eq!(aggregate.start(), Err("the driver was started before its buffers were made".to_string()));
    aggregate.create_buffers(&asked(), 64).expect("two ordinary devices");
    assert_eq!(aggregate.start(), Ok(()));
    aggregate.dispose_buffers();
    assert!(!aggregate.has_buffers());
    assert_eq!(
        aggregate.devices().calls,
        vec![
            "0: create", "1: create", "1: start", "0: start", "0: stop", "1: stop", "0: dispose", "0: detach",
            "1: dispose", "1: detach"
        ]
    );
}

#[test]
fn the_plan_is_worked_out_again_at_the_block_the_daw_asked_for() {
    let mut aggregate = opened();
    assert_eq!(aggregate.plan().map(|plan| plan.block), Some(512), "opened, it is planned at the preferred block");
    aggregate.create_buffers(&asked(), 128).expect("two ordinary devices");
    assert_eq!(aggregate.plan().map(|plan| plan.block), Some(128));
    assert!(!aggregate.is_started());
    assert_eq!(aggregate.start(), Ok(()));
    assert!(aggregate.is_started());
    aggregate.stop();
    assert!(!aggregate.is_started());
    assert!(aggregate.has_buffers(), "stopping keeps the buffers");
}

#[test]
fn a_refusal_made_before_anything_was_asked_is_still_there_to_be_told() {
    let mut aggregate = Aggregate::new(Bench::new(0), Config::default_config(), Vec::new());
    aggregate.refuse("aggregate.json could not be read".to_string());
    assert_eq!(aggregate.last_error(), "aggregate.json could not be read");
    assert!(!aggregate.is_initialised());
}

#[test]
fn the_daw_is_told_the_channels_the_sizes_and_the_latencies_of_the_plan_in_force() {
    let never_opened = Aggregate::new(Bench::new(1), Config::default_config(), vec![found("Quadro", 4, 4)]);
    assert_eq!(never_opened.channels(), (0, 0));
    assert_eq!(never_opened.buffer_sizes(), None);
    assert_eq!(never_opened.latencies(), None);
    assert!(never_opened.channel_info(true, 0).is_none());

    let mut aggregate = opened();
    assert_eq!(aggregate.channels(), (6, 6));
    assert_eq!(aggregate.buffer_sizes(), Some((32, 2048, 512, -1)));
    assert!(aggregate.latencies().is_some());
    let info = aggregate.channel_info(true, 0).expect("a channel the aggregate has");
    assert!(!info.active, "nothing is asked for yet");
    assert!(aggregate.channel_info(true, 6).is_none());
    aggregate.create_buffers(&asked(), 64).expect("two ordinary devices");
    assert!(aggregate.channel_info(true, 5).expect("asked for").active);
    assert!(!aggregate.channel_info(false, 5).expect("not asked for").active);
}
