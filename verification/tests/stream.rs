use gazelle_aggregate::plan::ChannelRef;
use gazelle_aggregate::stream::{
    at_least_one, follower_callback, gather, master_inputs, master_outputs, scatter, stream_for, watch_devices, watch_step, Verdict,
    Watch,
};

#[test]
fn a_device_that_stops_calling_back_is_stalled_after_so_many_looks_and_trusted_again_after_so_many_more() {
    let mut watch = Watch::default();
    let mut stalled = false;
    // It moves once, then stops at 7 callbacks.
    let (after, verdict) = watch_step(watch, 7, stalled, 3, 2);
    assert_eq!((after, verdict), (Watch { last: 7, missed: 0, moving: 1 }, Verdict::Carries));
    watch = after;
    for look in 1..=3 {
        let (after, verdict) = watch_step(watch, 7, stalled, 3, 2);
        watch = after;
        assert_eq!(watch.missed, look);
        assert_eq!(verdict == Verdict::Stalls, look == 3, "stalled at the third silent look and not before");
        if verdict == Verdict::Stalls {
            stalled = true;
        }
    }
    // Coming back: one callback is not enough, two in a row are.
    let (after, verdict) = watch_step(watch, 8, stalled, 3, 2);
    assert_eq!(verdict, Verdict::Carries);
    let (after, verdict) = watch_step(after, 9, stalled, 3, 2);
    assert_eq!(verdict, Verdict::Recovers);
    assert_eq!(after, Watch { last: 9, missed: 0, moving: 2 });
}

#[test]
fn nothing_happens_in_fewer_than_one_look() {
    assert_eq!(at_least_one(0), 1);
    assert_eq!(at_least_one(4), 4);
}

#[test]
fn the_daw_is_handed_the_channels_it_asked_for_in_its_own_order() {
    let stages = vec![vec![1, 2, 3, 4], vec![10, 20, 30, 40, 50, 60]];
    let map = vec![ChannelRef { device: 1, slot: 2 }, ChannelRef { device: 0, slot: 0 }];
    assert_eq!(gather(&stages, &map, 2), vec![vec![50, 60], vec![1, 2]]);
}

#[test]
fn what_the_daw_wrote_goes_back_to_the_devices_and_everything_else_is_silence() {
    let mut stages = vec![vec![9; 4], vec![9; 6]];
    let map = vec![ChannelRef { device: 1, slot: 1 }, ChannelRef { device: 0, slot: 1 }, ChannelRef { device: 1, slot: 1 }];
    let written = vec![vec![1, 2], vec![3, 4], vec![5, 6]];
    scatter(&mut stages, &map, &written, 2);
    assert_eq!(stages, vec![vec![0, 0, 3, 4], vec![0, 0, 5, 6, 0, 0]], "the later request for one channel wins");
}

fn one_by_one(name: &str, pad_in: i32, pad_out: i32, buffered: bool) -> gazelle_aggregate::plan::DevicePlan {
    gazelle_aggregate::plan::DevicePlan {
        name: name.to_string(),
        driver_name: name.to_string(),
        inputs: vec![0],
        outputs: vec![0],
        input_type: 18,
        output_type: 18,
        input_width: 4,
        output_width: 4,
        latency_in: 0,
        latency_out: 0,
        pad_in,
        pad_out,
        buffered,
        phase: None,
        reserved_inputs: Vec::new(),
        reserved_outputs: Vec::new(),
    }
}

/// A master and one follower, one input and one output each, at two samples a block.
fn two_devices(master_pad_in: i32) -> gazelle_aggregate::plan::Plan {
    let mut plan = gazelle_aggregate::plan::Plan::empty_for_tests();
    plan.devices = vec![one_by_one("Master", master_pad_in, 0, false), one_by_one("Follower", 0, 0, true)];
    plan.master = 0;
    plan.block = 2;
    plan
}

fn both_channels() -> Vec<ChannelRef> {
    vec![ChannelRef { device: 0, slot: 0 }, ChannelRef { device: 1, slot: 0 }]
}

#[test]
fn a_stream_starts_silent_with_a_ring_each_way_for_every_device_but_the_master() {
    let (lanes, scratch) = stream_for(&two_devices(0), 4);
    assert_eq!(lanes.len(), 2);
    assert!(lanes[0].in_ring.is_none() && lanes[0].out_ring.is_none());
    assert!(lanes[1].in_ring.is_some() && lanes[1].out_ring.is_some());
    assert_eq!(lanes[1].in_ring.as_ref().map(|ring| ring.len()), Some(2));
    assert_eq!(scratch.stage_in, vec![vec![0, 0], vec![0, 0]]);
    assert_eq!(scratch.stage_out, vec![vec![0, 0], vec![0, 0]]);
    assert_eq!(scratch.watch, vec![Watch::default(), Watch::default()]);
}

#[test]
fn a_followers_block_crosses_to_the_daw_and_what_the_daw_wrote_crosses_back() {
    let (mut lanes, mut scratch) = stream_for(&two_devices(0), 4);
    let mut out = vec![1, 1];
    // Nothing has been left for the follower yet, so it plays silence, and hands over what it heard.
    assert!(!follower_callback(&mut lanes[1], true, &[5, 6], &mut out));
    assert_eq!(out, vec![0, 0]);
    let runs = master_inputs(&mut lanes, &mut scratch, 0, &[1, 2], &both_channels(), 2);
    assert_eq!(runs, vec![vec![1, 2], vec![5, 6]]);
    let played = master_outputs(&mut lanes, &mut scratch, 0, &both_channels(), &vec![vec![7, 8], vec![9, 10]], 2);
    assert_eq!(played, vec![7, 8]);
    assert!(follower_callback(&mut lanes[1], true, &[0, 0], &mut out));
    assert_eq!(out, vec![9, 10]);
}

#[test]
fn a_stalled_follower_is_heard_as_silence_and_what_it_handed_over_waits() {
    let (mut lanes, mut scratch) = stream_for(&two_devices(0), 4);
    let mut out = vec![0, 0];
    follower_callback(&mut lanes[1], true, &[5, 6], &mut out);
    lanes[1].stalled = true;
    let runs = master_inputs(&mut lanes, &mut scratch, 0, &[1, 2], &both_channels(), 2);
    assert_eq!(runs, vec![vec![1, 2], vec![0, 0]]);
    assert_eq!(lanes[1].in_ring.as_ref().map(|ring| ring.waiting()), Some(1));
}

#[test]
fn a_follower_with_nothing_waiting_is_heard_as_silence_never_a_repeat() {
    let (mut lanes, mut scratch) = stream_for(&two_devices(0), 4);
    let mut out = vec![0, 0];
    follower_callback(&mut lanes[1], true, &[5, 6], &mut out);
    let first = master_inputs(&mut lanes, &mut scratch, 0, &[1, 2], &both_channels(), 2);
    assert_eq!(first[1], vec![5, 6]);
    let second = master_inputs(&mut lanes, &mut scratch, 0, &[3, 4], &both_channels(), 2);
    assert_eq!(second, vec![vec![3, 4], vec![0, 0]]);
}

#[test]
fn a_muted_follower_plays_silence_and_what_was_left_for_it_is_thrown_away() {
    let (mut lanes, mut scratch) = stream_for(&two_devices(0), 4);
    master_outputs(&mut lanes, &mut scratch, 0, &both_channels(), &vec![vec![7, 8], vec![9, 10]], 2);
    lanes[1].mute_out = true;
    let mut out = vec![1, 1];
    assert!(!follower_callback(&mut lanes[1], true, &[5, 6], &mut out));
    assert_eq!(out, vec![0, 0]);
    // Nor did it hand over what it heard while muted.
    assert_eq!(lanes[1].in_ring.as_ref().map(|ring| ring.waiting()), Some(0));
    lanes[1].mute_out = false;
    assert!(!follower_callback(&mut lanes[1], true, &[5, 6], &mut out));
    assert_eq!(out, vec![0, 0]);
}

#[test]
fn nothing_is_played_or_handed_over_while_the_audio_is_stopped() {
    let (mut lanes, mut scratch) = stream_for(&two_devices(0), 4);
    master_outputs(&mut lanes, &mut scratch, 0, &both_channels(), &vec![vec![7, 8], vec![9, 10]], 2);
    let mut out = vec![1, 1];
    assert!(!follower_callback(&mut lanes[1], false, &[5, 6], &mut out));
    assert_eq!(out, vec![0, 0]);
    assert_eq!(lanes[1].in_ring.as_ref().map(|ring| ring.waiting()), Some(0));
    assert_eq!(lanes[1].callbacks, 1);
}

#[test]
fn the_masters_inputs_are_held_back_by_its_padding() {
    let (mut lanes, mut scratch) = stream_for(&two_devices(1), 4);
    let first = master_inputs(&mut lanes, &mut scratch, 0, &[1, 2], &both_channels(), 2);
    assert_eq!(first[0], vec![0, 1]);
    let second = master_inputs(&mut lanes, &mut scratch, 0, &[3, 4], &both_channels(), 2);
    assert_eq!(second[0], vec![2, 3]);
}

#[test]
fn a_follower_that_stops_calling_back_is_stalled_muted_and_forgotten_then_trusted_again() {
    let (mut lanes, mut scratch) = stream_for(&two_devices(0), 4);
    let mut out = vec![0, 0];
    follower_callback(&mut lanes[1], true, &[5, 6], &mut out);
    // It called back once: the first look sees it move.
    watch_devices(&mut lanes, &mut scratch, 0, 2, 2);
    assert!(!lanes[1].stalled);
    watch_devices(&mut lanes, &mut scratch, 0, 2, 2);
    assert!(!lanes[1].stalled);
    watch_devices(&mut lanes, &mut scratch, 0, 2, 2);
    assert!(lanes[1].stalled && lanes[1].mute_out);
    assert_eq!(lanes[1].in_ring.as_ref().map(|ring| ring.waiting()), Some(0));
    // The master is never looked at.
    assert_eq!(scratch.watch[0], Watch::default());
    // Two looks in a row with it moving bring it back.
    follower_callback(&mut lanes[1], true, &[5, 6], &mut out);
    watch_devices(&mut lanes, &mut scratch, 0, 2, 2);
    assert!(lanes[1].stalled);
    follower_callback(&mut lanes[1], true, &[5, 6], &mut out);
    watch_devices(&mut lanes, &mut scratch, 0, 2, 2);
    assert!(!lanes[1].stalled && !lanes[1].mute_out);
}
