use gazelle_aggregate::delay::Delay;

fn run(delay: &mut Delay, channels: usize, blocks: &[&[i32]]) -> Vec<Vec<i32>> {
    let mut out = Vec::new();
    for block in blocks {
        let mut copy = block.to_vec();
        delay.process(&mut copy, block.len() / channels);
        out.push(copy);
    }
    out
}

#[test]
fn no_delay_is_a_straight_copy() {
    let mut delay = Delay::new(2, 0);
    let got = run(&mut delay, 2, &[&[1, 2, 3, 4]]);
    assert_eq!(got[0], vec![1, 2, 3, 4]);
}

#[test]
fn a_delay_shorter_than_the_block_starts_with_silence() {
    let mut delay = Delay::new(1, 2);
    let got = run(&mut delay, 1, &[&[1, 2, 3, 4], &[5, 6, 7, 8]]);
    assert_eq!(got[0], vec![0, 0, 1, 2]);
    assert_eq!(got[1], vec![3, 4, 5, 6]);
}

#[test]
fn a_delay_longer_than_the_block_holds_across_several_of_them() {
    let mut delay = Delay::new(1, 5);
    let got = run(&mut delay, 1, &[&[1, 2], &[3, 4], &[5, 6], &[7, 8]]);
    assert_eq!(got[0], vec![0, 0]);
    assert_eq!(got[1], vec![0, 0]);
    assert_eq!(got[2], vec![0, 1], "five samples of delay, so sample one arrives sixth");
    assert_eq!(got[3], vec![2, 3]);
}

#[test]
fn each_channel_is_held_back_by_itself() {
    let mut delay = Delay::new(2, 1);
    // Two channels, three samples each, laid out one channel after the other.
    let got = run(&mut delay, 2, &[&[1, 2, 3, 10, 20, 30], &[4, 5, 6, 40, 50, 60]]);
    assert_eq!(got[0], vec![0, 1, 2, 0, 10, 20]);
    assert_eq!(got[1], vec![3, 4, 5, 30, 40, 50]);
}

#[test]
fn clearing_drops_what_was_held() {
    let mut delay = Delay::new(1, 3);
    run(&mut delay, 1, &[&[1, 2, 3]]);
    delay.clear();
    let got = run(&mut delay, 1, &[&[7, 8, 9]]);
    assert_eq!(got[0], vec![0, 0, 0], "what was in the delay must not come back");
}

#[test]
fn a_delay_made_with_room_can_be_moved_inside_it_and_never_outside_it() {
    // The room is allocated once, when the buffers are made, so that a phase measured after a
    // session has started moves the delay without the audio path allocating anything.
    let mut delay = Delay::with_room(1, 2, 8);
    assert_eq!(delay.samples(), 2);
    assert_eq!(delay.room(), 8);
    assert!(delay.set_samples(5), "inside the room it was made with");
    assert_eq!(delay.samples(), 5);
    assert!(!delay.set_samples(9), "and never outside it");
    assert_eq!(delay.samples(), 5, "a refusal leaves the delay exactly as it was");
    assert!(delay.set_samples(0), "including down to nothing at all");

    // What was held is dropped, because changing the length is a discontinuity whatever else
    // is done, and a sample carried across one would be heard twice.
    let mut held = Delay::with_room(1, 4, 8);
    run(&mut held, 1, &[&[1, 2, 3, 4]]);
    held.set_samples(2);
    assert_eq!(run(&mut held, 1, &[&[7, 8, 9, 10]])[0], vec![0, 0, 7, 8]);
    // And the new length is a real delay of that many samples, over every channel.
    let mut wider = Delay::with_room(2, 0, 4);
    assert!(wider.set_samples(1));
    assert_eq!(run(&mut wider, 2, &[&[1, 2, 10, 20]])[0], vec![0, 1, 0, 10]);
}

#[test]
fn a_delay_that_was_never_given_room_cannot_be_moved_at_all() {
    let mut fixed = Delay::new(1, 3);
    assert_eq!(fixed.room(), 3);
    assert!(!fixed.set_samples(4));
    assert!(fixed.set_samples(3), "to what it already is, which changes nothing");
}

#[test]
fn a_long_run_never_loses_or_repeats_a_sample() {
    // Every delay length around and across the block size, because the index wraps inside a
    // block for some of them and across blocks for others.
    for held in [1usize, 3, 7, 8, 9, 16, 31] {
        let mut delay = Delay::new(1, held);
        let mut sent = 0i32;
        let mut got = Vec::new();
        for _ in 0..12 {
            let block: Vec<i32> = (0..8)
                .map(|_| {
                    sent += 1;
                    sent
                })
                .collect();
            let mut copy = block.clone();
            delay.process(&mut copy, 8);
            got.extend(copy);
        }
        let expected: Vec<i32> = (0..96).map(|i| if i < held as i32 { 0 } else { i - held as i32 + 1 }).collect();
        assert_eq!(got, expected, "a delay of {held} samples");
    }
}

#[test]
fn a_block_longer_than_the_delay_wraps_the_history_more_than_once() {
    let mut delay = Delay::new(1, 3);
    let got = run(&mut delay, 1, &[&[1, 2, 3, 4, 5, 6, 7], &[8, 9]]);
    assert_eq!(got[0], vec![0, 0, 0, 1, 2, 3, 4]);
    assert_eq!(got[1], vec![5, 6]);
}
