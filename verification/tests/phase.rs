use gazelle_aggregate::phase::{
    decide, detail, Detector, Outcome, Refusal, Use, AMPLITUDE, BURST, LIMIT, SETTLE_BLOCKS, STEP, WOBBLE,
};

#[test]
fn the_burst_is_short_and_is_written_where_it_was_asked_for() {
    let mut run = vec![0i32; 16];
    Detector::write_burst(&mut run);
    assert_eq!(run[..BURST], [AMPLITUDE; BURST], "as long as it takes to survive a converter");
    assert!(run[BURST..].iter().all(|&sample| sample == 0), "and no longer");
    // Quiet: about 42 dB below full scale, which is nothing a monitor left up on the
    // measurement channel would be startled by.
    assert!(AMPLITUDE < i32::MAX / 64);
}

#[test]
fn a_burst_into_a_run_shorter_than_it_fills_the_run_and_no_more() {
    let mut run = vec![7i32; 2];
    Detector::write_burst(&mut run);
    assert_eq!(run, vec![AMPLITUDE, AMPLITUDE]);
}

#[test]
fn every_line_the_log_can_keep_says_what_happened_in_words_a_person_can_check() {
    // Measured at -148 against a reference of -84: 64 samples earlier than when its trim was
    // measured, so it is held back by 64.
    let held = detail("Studio+", Some(Outcome::Applied(-64)), -148);
    assert!(held.contains("measured at -148") && held.contains("against -84"), "{held}");
    assert!(held.contains("held back by 64 samples"), "{held}");
    let brought = detail("Studio+", Some(Outcome::Applied(64)), -20);
    assert!(brought.contains("against -84") && brought.contains("brought 64 samples earlier"), "{brought}");
    let still = detail("Studio+", Some(Outcome::Applied(0)), -84);
    assert!(still.contains("nothing was moved"), "{still}");

    let unreferenced = detail("Studio+", Some(Outcome::Unreferenced), -148);
    assert!(unreferenced.contains("measured at -148") && unreferenced.contains("was not lined up"), "{unreferenced}");
    assert!(unreferenced.contains("Measure the interfaces once"), "it says what to do about it: {unreferenced}");
    assert!(unreferenced.contains("the figures the drivers reported"), "{unreferenced}");

    let kept = detail("Studio+", Some(Outcome::MeasuredOnly), -148);
    assert!(kept.contains("measured at -148") && kept.contains("on purpose"), "{kept}");

    let nothing = detail("Studio+", Some(Outcome::Refused(Refusal::NotHeard)), 0);
    assert!(nothing.contains("nothing arrived"), "{nothing}");
    assert!(nothing.contains("the figures the drivers reported"), "{nothing}");
    let off = detail("Studio+", Some(Outcome::Refused(Refusal::OffTheGrid)), 45);
    assert!(off.contains("45") && off.contains("32 sample steps"), "{off}");
    let far = detail("Studio+", Some(Outcome::Refused(Refusal::TooFar)), 4000);
    assert!(far.contains("further from") && far.contains("512"), "{far}");
    assert_eq!(detail("Studio+", None, 0), "Studio+ was not phase measured");
}

/// The reference the table below lines every session up to: what the phase measured in the run
/// whose click lag was +60.4 samples.
const REFERENCE: i32 = -84;

#[test]
fn a_session_is_lined_up_to_its_reference_exactly_and_never_rounded() {
    let to = Use::LineUpTo(Some(REFERENCE));
    assert_eq!(decide(REFERENCE, to), Outcome::Applied(0), "the state the trim was measured in moves nothing");
    // What the hardware did, sample for sample: changes of 64, 63, 223 and 160, which are
    // steps of 32 and the sample of wobble the measurement caught.
    assert_eq!(decide(-148, to), Outcome::Applied(-64));
    assert_eq!(decide(-147, to), Outcome::Applied(-63), "the wobble is corrected, not rounded away");
    assert_eq!(decide(-307, to), Outcome::Applied(-223));
    assert_eq!(decide(-244, to), Outcome::Applied(-160));
    // And the other way, for a session that settled later than the one the trim was measured in.
    assert_eq!(decide(REFERENCE + 159, to), Outcome::Applied(159));
    assert_eq!(decide(REFERENCE + 32 + WOBBLE, to), Outcome::Applied(32 + WOBBLE));
}

#[test]
fn the_size_of_the_measurement_itself_means_nothing_only_its_change_does() {
    // Measured against a reference of their own, each is simply a session in the state its trim
    // was measured in.
    for measured in [-84, -148, -147, -307, -244, 45, 17] {
        assert_eq!(decide(measured, Use::LineUpTo(Some(measured))), Outcome::Applied(0), "{measured}");
    }
}

#[test]
fn with_no_reference_nothing_is_moved_and_that_is_not_a_refusal() {
    let answer = decide(-148, Use::LineUpTo(None));
    assert_eq!(answer, Outcome::Unreferenced);
    assert_eq!(answer.applied(), 0);
    assert!(!matches!(answer, Outcome::Refused(_)), "the measurement was fine: there is nothing to line it up to");
}

#[test]
fn a_calibration_run_measures_and_moves_nothing_whatever_it_measured() {
    for measured in [0, -148, 4000, i32::MIN] {
        let answer = decide(measured, Use::MeasureOnly);
        assert_eq!(answer, Outcome::MeasuredOnly, "{measured}");
        assert_eq!(answer.applied(), 0);
    }
}

#[test]
fn a_change_nowhere_near_a_whole_number_of_steps_is_refused_rather_than_used() {
    let to = Use::LineUpTo(Some(REFERENCE));
    assert_eq!(decide(REFERENCE + 16, to), Outcome::Refused(Refusal::OffTheGrid), "halfway is not near anything");
    assert_eq!(decide(REFERENCE - 32 - WOBBLE - 1, to), Outcome::Refused(Refusal::OffTheGrid));
    assert_eq!(decide(REFERENCE + 45, to), Outcome::Refused(Refusal::OffTheGrid));
    // And a refusal corrects nothing at all, which is not the same as correcting by zero.
    assert_eq!(decide(REFERENCE + 16, to).applied(), 0);
}

#[test]
fn a_correction_past_the_room_the_delays_have_is_refused() {
    let to = Use::LineUpTo(Some(REFERENCE));
    assert_eq!(decide(REFERENCE + LIMIT, to), Outcome::Applied(LIMIT), "the edge of the room is still inside it");
    assert_eq!(decide(REFERENCE - LIMIT, to), Outcome::Applied(-LIMIT));
    assert_eq!(decide(REFERENCE + LIMIT + STEP, to), Outcome::Refused(Refusal::TooFar));
    assert_eq!(decide(REFERENCE - LIMIT - STEP, to), Outcome::Refused(Refusal::TooFar));
    assert_eq!(decide(i32::MAX, to), Outcome::Refused(Refusal::TooFar), "and nothing overflows on the way there");
    assert_eq!(decide(i32::MIN, to), Outcome::Refused(Refusal::TooFar));
    assert_eq!(decide(0, Use::LineUpTo(Some(i32::MIN))), Outcome::Refused(Refusal::TooFar));
}

/// One measurement, run as the audio path runs it: nothing goes out until the devices have
/// settled, and what comes back is measured against what the drivers' own figures expect.
#[test]
fn a_detector_sends_once_and_measures_what_comes_back_against_what_was_expected() {
    const BLOCK: usize = 16;
    let mut detector = Detector::new(0, 0, BLOCK, 32, 8, Use::LineUpTo(Some(52)));
    for block in 0..SETTLE_BLOCKS {
        assert!(!detector.emits_on(block, 0), "nothing goes out while the devices are settling");
    }
    assert!(detector.emits_on(SETTLE_BLOCKS, 0), "and then it goes out, once");
    assert!(!detector.emits_on(SETTLE_BLOCKS + 1, 0), "and never again");

    // It comes back three blocks later at offset 4, which is 3 * 16 + 4 = 52 samples after it
    // left. The drivers' figures expected 32, so the interface is 20 samples late, and 32 more
    // than that when its trim was measured: 32 samples earlier than it was then.
    let mut heard = vec![0i32; BLOCK];
    heard[4] = AMPLITUDE;
    assert_eq!(detector.listen(&[0; BLOCK], SETTLE_BLOCKS + 1), None, "a silent block says nothing yet");
    let found = detector.listen(&heard, SETTLE_BLOCKS + 3).expect("the burst was found");
    assert_eq!(found.measured, 20, "52 samples back, 32 of them expected");
    assert_eq!(found.outcome, Outcome::Applied(-32), "what was measured, less the reference");
    assert!(detector.is_done());
    assert_eq!(detector.listen(&heard, SETTLE_BLOCKS + 4), None, "a measurement happens once a session");

    // The same signal, for a calibration run, is measured exactly the same and used for nothing.
    let mut calibrating = Detector::new(0, 0, BLOCK, 32, 8, Use::MeasureOnly);
    calibrating.emits_on(SETTLE_BLOCKS, 0);
    let kept = calibrating.listen(&heard, SETTLE_BLOCKS + 3).expect("the burst was found");
    assert_eq!(kept.measured, 20);
    assert_eq!(kept.outcome, Outcome::MeasuredOnly);
    assert_eq!(kept.applied(), 0);
}

#[test]
fn a_measurement_channel_with_nothing_on_it_refuses_rather_than_correcting_by_nothing() {
    const BLOCK: usize = 16;
    for how in [Use::LineUpTo(Some(0)), Use::LineUpTo(None), Use::MeasureOnly] {
        let mut detector = Detector::new(0, 0, BLOCK, 0, 3, how);
        detector.emits_on(SETTLE_BLOCKS, 0);
        let silence = vec![0i32; BLOCK];
        for block in SETTLE_BLOCKS + 1..SETTLE_BLOCKS + 3 {
            assert_eq!(detector.listen(&silence, block), None);
        }
        let nothing = detector.listen(&silence, SETTLE_BLOCKS + 3).expect("the window closed");
        assert_eq!(nothing.outcome, Outcome::Refused(Refusal::NotHeard), "{how:?}: nothing heard is nothing heard");
        assert_eq!(nothing.applied(), 0, "a refusal corrects nothing, which is not a correction of zero");
        assert_eq!(nothing.measured, 0);
    }
}

#[test]
fn a_rearmed_detector_sends_once_more_on_the_first_settled_block() {
    let mut detector = Detector::new(0, 0, 16, 0, 8, Use::MeasureOnly);
    assert!(!detector.emits_on(2, 0));
    assert!(detector.emits_on(9, 0), "the first block past the settling ones, whichever it is");
    assert!(!detector.emits_on(10, 0));
    detector.rearm();
    assert!(!detector.emits_on(3, 0));
    assert!(detector.emits_on(SETTLE_BLOCKS, 0));
    assert!(!detector.emits_on(SETTLE_BLOCKS, 0));
}
