use gazelle_aggregate::status::{
    ended_detail, first_glitch_detail, lost_since, spoken_seconds, GlitchWatch, Glitches, PhaseWatch,
    StallWatch,
};

fn glitch(device: &str, dropped: u64, starved: u64) -> Glitches {
    Glitches { device: device.to_string(), dropped, starved }
}

#[test]
fn a_stall_is_noticed_once_and_so_is_coming_back() {
    let mut watch = StallWatch::new();
    assert_eq!(watch.changes(&[false, false]), vec![], "nothing has happened");
    assert_eq!(watch.changes(&[false, true]), vec![(1, true)]);
    assert_eq!(watch.changes(&[false, true]), vec![], "still stalled is not news");
    assert_eq!(watch.changes(&[false, false]), vec![(1, false)]);
    // A new plan with a different number of devices starts the counting again.
    watch.clear();
    assert_eq!(watch.changes(&[true]), vec![(0, true)], "a device already gone when we start looking");
}

#[test]
fn a_second_session_is_not_blamed_for_what_the_first_one_lost() {
    // A DAW that stops and starts again keeps the same rings, and their counts with them.
    let at_the_start = vec![glitch("Quadro", 0, 0), glitch("Studio+", 3, 1)];
    let now = vec![glitch("Quadro", 0, 0), glitch("Studio+", 5, 1)];
    assert_eq!(lost_since(&at_the_start, &now), vec![glitch("Quadro", 0, 0), glitch("Studio+", 2, 0)]);
    // Counters that went backwards, which is a new set of buffers, read as nothing lost rather
    // than as an enormous number.
    assert_eq!(lost_since(&now, &at_the_start)[1], glitch("Studio+", 0, 0));
    assert_eq!(lost_since(&[], &now), now, "and a session with nothing to compare with is its own whole count");
}

#[test]
fn the_first_block_a_session_loses_is_one_line_and_the_ones_after_it_are_none() {
    let mut watch = GlitchWatch::new();
    assert_eq!(watch.first(&[(0, 0), (0, 0)]), vec![], "a session that has lost nothing is not news");
    assert_eq!(watch.first(&[(0, 0), (1, 0)]), vec![(1, 1, 0)]);
    assert_eq!(watch.first(&[(0, 0), (9, 4)]), vec![], "losing more of them is the same news");
    // The counters go back to nothing when a new plan is in force, and the next session's
    // first lost block is worth saying again.
    assert_eq!(watch.first(&[(0, 0), (0, 0)]), vec![]);
    assert_eq!(watch.first(&[(0, 0), (0, 2)]), vec![(1, 0, 2)]);
}

#[test]
fn a_glitch_watch_that_is_cleared_hears_the_first_loss_again() {
    let mut watch = GlitchWatch::new();
    assert_eq!(watch.first(&[(2, 0)]), vec![(0, 2, 0)]);
    watch.clear();
    assert_eq!(watch.first(&[(2, 0)]), vec![(0, 2, 0)], "a new plan forgets what was seen");
}

#[test]
fn how_long_a_session_ran_is_said_the_way_a_person_says_it() {
    assert_eq!(spoken_seconds(0), "less than a second");
    assert_eq!(spoken_seconds(1), "1 second");
    assert_eq!(spoken_seconds(42), "42 seconds");
    assert_eq!(spoken_seconds(60), "1 minute");
    assert_eq!(spoken_seconds(3_600), "1 hour");
    assert_eq!(spoken_seconds(7_512), "2 hours 5 minutes");
    assert_eq!(spoken_seconds(2_832), "47 minutes 12 seconds");
    assert_eq!(spoken_seconds(3_601), "1 hour", "seconds are not said once there are hours");
}

#[test]
fn a_session_that_lost_nothing_says_so_in_one_line() {
    assert_eq!(
        ended_detail(2_832, &[glitch("Quadro", 0, 0), glitch("Studio+", 0, 0)]),
        "ran for 47 minutes 12 seconds, and no interface lost a block"
    );
    assert_eq!(ended_detail(5, &[]), "ran for 5 seconds");
}

#[test]
fn a_session_that_lost_blocks_names_the_interface_and_says_how_many() {
    assert_eq!(
        ended_detail(2_832, &[glitch("Quadro", 0, 0), glitch("Studio+", 3, 1)]),
        "ran for 47 minutes 12 seconds. Quadro lost nothing; Studio+ dropped 3 blocks and missed 1 block"
    );
    assert_eq!(
        ended_detail(61, &[glitch("Quadro", 0, 2)]),
        "ran for 1 minute 1 second. Quadro dropped no blocks and missed 2 blocks"
    );
}

#[test]
fn the_first_lost_block_says_which_of_the_two_things_happened() {
    assert_eq!(
        first_glitch_detail("Studio+", 1, 0),
        "Studio+ dropped a block, the first this session has lost: it was handing them over faster than they could be taken"
    );
    let missed = first_glitch_detail("Studio+", 0, 1);
    assert!(missed.contains("had no block ready"), "{missed}");
    assert!(missed.contains("click"), "it says what a person hears: {missed}");
    assert_eq!(
        first_glitch_detail("Studio+", 1, 1),
        "Studio+ dropped a block and missed another, the first this session has lost"
    );
}

#[test]
fn a_glitch_count_is_both_ways_added_up() {
    assert_eq!(glitch("Quadro", 3, 4).lost(), 7);
    assert!(glitch("Quadro", 0, 0).is_clean());
    assert!(!glitch("Quadro", 0, 1).is_clean());
}

#[test]
fn a_settled_phase_is_news_once_per_session() {
    let mut watch = PhaseWatch::new();
    assert_eq!(watch.settled(&[1, 2], &[false, false]), vec![], "still measuring is not news");
    assert_eq!(watch.settled(&[1, 3], &[false, true]), vec![1]);
    assert_eq!(watch.settled(&[1, 3], &[false, true]), vec![], "the same state again is not news");
    assert_eq!(watch.settled(&[1, 2], &[false, false]), vec![]);
    assert_eq!(watch.settled(&[1, 3], &[false, true]), vec![1], "measuring again and settling again is");
    watch.clear();
    assert_eq!(watch.settled(&[3], &[true]), vec![0], "a settled device seen for the first time is news");
}
