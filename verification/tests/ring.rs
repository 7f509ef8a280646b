use gazelle_aggregate::ring::{Ring, SETTLING_BUFFERS};

fn push(ring: &mut Ring, value: i32) -> bool {
    let block = vec![value; ring.len()];
    ring.push_with(&block)
}

fn pop(ring: &mut Ring) -> Option<i32> {
    let mut into = vec![i32::MIN; ring.len()];
    if ring.pop_with(&mut into) {
        assert!(into.iter().all(|&sample| sample == into[0]), "a buffer comes out whole");
        Some(into[0])
    } else {
        assert!(into.iter().all(|&sample| sample == i32::MIN), "nothing is written when nothing is read");
        None
    }
}

/// Run the ring through its settling, one buffer in and the same one out, so that a test of
/// what a running session does starts where a running session is.
fn settle(ring: &mut Ring) {
    for value in 0..SETTLING_BUFFERS as i32 {
        assert!(push(ring, value), "the ring holds one at a time here");
        assert_eq!(pop(ring), Some(value));
    }
    assert!(ring.is_settled());
    assert_eq!(ring.starved(), 0, "nothing was lost getting here");
}

#[test]
fn a_buffer_comes_out_the_way_it_went_in() {
    let mut ring = Ring::new(4, 8);
    assert!(ring.is_empty());
    assert!(push(&mut ring, 7));
    assert_eq!(ring.waiting(), 1);
    assert_eq!(pop(&mut ring), Some(7));
    assert!(ring.is_empty());
}

#[test]
fn the_indices_wrap_round_without_losing_order() {
    let mut ring = Ring::new(3, 4);
    for round in 0..20i32 {
        assert!(push(&mut ring, round), "round {round}");
        assert_eq!(pop(&mut ring), Some(round));
    }
    assert_eq!(ring.dropped(), 0);
    assert_eq!(ring.starved(), 0);
}

#[test]
fn a_full_ring_drops_the_newest_buffer_and_counts_it() {
    let mut ring = Ring::new(3, 2);
    assert!(push(&mut ring, 1));
    assert!(push(&mut ring, 2));
    assert!(!push(&mut ring, 3), "a ring of three slots carries two buffers");
    assert_eq!(ring.dropped(), 1);
    assert_eq!(pop(&mut ring), Some(1));
    assert_eq!(pop(&mut ring), Some(2));
    assert_eq!(pop(&mut ring), None);
}

#[test]
fn an_empty_ring_never_hands_out_a_stale_buffer() {
    let mut ring = Ring::new(4, 2);
    assert!(push(&mut ring, 9));
    assert_eq!(pop(&mut ring), Some(9));
    assert_eq!(pop(&mut ring), None, "the samples are still in the slot, but the reader is told no");
}

#[test]
fn ring_a_session_that_starts_with_the_follower_behind_has_lost_nothing() {
    let mut ring = Ring::new(4, 2);
    assert_eq!(pop(&mut ring), None, "the consumer arrived before the producer had started");
    assert_eq!(pop(&mut ring), None);
    for value in 0..SETTLING_BUFFERS as i32 - 1 {
        assert!(push(&mut ring, value));
        assert_eq!(pop(&mut ring), Some(value));
        assert_eq!(pop(&mut ring), None);
    }
    assert_eq!(ring.starved(), 0, "none of that was a block that went missing");
    assert_eq!(ring.dropped(), 0);
    assert!(!ring.is_settled());
    assert!(push(&mut ring, 100));
    assert_eq!(pop(&mut ring), Some(100));
    assert!(ring.is_settled());
    assert_eq!(pop(&mut ring), None);
    assert_eq!(ring.starved(), 1);
}

#[test]
fn a_block_that_goes_missing_once_the_ring_has_settled_is_counted_and_read_as_silence() {
    let mut ring = Ring::new(4, 2);
    settle(&mut ring);
    assert_eq!(pop(&mut ring), None, "there is nothing to hand over");
    assert_eq!(ring.starved(), 1, "a block that was not ready in time is a block a person hears");
    assert!(push(&mut ring, 99));
    assert_eq!(pop(&mut ring), Some(99));
    assert_eq!(ring.starved(), 1, "one block missing is one block missing, counted once");
    assert_eq!(pop(&mut ring), None);
    assert_eq!(pop(&mut ring), None);
    assert_eq!(ring.starved(), 3);
}

#[test]
fn a_producer_that_never_produces_at_all_is_a_stall_and_not_a_run_of_losses() {
    let mut ring = Ring::new(4, 2);
    for _ in 0..500 {
        assert_eq!(pop(&mut ring), None);
    }
    assert_eq!(ring.starved(), 0);
    assert!(!ring.is_settled(), "a ring nothing was ever put in never settles");
}

#[test]
fn a_ring_that_was_thrown_away_settles_again_rather_than_counting_the_refill() {
    let mut ring = Ring::new(4, 2);
    settle(&mut ring);
    push(&mut ring, 1);
    ring.drain();
    assert!(!ring.is_settled(), "what a device missed is gone, and it starts again from here");
    assert_eq!(pop(&mut ring), None);
    assert_eq!(ring.starved(), 0, "the blocks a recovering device takes to get going are its stall, not losses");
    settle(&mut ring);
    assert_eq!(pop(&mut ring), None);
    assert_eq!(ring.starved(), 1, "and once it is going again it answers for itself as before");
}

#[test]
fn draining_throws_away_what_a_device_missed() {
    let mut ring = Ring::new(5, 2);
    push(&mut ring, 1);
    push(&mut ring, 2);
    assert_eq!(ring.waiting(), 2);
    ring.drain();
    assert_eq!(ring.waiting(), 0);
    assert_eq!(pop(&mut ring), None);
    push(&mut ring, 3);
    assert_eq!(pop(&mut ring), Some(3));
}

#[test]
fn the_count_waiting_is_what_came_in_less_what_went_out_since_the_last_drain() {
    let mut ring = Ring::new(4, 2);
    assert!(push(&mut ring, 1));
    assert!(push(&mut ring, 2));
    assert_eq!(pop(&mut ring), Some(1));
    assert!(push(&mut ring, 3));
    assert_eq!(ring.waiting(), 2);
    // A fourth would be past what three slots less one carry.
    assert!(push(&mut ring, 4));
    assert!(!push(&mut ring, 5));
    assert_eq!(ring.waiting(), 3);
    ring.drain();
    assert_eq!(ring.waiting(), 0);
    assert!(ring.is_empty());
    assert!(push(&mut ring, 6));
    assert_eq!(ring.waiting(), 1);
}

#[test]
fn a_ring_settles_on_its_eighth_buffer_since_it_began_or_was_drained() {
    let mut ring = Ring::new(16, 1);
    for value in 0..(SETTLING_BUFFERS as i32 - 1) {
        assert!(push(&mut ring, value));
        assert!(!ring.is_settled());
    }
    assert!(push(&mut ring, 7));
    assert!(ring.is_settled());
    ring.drain();
    assert!(!ring.is_settled());
    for value in 0..SETTLING_BUFFERS as i32 {
        assert!(!ring.is_settled());
        assert!(push(&mut ring, value));
    }
    assert!(ring.is_settled());
}
