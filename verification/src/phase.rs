//! Measuring where an interface's capture pipeline actually started, and lining every session up
//! to the one its trim was measured in.
//!
//! Two interfaces locked by a digital cable record a fixed number of samples apart within one
//! session, and between sessions that number moves in steps of 32 samples. **The trim** is the
//! constant a person measured once with a click. **The reference** is the phase measured in the
//! session that trim was measured in. **The phase** is what each session measures. Every session
//! is put back into the reference's state first, by the reference minus the phase, and then the
//! trim applies.
//!
//! [`Detector`] runs on the audio path: it writes a short burst into a buffer that already exists,
//! looks for it in another, and does integer arithmetic. [`decide`] is the whole of the policy.
use vstd::prelude::*;
use crate::text::{append_str, decimal, number};

verus! {

/// How the hardware moves between sessions: in steps of this many samples.
pub const STEP: i32 = 32;

/// How far from a whole number of [`STEP`]s a change may land and still be believed.
pub const WOBBLE: i32 = 4;

/// The largest correction this driver will make, either way, which is the room every input delay
/// is given for it.
pub const LIMIT: i32 = 512;

/// How loud the measurement signal is: about 42 dB below full scale.
pub const AMPLITUDE: i32 = 16777216;

/// How much of the signal has to arrive before a sample counts as the signal: an eighth of it.
pub const THRESHOLD: i32 = 2097152;

/// How many samples the signal lasts.
pub const BURST: usize = 4;

/// How many of the master's blocks go by before the signal is sent.
pub const SETTLE_BLOCKS: u64 = 4;

/// The smallest number of blocks to listen for, whatever the rate and the block size work out to.
pub const MIN_WINDOW_BLOCKS: u64 = 8;

/// What a session does with what it measures.
#[derive(Clone, Copy, Debug, PartialEq, Eq, Structural)]
pub enum Use {
    /// Line the interface up to this reference. `None` is an interface that has never had one,
    /// and it is left where it is.
    LineUpTo(Option<i32>),
    /// Measure it and move nothing, which is what a calibration run does.
    MeasureOnly,
}

/// What a measurement came to.
#[derive(Clone, Copy, Debug, PartialEq, Eq, Structural)]
pub enum Outcome {
    /// It was used, and this is what to add to the interface's input path: what was measured
    /// minus the reference.
    Applied(i32),
    /// It was measured, and there is no reference to line it up to, so nothing is moved.
    Unreferenced,
    /// It was measured, and a calibration run keeps it rather than using it.
    MeasuredOnly,
    /// It was not believed, and this is why. Nothing is corrected.
    Refused(Refusal),
}

/// Why a measurement was not believed.
#[derive(Clone, Copy, Debug, PartialEq, Eq, Structural)]
pub enum Refusal {
    /// The window went by and nothing came back on the measurement channel.
    NotHeard,
    /// How far it had moved from the reference was nowhere near a whole number of steps.
    OffTheGrid,
    /// Lining it up would have taken more than the room the delays have.
    TooFar,
}

/// How far `moved` is from the nearest whole number of steps.
pub open spec fn grid_distance(moved: int) -> int {
    let rest = moved % (STEP as int);
    if rest <= STEP / 2 {
        rest
    } else {
        STEP - rest
    }
}

/// The whole of the policy: what a measurement comes to.
pub open spec fn spec_decide(measured: int, how: Use) -> Outcome {
    match how {
        Use::MeasureOnly => Outcome::MeasuredOnly,
        Use::LineUpTo(None) => Outcome::Unreferenced,
        Use::LineUpTo(Some(reference)) => {
            let moved = measured - reference;
            if moved > LIMIT || moved < -LIMIT {
                Outcome::Refused(Refusal::TooFar)
            } else if grid_distance(moved) > WOBBLE {
                Outcome::Refused(Refusal::OffTheGrid)
            } else {
                Outcome::Applied(moved as i32)
            }
        },
    }
}

/// What is actually added to the interface's input path.
pub open spec fn spec_applied(outcome: Outcome) -> int {
    match outcome {
        Outcome::Applied(samples) => samples as int,
        _ => 0,
    }
}

impl Outcome {
    /// What is actually added to the interface's input path, which is nothing at all unless the
    /// measurement was used.
    pub fn applied(self) -> (samples: i32)
        ensures
            samples == spec_applied(self),
    {
        match self {
            Outcome::Applied(samples) => samples,
            _ => 0,
        }
    }
}

/// One measurement, start to finish: what it came to, and what became of it.
#[derive(Clone, Copy, Debug, PartialEq, Eq, Structural)]
pub struct Measurement {
    /// How far the interface's capture landed from where the drivers' own figures put it, in
    /// samples, exactly. Zero when nothing arrived at all.
    pub measured: i32,
    pub outcome: Outcome,
}

impl Measurement {
    pub fn applied(self) -> (samples: i32)
        ensures
            samples == spec_applied(self.outcome),
    {
        self.outcome.applied()
    }
}

/// **What to do with a measurement.** Numbers in, an answer out.
///
/// `measured` carries a large constant of its own, so nothing is judged by its size: what is
/// judged is how far it moved from the reference, which is the one thing that moves in steps. The
/// correction is exact, never rounded: the sample of wobble in it is real.
pub fn decide(measured: i32, how: Use) -> (outcome: Outcome)
    ensures
        outcome == spec_decide(measured as int, how),
{
    let reference = match how {
        Use::MeasureOnly => return Outcome::MeasuredOnly,
        Use::LineUpTo(None) => return Outcome::Unreferenced,
        Use::LineUpTo(Some(reference)) => reference,
    };
    let moved: i64 = measured as i64 - reference as i64;
    if moved > LIMIT as i64 || moved < -(LIMIT as i64) {
        return Outcome::Refused(Refusal::TooFar);
    }
    // Lifted by a whole number of steps so that the remainder is the one that counts.
    let lifted: i64 = moved + (LIMIT as i64);
    let rest: i64 = lifted % (STEP as i64);
    let distance: i64 = if rest <= (STEP / 2) as i64 { rest } else { STEP as i64 - rest };
    proof {
        assert(lifted == moved + 16 * 32);
        vstd::arithmetic::div_mod::lemma_mod_multiples_vanish(16, moved as int, 32);
        assert((16 * 32 + moved) % 32 == moved % 32);
        assert(rest == moved % 32);
    }
    if distance > WOBBLE as i64 {
        return Outcome::Refused(Refusal::OffTheGrid);
    }
    Outcome::Applied(moved as i32)
}

/// Where a detector is.
#[derive(Clone, Copy, Debug, PartialEq, Eq, Structural)]
pub enum State {
    /// Nothing has been sent yet.
    Waiting,
    /// The burst has gone out and nothing has come back.
    Listening,
    /// It is over, one way or the other.
    Done,
}

/// Whether a sample is loud enough to be the signal.
pub open spec fn heard(sample: i32) -> bool {
    sample >= THRESHOLD || sample <= -THRESHOLD
}

/// The first place in `run` the signal is heard, if it is heard anywhere.
pub open spec fn first_heard(run: Seq<i32>, at: int) -> bool {
    &&& 0 <= at < run.len()
    &&& heard(run[at])
    &&& forall|i: int| 0 <= i < at ==> !heard(#[trigger] run[i])
}

/// A number held inside what an `i32` carries.
pub open spec fn clamped(value: int) -> i32 {
    if value < i32::MIN {
        i32::MIN
    } else if value > i32::MAX {
        i32::MAX
    } else {
        value as i32
    }
}

/// What one call of [`Detector::emits_on`] on block `block` does to where a detector is: the burst
/// goes out on a block past the settling ones of a detector still waiting, and nothing moves
/// otherwise.
pub open spec fn spec_emits_on(before: Detector, after: Detector, block: u64, emits: bool) -> bool {
    &&& emits == (before.spec_state() == State::Waiting && block >= SETTLE_BLOCKS)
    &&& emits ==> after.spec_state() == State::Listening
    &&& !emits ==> after.spec_state() == before.spec_state()
}

/// **The burst goes out once.** Over any run of blocks offered to a detector fresh from
/// [`Detector::new`] or [`Detector::rearm`], it emits on exactly the first block that is
/// [`SETTLE_BLOCKS`] or later, and on no other.
pub proof fn law_the_burst_goes_out_once(detectors: Seq<Detector>, blocks: Seq<u64>, emits: Seq<bool>)
    requires
        detectors.len() == blocks.len() + 1,
        emits.len() == blocks.len(),
        detectors[0].spec_state() == State::Waiting,
        forall|i: int| 0 <= i < blocks.len() ==> spec_emits_on(detectors[i], detectors[i + 1], #[trigger] blocks[i], emits[i]),
    ensures
        forall|i: int|
            0 <= i < blocks.len() ==> (#[trigger] emits[i] <==> (blocks[i] >= SETTLE_BLOCKS && forall|j: int|
                0 <= j < i ==> blocks[j] < SETTLE_BLOCKS)),
{
    assert forall|i: int| 0 <= i < blocks.len() implies (#[trigger] emits[i] <==> (blocks[i] >= SETTLE_BLOCKS
        && forall|j: int| 0 <= j < i ==> blocks[j] < SETTLE_BLOCKS)) by {
        lemma_waiting_until_sent(detectors, blocks, emits, i);
        assert(spec_emits_on(detectors[i], detectors[i + 1], blocks[i], emits[i]));
    }
}

/// Before block `n`, a detector offered `blocks` is still waiting exactly when none of them was a
/// block to send on, and listening otherwise.
proof fn lemma_waiting_until_sent(detectors: Seq<Detector>, blocks: Seq<u64>, emits: Seq<bool>, n: int)
    requires
        detectors.len() == blocks.len() + 1,
        emits.len() == blocks.len(),
        detectors[0].spec_state() == State::Waiting,
        forall|i: int| 0 <= i < blocks.len() ==> spec_emits_on(detectors[i], detectors[i + 1], #[trigger] blocks[i], emits[i]),
        0 <= n <= blocks.len(),
    ensures
        (forall|j: int| 0 <= j < n ==> blocks[j] < SETTLE_BLOCKS) ==> detectors[n].spec_state() == State::Waiting,
        !(forall|j: int| 0 <= j < n ==> blocks[j] < SETTLE_BLOCKS) ==> detectors[n].spec_state() == State::Listening,
    decreases n,
{
    if n > 0 {
        lemma_waiting_until_sent(detectors, blocks, emits, n - 1);
        assert(spec_emits_on(detectors[n - 1], detectors[n], blocks[n - 1], emits[n - 1]));
        if !(forall|j: int| 0 <= j < n ==> blocks[j] < SETTLE_BLOCKS) {
            if forall|j: int| 0 <= j < n - 1 ==> blocks[j] < SETTLE_BLOCKS {
                assert(blocks[n - 1] >= SETTLE_BLOCKS);
            }
        }
    }
}

/// One follower's measurement, as the audio path runs it.
///
/// The master's callback sends the signal once, at a block it chooses, and then looks at the
/// interface's measurement channel on every block until it finds it or the window closes.
pub struct Detector {
    /// The master's output slot the burst is written into.
    pub master_slot: usize,
    /// The follower's input slot the burst is listened for on.
    pub input_slot: usize,
    /// Samples in one block, which is what turns a block number into a sample position.
    block: u64,
    /// The block the burst goes out on.
    emit_at: u64,
    /// The last block worth listening on.
    give_up_after: u64,
    /// Where the burst left, in samples of the master's own stream.
    sent_at: i128,
    /// What the drivers' own figures say the signal should take to come back.
    expected: i32,
    /// What this session does with what it finds.
    how: Use,
    state: State,
}

impl Detector {
    pub closed spec fn spec_master_slot(&self) -> usize {
        self.master_slot
    }

    pub closed spec fn spec_input_slot(&self) -> usize {
        self.input_slot
    }

    pub closed spec fn spec_state(&self) -> State {
        self.state
    }

    pub closed spec fn spec_block(&self) -> int {
        self.block as int
    }

    pub closed spec fn spec_give_up_after(&self) -> int {
        self.give_up_after as int
    }

    pub closed spec fn spec_sent_at(&self) -> int {
        self.sent_at as int
    }

    pub closed spec fn spec_expected(&self) -> int {
        self.expected as int
    }

    pub closed spec fn spec_how(&self) -> Use {
        self.how
    }

    pub closed spec fn wf(&self) -> bool {
        &&& self.emit_at == SETTLE_BLOCKS
        &&& self.block <= i64::MAX
        &&& i32::MIN <= self.sent_at <= u64::MAX as int * i64::MAX as int + i32::MAX
    }

    /// A measurement of one follower. `expected` is how long the drivers' own figures say the
    /// signal takes to come back; `window` is how many blocks to listen for after it is sent; `how`
    /// is what the session does with the answer.
    pub fn new(master_slot: usize, input_slot: usize, block: usize, expected: i32, window: u64, how: Use) -> (detector: Detector)
        requires
            block <= i64::MAX,
        ensures
            detector.wf(),
            detector.spec_master_slot() == master_slot,
            detector.spec_input_slot() == input_slot,
            detector.spec_block() == block,
            detector.spec_expected() == expected,
            detector.spec_how() == how,
            detector.spec_state() == State::Waiting,
            detector.spec_sent_at() == 0,
            detector.spec_give_up_after() == if SETTLE_BLOCKS + window > u64::MAX {
                u64::MAX as int
            } else {
                SETTLE_BLOCKS + window
            },
    {
        Detector {
            master_slot,
            input_slot,
            block: block as u64,
            emit_at: SETTLE_BLOCKS,
            give_up_after: SETTLE_BLOCKS.saturating_add(window),
            sent_at: 0,
            expected,
            how,
            state: State::Waiting,
        }
    }

    pub fn is_done(&self) -> (done: bool)
        ensures
            done == (self.spec_state() == State::Done),
    {
        self.state == State::Done
    }

    /// Ready to measure again, which is what a DAW starting the audio a second time without
    /// letting the buffers go is. Nothing is allocated: it is the same detector.
    pub fn rearm(&mut self)
        requires
            old(self).wf(),
        ensures
            final(self).wf(),
            final(self).spec_state() == State::Waiting,
            final(self).spec_sent_at() == 0,
            final(self).spec_block() == old(self).spec_block(),
            final(self).spec_expected() == old(self).spec_expected(),
            final(self).spec_how() == old(self).spec_how(),
            final(self).spec_give_up_after() == old(self).spec_give_up_after(),
            final(self).spec_master_slot() == old(self).spec_master_slot(),
            final(self).spec_input_slot() == old(self).spec_input_slot(),
    {
        self.state = State::Waiting;
        self.sent_at = 0;
    }

    /// Whether the burst goes out on this block, and where in the master's own stream it will
    /// leave: the block it is written into plus however far the master's outputs are held back.
    pub fn emits_on(&mut self, block_number: u64, pad_out: i32) -> (emits: bool)
        requires
            old(self).wf(),
        ensures
            final(self).wf(),
            emits == (old(self).spec_state() == State::Waiting && block_number >= SETTLE_BLOCKS),
            spec_emits_on(*old(self), *final(self), block_number, emits),
            emits ==> final(self).spec_state() == State::Listening && final(self).spec_sent_at()
                == block_number * old(self).spec_block() + pad_out,
            !emits ==> final(self).spec_state() == old(self).spec_state() && final(self).spec_sent_at()
                == old(self).spec_sent_at(),
            final(self).spec_block() == old(self).spec_block(),
            final(self).spec_expected() == old(self).spec_expected(),
            final(self).spec_how() == old(self).spec_how(),
            final(self).spec_give_up_after() == old(self).spec_give_up_after(),
            final(self).spec_master_slot() == old(self).spec_master_slot(),
            final(self).spec_input_slot() == old(self).spec_input_slot(),
    {
        if self.state != State::Waiting || block_number < self.emit_at {
            return false;
        }
        proof {
            lemma_product_bound(block_number as int, self.block as int);
        }
        let sent = block_number as i128 * self.block as i128 + pad_out as i128;
        self.sent_at = sent;
        self.state = State::Listening;
        true
    }

    /// Write the burst into one run of the master's output stage.
    pub fn write_burst(run: &mut [i32])
        ensures
            final(run)@.len() == old(run)@.len(),
            forall|i: int|
                0 <= i < old(run)@.len() ==> #[trigger] final(run)@[i] == if i < BURST {
                    AMPLITUDE
                } else {
                    old(run)@[i]
                },
    {
        let length = run.len();
        let end = if length < BURST { length } else { BURST };
        let mut i: usize = 0;
        while i < end
            invariant
                i <= end,
                end <= length,
                end <= BURST,
                length == run@.len(),
                end == (if old(run)@.len() < BURST { old(run)@.len() as int } else { BURST as int }),
                run@.len() == old(run)@.len(),
                forall|k: int|
                    0 <= k < run@.len() ==> #[trigger] run@[k] == if k < i {
                        AMPLITUDE
                    } else {
                        old(run)@[k]
                    },
            decreases end - i,
        {
            run[i] = AMPLITUDE;
            i = i + 1;
        }
    }

    /// Look for the burst in one block of the follower's own inputs, as the device handed it over
    /// and before anything holds it back. Answers what the measurement came to, once.
    pub fn listen(&mut self, run: &[i32], block_number: u64) -> (found: Option<Measurement>)
        requires
            old(self).wf(),
        ensures
            final(self).wf(),
            final(self).spec_block() == old(self).spec_block(),
            final(self).spec_expected() == old(self).spec_expected(),
            final(self).spec_how() == old(self).spec_how(),
            final(self).spec_give_up_after() == old(self).spec_give_up_after(),
            final(self).spec_sent_at() == old(self).spec_sent_at(),
            final(self).spec_master_slot() == old(self).spec_master_slot(),
            final(self).spec_input_slot() == old(self).spec_input_slot(),
            old(self).spec_state() != State::Listening ==> found.is_none() && final(self).spec_state()
                == old(self).spec_state(),
            old(self).spec_state() == State::Listening ==> match found {
                Some(measurement) => final(self).spec_state() == State::Done && (
                if exists|at: int| first_heard(run@, at) {
                    exists|at: int|
                        first_heard(run@, at) && measurement.measured == clamped(
                            block_number * old(self).spec_block() + at - old(self).spec_sent_at()
                                - old(self).spec_expected(),
                        ) && measurement.outcome == spec_decide(
                            measurement.measured as int,
                            old(self).spec_how(),
                        )
                } else {
                    block_number >= old(self).spec_give_up_after() && measurement == Measurement {
                        measured: 0,
                        outcome: Outcome::Refused(Refusal::NotHeard),
                    }
                }),
                None => final(self).spec_state() == State::Listening && !(exists|at: int|
                    first_heard(run@, at)) && block_number < old(self).spec_give_up_after(),
            },
    {
        if self.state != State::Listening {
            return None;
        }
        let ghost start_state = *self;
        let length = run.len();
        let mut at: usize = 0;
        while at < length
            invariant
                *self == start_state,
                start_state == *old(self),
                self.wf(),
                self.state == State::Listening,
                at <= length,
                length == run@.len(),
                forall|i: int| 0 <= i < at ==> !heard(#[trigger] run@[i]),
            decreases length - at,
        {
            let sample = run[at];
            if sample >= THRESHOLD || sample <= -THRESHOLD {
                proof {
                    lemma_product_bound(block_number as int, self.block as int);
                    assert(first_heard(run@, at as int));
                }
                let arrived = block_number as i128 * self.block as i128 + at as i128;
                let difference = arrived - self.sent_at - self.expected as i128;
                let measured: i32 = if difference < i32::MIN as i128 {
                    i32::MIN
                } else if difference > i32::MAX as i128 {
                    i32::MAX
                } else {
                    difference as i32
                };
                let outcome = decide(measured, self.how);
                self.state = State::Done;
                return Some(Measurement { measured, outcome });
            }
            at = at + 1;
        }
        proof {
            assert forall|i: int| !first_heard(run@, i) by {
                if first_heard(run@, i) {
                    assert(!heard(run@[i]));
                }
            }
        }
        if block_number >= self.give_up_after {
            self.state = State::Done;
            return Some(Measurement { measured: 0, outcome: Outcome::Refused(Refusal::NotHeard) });
        }
        None
    }
}

proof fn lemma_product_bound(a: int, b: int)
    requires
        0 <= a <= u64::MAX,
        0 <= b <= i64::MAX,
    ensures
        0 <= a * b <= u64::MAX as int * i64::MAX as int,
{
    assert(0 <= a * b <= u64::MAX as int * i64::MAX as int) by (nonlinear_arith)
        requires
            0 <= a <= u64::MAX,
            0 <= b <= i64::MAX,
    ;
}

/// **A measurement is applied exactly and only when it is believed**: the correction is the change
/// from the reference itself, never rounded, and a refusal, a calibration run or an interface
/// with no reference moves nothing at all.
pub proof fn law_applied_is_the_exact_change(measured: i32, how: Use)
    ensures
        spec_decide(measured as int, how) is Applied ==> (how matches Use::LineUpTo(Some(reference))
            && spec_applied(spec_decide(measured as int, how)) == measured - reference
            && -LIMIT <= measured - reference <= LIMIT && grid_distance(measured - reference) <= WOBBLE),
        !(spec_decide(measured as int, how) is Applied) ==> spec_applied(spec_decide(measured as int, how)) == 0,
        spec_decide(measured as int, how) is Refused ==> how is LineUpTo,
{
}

/// **The state a trim was measured in moves nothing**: a session that measures exactly its
/// reference is lined up by nothing at all, whatever the reference is.
pub proof fn law_reference_moves_nothing(reference: i32)
    ensures
        spec_decide(reference as int, Use::LineUpTo(Some(reference))) == Outcome::Applied(0),
{
    assert(grid_distance(0) == 0);
}

/// A difference held within what an `i32` carries, as `saturating_sub` holds it.
pub open spec fn held_difference(a: i32, b: i32) -> i32 {
    if a - b > i32::MAX {
        i32::MAX
    } else if a - b < i32::MIN {
        i32::MIN
    } else {
        (a - b) as i32
    }
}

/// A number the other way round, held within what an `i32` carries.
pub open spec fn held_negation(a: i32) -> i32 {
    if a == i32::MIN {
        i32::MAX
    } else {
        (-a) as i32
    }
}

/// The line the event log keeps about one interface's phase, which is the only thing that
/// survives the session: worked out from what the measurement came to, if it came to anything,
/// and what was measured. For a measurement that was used, the reference is what was measured
/// less what was applied.
pub open spec fn spec_detail(device: Seq<char>, state: Option<Outcome>, measured: i32) -> Seq<char> {
    let at = device + " was measured at "@ + decimal(measured as int)
        + " samples from where its driver's figures put it"@;
    match state {
        Some(Outcome::Applied(applied)) => {
            let reference = held_difference(measured, applied);
            if applied == 0 {
                at + ", which is where it was when its trim was measured, so nothing was moved"@
            } else if applied < 0 {
                at + ", against "@ + decimal(reference as int) + " when its trim was measured, so it was held back by "@
                    + decimal(held_negation(applied) as int) + " samples to put it back where its trim holds"@
            } else {
                at + ", against "@ + decimal(reference as int) + " when its trim was measured, so it was brought "@
                    + decimal(applied as int) + " samples earlier to put it back where its trim holds"@
            }
        },
        Some(Outcome::Unreferenced) => at
            + ", and was not lined up: there is no phase from the session its trim was measured in to line it up to. Measure the interfaces once on the Aggregate page and every session after that is lined up. The session ran on the figures the drivers reported."@,
        Some(Outcome::MeasuredOnly) => at
            + ", and was left there on purpose: this session was measuring the trim, and a trim is measured on the drivers' own figures"@,
        Some(Outcome::Refused(Refusal::NotHeard)) => device
            + " was not lined up: nothing arrived on its measurement channel. Check the cable and the channels the file names, or take the phase setting out. The session ran on the figures the drivers reported."@,
        Some(Outcome::Refused(Refusal::OffTheGrid)) => device + " was not lined up: it measured "@ + decimal(
            measured as int,
        )
            + " samples, and how far that is from the phase its trim was measured at is not a whole number of 32 sample steps, which is the only way the interfaces move. The session ran on the figures the drivers reported."@,
        Some(Outcome::Refused(Refusal::TooFar)) => device + " was not lined up: it measured "@ + decimal(
            measured as int,
        )
            + " samples, which is further from the phase its trim was measured at than the 512 samples the driver keeps room for. The session ran on the figures the drivers reported."@,
        None => device + " was not phase measured"@,
    }
}

/// The line the event log keeps about one interface's phase: what was measured, what was applied,
/// or why nothing was. `state` is what the measurement came to, or nothing when none was made.
pub fn detail(device: &str, state: Option<Outcome>, measured: i32) -> (line: String)
    ensures
        line@ == spec_detail(device@, state, measured),
{
    proof {
        reveal_strlit(" was measured at ");
        reveal_strlit(" samples from where its driver's figures put it");
        reveal_strlit(", which is where it was when its trim was measured, so nothing was moved");
        reveal_strlit(", against ");
        reveal_strlit(" when its trim was measured, so it was held back by ");
        reveal_strlit(" samples to put it back where its trim holds");
        reveal_strlit(" when its trim was measured, so it was brought ");
        reveal_strlit(" samples earlier to put it back where its trim holds");
        reveal_strlit(
            ", and was not lined up: there is no phase from the session its trim was measured in to line it up to. Measure the interfaces once on the Aggregate page and every session after that is lined up. The session ran on the figures the drivers reported.",
        );
        reveal_strlit(
            ", and was left there on purpose: this session was measuring the trim, and a trim is measured on the drivers' own figures",
        );
        reveal_strlit(
            " was not lined up: nothing arrived on its measurement channel. Check the cable and the channels the file names, or take the phase setting out. The session ran on the figures the drivers reported.",
        );
        reveal_strlit(" was not lined up: it measured ");
        reveal_strlit(
            " samples, and how far that is from the phase its trim was measured at is not a whole number of 32 sample steps, which is the only way the interfaces move. The session ran on the figures the drivers reported.",
        );
        reveal_strlit(
            " samples, which is further from the phase its trim was measured at than the 512 samples the driver keeps room for. The session ran on the figures the drivers reported.",
        );
        reveal_strlit(" was not phase measured");
    }
    let mut line = String::from_str(device);
    let said = number(measured as i64);
    match state {
        Some(Outcome::Applied(applied)) => {
            append_str(&mut line, " was measured at ");
            append_str(&mut line, said.as_str());
            append_str(&mut line, " samples from where its driver's figures put it");
            let wide = measured as i64 - applied as i64;
            let reference: i32 = if wide > i32::MAX as i64 {
                i32::MAX
            } else if wide < i32::MIN as i64 {
                i32::MIN
            } else {
                wide as i32
            };
            if applied == 0 {
                append_str(&mut line, ", which is where it was when its trim was measured, so nothing was moved");
            } else if applied < 0 {
                let back: i32 = if applied == i32::MIN {
                    i32::MAX
                } else {
                    -applied
                };
                append_str(&mut line, ", against ");
                let reference_said = number(reference as i64);
                append_str(&mut line, reference_said.as_str());
                append_str(&mut line, " when its trim was measured, so it was held back by ");
                let back_said = number(back as i64);
                append_str(&mut line, back_said.as_str());
                append_str(&mut line, " samples to put it back where its trim holds");
            } else {
                append_str(&mut line, ", against ");
                let reference_said = number(reference as i64);
                append_str(&mut line, reference_said.as_str());
                append_str(&mut line, " when its trim was measured, so it was brought ");
                let applied_said = number(applied as i64);
                append_str(&mut line, applied_said.as_str());
                append_str(&mut line, " samples earlier to put it back where its trim holds");
            }
        },
        Some(Outcome::Unreferenced) => {
            append_str(&mut line, " was measured at ");
            append_str(&mut line, said.as_str());
            append_str(&mut line, " samples from where its driver's figures put it");
            append_str(
                &mut line,
                ", and was not lined up: there is no phase from the session its trim was measured in to line it up to. Measure the interfaces once on the Aggregate page and every session after that is lined up. The session ran on the figures the drivers reported.",
            );
        },
        Some(Outcome::MeasuredOnly) => {
            append_str(&mut line, " was measured at ");
            append_str(&mut line, said.as_str());
            append_str(&mut line, " samples from where its driver's figures put it");
            append_str(
                &mut line,
                ", and was left there on purpose: this session was measuring the trim, and a trim is measured on the drivers' own figures",
            );
        },
        Some(Outcome::Refused(Refusal::NotHeard)) => {
            append_str(
                &mut line,
                " was not lined up: nothing arrived on its measurement channel. Check the cable and the channels the file names, or take the phase setting out. The session ran on the figures the drivers reported.",
            );
        },
        Some(Outcome::Refused(Refusal::OffTheGrid)) => {
            append_str(&mut line, " was not lined up: it measured ");
            append_str(&mut line, said.as_str());
            append_str(
                &mut line,
                " samples, and how far that is from the phase its trim was measured at is not a whole number of 32 sample steps, which is the only way the interfaces move. The session ran on the figures the drivers reported.",
            );
        },
        Some(Outcome::Refused(Refusal::TooFar)) => {
            append_str(&mut line, " was not lined up: it measured ");
            append_str(&mut line, said.as_str());
            append_str(
                &mut line,
                " samples, which is further from the phase its trim was measured at than the 512 samples the driver keeps room for. The session ran on the figures the drivers reported.",
            );
        },
        None => {
            append_str(&mut line, " was not phase measured");
        },
    }
    line
}

} // verus!
