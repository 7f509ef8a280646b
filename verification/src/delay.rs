//! Holding one device back so that every device lines up.
//!
//! Two interfaces do not report the same latency, and crossing between two callback threads adds a
//! whole buffer on top of that. The aggregate reports one figure for the lot, so each device is held
//! back by the difference between its own path and the longest one, in samples.
//!
//! Every sample of memory is allocated when the delay is made, and the work per block is a swap per
//! sample: no allocation and nothing to lock.
//!
//! **The model.** Each channel holds a queue of exactly `samples` samples, oldest first. A block of
//! `len` samples on a channel comes out as the first `len` samples of the queue followed by the
//! block, and the queue becomes what is left: the last `samples` of them.
use vstd::prelude::*;
use vstd::arithmetic::div_mod::{lemma_fundamental_div_mod, lemma_fundamental_div_mod_converse};

verus! {

/// Where the `k`th oldest sample of a channel sits, counted from where the oldest one is, in a
/// circle of `size` places. `start` and `k` are both inside the circle.
pub open spec fn around(start: int, k: int, size: int) -> int {
    if start + k < size {
        start + k
    } else {
        start + k - size
    }
}

/// A channel's queue, oldest first, as the history holds it: `size` samples of channel `channel`,
/// starting from place `start`.
pub open spec fn queue_of(history: Seq<i32>, channel: int, size: int, start: int) -> Seq<i32> {
    Seq::new(size as nat, |k: int| history[channel * size + around(start, k, size)])
}

/// One channel's run through a delay holding `queue`: what comes out, and what is held afterwards.
pub open spec fn delayed_out(queue: Seq<i32>, run: Seq<i32>) -> Seq<i32> {
    (queue + run).take(run.len() as int)
}

pub open spec fn delayed_held(queue: Seq<i32>, run: Seq<i32>) -> Seq<i32> {
    (queue + run).skip(run.len() as int)
}

/// The run of channel `channel` in a block of `len` samples a channel.
pub open spec fn run_of(block: Seq<i32>, channel: int, len: int) -> Seq<i32> {
    block.subrange(channel * len, channel * len + len)
}

/// `samples` samples of silence.
pub open spec fn zeros(samples: nat) -> Seq<i32> {
    Seq::new(samples, |k: int| 0i32)
}

/// A delay that holds nothing but silence.
pub open spec fn silent(channels: nat, samples: nat) -> Seq<Seq<i32>> {
    Seq::new(channels, |c: int| zeros(samples))
}

/// A fixed delay over a block of channel-major samples.
pub struct Delay {
    /// How many samples each channel is held back by. Zero is a straight copy.
    samples: usize,
    /// The longest delay this one can be moved to, which is what it has the memory for.
    room: usize,
    channels: usize,
    history: Vec<i32>,
    /// Where in each channel's history the oldest sample sits.
    at: usize,
}

impl Delay {
    /// The delay's shape is sound: the memory is there for every channel's room, and the oldest
    /// sample is somewhere inside the queue.
    pub closed spec fn wf(&self) -> bool {
        &&& self.samples <= self.room
        &&& self.history@.len() == self.channels * self.room
        &&& (self.samples == 0 ==> self.at == 0)
        &&& (self.samples > 0 ==> self.at < self.samples)
    }

    pub closed spec fn spec_samples(&self) -> nat {
        self.samples as nat
    }

    pub closed spec fn spec_room(&self) -> nat {
        self.room as nat
    }

    pub closed spec fn spec_channels(&self) -> nat {
        self.channels as nat
    }

    /// What every channel is holding, oldest sample first.
    pub closed spec fn held(&self) -> Seq<Seq<i32>> {
        Seq::new(
            self.channels as nat,
            |c: int| queue_of(self.history@, c, self.samples as int, self.at as int),
        )
    }

    /// A delay of `samples` over `channels` channels, starting silent, that will never be anything
    /// else.
    pub fn new(channels: usize, samples: usize) -> (delay: Delay)
        requires
            channels * samples <= usize::MAX,
        ensures
            delay.wf(),
            delay.spec_channels() == channels,
            delay.spec_samples() == samples,
            delay.spec_room() == samples,
            delay.held() == silent(channels as nat, samples as nat),
    {
        Delay::with_room(channels, samples, samples)
    }

    /// The same, with the memory for a delay of up to `room` samples, so that a measurement taken
    /// once the session has started can move it without allocating on the audio path.
    pub fn with_room(channels: usize, samples: usize, room: usize) -> (delay: Delay)
        requires
            channels * (if room > samples { room } else { samples }) <= usize::MAX,
        ensures
            delay.wf(),
            delay.spec_channels() == channels,
            delay.spec_samples() == samples,
            delay.spec_room() == (if room > samples { room } else { samples }),
            delay.held() == silent(channels as nat, samples as nat),
    {
        let room = if room > samples { room } else { samples };
        let total = channels * room;
        let mut history: Vec<i32> = Vec::new();
        let mut filled: usize = 0;
        while filled < total
            invariant
                filled <= total,
                history@.len() == filled,
                forall|i: int| 0 <= i < filled ==> history@[i] == 0,
            decreases total - filled,
        {
            history.push(0);
            filled = filled + 1;
        }
        let delay = Delay { samples, room, channels, history, at: 0 };
        proof {
            assert forall|c: int| 0 <= c < channels implies #[trigger] delay.held()[c] =~= Seq::new(
                samples as nat,
                |k: int| 0i32,
            ) by {
                assert forall|k: int| 0 <= k < samples implies delay.history@[c * samples + around(
                    0,
                    k,
                    samples as int,
                )] == 0 by {
                    lemma_index_in_channel(c, k, channels as int, samples as int, room as int);
                }
            }
            assert(delay.held() =~= silent(channels as nat, samples as nat));
        }
        delay
    }

    pub fn samples(&self) -> (samples: usize)
        ensures
            samples == self.spec_samples(),
    {
        self.samples
    }

    /// The longest this delay can be made.
    pub fn room(&self) -> (room: usize)
        ensures
            room == self.spec_room(),
    {
        self.room
    }

    /// **Hold the audio back by a different number of samples**, which is what applying a
    /// measurement comes to. Everything held is dropped, because a delay that changed length is a
    /// discontinuity however it is done, and a sample kept across one would be played twice or
    /// not at all.
    ///
    /// Allocates nothing: a length past the room this delay was made with is refused instead, and
    /// the delay is left exactly as it was.
    pub fn set_samples(&mut self, samples: usize) -> (taken: bool)
        requires
            old(self).wf(),
        ensures
            final(self).wf(),
            taken == (samples <= old(self).spec_room()),
            final(self).spec_room() == old(self).spec_room(),
            final(self).spec_channels() == old(self).spec_channels(),
            !taken ==> final(self).spec_samples() == old(self).spec_samples() && final(self).held()
                == old(self).held(),
            taken && samples == old(self).spec_samples() ==> final(self).held() == old(self).held()
                && final(self).spec_samples() == samples,
            taken && samples != old(self).spec_samples() ==> final(self).spec_samples() == samples
                && final(self).held() == silent(old(self).spec_channels(), samples as nat),
    {
        if samples > self.room {
            return false;
        }
        if samples != self.samples {
            self.samples = samples;
            self.at = 0;
            self.clear();
        }
        true
    }

    /// Hold `block` back in place. `block` is `channels` runs of `len` samples, one after another.
    pub fn process(&mut self, block: &mut [i32], len: usize)
        requires
            old(self).wf(),
            old(block)@.len() == old(self).spec_channels() * len,
        ensures
            final(self).wf(),
            final(self).spec_samples() == old(self).spec_samples(),
            final(self).spec_room() == old(self).spec_room(),
            final(self).spec_channels() == old(self).spec_channels(),
            final(block)@.len() == old(block)@.len(),
            forall|c: int|
                0 <= c < old(self).spec_channels() ==> #[trigger] run_of(final(block)@, c, len as int)
                    == delayed_out(old(self).held()[c], run_of(old(block)@, c, len as int)),
            forall|c: int|
                0 <= c < old(self).spec_channels() ==> #[trigger] final(self).held()[c]
                    == delayed_held(old(self).held()[c], run_of(old(block)@, c, len as int)),
            spec_processed(*old(self), *final(self), old(block)@, final(block)@, len as nat),
    {
        let ghost block0 = block@;
        let ghost self0 = *self;
        if self.samples == 0 || self.channels == 0 {
            proof {
                assert forall|c: int| 0 <= c < self.channels implies #[trigger] run_of(block@, c, len as int)
                    == delayed_out(self.held()[c], run_of(block0, c, len as int)) by {
                    lemma_channel_run_fits(c, self.channels as int, len as int);
                    assert(self.held()[c] =~= Seq::<i32>::empty());
                    assert(self.held()[c] + run_of(block0, c, len as int) =~= run_of(block0, c, len as int));
                }
                assert forall|c: int| 0 <= c < self.channels implies #[trigger] self.held()[c]
                    == delayed_held(self.held()[c], run_of(block0, c, len as int)) by {
                    lemma_channel_run_fits(c, self.channels as int, len as int);
                    assert(self.held()[c] =~= Seq::<i32>::empty());
                    assert(delayed_held(self.held()[c], run_of(block0, c, len as int)) =~= Seq::<i32>::empty());
                }
            }
            return;
        }
        let size = self.samples;
        let channels = self.channels;
        let start = self.at;
        let block_length = block.len();
        let history_length = self.history.len();
        let ghost finish: int = ((start + len) % (size as int)) as int;
        proof {
            lemma_fundamental_div_mod((start + len) as int, size as int);
        }
        let mut channel: usize = 0;
        while channel < channels
            invariant
                self.wf(),
                self.samples == size,
                self.channels == channels,
                self.room == self0.room,
                self.at == start,
                size > 0,
                start < size,
                0 <= finish < size,
                finish == (start + len) % (size as int),
                channel <= channels,
                block@.len() == channels * len,
                block0.len() == channels * len,
                block_length == channels * len,
                history_length == self.history@.len(),
                self0.history@.len() == self.history@.len(),
                forall|c: int|
                    0 <= c < channel ==> #[trigger] run_of(block@, c, len as int) == delayed_out(
                        queue_of(self0.history@, c, size as int, start as int),
                        run_of(block0, c, len as int),
                    ),
                forall|c: int|
                    0 <= c < channel ==> #[trigger] queue_of(self.history@, c, size as int, finish)
                        == delayed_held(
                        queue_of(self0.history@, c, size as int, start as int),
                        run_of(block0, c, len as int),
                    ),
                forall|c: int|
                    channel <= c < channels ==> #[trigger] run_of(block@, c, len as int) == run_of(
                        block0,
                        c,
                        len as int,
                    ),
                forall|c: int|
                    channel <= c < channels ==> #[trigger] queue_of(self.history@, c, size as int, start as int)
                        == queue_of(self0.history@, c, size as int, start as int),
            decreases channels - channel,
        {
            let ghost c = channel as int;
            let ghost queue0 = queue_of(self0.history@, c, size as int, start as int);
            let ghost run0 = run_of(block0, c, len as int);
            let ghost whole = queue0 + run0;
            let ghost history_before = self.history@;
            let ghost block_before = block@;
            proof {
                lemma_channel_run_fits(c, channels as int, len as int);
                lemma_channel_run_fits(c, channels as int, size as int);
                lemma_mul_le(channels as int, size as int, self.room as int);
                assert(queue_of(self.history@, c, size as int, start as int) == queue0);
                assert forall|i: int| 0 <= i < len implies block@[c * len + i] == #[trigger] run0[i] by {
                    assert(run_of(block@, c, len as int)[i] == run0[i]);
                }
                vstd::arithmetic::div_mod::lemma_small_mod(start as nat, size as nat);
                assert forall|k: int| 0 <= k < size implies self.history@[c * size + #[trigger] around(start as int, k, size as int)] == whole[0 + k] by {
                    assert(queue_of(self.history@, c, size as int, start as int)[k] == queue0[k]);
                }
            }
            let base_block = channel * len;
            let base_history = channel * size;
            let mut at = start;
            let mut j: usize = 0;
            while j < len
                invariant
                    self.wf(),
                    self.samples == size,
                    self.channels == channels,
                    self.room == self0.room,
                    self.at == start,
                    size > 0,
                    start < size,
                    at < size,
                    j <= len,
                    at as int == (start + j) % (size as int),
                    0 <= c < channels,
                    base_block == c * len,
                    base_history == c * size,
                    c * len + len <= channels * len,
                    c * size + size <= channels * size,
                    channels * size <= channels * self.room,
                    block@.len() == channels * len,
                    block_length == channels * len,
                    history_length == self.history@.len(),
                    self.history@.len() == history_before.len(),
                    whole == queue0 + run0,
                    queue0.len() == size,
                    run0.len() == len,
                    // What has come out so far is the front of the queue and the block.
                    forall|i: int| 0 <= i < j ==> block@[c * len + i] == #[trigger] whole[i],
                    // What has not been reached yet is still the block as it came in.
                    forall|i: int| j <= i < len ==> block@[c * len + i] == #[trigger] run0[i],
                    // The queue, read from where the oldest now sits, is the next `size` of them.
                    forall|k: int|
                        0 <= k < size ==> self.history@[c * size + #[trigger] around(
                            at as int,
                            k,
                            size as int,
                        )] == whole[j + k],
                    // Nothing outside this channel moves.
                    forall|i: int|
                        0 <= i < block@.len() && !(c * len <= i < c * len + len) ==> #[trigger] block@[i]
                            == block_before[i],
                    forall|i: int|
                        0 <= i < self.history@.len() && !(c * size <= i < c * size + size)
                            ==> #[trigger] self.history@[i] == history_before[i],
                decreases len - j,
            {
                let place = base_history + at;
                let spot = base_block + j;
                proof {
                    assert(self.history@[c * size + around(at as int, 0, size as int)] == whole[j + 0]);
                    assert(block@[c * len + j] == run0[j as int]);
                }
                let incoming = block[spot];
                let outgoing = self.history[place];
                block[spot] = outgoing;
                self.history.set(place, incoming);
                let ghost at_was = at;
                at = at + 1;
                if at == size {
                    at = 0;
                }
                proof {
                    lemma_step_around((start + j) as int, at_was as int, size as int);
                    assert(whole[j + size as int] == run0[j as int]);
                    assert forall|k: int| 0 <= k < size implies #[trigger] self.history@[c * size + around(
                        at as int,
                        k,
                        size as int,
                    )] == whole[(j + 1) + k] by {
                        if k == size - 1 {
                            assert(around(at as int, k, size as int) == at_was);
                        } else {
                            assert(around(at as int, k, size as int) == around(at_was as int, k + 1, size as int));
                            assert(around(at as int, k, size as int) != at_was);
                        }
                    }
                }
                j = j + 1;
            }
            proof {
                let out = run_of(block@, c, len as int);
                assert(out =~= delayed_out(queue0, run0));
                assert(queue_of(self.history@, c, size as int, finish) =~= delayed_held(queue0, run0));
                assert forall|d: int| 0 <= d < c implies #[trigger] run_of(block@, d, len as int) == run_of(
                    block_before,
                    d,
                    len as int,
                ) by {
                    lemma_channels_apart(d, c, len as int);
                    assert(run_of(block@, d, len as int) =~= run_of(block_before, d, len as int));
                }
                assert forall|d: int| c < d < channels implies #[trigger] run_of(block@, d, len as int)
                    == run_of(block_before, d, len as int) by {
                    lemma_channels_apart(c, d, len as int);
                    lemma_channel_run_fits(d, channels as int, len as int);
                    assert(run_of(block@, d, len as int) =~= run_of(block_before, d, len as int));
                }
                assert forall|d: int| 0 <= d < c implies #[trigger] queue_of(self.history@, d, size as int, finish)
                    == queue_of(history_before, d, size as int, finish) by {
                    lemma_channels_apart(d, c, size as int);
                    assert forall|k: int| 0 <= k < size implies #[trigger] self.history@[d * size + around(finish, k, size as int)]
                        == history_before[d * size + around(finish, k, size as int)] by {
                        lemma_channel_run_fits(d, channels as int, size as int);
                    }
                    assert(queue_of(self.history@, d, size as int, finish) =~= queue_of(history_before, d, size as int, finish));
                }
                assert forall|d: int| c < d < channels implies #[trigger] queue_of(self.history@, d, size as int, start as int)
                    == queue_of(history_before, d, size as int, start as int) by {
                    lemma_channels_apart(c, d, size as int);
                    lemma_channel_run_fits(d, channels as int, size as int);
                    assert forall|k: int| 0 <= k < size implies #[trigger] self.history@[d * size + around(start as int, k, size as int)]
                        == history_before[d * size + around(start as int, k, size as int)] by {
                    }
                    assert(queue_of(self.history@, d, size as int, start as int) =~= queue_of(history_before, d, size as int, start as int));
                }
            }
            channel = channel + 1;
        }
        let turn = len % size;
        self.at = if turn >= size - start { turn - (size - start) } else { start + turn };
        proof {
            lemma_add_mod_small(start as int, len as int, size as int);
            lemma_fundamental_div_mod(len as int, size as int);
            if turn >= size - start {
                lemma_fundamental_div_mod_converse(start + turn, size as int, 1, self.at as int);
            } else {
                vstd::arithmetic::div_mod::lemma_small_mod((start + turn) as nat, size as nat);
            }
            assert(self.at == finish);
            assert forall|c: int| 0 <= c < channels implies #[trigger] self.held()[c] == delayed_held(
                self0.held()[c],
                run_of(block0, c, len as int),
            ) by {
                assert(self0.held()[c] == queue_of(self0.history@, c, size as int, start as int));
            }
            assert forall|c: int| 0 <= c < channels implies #[trigger] run_of(block@, c, len as int)
                == delayed_out(self0.held()[c], run_of(block0, c, len as int)) by {
                assert(self0.held()[c] == queue_of(self0.history@, c, size as int, start as int));
            }
        }
    }

    /// Forget what is held, so a device that went away does not play what it missed.
    pub fn clear(&mut self)
        requires
            old(self).wf(),
        ensures
            final(self).wf(),
            final(self).spec_samples() == old(self).spec_samples(),
            final(self).spec_room() == old(self).spec_room(),
            final(self).spec_channels() == old(self).spec_channels(),
            final(self).held() == silent(old(self).spec_channels(), old(self).spec_samples()),
    {
        let ghost before = *self;
        let total = self.history.len();
        let mut i: usize = 0;
        while i < total
            invariant
                i <= total,
                total == self.history@.len(),
                self.history@.len() == self.channels * self.room,
                self.samples <= self.room,
                self.samples == before.samples,
                self.room == before.room,
                self.channels == before.channels,
                forall|k: int| 0 <= k < i ==> self.history@[k] == 0,
            decreases total - i,
        {
            self.history.set(i, 0);
            i = i + 1;
        }
        self.at = 0;
        proof {
            let channels = self.channels as int;
            let samples = self.samples as int;
            assert forall|c: int| 0 <= c < channels implies #[trigger] self.held()[c] =~= Seq::new(
                samples as nat,
                |k: int| 0i32,
            ) by {
                assert forall|k: int| 0 <= k < samples implies self.history@[c * samples + around(0, k, samples)]
                    == 0 by {
                    lemma_index_in_channel(c, k, channels, samples, self.room as int);
                }
            }
            assert(self.held() =~= silent(self.channels as nat, self.samples as nat));
        }
    }
}

/// Place `k` of channel `c`'s queue lies inside the memory every channel's room needs.
proof fn lemma_index_in_channel(c: int, k: int, channels: int, size: int, room: int)
    requires
        0 <= c < channels,
        0 <= k < size,
        size <= room,
    ensures
        0 <= c * size + k < channels * room,
        0 <= c * size,
{
    assert(0 <= c * size + k < channels * room) by (nonlinear_arith)
        requires
            0 <= c < channels,
            0 <= k < size,
            size <= room,
    ;
    assert(0 <= c * size) by (nonlinear_arith)
        requires
            0 <= c,
            0 <= size,
    ;
}

/// Channel `c`'s run of `len` samples lies inside a block of `channels` of them.
proof fn lemma_channel_run_fits(c: int, channels: int, len: int)
    requires
        0 <= c < channels,
        0 <= len,
    ensures
        0 <= c * len,
        c * len + len <= channels * len,
{
    assert(0 <= c * len && c * len + len <= channels * len) by (nonlinear_arith)
        requires
            0 <= c < channels,
            0 <= len,
    ;
}

/// An earlier channel's run ends where a later one's begins, or before.
proof fn lemma_channels_apart(d: int, c: int, len: int)
    requires
        0 <= d < c,
        0 <= len,
    ensures
        d * len + len <= c * len,
        0 <= d * len,
{
    assert(d * len + len <= c * len && 0 <= d * len) by (nonlinear_arith)
        requires
            0 <= d < c,
            0 <= len,
    ;
}

proof fn lemma_mul_le(a: int, b: int, c: int)
    requires
        0 <= a,
        0 <= b <= c,
    ensures
        a * b <= a * c,
{
    assert(a * b <= a * c) by (nonlinear_arith)
        requires
            0 <= a,
            0 <= b <= c,
    ;
}

/// One step round the circle: the place after `at` is `at + 1`, or the start again.
proof fn lemma_step_around(x: int, at: int, size: int)
    requires
        size > 0,
        x >= 0,
        0 <= at < size,
        at == x % size,
    ensures
        (if at + 1 == size { 0 } else { at + 1 }) == (x + 1) % size,
{
    lemma_fundamental_div_mod(x, size);
    let q = x / size;
    if at + 1 == size {
        assert(x + 1 == (q + 1) * size + 0) by (nonlinear_arith)
            requires
                x == size * q + at,
                at + 1 == size,
        ;
        lemma_fundamental_div_mod_converse(x + 1, size, q + 1, 0);
    } else {
        assert(x + 1 == q * size + (at + 1)) by (nonlinear_arith)
            requires
                x == size * q + at,
        ;
        lemma_fundamental_div_mod_converse(x + 1, size, q, at + 1);
    }
}

/// Taking the block's length round the circle first changes nothing about where it lands.
proof fn lemma_add_mod_small(start: int, len: int, size: int)
    requires
        size > 0,
        0 <= start < size,
        len >= 0,
    ensures
        (start + len % size) % size == (start + len) % size,
        0 <= start + len % size,
{
    vstd::arithmetic::div_mod::lemma_add_mod_noop_right(start, len, size);
    lemma_fundamental_div_mod(len, size);
    vstd::arithmetic::div_mod::lemma_small_mod(start as nat, size as nat);
}

/// **A delay never loses or repeats a sample.** Two blocks through a delay, one after the other,
/// come out exactly as the two of them joined would in one block, and leave the same behind.
pub proof fn law_blocks_compose(queue: Seq<i32>, first: Seq<i32>, second: Seq<i32>)
    ensures
        delayed_out(queue, first) + delayed_out(delayed_held(queue, first), second) == delayed_out(
            queue,
            first + second,
        ),
        delayed_held(delayed_held(queue, first), second) == delayed_held(queue, first + second),
{
    let whole = queue + first + second;
    assert(queue + (first + second) =~= whole);
    assert(delayed_held(queue, first) + second =~= whole.skip(first.len() as int));
    assert(delayed_out(queue, first) + delayed_out(delayed_held(queue, first), second)
        =~= whole.take((first.len() + second.len()) as int));
    assert(delayed_held(delayed_held(queue, first), second) =~= whole.skip((first.len() + second.len()) as int));
}

/// **A delay is a delay of exactly its length.** What it holds stays that many samples long, and
/// from silence, each sample comes out that many samples later, with silence before it.
pub proof fn law_held_back_by_its_length(samples: nat, run: Seq<i32>)
    ensures
        forall|queue: Seq<i32>| #[trigger] delayed_held(queue, run).len() == queue.len(),
        forall|i: int|
            0 <= i < run.len() ==> #[trigger] delayed_out(zeros(samples), run)[i] == (
            if i < samples {
                0
            } else {
                run[i - samples]
            }),
{
}

/// What holding a block back does to a delay: each channel's run of `block_out` is its run of
/// `block_in` behind what the delay held, and the delay holds what is left over.
pub open spec fn spec_processed(before: Delay, after: Delay, block_in: Seq<i32>, block_out: Seq<i32>, len: nat) -> bool {
    &&& after.wf()
    &&& after.spec_samples() == before.spec_samples()
    &&& after.spec_room() == before.spec_room()
    &&& after.spec_channels() == before.spec_channels()
    &&& block_out.len() == block_in.len()
    &&& forall|c: int|
        0 <= c < before.spec_channels() ==> #[trigger] run_of(block_out, c, len as int) == delayed_out(
            before.held()[c],
            run_of(block_in, c, len as int),
        )
    &&& forall|c: int|
        0 <= c < before.spec_channels() ==> #[trigger] after.held()[c] == delayed_held(
            before.held()[c],
            run_of(block_in, c, len as int),
        )
}

/// Runs joined into one, first to last.
pub open spec fn joined_runs(runs: Seq<Seq<i32>>) -> Seq<i32>
    decreases runs.len(),
{
    if runs.len() == 0 {
        Seq::empty()
    } else {
        joined_runs(runs.drop_last()) + runs.last()
    }
}

/// What a delay holding `queue` holds once each of `runs` has gone through it, in turn.
pub open spec fn held_through(queue: Seq<i32>, runs: Seq<Seq<i32>>) -> Seq<i32>
    decreases runs.len(),
{
    if runs.len() == 0 {
        queue
    } else {
        delayed_held(held_through(queue, runs.drop_last()), runs.last())
    }
}

/// What each of `runs` comes out as, through a delay holding `queue` when the first goes in.
pub open spec fn outs_through(queue: Seq<i32>, runs: Seq<Seq<i32>>) -> Seq<Seq<i32>>
    decreases runs.len(),
{
    if runs.len() == 0 {
        Seq::empty()
    } else {
        outs_through(queue, runs.drop_last()).push(delayed_out(held_through(queue, runs.drop_last()), runs.last()))
    }
}

/// **Any run of blocks through a delay comes out as one block would**: joined, what comes out is
/// what went in behind what was held, cut to the same length, and what is left held is the rest.
/// From silence, sample `t` comes out as silence for the first `samples` samples and as sample
/// `t - samples` of what went in after that: nothing is lost, repeated or moved.
pub proof fn law_any_run_of_blocks(queue: Seq<i32>, runs: Seq<Seq<i32>>, samples: nat)
    ensures
        joined_runs(outs_through(queue, runs)) == delayed_out(queue, joined_runs(runs)),
        held_through(queue, runs) == delayed_held(queue, joined_runs(runs)),
        forall|t: int|
            0 <= t < joined_runs(runs).len() ==> #[trigger] joined_runs(outs_through(zeros(samples), runs))[t] == (
            if t < samples {
                0
            } else {
                joined_runs(runs)[t - samples]
            }),
    decreases runs.len(),
{
    if runs.len() > 0 {
        let rest = runs.drop_last();
        law_any_run_of_blocks(queue, rest, samples);
        law_blocks_compose(queue, joined_runs(rest), runs.last());
        assert(outs_through(queue, runs).drop_last() =~= outs_through(queue, rest));
        assert(joined_runs(outs_through(queue, runs)) =~= joined_runs(outs_through(queue, rest)) + outs_through(
            queue,
            runs,
        ).last());
        law_any_run_of_blocks(zeros(samples), runs.drop_last(), samples);
        law_blocks_compose(zeros(samples), joined_runs(rest), runs.last());
        assert(outs_through(zeros(samples), runs).drop_last() =~= outs_through(zeros(samples), rest));
        assert(joined_runs(outs_through(zeros(samples), runs)) =~= joined_runs(outs_through(zeros(samples), rest))
            + outs_through(zeros(samples), runs).last());
    }
    law_held_back_by_its_length(samples, joined_runs(runs));
}

/// Each channel's run of every block, in turn: channel `c` of block `i` is `lens[i]` samples.
pub open spec fn channel_runs(blocks: Seq<Seq<i32>>, lens: Seq<nat>, c: int) -> Seq<Seq<i32>> {
    Seq::new(blocks.len(), |i: int| run_of(blocks[i], c, lens[i] as int))
}

/// `states` is what a delay went through as each of `ins` was held back into the matching one of
/// `outs`, a block of `lens[i]` samples a channel at a time.
pub open spec fn delay_run(states: Seq<Delay>, ins: Seq<Seq<i32>>, outs: Seq<Seq<i32>>, lens: Seq<nat>) -> bool {
    &&& states.len() == ins.len() + 1
    &&& outs.len() == ins.len()
    &&& lens.len() == ins.len()
    &&& forall|i: int| 0 <= i < ins.len() ==> #[trigger] spec_processed(states[i], states[i + 1], ins[i], outs[i], lens[i])
}

proof fn lemma_delay_run(states: Seq<Delay>, ins: Seq<Seq<i32>>, outs: Seq<Seq<i32>>, lens: Seq<nat>, c: int, n: int)
    requires
        delay_run(states, ins, outs, lens),
        0 <= c < states[0].spec_channels(),
        0 <= n <= ins.len(),
    ensures
        states[n].spec_channels() == states[0].spec_channels(),
        states[n].spec_samples() == states[0].spec_samples(),
        states[n].held()[c] == held_through(states[0].held()[c], channel_runs(ins, lens, c).take(n)),
        channel_runs(outs, lens, c).take(n) == outs_through(states[0].held()[c], channel_runs(ins, lens, c).take(n)),
    decreases n,
{
    let runs = channel_runs(ins, lens, c);
    let queue = states[0].held()[c];
    if n == 0 {
        assert(runs.take(0) =~= Seq::<Seq<i32>>::empty());
        assert(channel_runs(outs, lens, c).take(0) =~= Seq::<Seq<i32>>::empty());
    } else {
        lemma_delay_run(states, ins, outs, lens, c, n - 1);
        let i = n - 1;
        assert(spec_processed(states[i], states[i + 1], ins[i], outs[i], lens[i]));
        assert(runs.take(n).drop_last() =~= runs.take(n - 1));
        assert(runs.take(n).last() == run_of(ins[n - 1], c, lens[n - 1] as int));
        assert(channel_runs(outs, lens, c).take(n) =~= channel_runs(outs, lens, c).take(n - 1).push(
            run_of(outs[n - 1], c, lens[n - 1] as int),
        ));
    }
}

/// **A run of blocks through a delay comes out held back by exactly its length.** However a fresh
/// or cleared delay's blocks are cut, each channel's output, joined, is silence for the first
/// `samples` samples and after that the same channel's input, sample for sample: nothing is lost,
/// repeated or moved between channels, and a delay of nothing is a straight copy.
pub proof fn law_a_run_of_blocks_comes_out_held_back(
    states: Seq<Delay>,
    ins: Seq<Seq<i32>>,
    outs: Seq<Seq<i32>>,
    lens: Seq<nat>,
)
    requires
        delay_run(states, ins, outs, lens),
        forall|c: int| 0 <= c < states[0].spec_channels() ==> #[trigger] states[0].held()[c] == zeros(states[0].spec_samples()),
    ensures
        forall|c: int, t: int|
            0 <= c < states[0].spec_channels() && 0 <= t < joined_runs(channel_runs(ins, lens, c)).len() ==> (
            #[trigger] joined_runs(channel_runs(outs, lens, c))[t] == if t < states[0].spec_samples() {
                0
            } else {
                joined_runs(channel_runs(ins, lens, c))[t - states[0].spec_samples()]
            }),
        forall|c: int|
            0 <= c < states[0].spec_channels() ==> #[trigger] joined_runs(channel_runs(outs, lens, c)).len()
                == joined_runs(channel_runs(ins, lens, c)).len(),
{
    assert forall|c: int| 0 <= c < states[0].spec_channels() implies #[trigger] joined_runs(
        channel_runs(outs, lens, c),
    ) == delayed_out(zeros(states[0].spec_samples()), joined_runs(channel_runs(ins, lens, c))) by {
        let n = ins.len() as int;
        lemma_delay_run(states, ins, outs, lens, c, n);
        assert(channel_runs(ins, lens, c).take(n) =~= channel_runs(ins, lens, c));
        assert(channel_runs(outs, lens, c).take(n) =~= channel_runs(outs, lens, c));
        law_any_run_of_blocks(zeros(states[0].spec_samples()), channel_runs(ins, lens, c), states[0].spec_samples());
    }
    assert forall|c: int, t: int|
        0 <= c < states[0].spec_channels() && 0 <= t < joined_runs(channel_runs(ins, lens, c)).len() implies (
        #[trigger] joined_runs(channel_runs(outs, lens, c))[t] == if t < states[0].spec_samples() {
            0
        } else {
            joined_runs(channel_runs(ins, lens, c))[t - states[0].spec_samples()]
        }) by {
        law_any_run_of_blocks(zeros(states[0].spec_samples()), channel_runs(ins, lens, c), states[0].spec_samples());
        assert(joined_runs(channel_runs(outs, lens, c)) == delayed_out(
            zeros(states[0].spec_samples()),
            joined_runs(channel_runs(ins, lens, c)),
        ));
    }
}

} // verus!
