//! The one place audio crosses between two devices' callbacks: a ring of whole buffers, one
//! producer and one consumer.
//!
//! A full ring drops the newest buffer and an empty one reads as silence. Both are counted once the
//! ring has settled, because either of them is then a glitch a person can hear and the counts are
//! what a status report shows. What "settled" means, and why the first few buffers are outside it,
//! is at [`SETTLING_BUFFERS`].
//!
//! **The model.** A ring is the queue of buffers waiting to be read, oldest first, and never more
//! of them than it has slots less one. What goes in comes out, in order, unchanged.
use vstd::prelude::*;
use crate::delay::around;

verus! {

/// How many buffers the producer has to have published before an empty ring counts against it.
///
/// The two devices' callbacks are woken by two converters, and where the consumer's lands inside
/// the producer's block is not settled when a stream starts. A consumer that lands just before its
/// producer finds nothing waiting and takes a block of silence, and that is what moves it into the
/// arrangement it keeps for the rest of the session. Once settled, the consumer has a whole buffer
/// of room, and an empty ring means the producer did not make its block in time.
pub const SETTLING_BUFFERS: u64 = 8;

/// One more, the way an atomic counter goes: round to zero past the top.
pub open spec fn bumped(count: u64) -> u64 {
    if count == u64::MAX {
        0
    } else {
        (count + 1) as u64
    }
}

/// Whether a ring that has carried `carried` buffers, and began filling at `filling_from`, has
/// settled.
pub open spec fn settled(carried: u64, filling_from: u64) -> bool {
    carried as int >= if filling_from as int + SETTLING_BUFFERS as int > u64::MAX as int {
        u64::MAX as int
    } else {
        filling_from as int + SETTLING_BUFFERS as int
    }
}

pub struct Ring {
    /// How many buffers the ring holds. One slot is always left empty, so the ring carries
    /// `slots - 1` buffers.
    slots: usize,
    /// How many samples one buffer holds.
    len: usize,
    data: Vec<i32>,
    read: usize,
    write: usize,
    /// Buffers the producer has published, ever.
    carried: u64,
    /// What `carried` stood at when this ring last began filling: zero, or whatever it had carried
    /// when a drain threw its contents away.
    filling_from: u64,
    dropped: u64,
    starved: u64,
}

impl Ring {
    pub closed spec fn wf(&self) -> bool {
        &&& self.slots >= 2
        &&& self.data@.len() == self.slots * self.len
        &&& self.read < self.slots
        &&& self.write < self.slots
    }

    /// How many buffers are waiting.
    closed spec fn count(&self) -> int {
        if self.write >= self.read {
            self.write - self.read
        } else {
            self.write + self.slots - self.read
        }
    }

    /// The samples of slot `slot`.
    closed spec fn slot(&self, slot: int) -> Seq<i32> {
        self.data@.subrange(slot * self.len, slot * self.len + self.len)
    }

    /// The buffers waiting to be read, oldest first.
    pub closed spec fn waiting_buffers(&self) -> Seq<Seq<i32>> {
        Seq::new(self.count() as nat, |k: int| self.slot(around(self.read as int, k, self.slots as int)))
    }

    /// The most buffers the ring can carry at once.
    pub closed spec fn capacity(&self) -> nat {
        (self.slots - 1) as nat
    }

    pub closed spec fn spec_len(&self) -> nat {
        self.len as nat
    }

    pub closed spec fn spec_dropped(&self) -> u64 {
        self.dropped
    }

    pub closed spec fn spec_starved(&self) -> u64 {
        self.starved
    }

    pub closed spec fn spec_carried(&self) -> u64 {
        self.carried
    }

    pub closed spec fn spec_filling_from(&self) -> u64 {
        self.filling_from
    }

    pub open spec fn spec_settled(&self) -> bool {
        settled(self.spec_carried(), self.spec_filling_from())
    }

    /// A ring of `slots` buffers of `len` samples each, all silent.
    pub fn new(slots: usize, len: usize) -> (ring: Ring)
        requires
            (if slots > 2 { slots } else { 2 }) * len <= usize::MAX,
        ensures
            ring.wf(),
            ring.capacity() == (if slots > 2 { slots } else { 2 }) - 1,
            ring.spec_len() == len,
            ring.waiting_buffers() == Seq::<Seq<i32>>::empty(),
            ring.spec_dropped() == 0,
            ring.spec_starved() == 0,
            ring.spec_carried() == 0,
            ring.spec_filling_from() == 0,
    {
        let slots = if slots > 2 { slots } else { 2 };
        let total = slots * len;
        let mut data: Vec<i32> = Vec::new();
        let mut filled: usize = 0;
        while filled < total
            invariant
                filled <= total,
                data@.len() == filled,
            decreases total - filled,
        {
            data.push(0);
            filled = filled + 1;
        }
        let ring = Ring {
            slots,
            len,
            data,
            read: 0,
            write: 0,
            carried: 0,
            filling_from: 0,
            dropped: 0,
            starved: 0,
        };
        assert(ring.waiting_buffers() =~= Seq::<Seq<i32>>::empty());
        ring
    }

    pub fn len(&self) -> (len: usize)
        ensures
            len == self.spec_len(),
    {
        self.len
    }

    pub fn is_empty(&self) -> (empty: bool)
        requires
            self.wf(),
        ensures
            empty == (self.waiting_buffers().len() == 0),
    {
        self.read == self.write
    }

    /// How many buffers are waiting to be read.
    pub fn waiting(&self) -> (waiting: usize)
        requires
            self.wf(),
        ensures
            waiting == self.waiting_buffers().len(),
            waiting <= self.capacity(),
    {
        if self.write >= self.read {
            self.write - self.read
        } else {
            self.write + (self.slots - self.read)
        }
    }

    /// Buffers the producer had to throw away because the consumer was behind.
    pub fn dropped(&self) -> (dropped: u64)
        ensures
            dropped == self.spec_dropped(),
    {
        self.dropped
    }

    /// Buffers the consumer asked for and did not get once the ring had settled, each of which was
    /// played as silence.
    pub fn starved(&self) -> (starved: u64)
        ensures
            starved == self.spec_starved(),
    {
        self.starved
    }

    /// Whether this ring's two ends have found each other yet, which is what decides whether an
    /// empty one is a block that went missing or the stream still starting.
    pub fn is_settled(&self) -> (settled: bool)
        ensures
            settled == self.spec_settled(),
    {
        self.carried >= self.filling_from.saturating_add(SETTLING_BUFFERS)
    }

    /// Copy `source` into the next slot and publish it. False when the ring was full, in which
    /// case nothing was written and the drop is counted.
    pub fn push_with(&mut self, source: &[i32]) -> (pushed: bool)
        requires
            old(self).wf(),
            source@.len() == old(self).spec_len(),
        ensures
            final(self).wf(),
            final(self).capacity() == old(self).capacity(),
            final(self).spec_len() == old(self).spec_len(),
            final(self).spec_starved() == old(self).spec_starved(),
            final(self).spec_filling_from() == old(self).spec_filling_from(),
            pushed == (old(self).waiting_buffers().len() < old(self).capacity()),
            pushed ==> final(self).waiting_buffers() == old(self).waiting_buffers().push(source@)
                && final(self).spec_carried() == bumped(old(self).spec_carried())
                && final(self).spec_dropped() == old(self).spec_dropped(),
            !pushed ==> final(self).waiting_buffers() == old(self).waiting_buffers()
                && final(self).spec_carried() == old(self).spec_carried()
                && final(self).spec_dropped() == bumped(old(self).spec_dropped()),
            spec_pushed(*old(self), *final(self), source@),
    {
        let write = self.write;
        let next = if write + 1 == self.slots { 0 } else { write + 1 };
        if next == self.read {
            let ghost full = *self;
            self.dropped = self.dropped.wrapping_add(1);
            proof {
                assert(full.waiting_buffers().len() == full.capacity());
                assert(self.waiting_buffers() == full.waiting_buffers());
            }
            return false;
        }
        let ghost before = *self;
        let data_length = self.data.len();
        proof {
            lemma_slot_inside(write as int, self.slots as int, self.len as int);
        }
        let base = write * self.len;
        let mut i: usize = 0;
        while i < self.len
            invariant
                self.wf(),
                self.slots == before.slots,
                self.len == before.len,
                self.read == before.read,
                self.write == before.write,
                self.starved == before.starved,
                self.dropped == before.dropped,
                self.carried == before.carried,
                self.filling_from == before.filling_from,
                data_length == self.data@.len(),
                self.data@.len() == before.data@.len(),
                write == before.write,
                base == write * self.len,
                base + self.len <= self.data@.len(),
                source@.len() == self.len,
                i <= self.len,
                forall|k: int| 0 <= k < i ==> self.data@[base + k] == #[trigger] source@[k],
                forall|k: int|
                    0 <= k < self.data@.len() && !(base <= k < base + self.len) ==> #[trigger] self.data@[k]
                        == before.data@[k],
            decreases self.len - i,
        {
            self.data.set(base + i, source[i]);
            i = i + 1;
        }
        self.write = next;
        self.carried = self.carried.wrapping_add(1);
        proof {
            let old_count = before.count();
            assert(self.count() == old_count + 1);
            assert(self.slot(write as int) =~= source@);
            assert forall|k: int| 0 <= k < old_count implies #[trigger] self.slot(
                around(self.read as int, k, self.slots as int),
            ) == before.slot(around(before.read as int, k, before.slots as int)) by {
                let s = around(self.read as int, k, self.slots as int);
                assert(s != write);
                lemma_slots_apart(s, write as int, self.slots as int, self.len as int);
                assert(self.slot(s) =~= before.slot(s));
            }
            assert(around(self.read as int, old_count, self.slots as int) == write);
            assert(self.waiting_buffers() =~= before.waiting_buffers().push(source@));
        }
        true
    }

    /// Copy the oldest slot into `into` and free it. False when the ring was empty, in which case
    /// `into` is untouched and the caller must write silence itself; a settled ring counts that as
    /// a block that went missing.
    pub fn pop_with(&mut self, into: &mut [i32]) -> (popped: bool)
        requires
            old(self).wf(),
            old(into)@.len() == old(self).spec_len(),
        ensures
            final(self).wf(),
            final(self).capacity() == old(self).capacity(),
            final(self).spec_len() == old(self).spec_len(),
            final(self).spec_dropped() == old(self).spec_dropped(),
            final(self).spec_carried() == old(self).spec_carried(),
            final(self).spec_filling_from() == old(self).spec_filling_from(),
            popped == (old(self).waiting_buffers().len() > 0),
            popped ==> final(into)@ == old(self).waiting_buffers()[0] && final(self).waiting_buffers()
                == old(self).waiting_buffers().drop_first() && final(self).spec_starved()
                == old(self).spec_starved(),
            !popped ==> final(into)@ == old(into)@ && final(self).waiting_buffers()
                == old(self).waiting_buffers() && final(self).spec_starved() == (if old(
                self,
            ).spec_settled() {
                bumped(old(self).spec_starved())
            } else {
                old(self).spec_starved()
            }),            spec_popped(*old(self), *final(self)),
    {
        let read = self.read;
        if read == self.write {
            if self.is_settled() {
                self.starved = self.starved.wrapping_add(1);
            }
            return false;
        }
        let ghost at_start = *self;
        let data_length = self.data.len();
        proof {
            lemma_slot_inside(read as int, self.slots as int, self.len as int);
        }
        let base = read * self.len;
        let mut i: usize = 0;
        while i < self.len
            invariant
                self.wf(),
                read == self.read,
                self.write == at_start.write,
                self.slots == at_start.slots,
                self.len == at_start.len,
                self.data == at_start.data,
                self.starved == at_start.starved,
                self.dropped == at_start.dropped,
                self.carried == at_start.carried,
                self.filling_from == at_start.filling_from,
                data_length == self.data@.len(),
                base == read * self.len,
                base + self.len <= self.data@.len(),
                into@.len() == self.len,
                i <= self.len,
                forall|k: int| 0 <= k < i ==> #[trigger] into@[k] == self.data@[base + k],
            decreases self.len - i,
        {
            into[i] = self.data[base + i];
            i = i + 1;
        }
        let ghost before = *self;
        self.read = if read + 1 == self.slots { 0 } else { read + 1 };
        proof {
            assert(into@ =~= before.slot(read as int));
            assert(before.waiting_buffers()[0] == before.slot(around(read as int, 0, self.slots as int)));
            assert(self.count() == before.count() - 1);
            assert forall|k: int| 0 <= k < self.count() implies #[trigger] self.waiting_buffers()[k]
                == before.waiting_buffers()[k + 1] by {
                assert(around(self.read as int, k, self.slots as int) == around(read as int, k + 1, self.slots as int));
            }
            assert(self.waiting_buffers() =~= before.waiting_buffers().drop_first());
        }
        true
    }

    /// Every buffer waiting is a whole buffer.
    pub proof fn lemma_whole_buffers(&self)
        requires
            self.wf(),
        ensures
            forall|k: int|
                0 <= k < self.waiting_buffers().len() ==> (#[trigger] self.waiting_buffers()[k]).len()
                    == self.spec_len(),
    {
        assert forall|k: int| 0 <= k < self.waiting_buffers().len() implies (
        #[trigger] self.waiting_buffers()[k]).len() == self.spec_len() by {
            let s = around(self.read as int, k, self.slots as int);
            assert(0 <= s < self.slots);
            lemma_slot_inside(s, self.slots as int, self.len as int);
        }
    }

    /// Never more buffers wait than the ring can carry.
    pub proof fn lemma_room(&self)
        requires
            self.wf(),
        ensures
            self.waiting_buffers().len() <= self.capacity(),
    {
    }

    /// Throw away everything waiting. Only the consumer may call this: it is how a device that
    /// went away is stopped from playing what it missed when it comes back. The ring then has to
    /// settle again, exactly as it did when the stream began.
    pub fn drain(&mut self)
        requires
            old(self).wf(),
        ensures
            final(self).wf(),
            final(self).capacity() == old(self).capacity(),
            final(self).spec_len() == old(self).spec_len(),
            final(self).waiting_buffers() == Seq::<Seq<i32>>::empty(),
            final(self).spec_dropped() == old(self).spec_dropped(),
            final(self).spec_starved() == old(self).spec_starved(),
            final(self).spec_carried() == old(self).spec_carried(),
            final(self).spec_filling_from() == old(self).spec_carried(),
            spec_drained(*old(self), *final(self)),
    {
        self.read = self.write;
        self.filling_from = self.carried;
        assert(self.waiting_buffers() =~= Seq::<Seq<i32>>::empty());
    }
}

/// Slot `slot` of `slots` slots of `len` samples lies inside the ring's memory.
proof fn lemma_slot_inside(slot: int, slots: int, len: int)
    requires
        0 <= slot < slots,
        0 <= len,
    ensures
        0 <= slot * len,
        slot * len + len <= slots * len,
{
    assert(0 <= slot * len && slot * len + len <= slots * len) by (nonlinear_arith)
        requires
            0 <= slot < slots,
            0 <= len,
    ;
}

/// Two different slots do not share a sample.
proof fn lemma_slots_apart(a: int, b: int, slots: int, len: int)
    requires
        0 <= a < slots,
        0 <= b < slots,
        a != b,
        0 <= len,
    ensures
        a * len + len <= b * len || b * len + len <= a * len,
        0 <= a * len,
        a * len + len <= slots * len,
{
    if a < b {
        assert(a * len + len <= b * len) by (nonlinear_arith)
            requires
                a < b,
                0 <= len,
        ;
    } else {
        assert(b * len + len <= a * len) by (nonlinear_arith)
            requires
                b < a,
                0 <= len,
        ;
    }
    lemma_slot_inside(a, slots, len);
}

/// What publishing `source` does to a ring: it is carried when there is room, and a drop is
/// counted when there is not.
pub open spec fn spec_pushed(before: Ring, after: Ring, source: Seq<i32>) -> bool {
    &&& after.wf()
    &&& after.capacity() == before.capacity()
    &&& after.spec_len() == before.spec_len()
    &&& after.spec_starved() == before.spec_starved()
    &&& after.spec_filling_from() == before.spec_filling_from()
    &&& if before.waiting_buffers().len() < before.capacity() {
        &&& after.waiting_buffers() == before.waiting_buffers().push(source)
        &&& after.spec_carried() == bumped(before.spec_carried())
        &&& after.spec_dropped() == before.spec_dropped()
    } else {
        &&& after.waiting_buffers() == before.waiting_buffers()
        &&& after.spec_carried() == before.spec_carried()
        &&& after.spec_dropped() == bumped(before.spec_dropped())
    }
}

/// What taking the oldest buffer does to a ring: it is gone when there was one, and a settled
/// ring counts the block that went missing when there was not.
pub open spec fn spec_popped(before: Ring, after: Ring) -> bool {
    &&& after.wf()
    &&& after.capacity() == before.capacity()
    &&& after.spec_len() == before.spec_len()
    &&& after.spec_dropped() == before.spec_dropped()
    &&& after.spec_carried() == before.spec_carried()
    &&& after.spec_filling_from() == before.spec_filling_from()
    &&& if before.waiting_buffers().len() > 0 {
        &&& after.waiting_buffers() == before.waiting_buffers().drop_first()
        &&& after.spec_starved() == before.spec_starved()
    } else {
        &&& after.waiting_buffers() == before.waiting_buffers()
        &&& after.spec_starved() == if before.spec_settled() {
            bumped(before.spec_starved())
        } else {
            before.spec_starved()
        }
    }
}

/// What throwing everything away does to a ring: nothing waits, and it settles again from here.
pub open spec fn spec_drained(before: Ring, after: Ring) -> bool {
    &&& after.wf()
    &&& after.capacity() == before.capacity()
    &&& after.spec_len() == before.spec_len()
    &&& after.waiting_buffers() == Seq::<Seq<i32>>::empty()
    &&& after.spec_dropped() == before.spec_dropped()
    &&& after.spec_starved() == before.spec_starved()
    &&& after.spec_carried() == before.spec_carried()
    &&& after.spec_filling_from() == before.spec_carried()
}

/// **What goes in comes out, unchanged**: a block published into an empty ring is the block the
/// next read takes, and the ring is empty again after it.
pub proof fn law_a_block_crosses_unchanged(before: Ring, carrying: Ring, after: Ring, source: Seq<i32>)
    requires
        before.waiting_buffers().len() == 0,
        before.capacity() >= 1,
        spec_pushed(before, carrying, source),
        spec_popped(carrying, after),
    ensures
        carrying.waiting_buffers().len() > 0,
        carrying.waiting_buffers()[0] == source,
        after.waiting_buffers().len() == 0,
{
    assert(carrying.waiting_buffers() =~= seq![source]);
    assert(after.waiting_buffers() =~= Seq::<Seq<i32>>::empty());
}

/// **In order**: blocks published into a ring with room come out oldest first, the newest last.
pub proof fn law_blocks_leave_in_the_order_they_came(before: Ring, after: Ring, source: Seq<i32>)
    requires
        before.waiting_buffers().len() < before.capacity(),
        spec_pushed(before, after, source),
    ensures
        after.waiting_buffers().len() == before.waiting_buffers().len() + 1,
        after.waiting_buffers().last() == source,
        forall|k: int|
            0 <= k < before.waiting_buffers().len() ==> #[trigger] after.waiting_buffers()[k]
                == before.waiting_buffers()[k],
{
}

/// One call on a ring, as far as what it leaves behind goes.
pub enum RingCall {
    /// `push_with`, with whatever block it was given.
    Push,
    /// `pop_with`.
    Pop,
    /// `drain`.
    Drain,
}

/// What one call does to a ring, by its contract.
pub open spec fn ring_step(call: RingCall, before: Ring, after: Ring) -> bool {
    match call {
        RingCall::Push => exists|source: Seq<i32>| spec_pushed(before, after, source),
        RingCall::Pop => spec_popped(before, after),
        RingCall::Drain => spec_drained(before, after),
    }
}

/// `states` is what a ring went through under `calls`, one call at a time.
pub open spec fn ring_run(calls: Seq<RingCall>, states: Seq<Ring>) -> bool {
    &&& states.len() == calls.len() + 1
    &&& forall|i: int| 0 <= i < calls.len() ==> ring_step(#[trigger] calls[i], states[i], states[i + 1])
}

/// Pushes among the first `n` calls that found room, counted since the last drain among them.
pub open spec fn pushed_since_drain(calls: Seq<RingCall>, states: Seq<Ring>, n: int) -> int
    decreases n,
{
    if n <= 0 {
        0
    } else {
        match calls[n - 1] {
            RingCall::Drain => 0,
            RingCall::Push => pushed_since_drain(calls, states, n - 1) + if states[n - 1].waiting_buffers().len()
                < states[n - 1].capacity() {
                1int
            } else {
                0int
            },
            RingCall::Pop => pushed_since_drain(calls, states, n - 1),
        }
    }
}

/// Pops among the first `n` calls that found a buffer, counted since the last drain among them.
pub open spec fn popped_since_drain(calls: Seq<RingCall>, states: Seq<Ring>, n: int) -> int
    decreases n,
{
    if n <= 0 {
        0
    } else {
        match calls[n - 1] {
            RingCall::Drain => 0,
            RingCall::Pop => popped_since_drain(calls, states, n - 1) + if states[n - 1].waiting_buffers().len() > 0 {
                1int
            } else {
                0int
            },
            RingCall::Push => popped_since_drain(calls, states, n - 1),
        }
    }
}

/// Pushes among the first `n` calls that found room, drains or not.
pub open spec fn pushed_ever(calls: Seq<RingCall>, states: Seq<Ring>, n: int) -> int
    decreases n,
{
    if n <= 0 {
        0
    } else {
        pushed_ever(calls, states, n - 1) + match calls[n - 1] {
            RingCall::Push => if states[n - 1].waiting_buffers().len() < states[n - 1].capacity() {
                1int
            } else {
                0int
            },
            _ => 0int,
        }
    }
}

proof fn lemma_run_counts(calls: Seq<RingCall>, states: Seq<Ring>, n: int)
    requires
        ring_run(calls, states),
        states[0].wf(),
        states[0].waiting_buffers().len() == 0,
        0 <= n <= calls.len(),
    ensures
        states[n].wf(),
        states[n].capacity() == states[0].capacity(),
        states[n].waiting_buffers().len() == pushed_since_drain(calls, states, n) - popped_since_drain(
            calls,
            states,
            n,
        ),
    decreases n,
{
    if n > 0 {
        lemma_run_counts(calls, states, n - 1);
        let before = states[n - 1];
        let after = states[n];
        assert(ring_step(calls[n - 1], before, after));
        match calls[n - 1] {
            RingCall::Push => {
                let source = choose|source: Seq<i32>| spec_pushed(before, after, source);
                assert(spec_pushed(before, after, source));
            },
            _ => {},
        }
    }
}

proof fn lemma_run_carries(calls: Seq<RingCall>, states: Seq<Ring>, n: int)
    requires
        ring_run(calls, states),
        states[0].wf(),
        states[0].waiting_buffers().len() == 0,
        states[0].spec_carried() == 0,
        states[0].spec_filling_from() == 0,
        0 <= n <= calls.len(),
        pushed_ever(calls, states, n) <= u64::MAX,
    ensures
        states[n].spec_carried() == pushed_ever(calls, states, n),
        states[n].spec_filling_from() + pushed_since_drain(calls, states, n) == states[n].spec_carried(),
        0 <= pushed_since_drain(calls, states, n),
    decreases n,
{
    if n > 0 {
        assert(pushed_ever(calls, states, n - 1) <= pushed_ever(calls, states, n));
        lemma_run_carries(calls, states, n - 1);
        lemma_run_counts(calls, states, n - 1);
        let before = states[n - 1];
        let after = states[n];
        assert(ring_step(calls[n - 1], before, after));
        match calls[n - 1] {
            RingCall::Push => {
                let source = choose|source: Seq<i32>| spec_pushed(before, after, source);
                assert(spec_pushed(before, after, source));
            },
            _ => {},
        }
    }
}

/// **A ring holds what was published into it and not yet taken, and never more than it can
/// carry.** After any run of calls on a ring that started empty, the buffers waiting are the pushes
/// that found room less the pops that found a buffer, both counted since the last drain; the ring
/// is empty exactly when that comes to nothing.
pub proof fn law_waiting_is_what_came_less_what_went(calls: Seq<RingCall>, states: Seq<Ring>, n: int)
    requires
        ring_run(calls, states),
        states[0].wf(),
        states[0].waiting_buffers().len() == 0,
        0 <= n <= calls.len(),
    ensures
        states[n].waiting_buffers().len() == pushed_since_drain(calls, states, n) - popped_since_drain(
            calls,
            states,
            n,
        ),
        0 <= states[n].waiting_buffers().len() <= states[0].capacity(),
        (states[n].waiting_buffers().len() == 0) <==> (pushed_since_drain(calls, states, n) == popped_since_drain(
            calls,
            states,
            n,
        )),
{
    lemma_run_counts(calls, states, n);
    states[n].lemma_room();
}

/// **A ring settles once it has carried enough buffers since it began or was last drained.** After
/// any run of calls on a ring fresh from [`Ring::new`], it is settled exactly when
/// [`SETTLING_BUFFERS`] pushes or more found room since the last drain: a ring nothing was pushed
/// into never settles, and an empty read before then is not counted as a block lost. Left out are
/// runs whose pushes together come to the top of a `u64`, where the count goes round.
pub proof fn law_settled_after_enough_buffers(calls: Seq<RingCall>, states: Seq<Ring>, n: int)
    requires
        ring_run(calls, states),
        states[0].wf(),
        states[0].waiting_buffers().len() == 0,
        states[0].spec_carried() == 0,
        states[0].spec_filling_from() == 0,
        0 <= n <= calls.len(),
        pushed_ever(calls, states, n) + SETTLING_BUFFERS <= u64::MAX,
    ensures
        states[n].spec_settled() <==> pushed_since_drain(calls, states, n) >= SETTLING_BUFFERS,
{
    lemma_run_carries(calls, states, n);
}

} // verus!
