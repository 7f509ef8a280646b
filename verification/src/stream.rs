//! What the audio path decides on every block: which device has gone away and which is back, which
//! of every device's channels go to the DAW and in what order, and where what the DAW wrote goes.
//!
//! **What goes wrong sounds like silence, never a repeat.** A device that stops calling back has
//! its inputs read as silence and its outputs muted; every channel of every device that the DAW did
//! not write to is silence; and every run handed on is written in full.
//!
//! The buffers themselves belong to the drivers and to the DAW, and are reached by whoever holds
//! the stream; everything that is copied where, and every decision about a device, is here.
use vstd::prelude::*;
use crate::delay::{silent, spec_processed, zeros, Delay};
use crate::plan::{ChannelRef, DevicePlan, Plan};
use crate::ring::{bumped, spec_drained, spec_popped, spec_pushed, Ring};

verus! {

/// How a device is watched for going away: the count of its callbacks at the last look, how many
/// looks in a row it has not moved, and how many in a row it has.
#[derive(Clone, Copy, Debug, PartialEq, Eq, Structural, Default)]
pub struct Watch {
    pub last: u64,
    pub missed: u32,
    pub moving: u32,
}

/// What a look at a device decides.
#[derive(Clone, Copy, Debug, PartialEq, Eq, Structural)]
pub enum Verdict {
    /// Nothing changes.
    Carries,
    /// It has stopped calling back: its inputs read as silence, its outputs are muted, and what
    /// it handed over and what was held back for it is thrown away.
    Stalls,
    /// It has called back for long enough to be trusted again.
    Recovers,
}

/// The watch after one more look, at a device that has called back `seen` times in all.
pub open spec fn spec_watched(watch: Watch, seen: u64) -> Watch {
    if seen == watch.last {
        Watch { last: watch.last, missed: (watch.missed + 1) as u32, moving: 0 }
    } else {
        Watch { last: seen, missed: 0, moving: (watch.moving + 1) as u32 }
    }
}

/// What a look decides, from the watch after it and whether the device was stalled before it.
pub open spec fn spec_verdict(after: Watch, stalled: bool, stall_after: u32, recover_after: u32) -> Verdict {
    if !stalled && after.missed >= stall_after {
        Verdict::Stalls
    } else if stalled && after.moving >= recover_after {
        Verdict::Recovers
    } else {
        Verdict::Carries
    }
}

/// Whether a look can count one more of whichever it counts.
pub open spec fn countable(watch: Watch, seen: u64) -> bool {
    if seen == watch.last {
        watch.missed < u32::MAX
    } else {
        watch.moving < u32::MAX
    }
}

/// **One look at one device** that is not the one driving the callback: whether it has called
/// back since the last look, and what that decides. A device that misses `stall_after` looks in a
/// row is stalled; a stalled device that moves at `recover_after` looks in a row is trusted again.
pub fn watch_step(watch: Watch, seen: u64, stalled: bool, stall_after: u32, recover_after: u32) -> (looked: (
    Watch,
    Verdict,
))
    requires
        countable(watch, seen),
    ensures
        looked.0 == spec_watched(watch, seen),
        looked.1 == spec_verdict(spec_watched(watch, seen), stalled, stall_after, recover_after),
{
    let after = if seen == watch.last {
        Watch { last: watch.last, missed: watch.missed + 1, moving: 0 }
    } else {
        Watch { last: seen, missed: 0, moving: watch.moving + 1 }
    };
    let verdict = if !stalled && after.missed >= stall_after {
        Verdict::Stalls
    } else if stalled && after.moving >= recover_after {
        Verdict::Recovers
    } else {
        Verdict::Carries
    };
    (after, verdict)
}

/// How many looks it takes for anything to happen: at least one, whatever the file says.
pub fn at_least_one(looks: u32) -> (kept: u32)
    ensures
        kept == if looks >= 1 {
            looks
        } else {
            1
        },
{
    if looks >= 1 {
        looks
    } else {
        1
    }
}

/// The watch after `count` looks at which the device did not call back at all.
pub open spec fn silent_looks(watch: Watch, count: nat) -> Watch
    decreases count,
{
    if count == 0 {
        watch
    } else {
        spec_watched(silent_looks(watch, (count - 1) as nat), silent_looks(watch, (count - 1) as nat).last)
    }
}

proof fn lemma_silent_looks(watch: Watch, count: nat)
    requires
        watch.missed + count <= u32::MAX,
    ensures
        silent_looks(watch, count).last == watch.last,
        count > 0 ==> silent_looks(watch, count).missed == watch.missed + count,
        count > 0 ==> silent_looks(watch, count).moving == 0,
    decreases count,
{
    if count > 0 {
        lemma_silent_looks(watch, (count - 1) as nat);
    }
}

/// **A callback is never taken for going away, and silence is never taken for coming back**: a
/// look at a device that has called back since the last one never stalls it, and a look at one
/// that has not never trusts it again, whenever either takes at least one look.
pub proof fn law_a_look_is_never_mistaken(watch: Watch, seen: u64, stalled: bool, stall_after: u32, recover_after: u32)
    requires
        stall_after >= 1,
        recover_after >= 1,
    ensures
        seen != watch.last ==> spec_verdict(spec_watched(watch, seen), stalled, stall_after, recover_after)
            != Verdict::Stalls,
        seen == watch.last ==> spec_verdict(spec_watched(watch, seen), stalled, stall_after, recover_after)
            != Verdict::Recovers,
{
}

/// **A device that stops calling back is stalled after `stall_after` looks**: from a watch that
/// had seen it move, the look that makes its silence that long is the one that stalls it, and no
/// earlier one does.
pub proof fn law_silence_stalls_after_so_many_looks(watch: Watch, stall_after: u32, count: nat)
    requires
        watch.missed == 0,
        stall_after >= 1,
        1 <= count <= stall_after,
    ensures
        ({
            let before = silent_looks(watch, (count - 1) as nat);
            let verdict = spec_verdict(spec_watched(before, before.last), false, stall_after, 1);
            (verdict == Verdict::Stalls) == (count == stall_after)
        }),
{
    lemma_silent_looks(watch, (count - 1) as nat);
    lemma_silent_looks(watch, count);
}

/// The runs of samples the DAW is handed, one per channel it asked for: the run of that channel
/// in its device's staging area.
pub open spec fn spec_gathered(stages: Seq<Seq<i32>>, map: Seq<ChannelRef>, block: nat) -> Seq<Seq<i32>> {
    Seq::new(
        map.len(),
        |k: int| stages[map[k].device as int].subrange(map[k].slot * block, (map[k].slot + 1) * block),
    )
}

/// Whether every channel of a map has a whole run in its device's staging area.
pub open spec fn runs_fit(stages: Seq<Seq<i32>>, map: Seq<ChannelRef>, block: nat) -> bool {
    forall|k: int|
        0 <= k < map.len() ==> (#[trigger] map[k]).device < stages.len() && (map[k].slot + 1) * block
            <= stages[map[k].device as int].len()
}

/// **The channels the DAW asked for, in the order it asked for them**, each a whole run out of its
/// device's staging area.
pub fn gather(stages: &Vec<Vec<i32>>, map: &[ChannelRef], block: usize) -> (runs: Vec<Vec<i32>>)
    requires
        runs_fit(stages@.map_values(|stage: Vec<i32>| stage@), map@, block as nat),
    ensures
        runs@.map_values(|run: Vec<i32>| run@) == spec_gathered(
            stages@.map_values(|stage: Vec<i32>| stage@),
            map@,
            block as nat,
        ),
{
    let ghost views = stages@.map_values(|stage: Vec<i32>| stage@);
    let mut runs: Vec<Vec<i32>> = Vec::new();
    let mut k: usize = 0;
    while k < map.len()
        invariant
            k <= map@.len(),
            views == stages@.map_values(|stage: Vec<i32>| stage@),
            runs_fit(views, map@, block as nat),
            runs@.len() == k,
            forall|j: int| 0 <= j < k ==> (#[trigger] runs@[j])@ == spec_gathered(views, map@, block as nat)[j],
        decreases map@.len() - k,
    {
        let at = map[k];
        proof {
            assert(map@[k as int] == at);
            assert(at.device < views.len() && (at.slot + 1) * block <= views[at.device as int].len());
            assert(views[at.device as int] == stages@[at.device as int]@);
            assert(at.slot * block + block == (at.slot + 1) * block) by (nonlinear_arith);
        }
        let stage = &stages[at.device];
        proof {
            assert(stage@.len() == stage.len());
        }
        let start = at.slot * block;
        let mut run: Vec<i32> = Vec::new();
        let mut i: usize = 0;
        while i < block
            invariant
                i <= block,
                start == at.slot * block,
                start + block <= stage@.len(),
                stage@.len() == stage.len(),
                run@ == stage@.subrange(start as int, start + i),
            decreases block - i,
        {
            run.push(stage[start + i]);
            proof {
                assert(run@ =~= stage@.subrange(start as int, start + i + 1));
            }
            i = i + 1;
        }
        proof {
            assert(start + block == (at.slot + 1) * block) by (nonlinear_arith)
                requires
                    start == at.slot * block,
            ;
        }
        runs.push(run);
        k = k + 1;
    }
    assert(runs@.map_values(|run: Vec<i32>| run@) =~= spec_gathered(views, map@, block as nat));
    runs
}

/// The last request, among the first `upto`, whose run covers sample `i` of this device's staging
/// area.
pub open spec fn writer_upto(map: Seq<ChannelRef>, device: int, i: int, block: nat, upto: int) -> Option<int>
    decreases upto,
{
    if upto <= 0 {
        None
    } else if map[upto - 1].device == device && map[upto - 1].slot * block <= i < (map[upto - 1].slot + 1) * block {
        Some(upto - 1)
    } else {
        writer_upto(map, device, i, block, upto - 1)
    }
}

/// What one sample of a device's staging area holds once the first `upto` requests are written:
/// the sample of the last run written over it, or silence.
pub open spec fn scattered_sample(map: Seq<ChannelRef>, written: Seq<Seq<i32>>, block: nat, device: int, i: int, upto: int) -> i32 {
    match writer_upto(map, device, i, block, upto) {
        Some(k) => written[k][i - map[k].slot * block],
        None => 0,
    }
}

/// The staging areas a device's outputs are played from, once the first `upto` runs the DAW wrote
/// are in place: silence, with every channel it asked for holding the run it wrote, a later
/// request for one channel winning.
pub open spec fn scattered_upto(counts: Seq<nat>, map: Seq<ChannelRef>, written: Seq<Seq<i32>>, block: nat, upto: int) -> Seq<
    Seq<i32>,
> {
    Seq::new(
        counts.len(),
        |device: int| Seq::new(counts[device], |i: int| scattered_sample(map, written, block, device, i, upto)),
    )
}

/// How long each staging area is.
pub open spec fn lengths(stages: Seq<Vec<i32>>) -> Seq<nat> {
    stages.map_values(|stage: Vec<i32>| stage@.len())
}

/// **What the DAW wrote, back out to the devices**: every sample of every staging area is cleared
/// first, so that a channel the DAW did not ask for is silence rather than whatever was last there,
/// and then each run the DAW wrote goes to the channel it asked for.
pub fn scatter(stages: &mut Vec<Vec<i32>>, map: &[ChannelRef], written: &Vec<Vec<i32>>, block: usize)
    requires
        written@.len() == map@.len(),
        forall|k: int| 0 <= k < written@.len() ==> (#[trigger] written@[k])@.len() == block,
        runs_fit(old(stages)@.map_values(|stage: Vec<i32>| stage@), map@, block as nat),
    ensures
        final(stages)@.len() == old(stages)@.len(),
        final(stages)@.map_values(|stage: Vec<i32>| stage@) == scattered_upto(
            lengths(old(stages)@),
            map@,
            written@.map_values(|run: Vec<i32>| run@),
            block as nat,
            map@.len() as int,
        ),
{
    let ghost counts = lengths(stages@);
    let ghost runs = written@.map_values(|run: Vec<i32>| run@);
    let mut d: usize = 0;
    while d < stages.len()
        invariant
            d <= stages@.len(),
            counts == lengths(old(stages)@),
            stages@.len() == old(stages)@.len(),
            lengths(stages@) == counts,
            forall|e: int| 0 <= e < d ==> #[trigger] stages@[e]@ == scattered_upto(counts, map@, runs, block as nat, 0)[e],
        decreases stages@.len() - d,
    {
        let count = stages[d].len();
        let mut silent: Vec<i32> = Vec::new();
        let mut i: usize = 0;
        while i < count
            invariant
                i <= count,
                silent@.len() == i,
                forall|j: int| 0 <= j < i ==> silent@[j] == 0,
            decreases count - i,
        {
            silent.push(0);
            i = i + 1;
        }
        let ghost before = stages@;
        stages.set(d, silent);
        proof {
            assert(silent@ =~= scattered_upto(counts, map@, runs, block as nat, 0)[d as int]);
            assert forall|e: int| 0 <= e < stages@.len() implies #[trigger] lengths(stages@)[e] == counts[e] by {
                if e != d {
                    assert(stages@[e] == before[e]);
                }
            }
            assert(lengths(stages@) =~= counts);
        }
        d = d + 1;
    }
    proof {
        assert(stages@.map_values(|stage: Vec<i32>| stage@) =~= scattered_upto(counts, map@, runs, block as nat, 0));
    }
    let mut k: usize = 0;
    while k < map.len()
        invariant
            k <= map@.len(),
            written@.len() == map@.len(),
            forall|j: int| 0 <= j < written@.len() ==> (#[trigger] written@[j])@.len() == block,
            runs == written@.map_values(|run: Vec<i32>| run@),
            counts == lengths(old(stages)@),
            stages@.len() == old(stages)@.len(),
            runs_fit(old(stages)@.map_values(|stage: Vec<i32>| stage@), map@, block as nat),
            stages@.map_values(|stage: Vec<i32>| stage@) == scattered_upto(counts, map@, runs, block as nat, k as int),
        decreases map@.len() - k,
    {
        let at = map[k];
        proof {
            assert(map@[k as int] == at);
            assert(old(stages)@.map_values(|stage: Vec<i32>| stage@)[at.device as int] == old(stages)@[at.device as int]@);
            assert(at.slot * block + block == (at.slot + 1) * block) by (nonlinear_arith);
            assert(stages@.map_values(|stage: Vec<i32>| stage@)[at.device as int] == stages@[at.device as int]@);
        }
        let ghost current = stages@.map_values(|stage: Vec<i32>| stage@);
        let mut stage = stages.remove(at.device);
        proof {
            assert(stage@ == current[at.device as int]);
            assert(stage@.len() == counts[at.device as int]);
            assert(stage@.len() == stage.len());
        }
        let start = at.slot * block;
        let run = &written[k];
        proof {
            assert(runs[k as int] == run@);
        }
        let mut i: usize = 0;
        while i < block
            invariant
                i <= block,
                start == at.slot * block,
                start + block <= stage@.len(),
                stage@.len() == stage.len(),
                run@.len() == block,
                stage@.len() == current[at.device as int].len(),
                forall|p: int|
                    0 <= p < stage@.len() ==> #[trigger] stage@[p] == if start <= p < start + i {
                        run@[p - start]
                    } else {
                        current[at.device as int][p]
                    },
            decreases block - i,
        {
            stage.set(start + i, run[i]);
            i = i + 1;
        }
        let ghost removed = stages@;
        stages.insert(at.device, stage);
        proof {
            assert(stages@ =~= removed.insert(at.device as int, stage));
            let next = scattered_upto(counts, map@, runs, block as nat, k + 1);
            let views = stages@.map_values(|stage: Vec<i32>| stage@);
            assert forall|e: int| 0 <= e < views.len() implies #[trigger] views[e] == next[e] by {
                if e == at.device {
                    assert forall|p: int| 0 <= p < views[e].len() implies views[e][p] == next[e][p] by {
                        if start <= p < start + block {
                            assert(writer_upto(map@, e, p, block as nat, k + 1) == Some(k as int));
                        } else {
                            assert(writer_upto(map@, e, p, block as nat, k + 1) == writer_upto(
                                map@,
                                e,
                                p,
                                block as nat,
                                k as int,
                            ));
                        }
                    }
                    assert(views[e] =~= next[e]);
                } else {
                    assert(views[e] == current[e]);
                    assert forall|p: int| 0 <= p < views[e].len() implies views[e][p] == next[e][p] by {
                        assert(writer_upto(map@, e, p, block as nat, k + 1) == writer_upto(
                            map@,
                            e,
                            p,
                            block as nat,
                            k as int,
                        ));
                    }
                    assert(views[e] =~= next[e]);
                }
            }
            assert(views =~= next);
        }
        k = k + 1;
    }
}

proof fn lemma_no_writer(map: Seq<ChannelRef>, device: int, i: int, block: nat, upto: int)
    requires
        0 <= upto <= map.len(),
        forall|k: int|
            0 <= k < map.len() ==> !((#[trigger] map[k]).device == device && map[k].slot * block <= i < (map[k].slot
                + 1) * block),
    ensures
        writer_upto(map, device, i, block, upto).is_none(),
    decreases upto,
{
    if upto > 0 {
        lemma_no_writer(map, device, i, block, upto - 1);
    }
}

/// **A channel the DAW did not write to is silence**: a sample of a device's staging area that no
/// request's run covers holds zero once the DAW's runs are scattered, whatever was there before.
pub proof fn law_a_channel_not_written_is_silence(
    counts: Seq<nat>,
    map: Seq<ChannelRef>,
    written: Seq<Seq<i32>>,
    block: nat,
    device: int,
    i: int,
)
    requires
        0 <= device < counts.len(),
        0 <= i < counts[device],
        forall|k: int|
            0 <= k < map.len() ==> !((#[trigger] map[k]).device == device && map[k].slot * block <= i < (map[k].slot
                + 1) * block),
    ensures
        scattered_upto(counts, map, written, block, map.len() as int)[device][i] == 0,
{
    lemma_no_writer(map, device, i, block, map.len() as int);
}

/// One sub-device as the audio path holds it between callbacks: the rings its audio crosses, how
/// many times it has called back, and whether it has been found gone.
pub struct Lane {
    /// The device's own input blocks, waiting for the master. None on the master itself.
    pub in_ring: Option<Ring>,
    /// Blocks the master has left for this device to play. None on the master itself.
    pub out_ring: Option<Ring>,
    /// How many times this device has called back, counted the way an atomic counter counts.
    pub callbacks: u64,
    /// Set when this device stopped calling back.
    pub stalled: bool,
    /// Write silence and play nothing you were given.
    pub mute_out: bool,
}

impl Lane {
    pub open spec fn wf(&self) -> bool {
        &&& (self.in_ring matches Some(ring) ==> ring.wf())
        &&& (self.out_ring matches Some(ring) ==> ring.wf())
    }
}

/// The oldest buffer waiting in a ring, when there is a ring and anything in it.
pub open spec fn front(ring: Option<Ring>) -> Option<Seq<i32>> {
    match ring {
        Some(r) => if r.waiting_buffers().len() > 0 {
            Some(r.waiting_buffers()[0])
        } else {
            None
        },
        None => None,
    }
}

/// A lane's ring after `source` was published into it; no ring stays none.
pub open spec fn pushed_into(before: Option<Ring>, after: Option<Ring>, source: Seq<i32>) -> bool {
    match before {
        Some(b) => after matches Some(a) && spec_pushed(b, a, source),
        None => after is None,
    }
}

/// A lane's ring after its oldest buffer was asked for.
pub open spec fn popped_from(before: Option<Ring>, after: Option<Ring>) -> bool {
    match before {
        Some(b) => after matches Some(a) && spec_popped(b, a),
        None => after is None,
    }
}

/// A lane's ring after everything in it was thrown away.
pub open spec fn drained_of(before: Option<Ring>, after: Option<Ring>) -> bool {
    match before {
        Some(b) => after matches Some(a) && spec_drained(b, a),
        None => after is None,
    }
}

/// Whether a follower plays nothing it was given on this callback: it has been muted, or the audio
/// is not running.
pub open spec fn muted(lane: Lane, running: bool) -> bool {
    lane.mute_out || !running
}

/// Silence, over the whole of a run.
fn silence(run: &mut [i32])
    ensures
        final(run)@ == zeros(old(run)@.len()),
{
    let mut i: usize = 0;
    while i < run.len()
        invariant
            i <= run@.len(),
            run@.len() == old(run)@.len(),
            forall|k: int| 0 <= k < i ==> run@[k] == 0,
        decreases run@.len() - i,
    {
        run[i] = 0;
        i = i + 1;
    }
    assert(run@ =~= zeros(old(run)@.len()));
}

/// **A device that is not driving the callback has called back**: it hands over what it heard and
/// plays what it was left.
///
/// A muted device plays silence, and what was left for it while it was away is thrown away so
/// that it never plays late; one with nothing left for it plays silence too. Either way `out`, the
/// block it plays, is written in full. What it heard is handed over only while the audio runs and
/// it is not muted. `heard` is its inputs for this block and `out` its outputs, each as one
/// channel's run after another.
pub fn follower_callback(lane: &mut Lane, running: bool, heard: &[i32], out: &mut [i32]) -> (played: bool)
    requires
        old(lane).wf(),
        old(lane).in_ring matches Some(r) ==> heard@.len() == r.spec_len(),
        old(lane).out_ring matches Some(r) ==> old(out)@.len() == r.spec_len(),
    ensures
        final(lane).wf(),
        final(lane).callbacks == bumped(old(lane).callbacks),
        final(lane).stalled == old(lane).stalled,
        final(lane).mute_out == old(lane).mute_out,
        played == (!muted(*old(lane), running) && front(old(lane).out_ring) is Some),
        played ==> final(out)@ == front(old(lane).out_ring)->0,
        !played ==> final(out)@ == zeros(old(out)@.len()),
        muted(*old(lane), running) ==> drained_of(old(lane).out_ring, final(lane).out_ring)
            && final(lane).in_ring == old(lane).in_ring,
        !muted(*old(lane), running) ==> popped_from(old(lane).out_ring, final(lane).out_ring)
            && pushed_into(old(lane).in_ring, final(lane).in_ring, heard@),
{
    lane.callbacks = lane.callbacks.wrapping_add(1);
    let quiet = lane.mute_out || !running;
    let mut played = false;
    if quiet {
        match &mut lane.out_ring {
            Some(ring) => ring.drain(),
            None => {},
        }
    } else {
        match &mut lane.out_ring {
            Some(ring) => {
                played = ring.pop_with(out);
            },
            None => {},
        }
    }
    if !played {
        silence(out);
    }
    if !quiet {
        match &mut lane.in_ring {
            Some(ring) => {
                ring.push_with(heard);
            },
            None => {},
        }
    }
    played
}

/// What the master's callback keeps to itself between blocks: one staging run per device for its
/// inputs and one for its outputs, each holding that device's opened channels one after another,
/// each device's two delays, and each device's watch.
pub struct Scratch {
    pub stage_in: Vec<Vec<i32>>,
    pub stage_out: Vec<Vec<i32>>,
    pub delay_in: Vec<Delay>,
    pub delay_out: Vec<Delay>,
    pub watch: Vec<Watch>,
}

/// Whether one device's lane, staging runs and delays fit together at `block` samples: every ring
/// and delay is sound, every ring carries runs as long as the staging run on its side, and every
/// delay is as wide as its staging run.
pub open spec fn lane_fits(lane: Lane, ins: nat, outs: nat, delay_in: Delay, delay_out: Delay, block: nat) -> bool {
    &&& lane.wf()
    &&& (lane.in_ring matches Some(r) ==> r.spec_len() == ins)
    &&& (lane.out_ring matches Some(r) ==> r.spec_len() == outs)
    &&& delay_in.wf()
    &&& delay_in.spec_channels() * block == ins
    &&& delay_out.wf()
    &&& delay_out.spec_channels() * block == outs
}

/// Whether a stream's lanes and the master's scratch fit together at `block` samples.
pub open spec fn fits(lanes: Seq<Lane>, scratch: Scratch, block: nat) -> bool {
    &&& scratch.stage_in@.len() == lanes.len()
    &&& scratch.stage_out@.len() == lanes.len()
    &&& scratch.delay_in@.len() == lanes.len()
    &&& scratch.delay_out@.len() == lanes.len()
    &&& scratch.watch@.len() == lanes.len()
    &&& forall|d: int|
        0 <= d < lanes.len() ==> lane_fits(
            #[trigger] lanes[d],
            scratch.stage_in@[d]@.len(),
            scratch.stage_out@[d]@.len(),
            scratch.delay_in@[d],
            scratch.delay_out@[d],
            block,
        )
}

/// What a device's inputs come to on a block of the master's, before they are held back: the
/// master's own, as it heard them; a follower's oldest block waiting, unless it has stalled; and
/// silence otherwise, never a repeat.
pub open spec fn arrived(lane: Lane, is_master: bool, heard: Seq<i32>, len: nat) -> Seq<i32> {
    if is_master {
        heard
    } else if !lane.stalled && front(lane.in_ring) is Some {
        front(lane.in_ring)->0
    } else {
        zeros(len)
    }
}

/// What a block of the master's does to one device's lane: the master has called back once more,
/// a follower that has not stalled is asked for its oldest block, and nothing else is touched.
pub open spec fn inputs_taken(before: Lane, after: Lane, is_master: bool) -> bool {
    &&& after.out_ring == before.out_ring
    &&& after.callbacks == if is_master {
        bumped(before.callbacks)
    } else {
        before.callbacks
    }
    &&& after.stalled == before.stalled
    &&& after.mute_out == before.mute_out
    &&& if !is_master && !before.stalled {
        popped_from(before.in_ring, after.in_ring)
    } else {
        after.in_ring == before.in_ring
    }
}

/// One device's inputs for a block of the master's, into its staging run and held back.
fn stage_input(lane: &mut Lane, is_master: bool, heard: &[i32], stage: &mut Vec<i32>, delay: &mut Delay, block: usize)
    requires
        old(lane).wf(),
        old(lane).in_ring matches Some(r) ==> r.spec_len() == old(stage)@.len(),
        old(delay).wf(),
        old(delay).spec_channels() * block == old(stage)@.len(),
        is_master ==> heard@.len() == old(stage)@.len(),
    ensures
        final(lane).wf(),
        final(lane).in_ring matches Some(r) ==> r.spec_len() == old(stage)@.len(),
        final(stage)@.len() == old(stage)@.len(),
        inputs_taken(*old(lane), *final(lane), is_master),
        spec_processed(
            *old(delay),
            *final(delay),
            arrived(*old(lane), is_master, heard@, old(stage)@.len()),
            final(stage)@,
            block as nat,
        ),
{
    let ghost raw = arrived(*lane, is_master, heard@, stage@.len());
    if is_master {
        lane.callbacks = lane.callbacks.wrapping_add(1);
        let mut i: usize = 0;
        while i < stage.len()
            invariant
                i <= stage@.len(),
                stage@.len() == old(stage)@.len(),
                heard@.len() == stage@.len(),
                forall|k: int| 0 <= k < i ==> stage@[k] == heard@[k],
            decreases stage@.len() - i,
        {
            stage.set(i, heard[i]);
            i = i + 1;
        }
        assert(stage@ =~= raw);
    } else {
        let mut got = false;
        if !lane.stalled {
            match &mut lane.in_ring {
                Some(ring) => {
                    proof {
                        ring.lemma_whole_buffers();
                    }
                    got = ring.pop_with(stage.as_mut_slice());
                },
                None => {},
            }
        }
        if !got {
            silence(stage.as_mut_slice());
        }
        assert(stage@.len() == old(stage)@.len());
        assert(stage@ =~= raw);
    }
    delay.process(stage.as_mut_slice(), block);
}

/// What a block of the master's leaves of one device's inputs: its lane's input ring asked, and its
/// staging run holding what arrived, held back by its delay.
pub open spec fn input_staged(
    lane_before: Lane,
    lane_after: Lane,
    device: int,
    master: int,
    heard: Seq<i32>,
    stage_before: Seq<i32>,
    stage_after: Seq<i32>,
    delay_before: Delay,
    delay_after: Delay,
    block: nat,
) -> bool {
    &&& stage_after.len() == stage_before.len()
    &&& inputs_taken(lane_before, lane_after, device == master)
    &&& spec_processed(
        delay_before,
        delay_after,
        arrived(lane_before, device == master, heard, stage_before.len()),
        stage_after,
        block,
    )
}

/// **The master has called back: every device's inputs, lined up, and the channels the DAW asked
/// for.**
///
/// Each device's inputs for this block go into its staging run and are held back by its delay: the
/// master's own as it heard them, a follower's oldest block waiting, and silence for a follower that
/// has stalled or has nothing waiting, never a repeat. Then the runs the DAW asked for are taken out
/// of the staging runs, in the order it asked for them. `heard` is the master's inputs for this
/// block, one channel's run after another.
pub fn master_inputs(
    lanes: &mut Vec<Lane>,
    scratch: &mut Scratch,
    master: usize,
    heard: &[i32],
    map: &[ChannelRef],
    block: usize,
) -> (runs: Vec<Vec<i32>>)
    requires
        fits(old(lanes)@, *old(scratch), block as nat),
        master < old(lanes)@.len(),
        heard@.len() == old(scratch).stage_in@[master as int]@.len(),
        runs_fit(old(scratch).stage_in@.map_values(|stage: Vec<i32>| stage@), map@, block as nat),
    ensures
        fits(final(lanes)@, *final(scratch), block as nat),
        final(lanes)@.len() == old(lanes)@.len(),
        final(scratch).stage_out == old(scratch).stage_out,
        final(scratch).delay_out == old(scratch).delay_out,
        final(scratch).watch == old(scratch).watch,
        forall|d: int|
            0 <= d < old(lanes)@.len() ==> #[trigger] input_staged(
                old(lanes)@[d],
                final(lanes)@[d],
                d,
                master as int,
                heard@,
                old(scratch).stage_in@[d]@,
                final(scratch).stage_in@[d]@,
                old(scratch).delay_in@[d],
                final(scratch).delay_in@[d],
                block as nat,
            ),
        runs@.map_values(|run: Vec<i32>| run@) == spec_gathered(
            final(scratch).stage_in@.map_values(|stage: Vec<i32>| stage@),
            map@,
            block as nat,
        ),
{
    let ghost lanes0 = lanes@;
    let ghost scratch0 = *scratch;
    let count = lanes.len();
    let mut d: usize = 0;
    while d < count
        invariant
            d <= count,
            count == lanes0.len(),
            lanes@.len() == count,
            master < count,
            fits(lanes0, scratch0, block as nat),
            heard@.len() == scratch0.stage_in@[master as int]@.len(),
            scratch.stage_in@.len() == count,
            scratch.delay_in@.len() == count,
            scratch.stage_out == scratch0.stage_out,
            scratch.delay_out == scratch0.delay_out,
            scratch.watch == scratch0.watch,
            forall|e: int|
                d <= e < count ==> #[trigger] lanes@[e] == lanes0[e] && scratch.stage_in@[e]
                    == scratch0.stage_in@[e] && scratch.delay_in@[e] == scratch0.delay_in@[e],
            forall|e: int|
                0 <= e < d ==> #[trigger] input_staged(
                    lanes0[e],
                    lanes@[e],
                    e,
                    master as int,
                    heard@,
                    scratch0.stage_in@[e]@,
                    scratch.stage_in@[e]@,
                    scratch0.delay_in@[e],
                    scratch.delay_in@[e],
                    block as nat,
                ),
            forall|e: int|
                0 <= e < d ==> lane_fits(
                    #[trigger] lanes@[e],
                    scratch.stage_in@[e]@.len(),
                    scratch.stage_out@[e]@.len(),
                    scratch.delay_in@[e],
                    scratch.delay_out@[e],
                    block as nat,
                ),
        decreases count - d,
    {
        proof {
            assert(lane_fits(
                lanes0[d as int],
                scratch0.stage_in@[d as int]@.len(),
                scratch0.stage_out@[d as int]@.len(),
                scratch0.delay_in@[d as int],
                scratch0.delay_out@[d as int],
                block as nat,
            ));
        }
        let ghost lanes_before = lanes@;
        let ghost stages_before = scratch.stage_in@;
        let ghost delays_before = scratch.delay_in@;
        stage_input(&mut lanes[d], d == master, heard, &mut scratch.stage_in[d], &mut scratch.delay_in[d], block);
        proof {
            assert forall|e: int| d + 1 <= e < count implies #[trigger] lanes@[e] == lanes0[e] && scratch.stage_in@[e]
                == scratch0.stage_in@[e] && scratch.delay_in@[e] == scratch0.delay_in@[e] by {
                assert(lanes_before[e] == lanes0[e]);
                assert(stages_before[e] == scratch0.stage_in@[e]);
                assert(delays_before[e] == scratch0.delay_in@[e]);
            }
            assert(input_staged(
                lanes0[d as int],
                lanes@[d as int],
                d as int,
                master as int,
                heard@,
                scratch0.stage_in@[d as int]@,
                scratch.stage_in@[d as int]@,
                scratch0.delay_in@[d as int],
                scratch.delay_in@[d as int],
                block as nat,
            ));
        }
        d = d + 1;
    }
    proof {
        let views = scratch.stage_in@.map_values(|stage: Vec<i32>| stage@);
        let views0 = scratch0.stage_in@.map_values(|stage: Vec<i32>| stage@);
        assert forall|k: int| 0 <= k < map@.len() implies (#[trigger] map@[k]).device < views.len() && (map@[k].slot + 1)
            * block <= views[map@[k].device as int].len() by {
            let e = map@[k].device as int;
            assert(views0[e].len() == scratch0.stage_in@[e]@.len());
            assert(input_staged(
                lanes0[e],
                lanes@[e],
                e,
                master as int,
                heard@,
                scratch0.stage_in@[e]@,
                scratch.stage_in@[e]@,
                scratch0.delay_in@[e],
                scratch.delay_in@[e],
                block as nat,
            ));
        }
    }
    gather(&scratch.stage_in, map, block)
}

/// What each device is sent of what the DAW wrote, before it is held back: silence, with every
/// channel the DAW asked for holding the run it wrote.
pub open spec fn spec_sent(stages: Seq<Vec<i32>>, map: Seq<ChannelRef>, written: Seq<Vec<i32>>, block: nat) -> Seq<Seq<i32>> {
    scattered_upto(
        lengths(stages),
        map,
        written.map_values(|run: Vec<i32>| run@),
        block,
        map.len() as int,
    )
}

/// What a block of the master's does to one device's output ring: a follower that has not stalled
/// is left the block it is to play, and nothing else is touched.
pub open spec fn outputs_left(before: Lane, after: Lane, is_master: bool, block: Seq<i32>) -> bool {
    &&& after.in_ring == before.in_ring
    &&& after.callbacks == before.callbacks
    &&& after.stalled == before.stalled
    &&& after.mute_out == before.mute_out
    &&& if !is_master && !before.stalled {
        pushed_into(before.out_ring, after.out_ring, block)
    } else {
        after.out_ring == before.out_ring
    }
}

/// What a block of the master's leaves of one device's outputs: what the DAW wrote for it, held
/// back by its delay, in its staging run, and left in its ring to play.
pub open spec fn output_sent(
    lane_before: Lane,
    lane_after: Lane,
    device: int,
    master: int,
    written: Seq<i32>,
    stage_after: Seq<i32>,
    delay_before: Delay,
    delay_after: Delay,
    block: nat,
) -> bool {
    &&& spec_processed(delay_before, delay_after, written, stage_after, block)
    &&& outputs_left(lane_before, lane_after, device == master, stage_after)
}

/// One device's outputs for a block of the master's: held back, and left for it to play.
fn send_output(lane: &mut Lane, is_master: bool, stage: &mut Vec<i32>, delay: &mut Delay, block: usize)
    requires
        old(lane).wf(),
        old(lane).out_ring matches Some(r) ==> r.spec_len() == old(stage)@.len(),
        old(delay).wf(),
        old(delay).spec_channels() * block == old(stage)@.len(),
    ensures
        final(lane).wf(),
        final(lane).out_ring matches Some(r) ==> r.spec_len() == old(stage)@.len(),
        final(stage)@.len() == old(stage)@.len(),
        spec_processed(*old(delay), *final(delay), old(stage)@, final(stage)@, block as nat),
        outputs_left(*old(lane), *final(lane), is_master, final(stage)@),
{
    delay.process(stage.as_mut_slice(), block);
    if !is_master && !lane.stalled {
        match &mut lane.out_ring {
            Some(ring) => {
                ring.push_with(stage.as_slice());
            },
            None => {},
        }
    }
}

/// **What the DAW wrote, out to every device.**
///
/// Every staging run is cleared, so a channel the DAW did not ask for is silence; each run the DAW
/// wrote goes to the channel it asked for; every device's outputs are held back by its delay; and
/// each follower that has not stalled is left its block to play. What comes back is the master's
/// own block, for its outputs. `written` is what the DAW wrote, one run per channel of `map`.
pub fn master_outputs(
    lanes: &mut Vec<Lane>,
    scratch: &mut Scratch,
    master: usize,
    map: &[ChannelRef],
    written: &Vec<Vec<i32>>,
    block: usize,
) -> (played: Vec<i32>)
    requires
        fits(old(lanes)@, *old(scratch), block as nat),
        master < old(lanes)@.len(),
        written@.len() == map@.len(),
        forall|k: int| 0 <= k < written@.len() ==> (#[trigger] written@[k])@.len() == block,
        runs_fit(old(scratch).stage_out@.map_values(|stage: Vec<i32>| stage@), map@, block as nat),
    ensures
        fits(final(lanes)@, *final(scratch), block as nat),
        final(lanes)@.len() == old(lanes)@.len(),
        final(scratch).stage_in == old(scratch).stage_in,
        final(scratch).delay_in == old(scratch).delay_in,
        final(scratch).watch == old(scratch).watch,
        forall|d: int|
            0 <= d < old(lanes)@.len() ==> #[trigger] output_sent(
                old(lanes)@[d],
                final(lanes)@[d],
                d,
                master as int,
                spec_sent(old(scratch).stage_out@, map@, written@, block as nat)[d],
                final(scratch).stage_out@[d]@,
                old(scratch).delay_out@[d],
                final(scratch).delay_out@[d],
                block as nat,
            ),
        played@ == final(scratch).stage_out@[master as int]@,
{
    let ghost lanes0 = lanes@;
    let ghost scratch0 = *scratch;
    let ghost sent = spec_sent(scratch0.stage_out@, map@, written@, block as nat);
    scatter(&mut scratch.stage_out, map, written, block);
    let ghost scattered = scratch.stage_out@;
    proof {
        assert forall|e: int| 0 <= e < lanes0.len() implies #[trigger] scattered[e]@ == sent[e] by {
            assert(scattered.map_values(|stage: Vec<i32>| stage@)[e] == scattered[e]@);
        }
        assert forall|e: int| 0 <= e < lanes0.len() implies #[trigger] scattered[e]@.len() == scratch0.stage_out@[e]@.len() by {
            assert(scattered.map_values(|stage: Vec<i32>| stage@)[e] == scattered[e]@);
            assert(lengths(scratch0.stage_out@)[e] == scratch0.stage_out@[e]@.len());
        }
    }
    let count = lanes.len();
    let mut d: usize = 0;
    while d < count
        invariant
            d <= count,
            count == lanes0.len(),
            lanes@.len() == count,
            master < count,
            fits(lanes0, scratch0, block as nat),
            scratch.stage_out@.len() == count,
            scratch.delay_out@.len() == count,
            scattered.len() == count,
            scratch.stage_in == scratch0.stage_in,
            scratch.delay_in == scratch0.delay_in,
            scratch.watch == scratch0.watch,
            forall|e: int| 0 <= e < count ==> #[trigger] scattered[e]@ == sent[e],
            forall|e: int| 0 <= e < count ==> #[trigger] scattered[e]@.len() == scratch0.stage_out@[e]@.len(),
            forall|e: int|
                d <= e < count ==> #[trigger] lanes@[e] == lanes0[e] && scratch.stage_out@[e] == scattered[e]
                    && scratch.delay_out@[e] == scratch0.delay_out@[e],
            forall|e: int|
                0 <= e < d ==> #[trigger] output_sent(
                    lanes0[e],
                    lanes@[e],
                    e,
                    master as int,
                    sent[e],
                    scratch.stage_out@[e]@,
                    scratch0.delay_out@[e],
                    scratch.delay_out@[e],
                    block as nat,
                ),
            forall|e: int|
                0 <= e < d ==> lane_fits(
                    #[trigger] lanes@[e],
                    scratch.stage_in@[e]@.len(),
                    scratch.stage_out@[e]@.len(),
                    scratch.delay_in@[e],
                    scratch.delay_out@[e],
                    block as nat,
                ),
        decreases count - d,
    {
        proof {
            assert(lane_fits(
                lanes0[d as int],
                scratch0.stage_in@[d as int]@.len(),
                scratch0.stage_out@[d as int]@.len(),
                scratch0.delay_in@[d as int],
                scratch0.delay_out@[d as int],
                block as nat,
            ));
            assert(scattered[d as int]@.len() == scratch0.stage_out@[d as int]@.len());
        }
        let ghost lanes_before = lanes@;
        let ghost stages_before = scratch.stage_out@;
        let ghost delays_before = scratch.delay_out@;
        send_output(&mut lanes[d], d == master, &mut scratch.stage_out[d], &mut scratch.delay_out[d], block);
        proof {
            assert forall|e: int| d + 1 <= e < count implies #[trigger] lanes@[e] == lanes0[e] && scratch.stage_out@[e]
                == scattered[e] && scratch.delay_out@[e] == scratch0.delay_out@[e] by {
                assert(lanes_before[e] == lanes0[e]);
                assert(stages_before[e] == scattered[e]);
                assert(delays_before[e] == scratch0.delay_out@[e]);
            }
            assert(output_sent(
                lanes0[d as int],
                lanes@[d as int],
                d as int,
                master as int,
                sent[d as int],
                scratch.stage_out@[d as int]@,
                scratch0.delay_out@[d as int],
                scratch.delay_out@[d as int],
                block as nat,
            ));
        }
        d = d + 1;
    }
    let mut played: Vec<i32> = Vec::new();
    let stage = &scratch.stage_out[master];
    let mut i: usize = 0;
    while i < stage.len()
        invariant
            i <= stage@.len(),
            played@ == stage@.subrange(0, i as int),
        decreases stage@.len() - i,
    {
        played.push(stage[i]);
        assert(played@ =~= stage@.subrange(0, i + 1));
        i = i + 1;
    }
    assert(played@ =~= stage@);
    played
}

/// A delay after everything it held was forgotten.
pub open spec fn delay_cleared(before: Delay, after: Delay) -> bool {
    &&& after.wf()
    &&& after.spec_samples() == before.spec_samples()
    &&& after.spec_room() == before.spec_room()
    &&& after.spec_channels() == before.spec_channels()
    &&& after.held() == silent(before.spec_channels(), before.spec_samples())
}

/// What one look does to one follower: its watch moves on, and what the look decides is done. A
/// device that stalls is muted, and what it handed over and what was held back for it, both ways,
/// is thrown away; one that recovers is trusted again; otherwise nothing changes.
pub open spec fn looked_at(
    lane_before: Lane,
    lane_after: Lane,
    watch_before: Watch,
    watch_after: Watch,
    in_before: Delay,
    in_after: Delay,
    out_before: Delay,
    out_after: Delay,
    stall_after: u32,
    recover_after: u32,
) -> bool {
    let after = spec_watched(watch_before, lane_before.callbacks);
    let verdict = spec_verdict(after, lane_before.stalled, stall_after, recover_after);
    &&& watch_after == after
    &&& lane_after.callbacks == lane_before.callbacks
    &&& lane_after.out_ring == lane_before.out_ring
    &&& match verdict {
        Verdict::Stalls => {
            &&& lane_after.stalled
            &&& lane_after.mute_out
            &&& drained_of(lane_before.in_ring, lane_after.in_ring)
            &&& delay_cleared(in_before, in_after)
            &&& delay_cleared(out_before, out_after)
        },
        Verdict::Recovers => {
            &&& !lane_after.stalled
            &&& !lane_after.mute_out
            &&& lane_after.in_ring == lane_before.in_ring
            &&& in_after == in_before
            &&& out_after == out_before
        },
        Verdict::Carries => {
            &&& lane_after.stalled == lane_before.stalled
            &&& lane_after.mute_out == lane_before.mute_out
            &&& lane_after.in_ring == lane_before.in_ring
            &&& in_after == in_before
            &&& out_after == out_before
        },
    }
}

/// Device `e`'s lane, watch and delays, as they were.
pub open spec fn unchanged_at(lanes: Seq<Lane>, scratch: Scratch, lanes0: Seq<Lane>, scratch0: Scratch, e: int) -> bool {
    &&& lanes[e] == lanes0[e]
    &&& scratch.watch@[e] == scratch0.watch@[e]
    &&& scratch.delay_in@[e] == scratch0.delay_in@[e]
    &&& scratch.delay_out@[e] == scratch0.delay_out@[e]
}

/// Device `e`'s lane and delays are sound.
pub open spec fn sound_at(lanes: Seq<Lane>, scratch: Scratch, e: int) -> bool {
    &&& lanes[e].wf()
    &&& scratch.delay_in@[e].wf()
    &&& scratch.delay_out@[e].wf()
}

/// What one look did to device `e`, read out of the lanes and scratch before and after it.
pub open spec fn looked_at_in(
    lanes0: Seq<Lane>,
    lanes: Seq<Lane>,
    scratch0: Scratch,
    scratch: Scratch,
    e: int,
    stall_after: u32,
    recover_after: u32,
) -> bool {
    looked_at(
        lanes0[e],
        lanes[e],
        scratch0.watch@[e],
        scratch.watch@[e],
        scratch0.delay_in@[e],
        scratch.delay_in@[e],
        scratch0.delay_out@[e],
        scratch.delay_out@[e],
        stall_after,
        recover_after,
    )
}

/// One look at one follower.
fn look_at(
    lane: &mut Lane,
    watch: &mut Watch,
    delay_in: &mut Delay,
    delay_out: &mut Delay,
    stall_after: u32,
    recover_after: u32,
)
    requires
        old(lane).wf(),
        old(delay_in).wf(),
        old(delay_out).wf(),
        countable(*old(watch), old(lane).callbacks),
    ensures
        final(lane).wf(),
        final(delay_in).wf(),
        final(delay_out).wf(),
        looked_at(
            *old(lane),
            *final(lane),
            *old(watch),
            *final(watch),
            *old(delay_in),
            *final(delay_in),
            *old(delay_out),
            *final(delay_out),
            stall_after,
            recover_after,
        ),
{
    let (after, verdict) = watch_step(*watch, lane.callbacks, lane.stalled, stall_after, recover_after);
    *watch = after;
    match verdict {
        Verdict::Stalls => {
            lane.stalled = true;
            lane.mute_out = true;
            match &mut lane.in_ring {
                Some(ring) => ring.drain(),
                None => {},
            }
            delay_in.clear();
            delay_out.clear();
        },
        Verdict::Recovers => {
            lane.stalled = false;
            lane.mute_out = false;
        },
        Verdict::Carries => {},
    }
}

/// **Who is still with us**: one look at every device but the master.
///
/// One that has missed `stall_after` looks in a row is stalled: its inputs read as silence from
/// here and its outputs are muted, and what it handed over and what was held back for it is thrown
/// away, because it is old by now. A stalled one that has moved for `recover_after` looks in a row
/// is trusted again. The master is never looked at: it is the one doing the looking.
#[verifier::rlimit(40)]
pub fn watch_devices(lanes: &mut Vec<Lane>, scratch: &mut Scratch, master: usize, stall_after: u32, recover_after: u32)
    requires
        old(scratch).watch@.len() == old(lanes)@.len(),
        old(scratch).delay_in@.len() == old(lanes)@.len(),
        old(scratch).delay_out@.len() == old(lanes)@.len(),
        forall|d: int| 0 <= d < old(lanes)@.len() ==> (#[trigger] old(lanes)@[d]).wf(),
        forall|d: int| 0 <= d < old(lanes)@.len() ==> (#[trigger] old(scratch).delay_in@[d]).wf(),
        forall|d: int| 0 <= d < old(lanes)@.len() ==> (#[trigger] old(scratch).delay_out@[d]).wf(),
        forall|d: int|
            0 <= d < old(lanes)@.len() && d != master ==> countable(
                #[trigger] old(scratch).watch@[d],
                old(lanes)@[d].callbacks,
            ),
    ensures
        final(lanes)@.len() == old(lanes)@.len(),
        final(scratch).stage_in == old(scratch).stage_in,
        final(scratch).stage_out == old(scratch).stage_out,
        final(scratch).watch@.len() == old(scratch).watch@.len(),
        final(scratch).delay_in@.len() == old(scratch).delay_in@.len(),
        final(scratch).delay_out@.len() == old(scratch).delay_out@.len(),
        forall|b: nat| fits(old(lanes)@, *old(scratch), b) ==> #[trigger] fits(final(lanes)@, *final(scratch), b),
        forall|d: int|
            0 <= d < old(lanes)@.len() && d != master ==> #[trigger] looked_at(
                old(lanes)@[d],
                final(lanes)@[d],
                old(scratch).watch@[d],
                final(scratch).watch@[d],
                old(scratch).delay_in@[d],
                final(scratch).delay_in@[d],
                old(scratch).delay_out@[d],
                final(scratch).delay_out@[d],
                stall_after,
                recover_after,
            ),
        master < old(lanes)@.len() ==> final(lanes)@[master as int] == old(lanes)@[master as int]
            && final(scratch).watch@[master as int] == old(scratch).watch@[master as int]
            && final(scratch).delay_in@[master as int] == old(scratch).delay_in@[master as int]
            && final(scratch).delay_out@[master as int] == old(scratch).delay_out@[master as int],
{
    let ghost lanes0 = lanes@;
    let ghost scratch0 = *scratch;
    let count = lanes.len();
    let mut d: usize = 0;
    while d < count
        invariant
            d <= count,
            count == lanes0.len(),
            lanes@.len() == count,
            scratch.watch@.len() == count,
            scratch.delay_in@.len() == count,
            scratch.delay_out@.len() == count,
            scratch0.watch@.len() == count,
            scratch0.delay_in@.len() == count,
            scratch0.delay_out@.len() == count,
            scratch.stage_in == scratch0.stage_in,
            scratch.stage_out == scratch0.stage_out,
            forall|e: int| 0 <= e < count ==> #[trigger] sound_at(lanes0, scratch0, e),
            forall|e: int|
                0 <= e < count && e != master ==> countable(#[trigger] scratch0.watch@[e], lanes0[e].callbacks),
            forall|e: int|
                0 <= e < count && (d <= e || e == master) ==> #[trigger] unchanged_at(
                    lanes@,
                    *scratch,
                    lanes0,
                    scratch0,
                    e,
                ),
            forall|e: int| 0 <= e < d && e != master ==> #[trigger] looked_at_in(lanes0, lanes@, scratch0, *scratch, e, stall_after, recover_after),
            forall|e: int| 0 <= e < d ==> #[trigger] sound_at(lanes@, *scratch, e),
        decreases count - d,
    {
        let ghost lanes_before = lanes@;
        let ghost scratch_before = *scratch;
        if d != master {
            proof {
                assert(sound_at(lanes0, scratch0, d as int));
                assert(unchanged_at(lanes_before, scratch_before, lanes0, scratch0, d as int));
                assert(countable(scratch0.watch@[d as int], lanes0[d as int].callbacks));
            }
            look_at(
                &mut lanes[d],
                &mut scratch.watch[d],
                &mut scratch.delay_in[d],
                &mut scratch.delay_out[d],
                stall_after,
                recover_after,
            );
            proof {
                assert(looked_at_in(lanes0, lanes@, scratch0, *scratch, d as int, stall_after, recover_after));
                assert(sound_at(lanes@, *scratch, d as int));
                assert forall|e: int| 0 <= e < count && (d + 1 <= e || e == master) implies #[trigger] unchanged_at(
                    lanes@,
                    *scratch,
                    lanes0,
                    scratch0,
                    e,
                ) by {
                    assert(unchanged_at(lanes_before, scratch_before, lanes0, scratch0, e));
                }
                assert forall|e: int| 0 <= e < d implies #[trigger] sound_at(lanes@, *scratch, e) by {
                    assert(sound_at(lanes_before, scratch_before, e));
                }
                assert forall|e: int| 0 <= e < d && e != master implies #[trigger] looked_at_in(
                    lanes0,
                    lanes@,
                    scratch0,
                    *scratch,
                    e,
                    stall_after,
                    recover_after,
                ) by {
                    assert(looked_at_in(lanes0, lanes_before, scratch0, scratch_before, e, stall_after, recover_after));
                }
            }
        } else {
            proof {
                assert(sound_at(lanes0, scratch0, d as int));
                assert(unchanged_at(lanes@, *scratch, lanes0, scratch0, d as int));
                assert(sound_at(lanes@, *scratch, d as int));
            }
        }
        d = d + 1;
    }
    proof {
        assert forall|b: nat| fits(lanes0, scratch0, b) implies #[trigger] fits(lanes@, *scratch, b) by {
            assert forall|e: int| 0 <= e < count implies lane_fits(
                #[trigger] lanes@[e],
                scratch.stage_in@[e]@.len(),
                scratch.stage_out@[e]@.len(),
                scratch.delay_in@[e],
                scratch.delay_out@[e],
                b,
            ) by {
                assert(lane_fits(
                    lanes0[e],
                    scratch0.stage_in@[e]@.len(),
                    scratch0.stage_out@[e]@.len(),
                    scratch0.delay_in@[e],
                    scratch0.delay_out@[e],
                    b,
                ));
                if e != master {
                    assert(looked_at_in(lanes0, lanes@, scratch0, *scratch, e, stall_after, recover_after));
                } else {
                    assert(unchanged_at(lanes@, *scratch, lanes0, scratch0, e));
                }
            }
        }
        assert forall|e: int| 0 <= e < count && e != master implies #[trigger] looked_at(
            lanes0[e],
            lanes@[e],
            scratch0.watch@[e],
            scratch.watch@[e],
            scratch0.delay_in@[e],
            scratch.delay_in@[e],
            scratch0.delay_out@[e],
            scratch.delay_out@[e],
            stall_after,
            recover_after,
        ) by {
            assert(looked_at_in(lanes0, lanes@, scratch0, *scratch, e, stall_after, recover_after));
        }
        if master < count {
            assert(unchanged_at(lanes@, *scratch, lanes0, scratch0, master as int));
        }
    }
}

/// The block a plan runs at, in samples: none for a plan with none.
pub open spec fn block_of(plan_block: i32) -> nat {
    if plan_block > 0 {
        plan_block as nat
    } else {
        0
    }
}

/// A padding in samples: none for one below zero.
pub open spec fn padding(pad: i32) -> nat {
    if pad > 0 {
        pad as nat
    } else {
        0
    }
}

/// Whether a plan's buffers can be laid out in this machine's memory: every device's staging runs,
/// delays and rings fit in a `usize`.
pub open spec fn lays_out(devices: Seq<DevicePlan>, block: nat, ring_buffers: usize) -> bool {
    forall|d: int|
        0 <= d < devices.len() ==> {
            let ins = (#[trigger] devices[d]).inputs@.len();
            let outs = devices[d].outputs@.len();
            let slots = if ring_buffers > 2 { ring_buffers as nat } else { 2 };
            &&& ins * block * slots <= usize::MAX
            &&& outs * block * slots <= usize::MAX
            &&& ins * padding(devices[d].pad_in) <= usize::MAX
            &&& outs * padding(devices[d].pad_out) <= usize::MAX
        }
}

/// What a device starts a stream with: silent staging runs as long as its opened channels' blocks,
/// delays holding silence for its padding, and, for every device but the master, a ring each way
/// with room for `ring_buffers` less one blocks, empty, that has carried nothing.
pub open spec fn fresh(lane: Lane, device: DevicePlan, index: int, master: int, ring_buffers: usize, block: nat, stage_in: Seq<i32>, stage_out: Seq<i32>, delay_in: Delay, delay_out: Delay, watch: Watch) -> bool {
    let ins = device.inputs@.len();
    let outs = device.outputs@.len();
    &&& stage_in == zeros(ins * block)
    &&& stage_out == zeros(outs * block)
    &&& delay_in.spec_samples() == padding(device.pad_in)
    &&& delay_in.held() == silent(ins, padding(device.pad_in))
    &&& delay_out.spec_samples() == padding(device.pad_out)
    &&& delay_out.held() == silent(outs, padding(device.pad_out))
    &&& watch == Watch { last: 0, missed: 0, moving: 0 }
    &&& lane.callbacks == 0
    &&& !lane.stalled
    &&& !lane.mute_out
    &&& (lane.in_ring is Some <==> index != master)
    &&& (lane.out_ring is Some <==> index != master)
    &&& (lane.in_ring matches Some(r) ==> fresh_ring(r, ring_buffers))
    &&& (lane.out_ring matches Some(r) ==> fresh_ring(r, ring_buffers))
}

/// A ring nothing has gone through yet, with room for `ring_buffers` less one blocks.
pub open spec fn fresh_ring(ring: Ring, ring_buffers: usize) -> bool {
    &&& ring.capacity() == (if ring_buffers > 2 { ring_buffers as nat } else { 2 }) - 1
    &&& ring.waiting_buffers() == Seq::<Seq<i32>>::empty()
    &&& ring.spec_dropped() == 0
    &&& ring.spec_starved() == 0
    &&& ring.spec_carried() == 0
    &&& ring.spec_filling_from() == 0
}

/// Silence, `count` samples of it.
fn silent_run(count: usize) -> (run: Vec<i32>)
    ensures
        run@ == zeros(count as nat),
{
    let mut run: Vec<i32> = Vec::new();
    let mut i: usize = 0;
    while i < count
        invariant
            i <= count,
            run@ == zeros(i as nat),
        decreases count - i,
    {
        run.push(0);
        assert(run@ =~= zeros((i + 1) as nat));
        i = i + 1;
    }
    run
}

/// **Everything the audio path keeps, for a plan**, made when the buffers are made and never on a
/// callback: every device's staging runs silent, its delays holding silence for its padding, and a
/// ring each way for every device but the master.
pub fn stream_for(plan: &Plan, ring_buffers: usize) -> (made: (Vec<Lane>, Scratch))
    requires
        lays_out(plan.devices@, block_of(plan.block), ring_buffers),
    ensures
        made.0@.len() == plan.devices@.len(),
        fits(made.0@, made.1, block_of(plan.block)),
        forall|d: int|
            0 <= d < plan.devices@.len() ==> #[trigger] fresh(
                made.0@[d],
                plan.devices@[d],
                d,
                plan.master as int,
                ring_buffers,
                block_of(plan.block),
                made.1.stage_in@[d]@,
                made.1.stage_out@[d]@,
                made.1.delay_in@[d],
                made.1.delay_out@[d],
                made.1.watch@[d],
            ),
{
    let block: usize = if plan.block > 0 { plan.block as usize } else { 0 };
    let mut lanes: Vec<Lane> = Vec::new();
    let mut scratch = Scratch {
        stage_in: Vec::new(),
        stage_out: Vec::new(),
        delay_in: Vec::new(),
        delay_out: Vec::new(),
        watch: Vec::new(),
    };
    let count = plan.devices.len();
    let mut d: usize = 0;
    while d < count
        invariant
            d <= count,
            count == plan.devices@.len(),
            block == block_of(plan.block),
            lays_out(plan.devices@, block as nat, ring_buffers),
            lanes@.len() == d,
            scratch.stage_in@.len() == d,
            scratch.stage_out@.len() == d,
            scratch.delay_in@.len() == d,
            scratch.delay_out@.len() == d,
            scratch.watch@.len() == d,
            forall|e: int|
                0 <= e < d ==> #[trigger] fresh(
                    lanes@[e],
                    plan.devices@[e],
                    e,
                    plan.master as int,
                    ring_buffers,
                    block as nat,
                    scratch.stage_in@[e]@,
                    scratch.stage_out@[e]@,
                    scratch.delay_in@[e],
                    scratch.delay_out@[e],
                    scratch.watch@[e],
                ),
            forall|e: int|
                0 <= e < d ==> lane_fits(
                    #[trigger] lanes@[e],
                    scratch.stage_in@[e]@.len(),
                    scratch.stage_out@[e]@.len(),
                    scratch.delay_in@[e],
                    scratch.delay_out@[e],
                    block as nat,
                ),
        decreases count - d,
    {
        let device = &plan.devices[d];
        let ins = device.inputs.len();
        let outs = device.outputs.len();
        let pad_in: usize = if device.pad_in > 0 { device.pad_in as usize } else { 0 };
        let pad_out: usize = if device.pad_out > 0 { device.pad_out as usize } else { 0 };
        proof {
            let slots: nat = if ring_buffers > 2 { ring_buffers as nat } else { 2 };
            assert(plan.devices@[d as int] == *device);
            assert(ins * block * slots <= usize::MAX);
            assert(outs * block * slots <= usize::MAX);
            lemma_room_for_rings(ins as nat, block as nat, slots);
            lemma_room_for_rings(outs as nat, block as nat, slots);
        }
        let ins_len = ins * block;
        let outs_len = outs * block;
        let buffered = d != plan.master;
        let in_ring = if buffered { Some(Ring::new(ring_buffers, ins_len)) } else { None };
        let out_ring = if buffered { Some(Ring::new(ring_buffers, outs_len)) } else { None };
        let ghost lanes_before = lanes@;
        let ghost scratch_before = scratch;
        lanes.push(Lane { in_ring, out_ring, callbacks: 0, stalled: false, mute_out: false });
        scratch.stage_in.push(silent_run(ins_len));
        scratch.stage_out.push(silent_run(outs_len));
        scratch.delay_in.push(Delay::new(ins, pad_in));
        scratch.delay_out.push(Delay::new(outs, pad_out));
        scratch.watch.push(Watch { last: 0, missed: 0, moving: 0 });
        proof {
            assert forall|e: int| 0 <= e < d + 1 implies #[trigger] fresh(
                lanes@[e],
                plan.devices@[e],
                e,
                plan.master as int,
                ring_buffers,
                block as nat,
                scratch.stage_in@[e]@,
                scratch.stage_out@[e]@,
                scratch.delay_in@[e],
                scratch.delay_out@[e],
                scratch.watch@[e],
            ) && lane_fits(
                lanes@[e],
                scratch.stage_in@[e]@.len(),
                scratch.stage_out@[e]@.len(),
                scratch.delay_in@[e],
                scratch.delay_out@[e],
                block as nat,
            ) by {
                if e < d {
                    assert(lanes@[e] == lanes_before[e]);
                    assert(scratch.stage_in@[e] == scratch_before.stage_in@[e]);
                    assert(scratch.stage_out@[e] == scratch_before.stage_out@[e]);
                    assert(scratch.delay_in@[e] == scratch_before.delay_in@[e]);
                    assert(scratch.delay_out@[e] == scratch_before.delay_out@[e]);
                    assert(scratch.watch@[e] == scratch_before.watch@[e]);
                }
            }
        }
        d = d + 1;
    }
    (lanes, scratch)
}

/// Room for the rings means room for one block, and for the rings themselves.
proof fn lemma_room_for_rings(channels: nat, block: nat, slots: nat)
    requires
        slots >= 2,
        channels * block * slots <= usize::MAX,
    ensures
        channels * block <= usize::MAX,
        slots * (channels * block) <= usize::MAX,
{
    assert(channels * block <= channels * block * slots) by (nonlinear_arith)
        requires
            slots >= 2,
    ;
    assert(slots * (channels * block) == channels * block * slots) by (nonlinear_arith);
}

/// **Silence, never a repeat**: a follower that has stalled, or has nothing waiting, is heard as
/// silence on the master's block, whatever it handed over before.
pub proof fn law_a_missing_block_is_heard_as_silence(lane: Lane, heard: Seq<i32>, len: nat)
    requires
        lane.stalled || front(lane.in_ring) is None,
    ensures
        arrived(lane, false, heard, len) == zeros(len),
{
}

} // verus!
