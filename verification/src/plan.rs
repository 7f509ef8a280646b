//! What the devices answered plus what the configuration asked for, turned into one device.
//!
//! Nothing here knows how many devices there are or which ones they are. It takes a list of
//! descriptions in configuration order and works out the aggregate's channel list and their names,
//! the buffer sizes every device can take, the one latency figure each way, and how far each
//! device has to be held back so that the channels line up.
use vstd::prelude::*;
use crate::config::{spec_label, Alignment, Config, DeviceConfig, Labels, PhaseConfig};
use crate::names::{labelled_name, spec_labelled_name};
use crate::text::{
    append_str, appears_in, chars_of, contains, decimal, join_strings, joined, lowercase, lowered, number,
    same_chars, trim, trim_chars,
};

verus! {

/// The maker whose drivers are opened when the file names none.
pub open spec fn maker() -> Seq<char> {
    "antelope"@
}

/// Whether a text mentions the maker, whatever its case.
pub open spec fn mentions_maker(text: Seq<char>) -> bool {
    appears_in(lowered(text), maker())
}

fn says_maker(text: &str) -> (hit: bool)
    ensures
        hit == mentions_maker(text@),
{
    let chars = chars_of(text);
    let small = lowercase(&chars);
    let maker_chars = chars_of("antelope");
    contains(&small, &maker_chars)
}

/// With no configuration file, this is what the driver opens: everything on the PC that says it is
/// one of the maker's interfaces, in registry order. Matching the maker rather than a list of
/// models is what makes another of its interfaces work without a code change.
pub fn looks_like_ours(key: &str, description: Option<&str>, dll: Option<&str>) -> (ours: bool)
    ensures
        ours == (mentions_maker(key@) || (description matches Some(text) && mentions_maker(text@)) || (
        dll matches Some(text) && mentions_maker(text@))),
{
    if says_maker(key) {
        return true;
    }
    if let Some(text) = description {
        if says_maker(text) {
            return true;
        }
    }
    if let Some(text) = dll {
        if says_maker(text) {
            return true;
        }
    }
    false
}

/// The longest of a list of paths, or nothing when there are none.
pub open spec fn longest(paths: Seq<i32>) -> int
    decreases paths.len(),
{
    if paths.len() == 0 {
        0
    } else if paths.len() == 1 {
        paths[0] as int
    } else {
        let rest = longest(paths.drop_last());
        if paths.last() > rest {
            paths.last() as int
        } else {
            rest
        }
    }
}

proof fn lemma_longest_is_longest(paths: Seq<i32>)
    ensures
        forall|i: int| 0 <= i < paths.len() ==> paths[i] <= #[trigger] longest(paths),
        paths.len() > 0 ==> exists|i: int| 0 <= i < paths.len() && paths[i] == longest(paths),
        paths.len() > 0 ==> i32::MIN <= longest(paths) <= i32::MAX,
        paths.len() == 0 ==> longest(paths) == 0,
    decreases paths.len(),
{
    if paths.len() > 1 {
        lemma_longest_is_longest(paths.drop_last());
        let rest = paths.drop_last();
        assert forall|i: int| 0 <= i < paths.len() implies paths[i] <= #[trigger] longest(paths) by {
            if i < paths.len() - 1 {
                assert(paths[i] == rest[i]);
            }
        }
        if paths.last() > longest(rest) {
            assert(paths[paths.len() - 1] == longest(paths));
        } else {
            let k = choose|k: int| 0 <= k < rest.len() && rest[k] == longest(rest);
            assert(paths[k] == longest(paths));
        }
    } else if paths.len() == 1 {
        assert(paths[0] == longest(paths));
    }
}

/// Whether holding every path back to the longest fits the numbers a pad is carried in.
pub open spec fn pads_fit(paths: Seq<i32>) -> bool {
    forall|i: int| 0 <= i < paths.len() ==> longest(paths) - #[trigger] paths[i] <= i32::MAX
}

/// **Hold every device back to the longest path**, so that every channel of every device is the
/// same distance from the converter, and answer what that distance is.
///
/// `pads` is written in place and nothing is allocated.
pub fn hold_back(paths: &[i32], aligned: bool, pads: &mut [i32]) -> (distance: i32)
    requires
        aligned ==> pads_fit(paths@),
    ensures
        distance == longest(paths@),
        final(pads)@.len() == old(pads)@.len(),
        forall|i: int|
            0 <= i < old(pads)@.len() ==> #[trigger] final(pads)@[i] == if i < paths@.len() {
                if aligned {
                    longest(paths@) - paths@[i]
                } else {
                    0
                }
            } else {
                old(pads)@[i] as int
            },
        forall|i: int| 0 <= i < paths@.len() ==> paths@[i] <= distance,
{
    proof {
        lemma_longest_is_longest(paths@);
    }
    let mut most: i32 = 0;
    let mut i: usize = 0;
    while i < paths.len()
        invariant
            i <= paths@.len(),
            most == longest(paths@.subrange(0, i as int)),
        decreases paths@.len() - i,
    {
        proof {
            assert(paths@.subrange(0, i + 1).drop_last() =~= paths@.subrange(0, i as int));
            lemma_longest_is_longest(paths@.subrange(0, i as int));
        }
        if i == 0 || paths[i] > most {
            most = paths[i];
        }
        i = i + 1;
    }
    assert(paths@.subrange(0, paths@.len() as int) =~= paths@);
    let mut k: usize = 0;
    while k < pads.len()
        invariant
            k <= pads@.len(),
            pads@.len() == old(pads)@.len(),
            most == longest(paths@),
            aligned ==> pads_fit(paths@),
            forall|j: int| 0 <= j < paths@.len() ==> paths@[j] <= most,
            forall|j: int|
                0 <= j < pads@.len() ==> #[trigger] pads@[j] == if j < k {
                    if j < paths@.len() {
                        if aligned {
                            longest(paths@) - paths@[j]
                        } else {
                            0
                        }
                    } else {
                        old(pads)@[j] as int
                    }
                } else {
                    old(pads)@[j] as int
                },
        decreases pads@.len() - k,
    {
        if k < paths.len() {
            let here = paths[k];
            pads[k] = if aligned { most - here } else { 0 };
        }
        k = k + 1;
    }
    most
}

/// A list with each run of one value kept as one, as `Vec::dedup` leaves it.
pub open spec fn runs_kept_once(s: Seq<i32>) -> Seq<i32>
    decreases s.len(),
{
    if s.len() == 0 {
        s
    } else if s.len() >= 2 && s[s.len() - 1] == s[s.len() - 2] {
        runs_kept_once(s.drop_last())
    } else {
        runs_kept_once(s.drop_last()).push(s.last())
    }
}

/// The channels of a list that a device with `available` of them has.
pub open spec fn present(s: Seq<i32>, available: i32) -> Seq<i32>
    decreases s.len(),
{
    if s.len() == 0 {
        s
    } else if 0 <= s.last() < available {
        present(s.drop_last(), available).push(s.last())
    } else {
        present(s.drop_last(), available)
    }
}

/// The channels of a device that are actually exposed: what was asked for, with anything the
/// device does not have dropped, or all of them when nothing was asked for.
pub open spec fn spec_selected(wanted: Option<Seq<i32>>, available: i32) -> Seq<i32> {
    match wanted {
        Some(list) => runs_kept_once(present(list, available)),
        None => Seq::new(if available > 0 { available as nat } else { 0 }, |i: int| i as i32),
    }
}

proof fn lemma_runs_kept_once_last(s: Seq<i32>)
    ensures
        s.len() > 0 <==> runs_kept_once(s).len() > 0,
        s.len() > 0 ==> runs_kept_once(s).last() == s.last(),
    decreases s.len(),
{
    if s.len() > 0 {
        lemma_runs_kept_once_last(s.drop_last());
    }
}

/// The channels of a device that are actually exposed.
pub fn selected(wanted: &Option<Vec<i32>>, available: i32) -> (chosen: Vec<i32>)
    ensures
        chosen@ == spec_selected(match wanted {
            Some(list) => Some(list@),
            None => None,
        }, available),
{
    match wanted {
        Some(list) => {
            let mut chosen: Vec<i32> = Vec::new();
            let ghost mut kept: Seq<i32> = Seq::empty();
            let mut i: usize = 0;
            while i < list.len()
                invariant
                    i <= list@.len(),
                    kept == present(list@.subrange(0, i as int), available),
                    chosen@ == runs_kept_once(kept),
                decreases list@.len() - i,
            {
                let c = list[i];
                proof {
                    assert(list@.subrange(0, i + 1).drop_last() =~= list@.subrange(0, i as int));
                    lemma_runs_kept_once_last(kept);
                }
                if 0 <= c && c < available {
                    let fresh = chosen.len() == 0 || chosen[chosen.len() - 1] != c;
                    proof {
                        let next = kept.push(c);
                        assert(next.drop_last() =~= kept);
                        if kept.len() > 0 {
                            assert(next[next.len() - 2] == kept.last());
                        }
                    }
                    if fresh {
                        chosen.push(c);
                    }
                    proof {
                        kept = kept.push(c);
                    }
                }
                i = i + 1;
            }
            assert(list@.subrange(0, list@.len() as int) =~= list@);
            chosen
        },
        None => {
            let mut chosen: Vec<i32> = Vec::new();
            let mut c: i32 = 0;
            while c < available
                invariant
                    0 <= c,
                    c <= (if available > 0 { available } else { 0 }),
                    chosen@.len() == c,
                    forall|k: int| 0 <= k < c ==> chosen@[k] == k as i32,
                decreases available - c,
            {
                chosen.push(c);
                c = c + 1;
            }
            let ghost expected = Seq::new(if available > 0 { available as nat } else { 0 }, |i: int| i as i32);
            assert(chosen@.len() == expected.len());
            assert forall|k: int| 0 <= k < chosen@.len() implies chosen@[k] == expected[k] by {}
            assert(chosen@ =~= expected);
            chosen
        },
    }
}

/// The first place a value sits in a list.
pub open spec fn first_at<T>(s: Seq<T>, x: T) -> int {
    choose|i: int| 0 <= i < s.len() && s[i] == x && forall|j: int| 0 <= j < i ==> s[j] != x
}

/// The first place is the one place with nothing equal before it.
pub proof fn lemma_first_at<T>(s: Seq<T>, x: T, i: int)
    requires
        0 <= i < s.len(),
        s[i] == x,
        forall|j: int| 0 <= j < i ==> s[j] != x,
    ensures
        first_at(s, x) == i,
{
    let f = first_at(s, x);
    assert(0 <= f < s.len() && s[f] == x && forall|j: int| 0 <= j < f ==> s[j] != x);
    if f < i {
        assert(s[f] != x);
    } else if f > i {
        assert(s[i] != x);
    }
}

/// Where a channel sits in a list of opened ones, opening it when it is not there yet: the list it
/// leaves, and the place.
pub open spec fn spec_place(channels: Seq<i32>, channel: i32) -> (Seq<i32>, int) {
    if channels.contains(channel) {
        (channels, first_at(channels, channel))
    } else {
        (channels.push(channel), channels.len() as int)
    }
}

/// Where a channel sits among the ones a device has opened, opening it if it is not there yet.
/// The measurement needs its channel whether or not the file asked for it to be exposed.
pub fn place(channels: &mut Vec<i32>, channel: i32) -> (at: usize)
    ensures
        (final(channels)@, at as int) == spec_place(old(channels)@, channel),
{
    let mut i: usize = 0;
    while i < channels.len()
        invariant
            i <= channels@.len(),
            channels@ == old(channels)@,
            forall|k: int| 0 <= k < i ==> channels@[k] != channel,
        decreases channels@.len() - i,
    {
        if channels[i] == channel {
            proof {
                assert(channels@.contains(channel));
                lemma_first_at(channels@, channel, i as int);
            }
            return i;
        }
        i = i + 1;
    }
    proof {
        assert(!channels@.contains(channel));
    }
    channels.push(channel);
    channels.len() - 1
}

/// Everything the aggregate reads out of a sub-device after it has started it, less the rate it
/// runs at, which is a number of samples a second and is dealt with where the devices are opened.
#[derive(Clone, Debug, PartialEq)]
pub struct Description {
    /// What the driver calls itself.
    pub name: String,
    pub version: i32,
    pub inputs: i32,
    pub outputs: i32,
    pub min: i32,
    pub max: i32,
    pub preferred: i32,
    pub granularity: i32,
    pub latency_in: i32,
    pub latency_out: i32,
    /// The sample type of its input and output channels.
    pub input_type: i32,
    pub output_type: i32,
    /// Whether it takes `outputReady`.
    pub output_ready: bool,
}

/// What the stream interface says of one sample type: whether the copy path converts it, how many
/// bytes a sample of it takes, and what it is called.
#[derive(Clone, Debug, PartialEq)]
pub struct SampleKind {
    pub convertible: bool,
    pub width: Option<usize>,
    pub name: String,
}

/// One device's description with the configuration that found it.
#[derive(Clone, Debug)]
pub struct Found {
    /// What to call it, already settled: the configured name or the registry key.
    pub name: String,
    pub description: Description,
    /// What the stream interface says of its input and its output sample types.
    pub input_sample: SampleKind,
    pub output_sample: SampleKind,
    pub wanted_inputs: Option<Vec<i32>>,
    pub wanted_outputs: Option<Vec<i32>>,
    /// Samples to add to what this device's driver says its input latency is, from the file.
    pub input_trim: i32,
    /// The same for its outputs.
    pub output_trim: i32,
    /// What the person calls this device's inputs, by the device's own channel numbering.
    pub input_labels: Labels,
    /// The same for its outputs.
    pub output_labels: Labels,
    /// Where the cable that this device's phase is measured over runs, from the file.
    pub phase: Option<PhaseConfig>,
}

/// How one device's phase is measured, once the channels the file named have been found among the
/// ones actually opened.
///
/// **Both channels are the driver's, not the DAW's.** They are opened at the devices, because the
/// measurement needs them, and they are kept out of the channel list the DAW is given, so nothing a
/// DAW plays can land on the measurement channel and the measurement can never be heard.
#[derive(Clone, Copy, Debug, PartialEq, Eq, Structural)]
pub struct PhasePlan {
    /// The master's own output channel number the cable leaves from.
    pub master_output: i32,
    /// This device's own input channel number the cable arrives on.
    pub input: i32,
    /// Where that output sits among the master's opened outputs.
    pub master_slot: usize,
    /// Where that input sits among this device's opened inputs.
    pub input_slot: usize,
}

/// One device, as the aggregate will use it.
#[derive(Clone, Debug, PartialEq)]
pub struct DevicePlan {
    /// What its channels are called, from the configuration or from its registry key.
    pub name: String,
    /// What the driver called itself.
    pub driver_name: String,
    /// The device's own input channel numbers, in the order they are exposed.
    pub inputs: Vec<i32>,
    pub outputs: Vec<i32>,
    pub input_type: i32,
    pub output_type: i32,
    pub input_width: usize,
    pub output_width: usize,
    pub latency_in: i32,
    pub latency_out: i32,
    /// Samples this device's inputs are held back by so that every device lines up.
    pub pad_in: i32,
    /// Samples this device's outputs are held back by.
    pub pad_out: i32,
    /// Whether this device's audio crosses a ring buffer, which is true of all but the master.
    pub buffered: bool,
    /// How this device's capture phase is measured, when the file says.
    pub phase: Option<PhasePlan>,
    /// Slots of [`DevicePlan::inputs`] the driver opened for itself: the DAW is never given them.
    pub reserved_inputs: Vec<usize>,
    /// The same for [`DevicePlan::outputs`].
    pub reserved_outputs: Vec<usize>,
}

/// One device of a plan, as the contracts speak of it.
pub struct DeviceView {
    pub name: Seq<char>,
    pub driver_name: Seq<char>,
    pub inputs: Seq<i32>,
    pub outputs: Seq<i32>,
    pub input_type: i32,
    pub output_type: i32,
    pub input_width: usize,
    pub output_width: usize,
    pub latency_in: i32,
    pub latency_out: i32,
    pub pad_in: i32,
    pub pad_out: i32,
    pub buffered: bool,
    pub phase: Option<PhasePlan>,
    pub reserved_inputs: Seq<usize>,
    pub reserved_outputs: Seq<usize>,
}

impl View for DevicePlan {
    type V = DeviceView;

    open spec fn view(&self) -> DeviceView {
        DeviceView {
            name: self.name@,
            driver_name: self.driver_name@,
            inputs: self.inputs@,
            outputs: self.outputs@,
            input_type: self.input_type,
            output_type: self.output_type,
            input_width: self.input_width,
            output_width: self.output_width,
            latency_in: self.latency_in,
            latency_out: self.latency_out,
            pad_in: self.pad_in,
            pad_out: self.pad_out,
            buffered: self.buffered,
            phase: self.phase,
            reserved_inputs: self.reserved_inputs@,
            reserved_outputs: self.reserved_outputs@,
        }
    }
}

/// One channel of the aggregate: which device it is on, and which of that device's exposed
/// channels it is.
#[derive(Clone, Copy, Debug, PartialEq, Eq, Structural)]
pub struct ChannelRef {
    pub device: usize,
    pub slot: usize,
}

/// The whole aggregate, worked out.
#[derive(Clone, Debug, PartialEq)]
pub struct Plan {
    pub devices: Vec<DevicePlan>,
    pub master: usize,
    pub alignment: Alignment,
    pub inputs: Vec<ChannelRef>,
    pub outputs: Vec<ChannelRef>,
    pub input_names: Vec<String>,
    pub output_names: Vec<String>,
    /// The buffer sizes the aggregate offers, which is what every device can take.
    pub min: i32,
    pub max: i32,
    pub preferred: i32,
    pub granularity: i32,
    /// The block the plan's latencies were worked out for.
    pub block: i32,
    pub input_latency: i32,
    pub output_latency: i32,
}

/// The whole aggregate, as the contracts speak of it.
pub struct PlanView {
    pub devices: Seq<DeviceView>,
    pub master: usize,
    pub alignment: Alignment,
    pub inputs: Seq<ChannelRef>,
    pub outputs: Seq<ChannelRef>,
    pub input_names: Seq<Seq<char>>,
    pub output_names: Seq<Seq<char>>,
    pub min: i32,
    pub max: i32,
    pub preferred: i32,
    pub granularity: i32,
    pub block: i32,
    pub input_latency: i32,
    pub output_latency: i32,
}

impl View for Plan {
    type V = PlanView;

    open spec fn view(&self) -> PlanView {
        PlanView {
            devices: self.devices@.map_values(|device: DevicePlan| device@),
            master: self.master,
            alignment: self.alignment,
            inputs: self.inputs@,
            outputs: self.outputs@,
            input_names: self.input_names@.map_values(|name: String| name@),
            output_names: self.output_names@.map_values(|name: String| name@),
            min: self.min,
            max: self.max,
            preferred: self.preferred,
            granularity: self.granularity,
            block: self.block,
            input_latency: self.input_latency,
            output_latency: self.output_latency,
        }
    }
}

/// How a stage of working a plan out comes out: a value, the sentence that refuses the devices,
/// or an input the calculation is not defined on at all.
pub enum Worked<T> {
    Undefined,
    Refused(Seq<char>),
    Done(T),
}

/// The smallest of a list, or nothing when there are none.
pub open spec fn smallest(values: Seq<i32>) -> int
    decreases values.len(),
{
    if values.len() == 0 {
        0
    } else if values.len() == 1 {
        values[0] as int
    } else {
        let rest = smallest(values.drop_last());
        if values.last() < rest {
            values.last() as int
        } else {
            rest
        }
    }
}

proof fn lemma_smallest_is_smallest(values: Seq<i32>)
    ensures
        forall|i: int| 0 <= i < values.len() ==> smallest(values) <= #[trigger] values[i],
        values.len() > 0 ==> exists|i: int| 0 <= i < values.len() && values[i] == smallest(values),
        values.len() > 0 ==> i32::MIN <= smallest(values) <= i32::MAX,
    decreases values.len(),
{
    if values.len() > 1 {
        lemma_smallest_is_smallest(values.drop_last());
        let rest = values.drop_last();
        assert forall|i: int| 0 <= i < values.len() implies smallest(values) <= #[trigger] values[i] by {
            if i < values.len() - 1 {
                assert(values[i] == rest[i]);
            }
        }
        if values.last() < smallest(rest) {
            assert(values[values.len() - 1] == smallest(values));
        } else {
            let k = choose|k: int| 0 <= k < rest.len() && rest[k] == smallest(rest);
            assert(values[k] == smallest(values));
        }
    } else if values.len() == 1 {
        assert(values[0] == smallest(values));
    }
}

/// The sentence for nothing to aggregate at all.
pub open spec fn nothing_found() -> Seq<char> {
    "no devices to aggregate: nothing in the configuration matched a driver on this PC"@
}

/// The first device, looking no further than `upto`, one of whose sample types the copy path does
/// not convert, and the sentence that says so: its inputs are looked at before its outputs.
pub open spec fn unconvertible_upto(found: Seq<Found>, upto: int) -> Option<Seq<char>>
    decreases upto,
{
    if upto <= 0 {
        None
    } else {
        match unconvertible_upto(found, upto - 1) {
            Some(why) => Some(why),
            None => {
                let device = found[upto - 1];
                if !device.input_sample.convertible {
                    Some(
                        device.name@ + "'s inputs are "@ + device.input_sample.name@
                            + ", which this driver will not convert"@,
                    )
                } else if !device.output_sample.convertible {
                    Some(
                        device.name@ + "'s outputs are "@ + device.output_sample.name@
                            + ", which this driver will not convert"@,
                    )
                } else {
                    None
                }
            },
        }
    }
}

/// The buffer sizes each device takes at the least, at the most, by preference, and the steps
/// between them.
pub open spec fn mins(found: Seq<Found>) -> Seq<i32> {
    found.map_values(|device: Found| device.description.min)
}

pub open spec fn maxes(found: Seq<Found>) -> Seq<i32> {
    found.map_values(|device: Found| device.description.max)
}

pub open spec fn preferreds(found: Seq<Found>) -> Seq<i32> {
    found.map_values(|device: Found| device.description.preferred)
}

pub open spec fn granularities(found: Seq<Found>) -> Seq<i32> {
    found.map_values(|device: Found| device.description.granularity)
}

/// The buffer sizes every device can take, and the steps between them: every device that says
/// it takes only powers of two keeps that, and otherwise the coarsest step any of them asks for.
pub open spec fn spec_granularity(found: Seq<Found>) -> int {
    if forall|i: int| 0 <= i < found.len() ==> #[trigger] found[i].description.granularity == -1 {
        -1
    } else {
        longest(granularities(found))
    }
}

/// The sentence for devices that share no buffer size.
pub open spec fn no_shared_size(min: int, max: int) -> Seq<char> {
    "these devices share no buffer size: the smallest any of them will take is "@ + decimal(min)
        + " and the largest is "@ + decimal(max)
}

/// A number held between two others, as `clamp` holds it.
pub open spec fn held(value: int, low: int, high: int) -> int {
    if value < low {
        low
    } else if value > high {
        high
    } else {
        value
    }
}

/// The larger of two numbers.
pub open spec fn larger(a: int, b: int) -> int {
    if a >= b {
        a
    } else {
        b
    }
}

/// Whether a device is the one the file names as the master: its name or its driver's name, whole
/// and whatever the case, or any part of its name.
pub open spec fn names_the_master(device: Found, wanted: Seq<char>) -> bool {
    ||| lowered(device.name@) == wanted
    ||| lowered(device.description.name@) == wanted
    ||| appears_in(lowered(device.name@), wanted)
}

/// The first device, looking no further than `upto`, that the file names as the master.
pub open spec fn master_upto(found: Seq<Found>, wanted: Seq<char>, upto: int) -> Option<int>
    decreases upto,
{
    if upto <= 0 {
        None
    } else {
        match master_upto(found, wanted, upto - 1) {
            Some(at) => Some(at),
            None => if names_the_master(found[upto - 1], wanted) {
                Some(upto - 1)
            } else {
                None
            },
        }
    }
}

/// Which device drives the callback: the one the configuration names, or the first; or the
/// sentence that says the one it names is not there.
pub open spec fn spec_master_of(found: Seq<Found>, asked: Option<String>) -> Result<usize, Seq<char>> {
    match asked {
        None => Ok(0),
        Some(name) => {
            let wanted = lowered(trim(name@));
            match master_upto(found, wanted, found.len() as int) {
                Some(at) => Ok(at as usize),
                None => Err(
                    "callback_master is \""@ + trim(name@) + "\", which is none of the devices: "@ + joined(
                        found.map_values(|device: Found| device.name@),
                        ", "@,
                    ),
                ),
            }
        },
    }
}

/// The first device named as the master, looking no further than `upto`, is where
/// [`master_upto`] stops; with none, it finds none.
proof fn lemma_master_upto(found: Seq<Found>, wanted: Seq<char>, upto: int)
    requires
        0 <= upto <= found.len(),
    ensures
        match master_upto(found, wanted, upto) {
            Some(at) => 0 <= at < upto && names_the_master(found[at], wanted) && forall|k: int|
                0 <= k < at ==> !names_the_master(#[trigger] found[k], wanted),
            None => forall|k: int| 0 <= k < upto ==> !names_the_master(#[trigger] found[k], wanted),
        },
    decreases upto,
{
    if upto > 0 {
        lemma_master_upto(found, wanted, upto - 1);
    }
}

/// Whether device `device` is one a file naming `asked` as the master means: its own name or its
/// driver's name, whatever the case, or a name that holds the word asked for, with the space
/// around it taken off.
pub open spec fn is_named_master(device: Found, asked: Seq<char>) -> bool {
    let wanted = lowered(trim(asked));
    ||| lowered(device.name@) == wanted
    ||| lowered(device.description.name@) == wanted
    ||| exists|at: int| 0 <= at && at + wanted.len() <= device.name@.len() && #[trigger] lowered(device.name@).subrange(
        at,
        at + wanted.len(),
    ) == wanted
}

/// **The master is the first device the file names, by its name or its driver's.** With no master
/// in the file it is the first device. With one, a device whose name, or whose driver's own name,
/// is the one the file gives, whatever the case, or whose name holds it, drives the callback, and
/// the first such device is the one; when no device is named, that is the refusal.
pub proof fn law_the_master_is_the_first_device_named(found: Seq<Found>, asked: String)
    requires
        found.len() <= usize::MAX,
    ensures
        spec_master_of(found, None) == Ok::<usize, Seq<char>>(0),
        forall|i: int|
            0 <= i < found.len() && #[trigger] is_named_master(found[i], asked@) ==> (spec_master_of(
                found,
                Some(asked),
            ) matches Ok(at) && at <= i),
        spec_master_of(found, Some(asked)) matches Ok(at) ==> at < found.len() && is_named_master(found[at as int], asked@)
            && forall|k: int| 0 <= k < at ==> !is_named_master(#[trigger] found[k], asked@),
        spec_master_of(found, Some(asked)) is Err <==> forall|k: int|
            0 <= k < found.len() ==> !is_named_master(#[trigger] found[k], asked@),
{
    let wanted = lowered(trim(asked@));
    lemma_master_upto(found, wanted, found.len() as int);
    assert forall|k: int| 0 <= k < found.len() implies #[trigger] is_named_master(found[k], asked@)
        == names_the_master(found[k], wanted) by {
        if appears_in(lowered(found[k].name@), wanted) {
            let at = choose|at: int|
                0 <= at && at + wanted.len() <= lowered(found[k].name@).len() && #[trigger] lowered(
                    found[k].name@,
                ).subrange(at, at + wanted.len()) == wanted;
            assert(lowered(found[k].name@).subrange(at, at + wanted.len()) == wanted);
        }
        if exists|at: int| 0 <= at && at + wanted.len() <= found[k].name@.len() && #[trigger] lowered(
            found[k].name@,
        ).subrange(at, at + wanted.len()) == wanted {
            let at = choose|at: int|
                0 <= at && at + wanted.len() <= found[k].name@.len() && #[trigger] lowered(found[k].name@).subrange(
                    at,
                    at + wanted.len(),
                ) == wanted;
            assert(lowered(found[k].name@).subrange(at, at + wanted.len()) == wanted);
        }
    }
}

proof fn lemma_master_stays(found: Seq<Found>, wanted: Seq<char>, from: int, to: int)
    requires
        0 <= from <= to,
        master_upto(found, wanted, from).is_some(),
    ensures
        master_upto(found, wanted, to) == master_upto(found, wanted, from),
    decreases to - from,
{
    if to > from {
        lemma_master_stays(found, wanted, from, to - 1);
    }
}

proof fn lemma_master_below(found: Seq<Found>, wanted: Seq<char>, upto: int)
    requires
        0 <= upto,
    ensures
        match master_upto(found, wanted, upto) {
            Some(at) => 0 <= at < upto,
            None => true,
        },
    decreases upto,
{
    if upto > 0 {
        lemma_master_below(found, wanted, upto - 1);
    }
}

/// Which device drives the callback: the one the configuration names, or the first.
pub fn master_of(found: &[Found], config: &Config) -> (master: Result<usize, String>)
    ensures
        match master {
            Ok(at) => spec_master_of(found@, config.callback_master) == Ok::<usize, Seq<char>>(at) && (found@.len()
                > 0 ==> at < found@.len()),
            Err(why) => spec_master_of(found@, config.callback_master) == Err::<usize, Seq<char>>(why@),
        },
{
    proof {
        reveal_strlit("callback_master is \"");
        reveal_strlit("\", which is none of the devices: ");
        reveal_strlit(", ");
    }
    let asked = match &config.callback_master {
        Some(asked) => asked,
        None => return Ok(0),
    };
    let asked_chars = chars_of(asked.as_str());
    let trimmed = trim_chars(&asked_chars);
    let wanted = lowercase(&trimmed);
    let mut i: usize = 0;
    while i < found.len()
        invariant
            i <= found@.len(),
            config.callback_master == Some(*asked),
            wanted@ == lowered(trim(asked@)),
            master_upto(found@, wanted@, i as int).is_none(),
        decreases found@.len() - i,
    {
        let name_chars = chars_of(found[i].name.as_str());
        let name = lowercase(&name_chars);
        let driver_chars = chars_of(found[i].description.name.as_str());
        let driver = lowercase(&driver_chars);
        if same_chars(&name, &wanted) || same_chars(&driver, &wanted) || contains(&name, &wanted) {
            proof {
                lemma_master_stays(found@, wanted@, i + 1, found@.len() as int);
            }
            return Ok(i);
        }
        i = i + 1;
    }
    let mut names: Vec<String> = Vec::new();
    let mut k: usize = 0;
    while k < found.len()
        invariant
            k <= found@.len(),
            names@.len() == k,
            names@.map_values(|name: String| name@) == found@.map_values(|device: Found| device.name@).take(k as int),
        decreases found@.len() - k,
    {
        proof {
            let grown = names@.push(found@[k as int].name).map_values(|name: String| name@);
            let wanted_names = found@.map_values(|device: Found| device.name@).take(k + 1);
            assert forall|j: int| 0 <= j < k + 1 implies grown[j] == wanted_names[j] by {
                if j < k {
                    assert(grown[j] == names@[j]@);
                    assert(names@.map_values(|name: String| name@)[j] == names@[j]@);
                    assert(wanted_names[j] == found@.map_values(|device: Found| device.name@).take(k as int)[j]);
                }
            }
            assert(grown =~= wanted_names);
        }
        names.push(found[k].name.clone());
        k = k + 1;
    }
    assert(found@.map_values(|device: Found| device.name@).take(found@.len() as int) =~= found@.map_values(
        |device: Found| device.name@,
    ));
    let mut why = String::from_str("callback_master is \"");
    let shown = crate::text::string_of(&trimmed);
    append_str(&mut why, shown.as_str());
    append_str(&mut why, "\", which is none of the devices: ");
    let listed = join_strings(names.as_slice(), ", ");
    append_str(&mut why, listed.as_str());
    Err(why)
}

/// The channels a wanted list asks for, as the contracts speak of them.
pub open spec fn wanted_view(wanted: Option<Vec<i32>>) -> Option<Seq<i32>> {
    match wanted {
        Some(list) => Some(list@),
        None => None,
    }
}

/// How many bytes a sample of a kind takes, or four when the stream interface does not say.
pub open spec fn width_of(kind: SampleKind) -> usize {
    match kind.width {
        Some(width) => width,
        None => 4,
    }
}

/// Whether a device's latencies can carry the trims the file adds to them.
pub open spec fn trims_fit(device: Found) -> bool {
    &&& i32::MIN <= device.description.latency_in + device.input_trim <= i32::MAX
    &&& i32::MIN <= device.description.latency_out + device.output_trim <= i32::MAX
}

/// One device as the aggregate first lays it out: the channels it exposes, its latencies with the
/// file's trims added, and nothing held back or kept for a measurement yet.
pub open spec fn spec_initial_device(device: Found, index: int, master: int) -> DeviceView {
    DeviceView {
        name: device.name@,
        driver_name: device.description.name@,
        inputs: spec_selected(wanted_view(device.wanted_inputs), device.description.inputs),
        outputs: spec_selected(wanted_view(device.wanted_outputs), device.description.outputs),
        input_type: device.description.input_type,
        output_type: device.description.output_type,
        input_width: width_of(device.input_sample),
        output_width: width_of(device.output_sample),
        latency_in: (device.description.latency_in + device.input_trim) as i32,
        latency_out: (device.description.latency_out + device.output_trim) as i32,
        pad_in: 0,
        pad_out: 0,
        buffered: index != master,
        phase: None,
        reserved_inputs: Seq::empty(),
        reserved_outputs: Seq::empty(),
    }
}

/// Every device as the aggregate first lays it out.
pub open spec fn spec_initial_devices(found: Seq<Found>, master: int) -> Seq<DeviceView> {
    Seq::new(found.len(), |i: int| spec_initial_device(found[i], i, master))
}

/// The plans' views, in order.
pub open spec fn views_of(devices: Seq<DevicePlan>) -> Seq<DeviceView> {
    devices.map_values(|device: DevicePlan| device@)
}

proof fn lemma_views_push(devices: Seq<DevicePlan>, plan: DevicePlan)
    ensures
        views_of(devices.push(plan)) == views_of(devices).push(plan@),
{
    assert(views_of(devices.push(plan)) =~= views_of(devices).push(plan@));
}

fn width_or_four(kind: &SampleKind) -> (width: usize)
    ensures
        width == width_of(*kind),
{
    match kind.width {
        Some(width) => width,
        None => 4,
    }
}

fn cloned_wanted(wanted: &Option<Vec<i32>>) -> (copy: Option<Vec<i32>>)
    ensures
        wanted_view(copy) == wanted_view(*wanted),
{
    match wanted {
        Some(list) => {
            let mut copy: Vec<i32> = Vec::new();
            let mut i: usize = 0;
            while i < list.len()
                invariant
                    i <= list@.len(),
                    copy@ == list@.take(i as int),
                decreases list@.len() - i,
            {
                copy.push(list[i]);
                proof {
                    assert(copy@ =~= list@.take(i + 1));
                }
                i = i + 1;
            }
            assert(list@.take(list@.len() as int) =~= list@);
            Some(copy)
        },
        None => None,
    }
}

/// Every device as the aggregate first lays it out.
fn initial_devices(found: &[Found], master: usize) -> (devices: Vec<DevicePlan>)
    requires
        forall|i: int| 0 <= i < found@.len() ==> trims_fit(#[trigger] found@[i]),
    ensures
        views_of(devices@) == spec_initial_devices(found@, master as int),
{
    let mut devices: Vec<DevicePlan> = Vec::new();
    let mut index: usize = 0;
    while index < found.len()
        invariant
            index <= found@.len(),
            forall|i: int| 0 <= i < found@.len() ==> trims_fit(#[trigger] found@[i]),
            views_of(devices@) == spec_initial_devices(found@, master as int).take(index as int),
        decreases found@.len() - index,
    {
        let device = &found[index];
        proof {
            assert(trims_fit(found@[index as int]));
        }
        let wanted_inputs = cloned_wanted(&device.wanted_inputs);
        let wanted_outputs = cloned_wanted(&device.wanted_outputs);
        let inputs = selected(&wanted_inputs, device.description.inputs);
        let outputs = selected(&wanted_outputs, device.description.outputs);
        let plan = DevicePlan {
            name: device.name.clone(),
            driver_name: device.description.name.clone(),
            inputs,
            outputs,
            input_type: device.description.input_type,
            output_type: device.description.output_type,
            input_width: width_or_four(&device.input_sample),
            output_width: width_or_four(&device.output_sample),
            latency_in: device.description.latency_in + device.input_trim,
            latency_out: device.description.latency_out + device.output_trim,
            pad_in: 0,
            pad_out: 0,
            buffered: index != master,
            phase: None,
            reserved_inputs: Vec::new(),
            reserved_outputs: Vec::new(),
        };
        proof {
            assert(plan@ == spec_initial_device(found@[index as int], index as int, master as int));
            lemma_views_push(devices@, plan);
            assert(spec_initial_devices(found@, master as int).take(index as int).push(plan@) =~= spec_initial_devices(found@, master as int).take(index + 1));
        }
        devices.push(plan);
        index = index + 1;
    }
    assert(spec_initial_devices(found@, master as int).take(found@.len() as int) =~= spec_initial_devices(
        found@,
        master as int,
    ));
    devices
}

/// A slot kept for the driver, kept once.
pub open spec fn reserve(list: Seq<usize>, slot: usize) -> Seq<usize> {
    if list.contains(slot) {
        list
    } else {
        list.push(slot)
    }
}

/// The sentence for a phase measured against the master itself.
pub open spec fn against_itself(name: Seq<char>) -> Seq<char> {
    name
        + " drives the callback, and a phase is measured against the device that drives the callback, so it cannot be measured against itself"@
}

/// The sentence for a phase measured over an output the master has not got.
pub open spec fn no_such_master_output(name: Seq<char>, master_name: Seq<char>, output: i32, outputs: i32) -> Seq<char> {
    name + "'s phase is measured over "@ + master_name + "'s output "@ + decimal(output as int) + ", and "@
        + master_name + " has "@ + decimal(outputs as int) + " outputs, numbered from zero"@
}

/// The sentence for a phase measured on an input the device has not got.
pub open spec fn no_such_input(name: Seq<char>, input: i32, inputs: i32) -> Seq<char> {
    name + "'s phase is measured on its own input "@ + decimal(input as int) + ", and it has "@ + decimal(
        inputs as int,
    ) + " inputs, numbered from zero"@
}

/// What one device's phase setting does to the layout: nothing when it has none; the master's
/// output and the device's input opened and kept for the driver when it has one; or the sentence
/// that refuses it.
#[verifier::opaque]
pub open spec fn phase_step(found: Seq<Found>, master: int, devices: Seq<DeviceView>, index: int) -> Worked<
    Seq<DeviceView>,
> {
    let device = found[index];
    match device.phase {
        Some(phase) => match (phase.master_output, phase.input) {
            (Some(output), Some(input)) => if index == master {
                Worked::Refused(against_itself(device.name@))
            } else if output >= found[master].description.outputs {
                Worked::Refused(
                    no_such_master_output(
                        device.name@,
                        found[master].name@,
                        output,
                        found[master].description.outputs,
                    ),
                )
            } else if input >= device.description.inputs {
                Worked::Refused(no_such_input(device.name@, input, device.description.inputs))
            } else {
                let was = devices[master];
                let (outputs, master_slot) = spec_place(was.outputs, output);
                let master_now = DeviceView {
                    outputs,
                    reserved_outputs: reserve(was.reserved_outputs, master_slot as usize),
                    ..was
                };
                let between = devices.update(master, master_now);
                let had = between[index];
                let (inputs, input_slot) = spec_place(had.inputs, input);
                let device_now = DeviceView {
                    inputs,
                    reserved_inputs: reserve(had.reserved_inputs, input_slot as usize),
                    phase: Some(
                        PhasePlan {
                            master_output: output,
                            input,
                            master_slot: master_slot as usize,
                            input_slot: input_slot as usize,
                        },
                    ),
                    ..had
                };
                Worked::Done(between.update(index, device_now))
            },
            _ => Worked::Done(devices),
        },
        None => Worked::Done(devices),
    }
}

/// The phase settings of the first `upto` devices, one after another, or the first that refuses.
pub open spec fn phases_upto(found: Seq<Found>, master: int, devices: Seq<DeviceView>, upto: int) -> Worked<
    Seq<DeviceView>,
>
    decreases upto,
{
    if upto <= 0 {
        Worked::Done(devices)
    } else {
        match phases_upto(found, master, devices, upto - 1) {
            Worked::Done(laid) => phase_step(found, master, laid, upto - 1),
            other => other,
        }
    }
}

proof fn lemma_views_replace(devices: Seq<DevicePlan>, at: int, plan: DevicePlan)
    requires
        0 <= at < devices.len(),
    ensures
        views_of(devices.remove(at).insert(at, plan)) == views_of(devices).update(at, plan@),
{
    assert(views_of(devices.remove(at).insert(at, plan)) =~= views_of(devices).update(at, plan@));
}

fn reserve_slot(list: &mut Vec<usize>, slot: usize)
    ensures
        final(list)@ == reserve(old(list)@, slot),
{
    let mut i: usize = 0;
    while i < list.len()
        invariant
            i <= list@.len(),
            list@ == old(list)@,
            forall|k: int| 0 <= k < i ==> list@[k] != slot,
        decreases list@.len() - i,
    {
        if list[i] == slot {
            assert(list@.contains(slot));
            return;
        }
        i = i + 1;
    }
    assert(!list@.contains(slot));
    list.push(slot);
}

fn against_itself_of(name: &str) -> (why: String)
    ensures
        why@ == against_itself(name@),
{
    proof {
        reveal_strlit(
            " drives the callback, and a phase is measured against the device that drives the callback, so it cannot be measured against itself",
        );
    }
    let mut why = String::from_str(name);
    append_str(
        &mut why,
        " drives the callback, and a phase is measured against the device that drives the callback, so it cannot be measured against itself",
    );
    why
}

fn no_such_master_output_of(name: &str, master_name: &str, output: i32, outputs: i32) -> (why: String)
    ensures
        why@ == no_such_master_output(name@, master_name@, output, outputs),
{
    proof {
        reveal_strlit("'s phase is measured over ");
        reveal_strlit("'s output ");
        reveal_strlit(", and ");
        reveal_strlit(" has ");
        reveal_strlit(" outputs, numbered from zero");
    }
    let mut why = String::from_str(name);
    append_str(&mut why, "'s phase is measured over ");
    append_str(&mut why, master_name);
    append_str(&mut why, "'s output ");
    let said = number(output as i64);
    append_str(&mut why, said.as_str());
    append_str(&mut why, ", and ");
    append_str(&mut why, master_name);
    append_str(&mut why, " has ");
    let count = number(outputs as i64);
    append_str(&mut why, count.as_str());
    append_str(&mut why, " outputs, numbered from zero");
    why
}

fn no_such_input_of(name: &str, input: i32, inputs: i32) -> (why: String)
    ensures
        why@ == no_such_input(name@, input, inputs),
{
    proof {
        reveal_strlit("'s phase is measured on its own input ");
        reveal_strlit(", and it has ");
        reveal_strlit(" inputs, numbered from zero");
    }
    let mut why = String::from_str(name);
    append_str(&mut why, "'s phase is measured on its own input ");
    let said = number(input as i64);
    append_str(&mut why, said.as_str());
    append_str(&mut why, ", and it has ");
    let count = number(inputs as i64);
    append_str(&mut why, count.as_str());
    append_str(&mut why, " inputs, numbered from zero");
    why
}

/// What one device's phase setting does to the layout.
fn measure_phase(found: &[Found], master: usize, devices: &mut Vec<DevicePlan>, index: usize) -> (done: Result<(), String>)
    requires
        index < found@.len(),
        master < found@.len(),
        old(devices)@.len() == found@.len(),
        !(phase_step(found@, master as int, views_of(old(devices)@), index as int) is Undefined),
    ensures
        final(devices)@.len() == old(devices)@.len(),
        match done {
            Ok(()) => phase_step(found@, master as int, views_of(old(devices)@), index as int) == Worked::Done(
                views_of(final(devices)@),
            ),
            Err(why) => phase_step(found@, master as int, views_of(old(devices)@), index as int) == Worked::<
                Seq<DeviceView>,
            >::Refused(why@),
        },
{
    reveal(phase_step);
    let device = &found[index];
    let (output, input) = match &device.phase {
        Some(phase) => match phase.channels() {
            Some(both) => both,
            None => return Ok(()),
        },
        None => return Ok(()),
    };
    if index == master {
        return Err(against_itself_of(device.name.as_str()));
    }
    let master_name = found[master].name.as_str();
    if output >= found[master].description.outputs {
        return Err(
            no_such_master_output_of(device.name.as_str(), master_name, output, found[master].description.outputs),
        );
    }
    if input >= device.description.inputs {
        return Err(no_such_input_of(device.name.as_str(), input, device.description.inputs));
    }
    let ghost before = devices@;
    let mut driving = devices.remove(master);
    let master_slot = place(&mut driving.outputs, output);
    reserve_slot(&mut driving.reserved_outputs, master_slot);
    devices.insert(master, driving);
    proof {
        lemma_views_replace(before, master as int, driving);
    }
    let ghost between = devices@;
    let mut measured = devices.remove(index);
    let input_slot = place(&mut measured.inputs, input);
    reserve_slot(&mut measured.reserved_inputs, input_slot);
    measured.phase = Some(PhasePlan { master_output: output, input, master_slot, input_slot });
    devices.insert(index, measured);
    proof {
        lemma_views_replace(between, index as int, measured);
    }
    Ok(())
}

/// The phase settings of every device, one after another, or the first that refuses.
fn measure_phases(found: &[Found], master: usize, devices: &mut Vec<DevicePlan>) -> (done: Result<(), String>)
    requires
        master < found@.len(),
        old(devices)@.len() == found@.len(),
    ensures
        final(devices)@.len() == old(devices)@.len(),
        match done {
            Ok(()) => phases_upto(found@, master as int, views_of(old(devices)@), found@.len() as int)
                == Worked::Done(views_of(final(devices)@)),
            Err(why) => phases_upto(found@, master as int, views_of(old(devices)@), found@.len() as int)
                == Worked::<Seq<DeviceView>>::Refused(why@),
        },
{
    let ghost start = views_of(devices@);
    let mut index: usize = 0;
    while index < found.len()
        invariant
            index <= found@.len(),
            master < found@.len(),
            devices@.len() == found@.len(),
            old(devices)@.len() == found@.len(),
            start == views_of(old(devices)@),
            phases_upto(found@, master as int, start, index as int) == Worked::Done(views_of(devices@)),
        decreases found@.len() - index,
    {
        proof {
            if phase_step(found@, master as int, views_of(devices@), index as int) is Undefined {
                reveal(phase_step);
            }
        }
        match measure_phase(found, master, devices, index) {
            Ok(()) => {},
            Err(why) => {
                proof {
                    lemma_phases_stay(found@, master as int, start, index + 1, found@.len() as int);
                }
                return Err(why);
            },
        }
        index = index + 1;
    }
    Ok(())
}

proof fn lemma_phases_stay(found: Seq<Found>, master: int, devices: Seq<DeviceView>, from: int, to: int)
    requires
        0 <= from <= to,
        phases_upto(found, master, devices, from) is Refused,
    ensures
        phases_upto(found, master, devices, to) == phases_upto(found, master, devices, from),
    decreases to - from,
{
    if to > from {
        lemma_phases_stay(found, master, devices, from, to - 1);
    }
}

/// How far a device's signal travels each way: its own latency, and a block more when it crosses a
/// ring buffer.
pub open spec fn path_of(device: DeviceView, block: i32, input: bool) -> int {
    (if input {
        device.latency_in
    } else {
        device.latency_out
    }) + (if device.buffered {
        block
    } else {
        0
    })
}

/// Whether every device's path each way fits the numbers a path is carried in.
pub open spec fn paths_fit(devices: Seq<DeviceView>, block: i32) -> bool {
    forall|i: int|
        0 <= i < devices.len() ==> i32::MIN <= #[trigger] path_of(devices[i], block, true) <= i32::MAX
            && i32::MIN <= path_of(devices[i], block, false) <= i32::MAX
}

/// Every device's path one way.
pub open spec fn spec_paths(devices: Seq<DeviceView>, block: i32, input: bool) -> Seq<i32> {
    Seq::new(devices.len(), |i: int| path_of(devices[i], block, input) as i32)
}

/// How far each device is held back one way: to the longest path when lined up, and not at all
/// otherwise.
pub open spec fn spec_pads(paths: Seq<i32>, aligned: bool) -> Seq<i32> {
    Seq::new(paths.len(), |i: int| if aligned {
        (longest(paths) - paths[i]) as i32
    } else {
        0i32
    })
}

/// The devices, held back by these many samples each way.
pub open spec fn with_pads(devices: Seq<DeviceView>, pads_in: Seq<i32>, pads_out: Seq<i32>) -> Seq<DeviceView> {
    Seq::new(devices.len(), |i: int| DeviceView { pad_in: pads_in[i], pad_out: pads_out[i], ..devices[i] })
}

fn paths_each(devices: &Vec<DevicePlan>, block: i32, input: bool) -> (paths: Vec<i32>)
    requires
        paths_fit(views_of(devices@), block),
    ensures
        paths@ == spec_paths(views_of(devices@), block, input),
{
    let mut paths: Vec<i32> = Vec::new();
    let mut i: usize = 0;
    while i < devices.len()
        invariant
            i <= devices@.len(),
            paths_fit(views_of(devices@), block),
            paths@ == spec_paths(views_of(devices@), block, input).take(i as int),
        decreases devices@.len() - i,
    {
        proof {
            assert(views_of(devices@)[i as int] == devices@[i as int]@);
            assert(i32::MIN <= path_of(views_of(devices@)[i as int], block, true) <= i32::MAX);
        }
        let device = &devices[i];
        let latency = if input {
            device.latency_in
        } else {
            device.latency_out
        };
        let path = latency + if device.buffered {
            block
        } else {
            0
        };
        paths.push(path);
        proof {
            assert(paths@ =~= spec_paths(views_of(devices@), block, input).take(i + 1));
        }
        i = i + 1;
    }
    assert(spec_paths(views_of(devices@), block, input).take(devices@.len() as int) =~= spec_paths(
        views_of(devices@),
        block,
        input,
    ));
    paths
}

/// Hold every device back by these many samples each way.
fn set_pads(devices: &mut Vec<DevicePlan>, pads_in: &[i32], pads_out: &[i32])
    requires
        pads_in@.len() == old(devices)@.len(),
        pads_out@.len() == old(devices)@.len(),
    ensures
        views_of(final(devices)@) == with_pads(views_of(old(devices)@), pads_in@, pads_out@),
{
    let ghost start = views_of(devices@);
    let mut i: usize = 0;
    while i < devices.len()
        invariant
            i <= devices@.len(),
            devices@.len() == start.len(),
            pads_in@.len() == start.len(),
            pads_out@.len() == start.len(),
            start == views_of(old(devices)@),
            forall|j: int| 0 <= j < i ==> #[trigger] views_of(devices@)[j] == with_pads(start, pads_in@, pads_out@)[j],
            forall|j: int| i <= j < devices@.len() ==> #[trigger] views_of(devices@)[j] == start[j],
        decreases devices@.len() - i,
    {
        let ghost before = devices@;
        proof {
            assert(views_of(before)[i as int] == start[i as int]);
            assert(views_of(before)[i as int] == before[i as int]@);
        }
        let mut device = devices.remove(i);
        device.pad_in = pads_in[i];
        device.pad_out = pads_out[i];
        devices.insert(i, device);
        proof {
            lemma_views_replace(before, i as int, device);
            assert(device@ == with_pads(start, pads_in@, pads_out@)[i as int]);
        }
        i = i + 1;
    }
    assert(views_of(devices@) =~= with_pads(start, pads_in@, pads_out@));
}

/// A device's own channel numbers on one side.
pub open spec fn side_of(device: DeviceView, input: bool) -> Seq<i32> {
    if input {
        device.inputs
    } else {
        device.outputs
    }
}

/// The slots of one side a device keeps for the driver.
pub open spec fn reserved_of(device: DeviceView, input: bool) -> Seq<usize> {
    if input {
        device.reserved_inputs
    } else {
        device.reserved_outputs
    }
}

/// What the person calls a device's channels on one side.
pub open spec fn labels_of(device: Found, input: bool) -> Map<u32, String> {
    if input {
        device.input_labels.names()
    } else {
        device.output_labels.names()
    }
}

/// The slots among the first `upto` that are not kept for the driver, in order.
pub open spec fn open_slots(reserved: Seq<usize>, upto: int) -> Seq<usize>
    decreases upto,
{
    if upto <= 0 {
        Seq::empty()
    } else if reserved.contains((upto - 1) as usize) {
        open_slots(reserved, upto - 1)
    } else {
        open_slots(reserved, upto - 1).push((upto - 1) as usize)
    }
}

/// What a channel is called: the person's own name for it with the automatic one, or the
/// automatic one alone. Channels are counted from one here, as a person counts them.
pub open spec fn channel_called(name: Seq<char>, channel: i32, labels: Map<u32, String>) -> Seq<char> {
    spec_labelled_name(name, (channel + 1) as nat, spec_label(labels, channel as u32))
}

/// One device's channels on one side that the DAW is given, among the first `upto` slots.
pub open spec fn refs_of(device: DeviceView, index: int, input: bool, upto: int) -> Seq<ChannelRef> {
    open_slots(reserved_of(device, input), upto).map_values(|slot: usize| ChannelRef { device: index as usize, slot })
}

/// What those channels are called.
pub open spec fn names_of(device: DeviceView, labels: Map<u32, String>, input: bool, upto: int) -> Seq<Seq<char>> {
    open_slots(reserved_of(device, input), upto).map_values(
        |slot: usize| channel_called(device.name, side_of(device, input)[slot as int], labels),
    )
}

/// The aggregate's channels on one side, over the first `upto` devices.
pub open spec fn refs_upto(devices: Seq<DeviceView>, input: bool, upto: int) -> Seq<ChannelRef>
    decreases upto,
{
    if upto <= 0 {
        Seq::empty()
    } else {
        refs_upto(devices, input, upto - 1) + refs_of(
            devices[upto - 1],
            upto - 1,
            input,
            side_of(devices[upto - 1], input).len() as int,
        )
    }
}

/// What those channels are called.
pub open spec fn names_upto(devices: Seq<DeviceView>, found: Seq<Found>, input: bool, upto: int) -> Seq<Seq<char>>
    decreases upto,
{
    if upto <= 0 {
        Seq::empty()
    } else {
        names_upto(devices, found, input, upto - 1) + names_of(
            devices[upto - 1],
            labels_of(found[upto - 1], input),
            input,
            side_of(devices[upto - 1], input).len() as int,
        )
    }
}

/// Whether every channel of a device that the DAW is given is a channel number from zero.
pub open spec fn open_channels_counted(device: DeviceView) -> bool {
    &&& forall|slot: int|
        0 <= slot < device.inputs.len() && !device.reserved_inputs.contains(slot as usize) ==> #[trigger] device.inputs[slot]
            >= 0
    &&& forall|slot: int|
        0 <= slot < device.outputs.len() && !device.reserved_outputs.contains(slot as usize)
            ==> #[trigger] device.outputs[slot] >= 0
}

proof fn lemma_present_in_range(s: Seq<i32>, available: i32)
    ensures
        forall|k: int| 0 <= k < present(s, available).len() ==> 0 <= #[trigger] present(s, available)[k] < available,
    decreases s.len(),
{
    if s.len() > 0 {
        let rest = s.drop_last();
        lemma_present_in_range(rest, available);
        assert forall|k: int| 0 <= k < present(s, available).len() implies 0 <= #[trigger] present(s, available)[k]
            < available by {
            if k < present(rest, available).len() {
                assert(present(s, available)[k] == present(rest, available)[k]);
            }
        }
    }
}

proof fn lemma_first_at_exists<T>(s: Seq<T>, x: T)
    requires
        s.contains(x),
    ensures
        0 <= first_at(s, x) < s.len(),
        s[first_at(s, x)] == x,
        forall|j: int| 0 <= j < first_at(s, x) ==> s[j] != x,
    decreases s.len(),
{
    let rest = s.drop_last();
    if rest.contains(x) {
        lemma_first_at_exists(rest, x);
        let m = first_at(rest, x);
        assert(s[m] == x);
        assert forall|j: int| 0 <= j < m implies s[j] != x by {
            assert(s[j] == rest[j]);
        }
        lemma_first_at(s, x, m);
    } else {
        let k = choose|k: int| 0 <= k < s.len() && s[k] == x;
        assert forall|j: int| 0 <= j < s.len() - 1 implies s[j] != x by {
            assert(s[j] == rest[j]);
            if s[j] == x {
                assert(rest.contains(x));
            }
        }
        assert(k == s.len() - 1);
        lemma_first_at(s, x, s.len() - 1);
    }
}

proof fn lemma_reserve_keeps(list: Seq<usize>, slot: usize)
    ensures
        reserve(list, slot).contains(slot),
        forall|v: usize| list.contains(v) ==> #[trigger] reserve(list, slot).contains(v),
{
    if !list.contains(slot) {
        let kept = list.push(slot);
        assert(kept[kept.len() - 1] == slot);
        assert forall|v: usize| list.contains(v) implies #[trigger] reserve(list, slot).contains(v) by {
            let j = choose|j: int| 0 <= j < list.len() && list[j] == v;
            assert(kept[j] == v);
        }
    }
}

proof fn lemma_runs_kept_from(s: Seq<i32>)
    ensures
        forall|k: int| 0 <= k < runs_kept_once(s).len() ==> s.contains(#[trigger] runs_kept_once(s)[k]),
    decreases s.len(),
{
    if s.len() > 0 {
        lemma_runs_kept_from(s.drop_last());
        let rest = s.drop_last();
        assert forall|k: int| 0 <= k < runs_kept_once(s).len() implies s.contains(#[trigger] runs_kept_once(s)[k]) by {
            if k < runs_kept_once(rest).len() {
                let v = runs_kept_once(rest)[k];
                assert(rest.contains(v));
                let j = choose|j: int| 0 <= j < rest.len() && rest[j] == v;
                assert(s[j] == v);
            } else {
                assert(runs_kept_once(s)[k] == s.last());
                assert(s[s.len() - 1] == s.last());
            }
        }
    }
}

proof fn lemma_selected_counted(wanted: Option<Seq<i32>>, available: i32)
    ensures
        forall|k: int| 0 <= k < spec_selected(wanted, available).len() ==> 0 <= #[trigger] spec_selected(wanted, available)[k],
{
    match wanted {
        Some(list) => {
            lemma_present_in_range(list, available);
            lemma_runs_kept_from(present(list, available));
            assert forall|k: int| 0 <= k < spec_selected(wanted, available).len() implies 0 <= #[trigger] spec_selected(
                wanted,
                available,
            )[k] by {
                let v = spec_selected(wanted, available)[k];
                assert(present(list, available).contains(v));
                let j = choose|j: int| 0 <= j < present(list, available).len() && present(list, available)[j] == v;
            }
        },
        None => {},
    }
}

proof fn lemma_initial_counted(found: Seq<Found>, master: int)
    ensures
        forall|i: int| 0 <= i < found.len() ==> open_channels_counted(#[trigger] spec_initial_devices(found, master)[i]),
{
    assert forall|i: int| 0 <= i < found.len() implies open_channels_counted(
        #[trigger] spec_initial_devices(found, master)[i],
    ) by {
        let device = found[i];
        lemma_selected_counted(wanted_view(device.wanted_inputs), device.description.inputs);
        lemma_selected_counted(wanted_view(device.wanted_outputs), device.description.outputs);
    }
}

proof fn lemma_place_counted(channels: Seq<i32>, reserved: Seq<usize>, channel: i32)
    requires
        forall|slot: int| 0 <= slot < channels.len() && !reserved.contains(slot as usize) ==> #[trigger] channels[slot] >= 0,
    ensures
        ({
            let (placed, at) = spec_place(channels, channel);
            let kept = reserve(reserved, at as usize);
            forall|slot: int| 0 <= slot < placed.len() && !kept.contains(slot as usize) ==> #[trigger] placed[slot] >= 0
        }),
{
    let (placed, at) = spec_place(channels, channel);
    let kept = reserve(reserved, at as usize);
    if channels.contains(channel) {
        lemma_first_at_exists(channels, channel);
    }
    assert(0 <= at <= channels.len());
    lemma_reserve_keeps(reserved, at as usize);
    assert forall|slot: int| 0 <= slot < placed.len() && !kept.contains(slot as usize) implies #[trigger] placed[slot] >= 0 by {
        assert(slot != at);
        assert(!reserved.contains(slot as usize));
        assert(slot < channels.len());
        assert(placed[slot] == channels[slot]);
    }
}

proof fn lemma_phase_step_counted(found: Seq<Found>, master: int, devices: Seq<DeviceView>, index: int)
    requires
        0 <= index < found.len(),
        0 <= master < found.len(),
        devices.len() == found.len(),
        forall|i: int| 0 <= i < devices.len() ==> open_channels_counted(#[trigger] devices[i]),
    ensures
        phase_step(found, master, devices, index) matches Worked::Done(laid) ==> laid.len() == devices.len() && forall|i: int|
            0 <= i < laid.len() ==> open_channels_counted(#[trigger] laid[i]),
{
    reveal(phase_step);
    let device = found[index];
    if let Some(phase) = device.phase {
        if let (Some(output), Some(input)) = (phase.master_output, phase.input) {
            if index != master && output < found[master].description.outputs && input < device.description.inputs {
                let was = devices[master];
                assert(open_channels_counted(was));
                lemma_place_counted(was.outputs, was.reserved_outputs, output);
                let (outputs, master_slot) = spec_place(was.outputs, output);
                let master_now = DeviceView {
                    outputs,
                    reserved_outputs: reserve(was.reserved_outputs, master_slot as usize),
                    ..was
                };
                assert(open_channels_counted(master_now));
                let between = devices.update(master, master_now);
                let had = between[index];
                assert(open_channels_counted(had));
                lemma_place_counted(had.inputs, had.reserved_inputs, input);
            }
        }
    }
}

proof fn lemma_phases_counted(found: Seq<Found>, master: int, devices: Seq<DeviceView>, upto: int)
    requires
        0 <= upto <= found.len(),
        0 <= master < found.len(),
        devices.len() == found.len(),
        forall|i: int| 0 <= i < devices.len() ==> open_channels_counted(#[trigger] devices[i]),
    ensures
        phases_upto(found, master, devices, upto) matches Worked::Done(laid) ==> laid.len() == devices.len() && forall|i: int|
            0 <= i < laid.len() ==> open_channels_counted(#[trigger] laid[i]),
    decreases upto,
{
    if upto > 0 {
        lemma_phases_counted(found, master, devices, upto - 1);
        if let Worked::Done(laid) = phases_upto(found, master, devices, upto - 1) {
            lemma_phase_step_counted(found, master, laid, upto - 1);
        }
    }
}

fn holds_slot(list: &Vec<usize>, slot: usize) -> (held: bool)
    ensures
        held == list@.contains(slot),
{
    let mut i: usize = 0;
    while i < list.len()
        invariant
            i <= list@.len(),
            forall|k: int| 0 <= k < i ==> list@[k] != slot,
        decreases list@.len() - i,
    {
        if list[i] == slot {
            assert(list@.contains(slot));
            return true;
        }
        i = i + 1;
    }
    false
}

proof fn lemma_open_slots_step(reserved: Seq<usize>, upto: int)
    requires
        0 <= upto,
    ensures
        open_slots(reserved, upto + 1) == if reserved.contains(upto as usize) {
            open_slots(reserved, upto)
        } else {
            open_slots(reserved, upto).push(upto as usize)
        },
{
}

/// The aggregate's channels on one side, in device order, and what each is called.
fn channels_each(devices: &Vec<DevicePlan>, found: &[Found], input: bool) -> (listed: (Vec<ChannelRef>, Vec<String>))
    requires
        devices@.len() == found@.len(),
        forall|i: int| 0 <= i < devices@.len() ==> open_channels_counted(#[trigger] views_of(devices@)[i]),
    ensures
        listed.0@ == refs_upto(views_of(devices@), input, devices@.len() as int),
        listed.1@.map_values(|name: String| name@) == names_upto(views_of(devices@), found@, input, devices@.len() as int),
{
    let ghost views = views_of(devices@);
    let mut refs: Vec<ChannelRef> = Vec::new();
    let mut names: Vec<String> = Vec::new();
    let mut index: usize = 0;
    while index < devices.len()
        invariant
            index <= devices@.len(),
            devices@.len() == found@.len(),
            views == views_of(devices@),
            forall|i: int| 0 <= i < devices@.len() ==> open_channels_counted(#[trigger] views_of(devices@)[i]),
            refs@ == refs_upto(views, input, index as int),
            names@.map_values(|name: String| name@) == names_upto(views, found@, input, index as int),
        decreases devices@.len() - index,
    {
        let device = &devices[index];
        let ghost view = views[index as int];
        proof {
            assert(view == device@);
            assert(open_channels_counted(view));
        }
        let channels = if input {
            &device.inputs
        } else {
            &device.outputs
        };
        let reserved = if input {
            &device.reserved_inputs
        } else {
            &device.reserved_outputs
        };
        let labels = if input {
            &found[index].input_labels
        } else {
            &found[index].output_labels
        };
        let ghost refs_before = refs@;
        let ghost names_before = names@.map_values(|name: String| name@);
        let mut slot: usize = 0;
        while slot < channels.len()
            invariant
                slot <= channels@.len(),
                channels@ == side_of(view, input),
                reserved@ == reserved_of(view, input),
                labels.names() == labels_of(found@[index as int], input),
                device@ == view,
                open_channels_counted(view),
                index < devices@.len(),
                refs@ == refs_before + refs_of(view, index as int, input, slot as int),
                names@.map_values(|name: String| name@) == names_before + names_of(
                    view,
                    labels_of(found@[index as int], input),
                    input,
                    slot as int,
                ),
            decreases channels@.len() - slot,
        {
            proof {
                lemma_open_slots_step(reserved@, slot as int);
            }
            if !holds_slot(reserved, slot) {
                let channel = channels[slot];
                proof {
                    assert(0 <= channel);
                }
                let label = labels.get(channel as u32);
                let name = labelled_name(device.name.as_str(), channel as usize + 1, label);
                proof {
                    assert(refs@.push(ChannelRef { device: index, slot }) =~= refs_before + refs_of(
                        view,
                        index as int,
                        input,
                        slot + 1,
                    ));
                    assert(name@ == channel_called(view.name, channel, labels_of(found@[index as int], input)));
                    assert(names@.push(name).map_values(|name: String| name@) =~= names@.map_values(
                        |name: String| name@,
                    ).push(name@));
                    assert(names_before + names_of(view, labels_of(found@[index as int], input), input, slot + 1)
                        =~= (names_before + names_of(view, labels_of(found@[index as int], input), input, slot as int)).push(
                        name@,
                    ));
                }
                refs.push(ChannelRef { device: index, slot });
                names.push(name);
            } else {
                proof {
                    assert(refs_of(view, index as int, input, slot + 1) =~= refs_of(view, index as int, input, slot as int));
                    assert(names_of(view, labels_of(found@[index as int], input), input, slot + 1) =~= names_of(
                        view,
                        labels_of(found@[index as int], input),
                        input,
                        slot as int,
                    ));
                }
            }
            slot = slot + 1;
        }
        index = index + 1;
    }
    (refs, names)
}

/// The buffer sizes a plan offers, and the block its latencies are worked out for.
pub struct Sizes {
    pub min: i32,
    pub max: i32,
    pub granularity: i32,
    pub preferred: i32,
    pub block: i32,
}

/// The sentence for a configuration that gives the DAW no channels at all.
pub open spec fn no_channels() -> Seq<char> {
    "the configuration exposes no channels at all"@
}

/// The buffer sizes every device can take, the one to offer as preferred, and the block to work
/// the latencies out for; or the sentence that refuses the devices before any of that.
pub open spec fn spec_sizes(found: Seq<Found>, config: Config, block: Option<i32>) -> Worked<Sizes> {
    if found.len() == 0 {
        Worked::Refused(nothing_found())
    } else if unconvertible_upto(found, found.len() as int) is Some {
        Worked::Refused(unconvertible_upto(found, found.len() as int)->0)
    } else {
        let min = longest(mins(found));
        let max = smallest(maxes(found));
        if min > max && max > 0 {
            Worked::Refused(no_shared_size(min, max))
        } else {
            let low = larger(min, 1);
            let high = larger(max, 1);
            if low > high {
                Worked::Undefined
            } else {
                let asked = match config.buffer_size {
                    Some(size) => size as int,
                    None => longest(preferreds(found)),
                };
                let preferred = held(asked, low, high);
                Worked::Done(
                    Sizes {
                        min: min as i32,
                        max: max as i32,
                        granularity: spec_granularity(found) as i32,
                        preferred: preferred as i32,
                        block: match block {
                            Some(size) => size,
                            None => preferred as i32,
                        },
                    },
                )
            }
        }
    }
}

/// The devices laid out, held back and named, once the master is known.
pub open spec fn spec_laid(found: Seq<Found>, config: Config, master: int, sizes: Sizes) -> Worked<PlanView> {
    if !(forall|i: int| 0 <= i < found.len() ==> trims_fit(#[trigger] found[i])) {
        Worked::Undefined
    } else {
        match phases_upto(found, master, spec_initial_devices(found, master), found.len() as int) {
            Worked::Undefined => Worked::Undefined,
            Worked::Refused(why) => Worked::Refused(why),
            Worked::Done(laid) => {
                let aligned = config.alignment == Alignment::Aligned;
                let path_in = spec_paths(laid, sizes.block, true);
                let path_out = spec_paths(laid, sizes.block, false);
                if !paths_fit(laid, sizes.block) || (aligned && !(pads_fit(path_in) && pads_fit(path_out))) {
                    Worked::Undefined
                } else {
                    let devices = with_pads(laid, spec_pads(path_in, aligned), spec_pads(path_out, aligned));
                    let inputs = refs_upto(devices, true, devices.len() as int);
                    let outputs = refs_upto(devices, false, devices.len() as int);
                    if inputs.len() == 0 && outputs.len() == 0 {
                        Worked::Refused(no_channels())
                    } else {
                        Worked::Done(
                            PlanView {
                                devices,
                                master: master as usize,
                                alignment: config.alignment,
                                inputs,
                                outputs,
                                input_names: names_upto(devices, found, true, devices.len() as int),
                                output_names: names_upto(devices, found, false, devices.len() as int),
                                min: sizes.min,
                                max: sizes.max,
                                preferred: sizes.preferred,
                                granularity: sizes.granularity,
                                block: sizes.block,
                                input_latency: longest(path_in) as i32,
                                output_latency: longest(path_out) as i32,
                            },
                        )
                    }
                }
            },
        }
    }
}

/// **The whole aggregate, worked out**, or the sentence that says why these devices cannot be one:
/// the buffer sizes every device can take, which device drives the callback, the channels each
/// device exposes and the ones it keeps for the phase measurement, how far each device is held
/// back so that every path is the longest one, and the aggregate's channel list with its names.
pub open spec fn spec_plan(found: Seq<Found>, config: Config, block: Option<i32>) -> Worked<PlanView> {
    match spec_sizes(found, config, block) {
        Worked::Undefined => Worked::Undefined,
        Worked::Refused(why) => Worked::Refused(why),
        Worked::Done(sizes) => match spec_master_of(found, config.callback_master) {
            Err(why) => Worked::Refused(why),
            Ok(master) => spec_laid(found, config, master as int, sizes),
        },
    }
}

proof fn lemma_unconvertible_stays(found: Seq<Found>, from: int, to: int)
    requires
        0 <= from <= to,
        unconvertible_upto(found, from).is_some(),
    ensures
        unconvertible_upto(found, to) == unconvertible_upto(found, from),
    decreases to - from,
{
    if to > from {
        lemma_unconvertible_stays(found, from, to - 1);
    }
}

/// The first device one of whose sample types the copy path does not convert, and the sentence
/// that says so.
fn unconvertible(found: &[Found]) -> (why: Option<String>)
    ensures
        match why {
            Some(text) => unconvertible_upto(found@, found@.len() as int) == Some(text@),
            None => unconvertible_upto(found@, found@.len() as int).is_none(),
        },
{
    proof {
        reveal_strlit("'s inputs are ");
        reveal_strlit("'s outputs are ");
        reveal_strlit(", which this driver will not convert");
    }
    let mut i: usize = 0;
    while i < found.len()
        invariant
            i <= found@.len(),
            unconvertible_upto(found@, i as int).is_none(),
        decreases found@.len() - i,
    {
        let device = &found[i];
        if !device.input_sample.convertible || !device.output_sample.convertible {
            let mut why = device.name.clone();
            if !device.input_sample.convertible {
                append_str(&mut why, "'s inputs are ");
                append_str(&mut why, device.input_sample.name.as_str());
            } else {
                append_str(&mut why, "'s outputs are ");
                append_str(&mut why, device.output_sample.name.as_str());
            }
            append_str(&mut why, ", which this driver will not convert");
            proof {
                lemma_unconvertible_stays(found@, i + 1, found@.len() as int);
            }
            return Some(why);
        }
        i = i + 1;
    }
    None
}

/// The largest of a list, or nothing when there are none.
fn largest(values: &Vec<i32>) -> (most: i32)
    ensures
        most == longest(values@),
{
    let mut most: i32 = 0;
    let mut i: usize = 0;
    while i < values.len()
        invariant
            i <= values@.len(),
            most == longest(values@.subrange(0, i as int)),
        decreases values@.len() - i,
    {
        proof {
            assert(values@.subrange(0, i + 1).drop_last() =~= values@.subrange(0, i as int));
        }
        if i == 0 || values[i] > most {
            most = values[i];
        }
        i = i + 1;
    }
    assert(values@.subrange(0, values@.len() as int) =~= values@);
    most
}

/// The smallest of a list, or nothing when there are none.
fn least(values: &Vec<i32>) -> (fewest: i32)
    ensures
        fewest == smallest(values@),
{
    let mut fewest: i32 = 0;
    let mut i: usize = 0;
    while i < values.len()
        invariant
            i <= values@.len(),
            fewest == smallest(values@.subrange(0, i as int)),
        decreases values@.len() - i,
    {
        proof {
            assert(values@.subrange(0, i + 1).drop_last() =~= values@.subrange(0, i as int));
        }
        if i == 0 || values[i] < fewest {
            fewest = values[i];
        }
        i = i + 1;
    }
    assert(values@.subrange(0, values@.len() as int) =~= values@);
    fewest
}

/// One of the buffer size figures of every device: the least it takes, the most, the one it
/// prefers, or its steps.
pub open spec fn column(found: Seq<Found>, which: u8) -> Seq<i32> {
    if which == 0 {
        mins(found)
    } else if which == 1 {
        maxes(found)
    } else if which == 2 {
        preferreds(found)
    } else {
        granularities(found)
    }
}

fn column_of(found: &[Found], which: u8) -> (values: Vec<i32>)
    ensures
        values@ == column(found@, which),
{
    let mut values: Vec<i32> = Vec::new();
    let mut i: usize = 0;
    while i < found.len()
        invariant
            i <= found@.len(),
            values@ == column(found@, which).take(i as int),
        decreases found@.len() - i,
    {
        let d = &found[i].description;
        let value = if which == 0 {
            d.min
        } else if which == 1 {
            d.max
        } else if which == 2 {
            d.preferred
        } else {
            d.granularity
        };
        values.push(value);
        proof {
            assert(values@ =~= column(found@, which).take(i + 1));
        }
        i = i + 1;
    }
    assert(column(found@, which).take(found@.len() as int) =~= column(found@, which));
    values
}

fn no_shared_size_of(min: i32, max: i32) -> (why: String)
    ensures
        why@ == no_shared_size(min as int, max as int),
{
    proof {
        reveal_strlit("these devices share no buffer size: the smallest any of them will take is ");
        reveal_strlit(" and the largest is ");
    }
    let mut why = String::from_str("these devices share no buffer size: the smallest any of them will take is ");
    let least_text = number(min as i64);
    append_str(&mut why, least_text.as_str());
    append_str(&mut why, " and the largest is ");
    let most_text = number(max as i64);
    append_str(&mut why, most_text.as_str());
    why
}

/// The buffer sizes every device can take, the one to offer as preferred, and the block to work
/// the latencies out for: the least, the most, the steps, the preferred and the block.
fn sizes(found: &[Found], config: &Config, block: Option<i32>) -> (sized: Result<(i32, i32, i32, i32, i32), String>)
    requires
        !(spec_sizes(found@, *config, block) is Undefined),
    ensures
        match sized {
            Ok((min, max, granularity, preferred, at)) => spec_sizes(found@, *config, block) == Worked::Done(
                Sizes { min, max, granularity, preferred, block: at },
            ),
            Err(why) => spec_sizes(found@, *config, block) == Worked::<Sizes>::Refused(why@),
        },
{
    proof {
        reveal_strlit("no devices to aggregate: nothing in the configuration matched a driver on this PC");
    }
    if found.len() == 0 {
        return Err(String::from_str("no devices to aggregate: nothing in the configuration matched a driver on this PC"));
    }
    if let Some(why) = unconvertible(found) {
        return Err(why);
    }
    let mins_now = column_of(found, 0);
    let maxes_now = column_of(found, 1);
    let preferreds_now = column_of(found, 2);
    let steps_now = column_of(found, 3);
    let min = largest(&mins_now);
    let max = least(&maxes_now);
    proof {
        lemma_longest_is_longest(mins(found@));
        lemma_smallest_is_smallest(maxes(found@));
        lemma_longest_is_longest(preferreds(found@));
        lemma_longest_is_longest(granularities(found@));
    }
    if min > max && max > 0 {
        return Err(no_shared_size_of(min, max));
    }
    let mut every_step_free = true;
    let mut i: usize = 0;
    while i < found.len()
        invariant
            i <= found@.len(),
            every_step_free == forall|k: int| 0 <= k < i ==> #[trigger] found@[k].description.granularity == -1,
        decreases found@.len() - i,
    {
        if found[i].description.granularity != -1 {
            every_step_free = false;
        }
        i = i + 1;
    }
    let granularity = if every_step_free {
        -1
    } else {
        largest(&steps_now)
    };
    let agreed = largest(&preferreds_now);
    let low = if min > 1 {
        min
    } else {
        1
    };
    let high = if max > 1 {
        max
    } else {
        1
    };
    let asked = match config.buffer_size {
        Some(size) => size,
        None => agreed,
    };
    let preferred = if asked < low {
        low
    } else if asked > high {
        high
    } else {
        asked
    };
    let at = match block {
        Some(size) => size,
        None => preferred,
    };
    Ok((min, max, granularity, preferred, at))
}

proof fn lemma_pads_keep_counted(devices: Seq<DeviceView>, pads_in: Seq<i32>, pads_out: Seq<i32>)
    requires
        pads_in.len() == devices.len(),
        pads_out.len() == devices.len(),
        forall|i: int| 0 <= i < devices.len() ==> open_channels_counted(#[trigger] devices[i]),
    ensures
        forall|i: int|
            0 <= i < devices.len() ==> open_channels_counted(#[trigger] with_pads(devices, pads_in, pads_out)[i]),
{
    assert forall|i: int| 0 <= i < devices.len() implies open_channels_counted(
        #[trigger] with_pads(devices, pads_in, pads_out)[i],
    ) by {
        assert(open_channels_counted(devices[i]));
    }
}

/// **Work the whole aggregate out**, or say why it cannot be one device.
pub fn plan(found: &[Found], config: &Config, block: Option<i32>) -> (planned: Result<Plan, String>)
    requires
        !(spec_plan(found@, *config, block) is Undefined),
    ensures
        match planned {
            Ok(plan) => spec_plan(found@, *config, block) == Worked::Done(plan@),
            Err(why) => spec_plan(found@, *config, block) == Worked::<PlanView>::Refused(why@),
        },
        planned matches Ok(plan) ==> plan.devices@.len() == found@.len() && plan.master < found@.len(),
{
    proof {
        reveal_strlit("the configuration exposes no channels at all");
    }
    let (min, max, granularity, preferred, at) = match sizes(found, config, block) {
        Ok(sized) => sized,
        Err(why) => return Err(why),
    };
    let ghost sized = Sizes { min, max, granularity, preferred, block: at };
    let master = match master_of(found, config) {
        Ok(master) => master,
        Err(why) => return Err(why),
    };
    proof {
        assert(spec_plan(found@, *config, block) == spec_laid(found@, *config, master as int, sized));
        assert(forall|i: int| 0 <= i < found@.len() ==> trims_fit(#[trigger] found@[i]));
    }
    let mut devices = initial_devices(found, master);
    proof {
        lemma_initial_counted(found@, master as int);
        lemma_phases_counted(found@, master as int, spec_initial_devices(found@, master as int), found@.len() as int);
        assert(views_of(devices@).len() == devices@.len());
        assert(spec_initial_devices(found@, master as int).len() == found@.len());
    }
    match measure_phases(found, master, &mut devices) {
        Ok(()) => {},
        Err(why) => return Err(why),
    }
    let ghost laid = views_of(devices@);
    let aligned = match config.alignment {
        Alignment::Aligned => true,
        Alignment::LowestLatency => false,
    };
    let path_in = paths_each(&devices, at, true);
    let path_out = paths_each(&devices, at, false);
    let mut pads_in: Vec<i32> = Vec::new();
    let mut pads_out: Vec<i32> = Vec::new();
    let mut k: usize = 0;
    while k < devices.len()
        invariant
            k <= devices@.len(),
            pads_in@.len() == k,
            pads_out@.len() == k,
        decreases devices@.len() - k,
    {
        pads_in.push(0);
        pads_out.push(0);
        k = k + 1;
    }
    let input_latency = hold_back(path_in.as_slice(), aligned, pads_in.as_mut_slice());
    let output_latency = hold_back(path_out.as_slice(), aligned, pads_out.as_mut_slice());
    proof {
        assert(pads_in@ =~= spec_pads(path_in@, aligned));
        assert(pads_out@ =~= spec_pads(path_out@, aligned));
    }
    set_pads(&mut devices, pads_in.as_slice(), pads_out.as_slice());
    proof {
        lemma_pads_keep_counted(laid, pads_in@, pads_out@);
    }
    let (inputs, input_names) = channels_each(&devices, found, true);
    let (outputs, output_names) = channels_each(&devices, found, false);
    if inputs.len() == 0 && outputs.len() == 0 {
        return Err(String::from_str("the configuration exposes no channels at all"));
    }
    let planned = Plan {
        devices,
        master,
        alignment: config.alignment,
        inputs,
        outputs,
        input_names,
        output_names,
        min,
        max,
        preferred,
        granularity,
        block: at,
        input_latency,
        output_latency,
    };
    Ok(planned)
}

/// **Lined up, every path is the longest one**: each device's own latency, the block it crosses a
/// ring buffer with, and what it is held back by come to the one figure the DAW is told, on every
/// device and both ways.
pub proof fn law_lined_up_every_path_is_the_longest(found: Seq<Found>, config: Config, block: Option<i32>)
    requires
        spec_plan(found, config, block) is Done,
        config.alignment == Alignment::Aligned,
    ensures
        ({
            let planned = spec_plan(found, config, block)->Done_0;
            forall|i: int|
                0 <= i < planned.devices.len() ==> {
                    &&& path_of(#[trigger] planned.devices[i], planned.block, true) + planned.devices[i].pad_in
                        == planned.input_latency
                    &&& path_of(planned.devices[i], planned.block, false) + planned.devices[i].pad_out
                        == planned.output_latency
                }
        }),
{
    let planned = spec_plan(found, config, block)->Done_0;
    let sizes = spec_sizes(found, config, block)->Done_0;
    let master = spec_master_of(found, config.callback_master)->Ok_0 as int;
    let laid = phases_upto(found, master, spec_initial_devices(found, master), found.len() as int)->Done_0;
    let path_in = spec_paths(laid, sizes.block, true);
    let path_out = spec_paths(laid, sizes.block, false);
    lemma_longest_is_longest(path_in);
    lemma_longest_is_longest(path_out);
    assert forall|i: int| 0 <= i < planned.devices.len() implies {
        &&& path_of(#[trigger] planned.devices[i], planned.block, true) + planned.devices[i].pad_in
            == planned.input_latency
        &&& path_of(planned.devices[i], planned.block, false) + planned.devices[i].pad_out == planned.output_latency
    } by {
        assert(path_in[i] == path_of(laid[i], sizes.block, true));
        assert(path_out[i] == path_of(laid[i], sizes.block, false));
    }
}

/// **For the lowest latency, nothing is held back**, and the figure the DAW is told is still the
/// longest path each way, because that is the honest one.
pub proof fn law_lowest_latency_holds_nothing_back(found: Seq<Found>, config: Config, block: Option<i32>)
    requires
        spec_plan(found, config, block) is Done,
        config.alignment == Alignment::LowestLatency,
    ensures
        ({
            let planned = spec_plan(found, config, block)->Done_0;
            &&& forall|i: int|
                0 <= i < planned.devices.len() ==> (#[trigger] planned.devices[i]).pad_in == 0
                    && planned.devices[i].pad_out == 0
            &&& forall|i: int|
                0 <= i < planned.devices.len() ==> path_of(#[trigger] planned.devices[i], planned.block, true)
                    <= planned.input_latency && path_of(planned.devices[i], planned.block, false)
                    <= planned.output_latency
        }),
{
    let planned = spec_plan(found, config, block)->Done_0;
    let sizes = spec_sizes(found, config, block)->Done_0;
    let master = spec_master_of(found, config.callback_master)->Ok_0 as int;
    let laid = phases_upto(found, master, spec_initial_devices(found, master), found.len() as int)->Done_0;
    let path_in = spec_paths(laid, sizes.block, true);
    let path_out = spec_paths(laid, sizes.block, false);
    lemma_longest_is_longest(path_in);
    lemma_longest_is_longest(path_out);
    assert forall|i: int| 0 <= i < planned.devices.len() implies path_of(#[trigger] planned.devices[i], planned.block, true)
        <= planned.input_latency && path_of(planned.devices[i], planned.block, false) <= planned.output_latency by {
        assert(path_in[i] == path_of(laid[i], sizes.block, true));
        assert(path_out[i] == path_of(laid[i], sizes.block, false));
    }
}

proof fn lemma_open_slots_open(reserved: Seq<usize>, upto: int)
    requires
        0 <= upto <= usize::MAX as int + 1,
    ensures
        forall|k: int|
            0 <= k < open_slots(reserved, upto).len() ==> (#[trigger] open_slots(reserved, upto)[k]) < upto
                && !reserved.contains(open_slots(reserved, upto)[k]),
    decreases upto,
{
    if upto > 0 {
        lemma_open_slots_open(reserved, upto - 1);
        let before = open_slots(reserved, upto - 1);
        assert forall|k: int| 0 <= k < open_slots(reserved, upto).len() implies (#[trigger] open_slots(reserved, upto)[k])
            < upto && !reserved.contains(open_slots(reserved, upto)[k]) by {
            if k < before.len() {
                assert(open_slots(reserved, upto)[k] == before[k]);
            }
        }
    }
}

proof fn lemma_lists_agree(devices: Seq<DeviceView>, found: Seq<Found>, input: bool, upto: int)
    requires
        0 <= upto <= devices.len(),
        devices.len() <= usize::MAX,
        forall|i: int| 0 <= i < devices.len() ==> side_of(#[trigger] devices[i], input).len() <= usize::MAX,
    ensures
        names_upto(devices, found, input, upto).len() == refs_upto(devices, input, upto).len(),
        forall|k: int|
            0 <= k < refs_upto(devices, input, upto).len() ==> {
                let at = #[trigger] refs_upto(devices, input, upto)[k];
                &&& at.device < upto
                &&& at.slot < side_of(devices[at.device as int], input).len()
                &&& !reserved_of(devices[at.device as int], input).contains(at.slot)
            },
    decreases upto,
{
    if upto > 0 {
        lemma_lists_agree(devices, found, input, upto - 1);
        let device = devices[upto - 1];
        let count = side_of(device, input).len() as int;
        lemma_open_slots_open(reserved_of(device, input), count);
        let before = refs_upto(devices, input, upto - 1);
        let these = refs_of(device, upto - 1, input, count);
        assert forall|k: int| 0 <= k < refs_upto(devices, input, upto).len() implies {
            let at = #[trigger] refs_upto(devices, input, upto)[k];
            &&& at.device < upto
            &&& at.slot < side_of(devices[at.device as int], input).len()
            &&& !reserved_of(devices[at.device as int], input).contains(at.slot)
        } by {
            if k < before.len() {
                assert(refs_upto(devices, input, upto)[k] == before[k]);
            } else {
                assert(refs_upto(devices, input, upto)[k] == these[k - before.len()]);
                assert(side_of(devices[upto - 1], input).len() <= usize::MAX);
                let slot = open_slots(reserved_of(device, input), count)[k - before.len()];
                assert(these[k - before.len()] == ChannelRef { device: (upto - 1) as usize, slot });
            }
        }
    }
}

/// **The DAW is given a name for every channel, and never a channel kept for the driver**: each
/// channel of the aggregate's list is one of a device's channels that its phase measurement does
/// not keep, and it has a name beside it.
pub proof fn law_every_channel_given_is_named_and_open(
    found: Seq<Found>,
    config: Config,
    block: Option<i32>,
    planned: Plan,
)
    requires
        spec_plan(found, config, block) == Worked::Done(planned@),
    ensures
        planned@.input_names.len() == planned@.inputs.len(),
        planned@.output_names.len() == planned@.outputs.len(),
        forall|k: int|
            0 <= k < planned@.inputs.len() ==> {
                let at = #[trigger] planned@.inputs[k];
                &&& at.device < planned@.devices.len()
                &&& at.slot < planned@.devices[at.device as int].inputs.len()
                &&& !planned@.devices[at.device as int].reserved_inputs.contains(at.slot)
            },
        forall|k: int|
            0 <= k < planned@.outputs.len() ==> {
                let at = #[trigger] planned@.outputs[k];
                &&& at.device < planned@.devices.len()
                &&& at.slot < planned@.devices[at.device as int].outputs.len()
                &&& !planned@.devices[at.device as int].reserved_outputs.contains(at.slot)
            },
{
    let devices = planned@.devices;
    assert(planned.devices.len() == planned.devices@.len());
    assert forall|i: int| 0 <= i < devices.len() implies side_of(#[trigger] devices[i], true).len() <= usize::MAX
        && side_of(devices[i], false).len() <= usize::MAX by {
        assert(devices[i] == planned.devices@[i]@);
        assert(planned.devices@[i].inputs.len() == planned.devices@[i].inputs@.len());
        assert(planned.devices@[i].outputs.len() == planned.devices@[i].outputs@.len());
    }
    lemma_lists_agree(devices, found, true, devices.len() as int);
    lemma_lists_agree(devices, found, false, devices.len() as int);
}

impl Plan {
    /// A plan of nothing, for a test that needs the shape of one rather than a real one.
    pub fn empty_for_tests() -> (planned: Plan)
        ensures
            planned@.devices.len() == 0,
            planned.master == 0,
            planned.alignment == Alignment::Aligned,
            planned@.inputs.len() == 0,
            planned@.outputs.len() == 0,
            planned@.input_names.len() == 0,
            planned@.output_names.len() == 0,
            planned.min == 0,
            planned.max == 0,
            planned.preferred == 0,
            planned.granularity == -1,
            planned.block == 0,
            planned.input_latency == 0,
            planned.output_latency == 0,
    {
        Plan {
            devices: Vec::new(),
            master: 0,
            alignment: Alignment::Aligned,
            inputs: Vec::new(),
            outputs: Vec::new(),
            input_names: Vec::new(),
            output_names: Vec::new(),
            min: 0,
            max: 0,
            preferred: 0,
            granularity: -1,
            block: 0,
            input_latency: 0,
            output_latency: 0,
        }
    }
}

/// Whether a registry entry looks like one of the devices a configuration entry asked for: by its
/// class id when the entry gives one, and otherwise by its key, whole or in part and whatever the
/// case, in the entry's key or in its description.
pub open spec fn spec_matches(entry_key: Seq<char>, same_class: bool, description: Option<Seq<char>>, wanted: DeviceConfig) -> bool {
    if wanted.clsid is Some {
        same_class
    } else {
        match wanted.key {
            None => false,
            Some(key) => {
                let key = lowered(trim(key@));
                let entry = lowered(entry_key);
                ||| entry == key
                ||| appears_in(entry, key)
                ||| (description matches Some(text) && appears_in(lowered(text), key))
            },
        }
    }
}

/// Whether `text` holds `word` somewhere, whatever the case of either.
pub open spec fn holds_word(text: Seq<char>, word: Seq<char>) -> bool {
    exists|at: int| 0 <= at && at + word.len() <= text.len() && #[trigger] lowered(text).subrange(at, at + word.len())
        == lowered(word)
}

/// **A configured device is found by its clsid alone when it gives one, and otherwise by its
/// key**: any registry entry whose key or whose description holds the key, whatever the case and
/// with the space around the key taken off. An entry that gives neither finds nothing.
pub proof fn law_a_device_is_found_by_its_clsid_or_its_key(
    entry_key: Seq<char>,
    same_class: bool,
    description: Option<Seq<char>>,
    wanted: DeviceConfig,
)
    ensures
        wanted.clsid is Some ==> spec_matches(entry_key, same_class, description, wanted) == same_class,
        wanted.clsid is None && wanted.key is None ==> !spec_matches(entry_key, same_class, description, wanted),
        wanted.clsid is None ==> (wanted.key matches Some(key) ==> (spec_matches(entry_key, same_class, description, wanted)
            <==> (holds_word(entry_key, trim(key@)) || (description matches Some(text) && holds_word(
            text,
            trim(key@),
        ))))),
{
    if wanted.clsid is None && wanted.key is Some {
        let key = trim(wanted.key.unwrap()@);
        let small = lowered(key);
        assert(lowered(key).len() == key.len());
        let entry = lowered(entry_key);
        if entry == small {
            assert(lowered(entry_key).subrange(0, 0 + key.len() as int) =~= lowered(key));
            assert(holds_word(entry_key, key));
        }
        if appears_in(entry, small) {
            let at = choose|at: int| 0 <= at && at + small.len() <= entry.len() && #[trigger] entry.subrange(at, at + small.len()) == small;
            assert(lowered(entry_key).subrange(at, at + key.len()) == lowered(key));
            assert(holds_word(entry_key, key));
        }
        if holds_word(entry_key, key) {
            let at = choose|at: int| 0 <= at && at + key.len() <= entry_key.len() && #[trigger] lowered(entry_key).subrange(at, at + key.len()) == lowered(key);
            assert(entry.subrange(at, at + small.len()) == small);
            assert(appears_in(entry, small));
        }
        if let Some(text) = description {
            let low = lowered(text);
            if appears_in(low, small) {
                let at = choose|at: int| 0 <= at && at + small.len() <= low.len() && #[trigger] low.subrange(at, at + small.len()) == small;
                assert(lowered(text).subrange(at, at + key.len()) == lowered(key));
                assert(holds_word(text, key));
            }
            if holds_word(text, key) {
                let at = choose|at: int| 0 <= at && at + key.len() <= text.len() && #[trigger] lowered(text).subrange(at, at + key.len()) == lowered(key);
                assert(low.subrange(at, at + small.len()) == small);
                assert(appears_in(low, small));
            }
        }
    }
}

/// Whether a registry entry looks like one of the devices a configuration entry asked for.
/// `same_class` is whether the entry's class id is the one the configuration entry names, which
/// the stream interface decides, whatever the case and braces it is written in.
pub fn matches(entry_key: &str, same_class: bool, description: Option<&str>, wanted: &DeviceConfig) -> (found: bool)
    ensures
        found == spec_matches(
            entry_key@,
            same_class,
            match description {
                Some(text) => Some(text@),
                None => None,
            },
            *wanted,
        ),
{
    if wanted.clsid.is_some() {
        return same_class;
    }
    let key = match &wanted.key {
        Some(key) => key,
        None => return false,
    };
    let key_chars = chars_of(key.as_str());
    let trimmed = trim_chars(&key_chars);
    let key_small = lowercase(&trimmed);
    let entry_chars = chars_of(entry_key);
    let entry = lowercase(&entry_chars);
    if same_chars(&entry, &key_small) || contains(&entry, &key_small) {
        return true;
    }
    match description {
        Some(text) => {
            let text_chars = chars_of(text);
            let small = lowercase(&text_chars);
            contains(&small, &key_small)
        },
        None => false,
    }
}

} // verus!
