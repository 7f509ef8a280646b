//! What is plugged into what, for the calibration that measures what the aggregate has left over.
//!
//! A rig is the cabling written down: one output channel per device being measured, and one input
//! channel per device. Which side has to be on one device depends on which side is being measured,
//! and that is the whole difference between the two passes.
//!
//! On top of that a rig may carry **witnesses**: extra input channels that are recorded and
//! reported and take no part in any trim. One input per interface is what the trim arithmetic
//! means, so a second input on an interface cannot be a measurement; but it can be an observation.
use vstd::prelude::*;
use crate::plan::{longest, ChannelRef, Description, DevicePlan, DeviceView, Plan};
use crate::text::{append_str, decimal, digits, join_strings, joined, lemma_joined_push, number, number_usize};

verus! {

/// Which side of the interfaces this pass measures.
#[derive(Clone, Copy, Debug, PartialEq, Eq, Structural)]
pub enum Direction {
    /// One device plays, every device records. What comes out is the residual error between the
    /// devices' **inputs**, and it is cancelled with `input_trim`.
    Inputs,
    /// Every device plays, one device records. What comes out is the residual error between the
    /// devices' **outputs**, and it is cancelled with `output_trim`.
    Outputs,
}

impl Direction {
    pub open spec fn spec_as_str(self) -> Seq<char> {
        match self {
            Direction::Inputs => "inputs"@,
            Direction::Outputs => "outputs"@,
        }
    }

    /// The word for this side in a message, and the field of the file it belongs to.
    pub fn as_str(self) -> (word: &'static str)
        ensures
            word@ == self.spec_as_str(),
    {
        match self {
            Direction::Inputs => "inputs",
            Direction::Outputs => "outputs",
        }
    }

    pub open spec fn spec_trim_field(self) -> Seq<char> {
        match self {
            Direction::Inputs => "input_trim"@,
            Direction::Outputs => "output_trim"@,
        }
    }

    /// The name of the trim a measurement in this direction changes.
    pub fn trim_field(self) -> (field: &'static str)
        ensures
            field@ == self.spec_trim_field(),
    {
        match self {
            Direction::Inputs => "input_trim",
            Direction::Outputs => "output_trim",
        }
    }

    pub open spec fn spec_common_side(self) -> Seq<char> {
        match self {
            Direction::Inputs => "output"@,
            Direction::Outputs => "input"@,
        }
    }

    /// The side of the cabling that must all be on one device: the side the click has in common,
    /// so that the difference between the channels is the other side and nothing else.
    fn common_side(self) -> (side: &'static str)
        ensures
            side@ == self.spec_common_side(),
    {
        match self {
            Direction::Inputs => "output",
            Direction::Outputs => "input",
        }
    }
}

/// One channel of one interface, named the way the interface itself numbers it: which interface,
/// by its place in the file counted from zero, and which of that interface's own channels,
/// counted from zero.
///
/// **Why not the aggregate's own channel number.** The aggregate's numbering is worked out from how
/// many channels each interface's driver really has, which only the drivers know. The run opens the
/// drivers anyway, so it is the run that translates, and nothing upstream of it has to know the
/// layout at all.
#[derive(Clone, Copy, Debug, PartialEq, Eq, Structural)]
pub struct Pick {
    /// The interface, by its place in the file, from zero.
    pub device: i32,
    /// That interface's own channel number, from zero.
    pub channel: i32,
}

/// One more than a number, held at the largest there is.
pub open spec fn one_more(n: i32) -> i32 {
    if n < i32::MAX {
        (n + 1) as i32
    } else {
        i32::MAX
    }
}

fn one_more_than(n: i32) -> (more: i32)
    ensures
        more == one_more(n),
{
    if n < i32::MAX {
        n + 1
    } else {
        i32::MAX
    }
}

/// An interface by its place in the list, in words.
pub open spec fn spec_ordinal(device: i32) -> Seq<char> {
    if 0 <= device < 8 {
        "the "@ + seq![
            "first"@,
            "second"@,
            "third"@,
            "fourth"@,
            "fifth"@,
            "sixth"@,
            "seventh"@,
            "eighth"@,
        ][device as int] + " interface"@
    } else {
        "interface "@ + decimal(device as int)
    }
}

fn ordinal(device: i32) -> (said: String)
    ensures
        said@ == spec_ordinal(device),
{
    proof {
        reveal_strlit("the ");
        reveal_strlit(" interface");
        reveal_strlit("interface ");
    }
    if 0 <= device && device < 8 {
        let word = if device == 0 {
            "first"
        } else if device == 1 {
            "second"
        } else if device == 2 {
            "third"
        } else if device == 3 {
            "fourth"
        } else if device == 4 {
            "fifth"
        } else if device == 5 {
            "sixth"
        } else if device == 6 {
            "seventh"
        } else {
            "eighth"
        };
        let mut said = String::from_str("the ");
        append_str(&mut said, word);
        append_str(&mut said, " interface");
        said
    } else {
        let mut said = String::from_str("interface ");
        let number_text = number(device as i64);
        append_str(&mut said, number_text.as_str());
        said
    }
}

impl Pick {
    pub fn new(device: i32, channel: i32) -> (pick: Pick)
        ensures
            pick == (Pick { device, channel }),
    {
        Pick { device, channel }
    }

    /// The interface this names, once it is known to be one of them; no interface at all when the
    /// number is below zero.
    pub open spec fn spec_index(self) -> usize {
        if self.device >= 0 {
            self.device as usize
        } else {
            usize::MAX
        }
    }

    fn index(self) -> (index: usize)
        ensures
            index == self.spec_index(),
    {
        if self.device >= 0 {
            self.device as usize
        } else {
            usize::MAX
        }
    }

    /// What to call this channel in a sentence before anything is open: "input 1 of the second
    /// interface". Channels are counted from one here, as a person counts them.
    pub open spec fn spec_unnamed(self, what: Seq<char>) -> Seq<char> {
        what + " "@ + decimal(one_more(self.channel) as int) + " of "@ + spec_ordinal(self.device)
    }

    fn unnamed(self, what: &str) -> (said: String)
        ensures
            said@ == self.spec_unnamed(what@),
    {
        proof {
            reveal_strlit(" ");
            reveal_strlit(" of ");
        }
        let mut said = String::from_str(what);
        append_str(&mut said, " ");
        let counted = number(one_more_than(self.channel) as i64);
        append_str(&mut said, counted.as_str());
        append_str(&mut said, " of ");
        let place = ordinal(self.device);
        append_str(&mut said, place.as_str());
        said
    }

    /// What to call this channel once the interfaces are known: "Studio+ input 3".
    pub open spec fn spec_named(self, what: Seq<char>, names: Seq<String>) -> Seq<char> {
        let name = if self.spec_index() < names.len() {
            names[self.spec_index() as int]@
        } else {
            "that interface"@
        };
        name + " "@ + what + " "@ + decimal(one_more(self.channel) as int)
    }

    fn named(self, what: &str, names: &[String]) -> (said: String)
        ensures
            said@ == self.spec_named(what@, names@),
    {
        proof {
            reveal_strlit(" ");
            reveal_strlit("that interface");
        }
        let index = self.index();
        let mut said = if index < names.len() {
            names[index].clone()
        } else {
            String::from_str("that interface")
        };
        append_str(&mut said, " ");
        append_str(&mut said, what);
        append_str(&mut said, " ");
        let counted = number(one_more_than(self.channel) as i64);
        append_str(&mut said, counted.as_str());
        said
    }
}

/// The cabling, in device order: entry `n` of `inputs` and `outputs` is the cable for device `n`
/// of the aggregate.
///
/// For [`Direction::Inputs`] every entry of `outputs` is a channel of the **same** device, fanned
/// out to one input of each device. For [`Direction::Outputs`] it is the other way round: one
/// output on each device, all of them into inputs of one device.
#[derive(Clone, Debug, PartialEq, Eq)]
pub struct Rig {
    pub direction: Direction,
    /// The output channel the click leaves on, per device.
    pub outputs: Vec<Pick>,
    /// The input channel the click comes back on, per device.
    pub inputs: Vec<Pick>,
    /// Extra input channels to record and report, which take no part in any trim. A witness may be
    /// any input channel the aggregate has, including a second one on an interface that is already
    /// being measured; it may not be a channel this rig is already measuring.
    pub witnesses: Vec<Pick>,
    /// Which device everything is measured against. Its lag is zero by definition and its trim is
    /// left alone, so this is the interface the others are moved to meet.
    pub reference: usize,
}

/// The first place in a list whose value comes again further on, looking no further than `upto`.
pub open spec fn repeat_upto(list: Seq<Pick>, upto: int) -> Option<int>
    decreases upto,
{
    if upto <= 0 {
        None
    } else {
        match repeat_upto(list, upto - 1) {
            Some(at) => Some(at),
            None => if list.subrange(upto, list.len() as int).contains(list[upto - 1]) {
                Some(upto - 1)
            } else {
                None
            },
        }
    }
}

/// The first value in a list that comes again further on.
pub open spec fn spec_first_repeat(list: Seq<Pick>) -> Option<Pick> {
    match repeat_upto(list, list.len() as int) {
        Some(at) => Some(list[at]),
        None => None,
    }
}

fn first_repeat(list: &[Pick]) -> (repeated: Option<Pick>)
    ensures
        repeated == spec_first_repeat(list@),
{
    let mut index: usize = 0;
    while index < list.len()
        invariant
            index <= list@.len(),
            repeat_upto(list@, index as int) == None::<int>,
        decreases list@.len() - index,
    {
        let value = list[index];
        let mut later: usize = index + 1;
        let mut again = false;
        while later < list.len()
            invariant
                index < list@.len(),
                index < later <= list@.len(),
                value == list@[index as int],
                again == list@.subrange(index + 1, later as int).contains(value),
            decreases list@.len() - later,
        {
            proof {
                let before = list@.subrange(index + 1, later as int);
                let after = list@.subrange(index + 1, later + 1);
                assert(after =~= before.push(list@[later as int]));
                assert(after[after.len() - 1] == list@[later as int]);
                if before.contains(value) {
                    let k = choose|k: int| 0 <= k < before.len() && before[k] == value;
                    assert(after[k] == value);
                }
                if after.contains(value) && !before.contains(value) {
                    let k = choose|k: int| 0 <= k < after.len() && after[k] == value;
                    if k < before.len() {
                        assert(before[k] == value);
                    }
                }
            }
            if list[later] == value {
                again = true;
            }
            later = later + 1;
        }
        proof {
            assert(repeat_upto(list@, index + 1) == if again {
                Some(index as int)
            } else {
                None::<int>
            });
        }
        if again {
            proof {
                lemma_repeat_stays(list@, index + 1, list@.len() as int);
            }
            return Some(value);
        }
        index = index + 1;
    }
    None
}

proof fn lemma_repeat_stays(list: Seq<Pick>, from: int, to: int)
    requires
        0 <= from <= to,
        repeat_upto(list, from).is_some(),
    ensures
        repeat_upto(list, to) == repeat_upto(list, from),
    decreases to - from,
{
    if to > from {
        lemma_repeat_stays(list, from, to - 1);
    }
}

/// A pick that is not a channel of any interface at all, in the words a refusal uses.
pub open spec fn spec_bad_pick(pick: Pick, what: Seq<char>) -> Option<Seq<char>> {
    if pick.device < 0 {
        Some(
            "interface "@ + decimal(pick.device as int)
                + " is not one of them: a request counts the interfaces from zero, in the order aggregate.json lists them"@,
        )
    } else if pick.channel < 0 {
        Some(
            decimal(pick.channel as int) + " is not a channel: a request counts each interface's own "@ + what
                + "s from zero, so its first "@ + what + " is 0"@,
        )
    } else {
        None
    }
}

/// The first pick of a list that is not a channel at all, looking no further than `upto`.
pub open spec fn first_bad_upto(list: Seq<Pick>, what: Seq<char>, upto: int) -> Option<Seq<char>>
    decreases upto,
{
    if upto <= 0 {
        None
    } else {
        match first_bad_upto(list, what, upto - 1) {
            Some(why) => Some(why),
            None => spec_bad_pick(list[upto - 1], what),
        }
    }
}

fn bad_pick(pick: Pick, what: &str) -> (why: Option<String>)
    ensures
        match why {
            Some(text) => spec_bad_pick(pick, what@) == Some(text@),
            None => spec_bad_pick(pick, what@).is_none(),
        },
{
    proof {
        reveal_strlit("interface ");
        reveal_strlit(
            " is not one of them: a request counts the interfaces from zero, in the order aggregate.json lists them",
        );
        reveal_strlit(" is not a channel: a request counts each interface's own ");
        reveal_strlit("s from zero, so its first ");
        reveal_strlit(" is 0");
    }
    if pick.device < 0 {
        let mut why = String::from_str("interface ");
        let device = number(pick.device as i64);
        append_str(&mut why, device.as_str());
        append_str(
            &mut why,
            " is not one of them: a request counts the interfaces from zero, in the order aggregate.json lists them",
        );
        return Some(why);
    }
    if pick.channel < 0 {
        let mut why = number(pick.channel as i64);
        append_str(&mut why, " is not a channel: a request counts each interface's own ");
        append_str(&mut why, what);
        append_str(&mut why, "s from zero, so its first ");
        append_str(&mut why, what);
        append_str(&mut why, " is 0");
        return Some(why);
    }
    None
}

fn first_bad(list: &[Pick], what: &str) -> (why: Option<String>)
    ensures
        match why {
            Some(text) => first_bad_upto(list@, what@, list@.len() as int) == Some(text@),
            None => first_bad_upto(list@, what@, list@.len() as int).is_none(),
        },
{
    let mut i: usize = 0;
    while i < list.len()
        invariant
            i <= list@.len(),
            first_bad_upto(list@, what@, i as int).is_none(),
        decreases list@.len() - i,
    {
        match bad_pick(list[i], what) {
            Some(why) => {
                proof {
                    lemma_first_bad_stays(list@, what@, i + 1, list@.len() as int);
                }
                return Some(why);
            },
            None => {},
        }
        i = i + 1;
    }
    None
}

proof fn lemma_first_bad_stays(list: Seq<Pick>, what: Seq<char>, from: int, to: int)
    requires
        0 <= from <= to,
        first_bad_upto(list, what, from).is_some(),
    ensures
        first_bad_upto(list, what, to) == first_bad_upto(list, what, from),
    decreases to - from,
{
    if to > from {
        lemma_first_bad_stays(list, what, from, to - 1);
    }
}

/// The first witness that is already one of the measured inputs, looking no further than `upto`.
pub open spec fn clash_upto(witnesses: Seq<Pick>, inputs: Seq<Pick>, upto: int) -> Option<Pick>
    decreases upto,
{
    if upto <= 0 {
        None
    } else {
        match clash_upto(witnesses, inputs, upto - 1) {
            Some(pick) => Some(pick),
            None => if inputs.contains(witnesses[upto - 1]) {
                Some(witnesses[upto - 1])
            } else {
                None
            },
        }
    }
}

fn first_clash(witnesses: &[Pick], inputs: &[Pick]) -> (clash: Option<Pick>)
    ensures
        clash == clash_upto(witnesses@, inputs@, witnesses@.len() as int),
{
    let mut i: usize = 0;
    while i < witnesses.len()
        invariant
            i <= witnesses@.len(),
            clash_upto(witnesses@, inputs@, i as int).is_none(),
        decreases witnesses@.len() - i,
    {
        let witness = witnesses[i];
        let mut k: usize = 0;
        while k < inputs.len()
            invariant
                i < witnesses@.len(),
                k <= inputs@.len(),
                clash_upto(witnesses@, inputs@, i as int).is_none(),
                witness == witnesses@[i as int],
                forall|j: int| 0 <= j < k ==> inputs@[j] != witness,
            decreases inputs@.len() - k,
        {
            if inputs[k] == witness {
                proof {
                    assert(inputs@.contains(witness));
                    lemma_clash_stays(witnesses@, inputs@, i + 1, witnesses@.len() as int);
                }
                return Some(witness);
            }
            k = k + 1;
        }
        i = i + 1;
    }
    None
}

proof fn lemma_clash_stays(witnesses: Seq<Pick>, inputs: Seq<Pick>, from: int, to: int)
    requires
        0 <= from <= to,
        clash_upto(witnesses, inputs, from).is_some(),
    ensures
        clash_upto(witnesses, inputs, to) == clash_upto(witnesses, inputs, from),
    decreases to - from,
{
    if to > from {
        lemma_clash_stays(witnesses, inputs, from, to - 1);
    }
}

impl Rig {
    /// The two cable rig: device order, reference first, nothing carried along.
    pub fn new(direction: Direction, outputs: Vec<Pick>, inputs: Vec<Pick>) -> (rig: Rig)
        ensures
            rig.direction == direction,
            rig.outputs@ == outputs@,
            rig.inputs@ == inputs@,
            rig.witnesses@.len() == 0,
            rig.reference == 0,
    {
        Rig { direction, outputs, inputs, witnesses: Vec::new(), reference: 0 }
    }

    /// The same rig, listening in on these input channels as well.
    pub fn watching(self, witnesses: Vec<Pick>) -> (rig: Rig)
        ensures
            rig.direction == self.direction,
            rig.outputs@ == self.outputs@,
            rig.inputs@ == self.inputs@,
            rig.witnesses@ == witnesses@,
            rig.reference == self.reference,
    {
        let mut rig = self;
        rig.witnesses = witnesses;
        rig
    }

    /// How many devices this rig describes.
    pub fn devices(&self) -> (count: usize)
        ensures
            count == self.inputs@.len(),
    {
        self.inputs.len()
    }

    /// The side of the cabling the click has in common.
    pub open spec fn common(self) -> Seq<Pick> {
        match self.direction {
            Direction::Inputs => self.outputs@,
            Direction::Outputs => self.inputs@,
        }
    }

    /// The side of the cabling being measured, one channel per device.
    pub open spec fn separate(self) -> Seq<Pick> {
        match self.direction {
            Direction::Inputs => self.inputs@,
            Direction::Outputs => self.outputs@,
        }
    }

    /// The word for one channel of the side being measured.
    pub open spec fn separate_side(self) -> Seq<char> {
        match self.direction {
            Direction::Inputs => "input"@,
            Direction::Outputs => "output"@,
        }
    }

    /// Everything that is wrong with the cabling itself, in the order the refusal looks for it.
    pub open spec fn spec_refusal(self) -> Option<Seq<char>> {
        let devices = self.inputs@.len();
        if devices != self.outputs@.len() {
            Some(
                "this rig names "@ + digits(devices) + " input channels and "@ + digits(self.outputs@.len())
                    + " output channels, and it needs one of each per interface: write the channel each interface's cable is plugged into, in the order the interfaces appear in aggregate.json"@,
            )
        } else if devices < 2 {
            Some(
                "there is nothing to measure with fewer than two interfaces: a lag is the difference between two of them, so name a channel for each interface in aggregate.json"@,
            )
        } else if self.reference >= devices {
            Some(
                "the reference is interface "@ + digits(self.reference as nat) + ", and this rig only describes "@
                    + digits(devices)
                    + ": the reference is the interface the others are lined up to, counted from zero"@,
            )
        } else if first_bad_upto(self.inputs@, "input"@, devices as int).is_some() {
            first_bad_upto(self.inputs@, "input"@, devices as int)
        } else if first_bad_upto(self.outputs@, "output"@, devices as int).is_some() {
            first_bad_upto(self.outputs@, "output"@, devices as int)
        } else if first_bad_upto(self.witnesses@, "input"@, self.witnesses@.len() as int).is_some() {
            first_bad_upto(self.witnesses@, "input"@, self.witnesses@.len() as int)
        } else if spec_first_repeat(self.common()) is Some {
            Some(
                spec_first_repeat(self.common())->0.spec_unnamed(self.direction.spec_common_side())
                    + " is cabled twice, and every cable needs a channel of its own so that the two copies of the click can be told apart"@,
            )
        } else if spec_first_repeat(self.separate()) is Some {
            Some(
                spec_first_repeat(self.separate())->0.spec_unnamed(self.separate_side())
                    + " is named for two interfaces at once, and each interface needs its own cable"@,
            )
        } else if spec_first_repeat(self.witnesses@) is Some {
            Some(
                spec_first_repeat(self.witnesses@)->0.spec_unnamed("input"@)
                    + " is listened in on twice, and one channel is one recording: name it once and it is carried along once"@,
            )
        } else if clash_upto(self.witnesses@, self.inputs@, self.witnesses@.len() as int) is Some {
            Some(
                clash_upto(self.witnesses@, self.inputs@, self.witnesses@.len() as int)->0.spec_unnamed("input"@)
                    + " is already one of the channels this run measures, so it cannot also be carried along as a witness: a witness is an extra channel to listen in on, and this one is already a reading"@,
            )
        } else {
            None
        }
    }

    /// Everything that is wrong with the cabling itself, decided without opening anything. What
    /// needs the drivers to answer is checked by [`Rig::wired`], and still before a sample is
    /// played.
    pub fn refusal(&self) -> (why: Option<String>)
        ensures
            match why {
                Some(text) => self.spec_refusal() == Some(text@),
                None => self.spec_refusal().is_none(),
            },
    {
        proof {
            reveal_strlit("this rig names ");
            reveal_strlit(" input channels and ");
            reveal_strlit(
                " output channels, and it needs one of each per interface: write the channel each interface's cable is plugged into, in the order the interfaces appear in aggregate.json",
            );
            reveal_strlit(
                "there is nothing to measure with fewer than two interfaces: a lag is the difference between two of them, so name a channel for each interface in aggregate.json",
            );
            reveal_strlit("the reference is interface ");
            reveal_strlit(", and this rig only describes ");
            reveal_strlit(": the reference is the interface the others are lined up to, counted from zero");
            reveal_strlit(
                " is cabled twice, and every cable needs a channel of its own so that the two copies of the click can be told apart",
            );
            reveal_strlit(" is named for two interfaces at once, and each interface needs its own cable");
            reveal_strlit(
                " is listened in on twice, and one channel is one recording: name it once and it is carried along once",
            );
            reveal_strlit(
                " is already one of the channels this run measures, so it cannot also be carried along as a witness: a witness is an extra channel to listen in on, and this one is already a reading",
            );
        }
        let devices = self.inputs.len();
        if devices != self.outputs.len() {
            let mut why = String::from_str("this rig names ");
            let ins = number_usize(devices);
            append_str(&mut why, ins.as_str());
            append_str(&mut why, " input channels and ");
            let outs = number_usize(self.outputs.len());
            append_str(&mut why, outs.as_str());
            append_str(
                &mut why,
                " output channels, and it needs one of each per interface: write the channel each interface's cable is plugged into, in the order the interfaces appear in aggregate.json",
            );
            return Some(why);
        }
        if devices < 2 {
            return Some(
                String::from_str(
                    "there is nothing to measure with fewer than two interfaces: a lag is the difference between two of them, so name a channel for each interface in aggregate.json",
                ),
            );
        }
        if self.reference >= devices {
            let mut why = String::from_str("the reference is interface ");
            let reference = number_usize(self.reference);
            append_str(&mut why, reference.as_str());
            append_str(&mut why, ", and this rig only describes ");
            let count = number_usize(devices);
            append_str(&mut why, count.as_str());
            append_str(&mut why, ": the reference is the interface the others are lined up to, counted from zero");
            return Some(why);
        }
        proof {
            reveal_strlit("input");
            reveal_strlit("output");
        }
        if let Some(why) = first_bad(self.inputs.as_slice(), "input") {
            return Some(why);
        }
        if let Some(why) = first_bad(self.outputs.as_slice(), "output") {
            return Some(why);
        }
        if let Some(why) = first_bad(self.witnesses.as_slice(), "input") {
            return Some(why);
        }
        let common = match self.direction {
            Direction::Inputs => &self.outputs,
            Direction::Outputs => &self.inputs,
        };
        if let Some(repeated) = first_repeat(common.as_slice()) {
            let mut why = repeated.unnamed(self.direction.common_side());
            append_str(
                &mut why,
                " is cabled twice, and every cable needs a channel of its own so that the two copies of the click can be told apart",
            );
            return Some(why);
        }
        let (separate, side) = match self.direction {
            Direction::Inputs => (&self.inputs, "input"),
            Direction::Outputs => (&self.outputs, "output"),
        };
        if let Some(repeated) = first_repeat(separate.as_slice()) {
            let mut why = repeated.unnamed(side);
            append_str(&mut why, " is named for two interfaces at once, and each interface needs its own cable");
            return Some(why);
        }
        if let Some(repeated) = first_repeat(self.witnesses.as_slice()) {
            let mut why = repeated.unnamed("input");
            append_str(
                &mut why,
                " is listened in on twice, and one channel is one recording: name it once and it is carried along once",
            );
            return Some(why);
        }
        if let Some(clash) = first_clash(self.witnesses.as_slice(), self.inputs.as_slice()) {
            let mut why = clash.unnamed("input");
            append_str(
                &mut why,
                " is already one of the channels this run measures, so it cannot also be carried along as a witness: a witness is an extra channel to listen in on, and this one is already a reading",
            );
            return Some(why);
        }
        None
    }
}

/// Whether each number of a list is larger than the one before it.
pub open spec fn increasing(s: Seq<i32>) -> bool {
    forall|i: int, j: int| 0 <= i < j < s.len() ==> s[i] < s[j]
}

/// Whether two lists hold the same numbers, however often and in whatever order.
pub open spec fn same_members(a: Seq<i32>, b: Seq<i32>) -> bool {
    forall|x: i32| a.contains(x) <==> b.contains(x)
}

/// The numbers of a list, each once, smallest first.
pub open spec fn sorted_once(channels: Seq<i32>) -> Seq<i32> {
    choose|s: Seq<i32>| increasing(s) && same_members(s, channels)
}

/// Two lists that are both increasing and hold the same numbers are one list.
proof fn lemma_increasing_unique(a: Seq<i32>, b: Seq<i32>)
    requires
        increasing(a),
        increasing(b),
        same_members(a, b),
    ensures
        a == b,
    decreases a.len() + b.len(),
{
    if a.len() == 0 {
        if b.len() > 0 {
            assert(b.contains(b[0]));
        }
        assert(a =~= b);
    } else if b.len() == 0 {
        assert(a.contains(a[0]));
    } else {
        assert(a.contains(a[0]));
        assert(b.contains(b[0]));
        let j = choose|j: int| 0 <= j < b.len() && b[j] == a[0];
        let k = choose|k: int| 0 <= k < a.len() && a[k] == b[0];
        assert(b[0] <= b[j]);
        assert(a[0] <= a[k]);
        assert(a[0] == b[0]);
        let ta = a.drop_first();
        let tb = b.drop_first();
        assert forall|x: i32| ta.contains(x) <==> tb.contains(x) by {
            if ta.contains(x) {
                let i = choose|i: int| 0 <= i < ta.len() && ta[i] == x;
                assert(a[i + 1] == x);
                assert(a.contains(x));
                assert(b.contains(x));
                let m = choose|m: int| 0 <= m < b.len() && b[m] == x;
                assert(x > a[0]);
                assert(m != 0);
                assert(tb[m - 1] == x);
            }
            if tb.contains(x) {
                let i = choose|i: int| 0 <= i < tb.len() && tb[i] == x;
                assert(b[i + 1] == x);
                assert(b.contains(x));
                assert(a.contains(x));
                let m = choose|m: int| 0 <= m < a.len() && a[m] == x;
                assert(x > b[0]);
                assert(m != 0);
                assert(ta[m - 1] == x);
            }
        }
        lemma_increasing_unique(ta, tb);
        assert(a =~= seq![a[0]] + ta);
        assert(b =~= seq![b[0]] + tb);
    }
}

/// The runs of consecutive numbers in an increasing list, each as where it starts and where it
/// ends.
pub open spec fn spec_runs(s: Seq<i32>) -> Seq<(i32, i32)>
    decreases s.len(),
{
    if s.len() == 0 {
        Seq::empty()
    } else {
        let before = spec_runs(s.drop_last());
        if before.len() > 0 && before.last().1 + 1 == s.last() {
            before.update(before.len() - 1, (before.last().0, s.last()))
        } else {
            before.push((s.last(), s.last()))
        }
    }
}

/// One run of channels, counted from one as a person counts them: "1 to 4", or "7".
pub open spec fn spec_run_text(run: (i32, i32)) -> Seq<char> {
    if run.1 > run.0 {
        decimal(run.0 + 1) + " to "@ + decimal(run.1 + 1)
    } else {
        decimal(run.0 + 1)
    }
}

/// A set of channel numbers from zero, said as a person counts them: "1 to 4, 7 and 9".
pub open spec fn spec_numbered(channels: Seq<i32>) -> Seq<char> {
    let texts = spec_runs(sorted_once(channels)).map_values(|run: (i32, i32)| spec_run_text(run));
    if texts.len() == 0 {
        Seq::empty()
    } else if texts.len() == 1 {
        texts[0]
    } else {
        joined(texts.drop_last(), ", "@) + " and "@ + texts.last()
    }
}

proof fn lemma_runs_end(s: Seq<i32>)
    ensures
        s.len() > 0 <==> spec_runs(s).len() > 0,
        s.len() > 0 ==> spec_runs(s).last().1 == s.last(),
    decreases s.len(),
{
    if s.len() > 0 {
        lemma_runs_end(s.drop_last());
    }
}

fn run_text(run: (i32, i32)) -> (said: String)
    requires
        run.0 < i32::MAX,
        run.1 < i32::MAX,
    ensures
        said@ == spec_run_text(run),
{
    proof {
        reveal_strlit(" to ");
    }
    let mut said = number((run.0 + 1) as i64);
    if run.1 > run.0 {
        append_str(&mut said, " to ");
        let end = number((run.1 + 1) as i64);
        append_str(&mut said, end.as_str());
    }
    said
}

/// A set of channel numbers from zero, said as a person counts them: "1 to 4, 7 and 9".
pub fn numbered(channels: &[i32]) -> (said: String)
    requires
        forall|k: int| 0 <= k < channels@.len() ==> channels@[k] < i32::MAX,
    ensures
        said@ == spec_numbered(channels@),
{
    proof {
        reveal_strlit(", ");
        reveal_strlit(" and ");
    }
    let mut sorted: Vec<i32> = Vec::new();
    let mut i: usize = 0;
    while i < channels.len()
        invariant
            i <= channels@.len(),
            increasing(sorted@),
            same_members(sorted@, channels@.take(i as int)),
        decreases channels@.len() - i,
    {
        let c = channels[i];
        let mut p: usize = 0;
        while p < sorted.len() && sorted[p] < c
            invariant
                p <= sorted@.len(),
                forall|k: int| 0 <= k < p ==> sorted@[k] < c,
            decreases sorted@.len() - p,
        {
            p = p + 1;
        }
        proof {
            assert(channels@.take(i + 1) =~= channels@.take(i as int).push(c));
        }
        if p < sorted.len() && sorted[p] == c {
            proof {
                assert forall|x: i32| sorted@.contains(x) <==> channels@.take(i + 1).contains(x) by {
                    if x == c {
                        assert(sorted@[p as int] == c);
                        assert(channels@.take(i + 1)[i as int] == c);
                    }
                    if channels@.take(i + 1).contains(x) && x != c {
                        let grown = channels@.take(i + 1);
                        let m = choose|m: int| 0 <= m < i + 1 && grown[m] == x;
                        assert(m < i);
                        assert(channels@.take(i as int)[m] == x);
                    }
                    if sorted@.contains(x) {
                        assert(channels@.take(i as int).contains(x));
                        let had = channels@.take(i as int);
                        let m = choose|m: int| 0 <= m < i && had[m] == x;
                        assert(channels@.take(i + 1)[m] == x);
                    }
                }
            }
        } else {
            let ghost before = sorted@;
            sorted.insert(p, c);
            proof {
                assert(sorted@ =~= before.insert(p as int, c));
                assert forall|a: int, b: int| 0 <= a < b < sorted@.len() implies sorted@[a] < sorted@[b] by {
                    if b < p {
                    } else if a > p {
                        assert(sorted@[a] == before[a - 1]);
                        assert(sorted@[b] == before[b - 1]);
                    } else if a == p {
                        assert(sorted@[b] == before[b - 1]);
                        assert(before[p as int] > c);
                        if b - 1 > p {
                            assert(before[p as int] < before[b - 1]);
                        }
                    } else {
                        assert(sorted@[a] == before[a]);
                        assert(before[a] < c);
                        if b > p {
                            assert(sorted@[b] == before[b - 1]);
                            assert(before[a] < before[b - 1]);
                        }
                    }
                }
                assert forall|x: i32| sorted@.contains(x) <==> channels@.take(i + 1).contains(x) by {
                    if x == c {
                        assert(sorted@[p as int] == c);
                        assert(channels@.take(i + 1)[i as int] == c);
                    }
                    if channels@.take(i + 1).contains(x) && x != c {
                        let grown = channels@.take(i + 1);
                        let m = choose|m: int| 0 <= m < i + 1 && grown[m] == x;
                        assert(m < i);
                        assert(channels@.take(i as int)[m] == x);
                        assert(before.contains(x));
                        let q = choose|q: int| 0 <= q < before.len() && before[q] == x;
                        if q < p {
                            assert(sorted@[q] == x);
                        } else {
                            assert(sorted@[q + 1] == x);
                        }
                    }
                    if sorted@.contains(x) && x != c {
                        let q = choose|q: int| 0 <= q < sorted@.len() && sorted@[q] == x;
                        if q < p {
                            assert(before[q] == x);
                        } else {
                            assert(q != p);
                            assert(before[q - 1] == x);
                        }
                        assert(before.contains(x));
                        assert(channels@.take(i as int).contains(x));
                        let had = channels@.take(i as int);
                        let m = choose|m: int| 0 <= m < i && had[m] == x;
                        assert(channels@.take(i + 1)[m] == x);
                    }
                }
            }
        }
        i = i + 1;
    }
    proof {
        assert(channels@.take(channels@.len() as int) =~= channels@);
        lemma_increasing_unique(sorted@, sorted_once(channels@));
    }
    let mut runs: Vec<(i32, i32)> = Vec::new();
    let mut k: usize = 0;
    while k < sorted.len()
        invariant
            k <= sorted@.len(),
            increasing(sorted@),
            same_members(sorted@, channels@),
            forall|j: int| 0 <= j < channels@.len() ==> channels@[j] < i32::MAX,
            runs@ == spec_runs(sorted@.take(k as int)),
            forall|j: int| 0 <= j < runs@.len() ==> runs@[j].0 <= runs@[j].1 && runs@[j].1 < i32::MAX,
        decreases sorted@.len() - k,
    {
        let c = sorted[k];
        proof {
            assert(sorted@.contains(c));
            assert(channels@.contains(c));
            assert(sorted@.take(k + 1).drop_last() =~= sorted@.take(k as int));
            lemma_runs_end(sorted@.take(k as int));
            if k > 0 {
                assert(sorted@.take(k as int).last() == sorted@[k - 1]);
                assert(sorted@[k - 1] < c);
            }
        }
        let last = runs.len();
        if last > 0 && runs[last - 1].1 + 1 == c {
            let start = runs[last - 1].0;
            runs.set(last - 1, (start, c));
        } else {
            runs.push((c, c));
        }
        k = k + 1;
    }
    proof {
        assert(sorted@.take(sorted@.len() as int) =~= sorted@);
    }
    let ghost texts = runs@.map_values(|run: (i32, i32)| spec_run_text(run));
    let count = runs.len();
    if count == 0 {
        return String::new();
    }
    if count == 1 {
        return run_text(runs[0]);
    }
    let mut said = String::new();
    let mut r: usize = 0;
    while r < count - 1
        invariant
            count == runs@.len(),
            count >= 2,
            r <= count - 1,
            texts == runs@.map_values(|run: (i32, i32)| spec_run_text(run)),
            forall|j: int| 0 <= j < runs@.len() ==> runs@[j].0 <= runs@[j].1 && runs@[j].1 < i32::MAX,
            said@ == joined(texts.take(r as int), ", "@),
        decreases count - 1 - r,
    {
        let piece = run_text(runs[r]);
        proof {
            lemma_joined_push(texts.take(r as int), ", "@, piece@);
            assert(texts.take(r as int).push(piece@) =~= texts.take(r + 1));
        }
        if r > 0 {
            append_str(&mut said, ", ");
        }
        append_str(&mut said, piece.as_str());
        r = r + 1;
    }
    assert(texts.take(count - 1) =~= texts.drop_last());
    append_str(&mut said, " and ");
    let last_text = run_text(runs[count - 1]);
    append_str(&mut said, last_text.as_str());
    said
}

/// One interface as the opened aggregate has it: what its driver really has, and which of its
/// channels the setup keeps for the driver's phase measurement.
#[derive(Clone, Debug, PartialEq, Eq)]
pub struct Interface {
    /// What the file calls it.
    pub name: String,
    /// How many inputs its driver has, whether or not the setup exposes them.
    pub inputs: i32,
    pub outputs: i32,
    /// Its own input its phase is measured on, when the setup measures one.
    pub phase_input: Option<i32>,
    /// Its own outputs another interface's phase is measured from, each with the interface whose
    /// phase that is.
    pub phase_outputs: Vec<(i32, String)>,
}

/// The aggregate's layout, as the run finds it once the drivers are open: every interface, and the
/// aggregate's own inputs and outputs as `(interface, that interface's own channel)`, in the order a
/// DAW is given them.
#[derive(Clone, Debug, PartialEq, Eq)]
pub struct Layout {
    pub interfaces: Vec<Interface>,
    pub inputs: Vec<(usize, i32)>,
    pub outputs: Vec<(usize, i32)>,
}

impl Layout {
    /// What each interface is called, in order.
    pub open spec fn spec_names(self) -> Seq<String> {
        self.interfaces@.map_values(|interface: Interface| interface.name)
    }

    fn names(&self) -> (names: Vec<String>)
        ensures
            names@ == self.spec_names(),
    {
        let mut names: Vec<String> = Vec::new();
        let mut i: usize = 0;
        while i < self.interfaces.len()
            invariant
                i <= self.interfaces@.len(),
                names@ == self.spec_names().take(i as int),
            decreases self.interfaces@.len() - i,
        {
            names.push(self.interfaces[i].name.clone());
            proof {
                assert(names@ =~= self.spec_names().take(i + 1));
            }
            i = i + 1;
        }
        assert(self.spec_names().take(self.interfaces@.len() as int) =~= self.spec_names());
        names
    }
}

/// The rig in the aggregate's own channel numbers, which is what its buffers are asked for by.
#[derive(Clone, Debug, PartialEq, Eq)]
pub struct Wired {
    pub outputs: Vec<i32>,
    pub inputs: Vec<i32>,
    pub witnesses: Vec<i32>,
}

/// How a piece of the wiring comes out: a value, a sentence that refuses it, or an input the
/// calculation is not defined on at all.
pub enum Outcome<T> {
    Undefined,
    Refused(Seq<char>),
    Done(T),
}

/// The first place in a list of exposed channels that is this interface's own channel.
pub open spec fn position_in(list: Seq<(usize, i32)>, device: usize, channel: i32, upto: int) -> Option<int>
    decreases upto,
{
    if upto <= 0 {
        None
    } else {
        match position_in(list, device, channel, upto - 1) {
            Some(at) => Some(at),
            None => if list[upto - 1] == (device, channel) {
                Some(upto - 1)
            } else {
                None
            },
        }
    }
}

/// The channels of one interface that a list exposes, in the list's order.
pub open spec fn exposed_of(list: Seq<(usize, i32)>, device: usize) -> Seq<i32>
    decreases list.len(),
{
    if list.len() == 0 {
        Seq::empty()
    } else if list.last().0 == device {
        exposed_of(list.drop_last(), device).push(list.last().1)
    } else {
        exposed_of(list.drop_last(), device)
    }
}

/// The first of an interface's phase outputs on this channel, and whose phase it carries.
pub open spec fn phase_output_upto(outputs: Seq<(i32, String)>, channel: i32, upto: int) -> Option<Seq<char>>
    decreases upto,
{
    if upto <= 0 {
        None
    } else {
        match phase_output_upto(outputs, channel, upto - 1) {
            Some(whose) => Some(whose),
            None => if outputs[upto - 1].0 == channel {
                Some(outputs[upto - 1].1@)
            } else {
                None
            },
        }
    }
}

/// The word for one channel of a side.
pub open spec fn side_word(input: bool) -> Seq<char> {
    if input {
        "input"@
    } else {
        "output"@
    }
}

/// How many channels of a side an interface's driver has.
pub open spec fn side_count(interface: Interface, input: bool) -> i32 {
    if input {
        interface.inputs
    } else {
        interface.outputs
    }
}

/// The aggregate's channels of a side, as interface and that interface's own channel.
pub open spec fn side_list(layout: Layout, input: bool) -> Seq<(usize, i32)> {
    if input {
        layout.inputs@
    } else {
        layout.outputs@
    }
}

/// Where one interface's own channel is in the aggregate's list, or why it is not there.
pub open spec fn spec_locate(layout: Layout, pick: Pick, input: bool, purpose: Seq<char>) -> Outcome<i32> {
    let names = layout.spec_names();
    let what = side_word(input);
    let interface = layout.interfaces@[pick.spec_index() as int];
    let name = interface.name@;
    let has = side_count(interface, input);
    let this = pick.spec_named(what, names);
    let list = side_list(layout, input);
    let whose = phase_output_upto(interface.phase_outputs@, pick.channel, interface.phase_outputs@.len() as int);
    let exposed = exposed_of(list, pick.spec_index());
    if pick.channel >= has {
        if pick.channel == i32::MAX {
            Outcome::Undefined
        } else if has <= 0 {
            Outcome::Refused(
                name + " has no "@ + what + "s at all, so there is no "@ + what + " "@ + decimal(pick.channel + 1)
                    + " on it to "@ + purpose,
            )
        } else {
            Outcome::Refused(
                name + " has "@ + decimal(has as int) + " "@ + what + "s, numbered 1 to "@ + decimal(has as int)
                    + ", so there is no "@ + what + " "@ + decimal(pick.channel + 1) + " on it to "@ + purpose
                    + " (a request counts them from zero, 0 to "@ + decimal(has - 1) + ")"@,
            )
        }
    } else if input && interface.phase_input == Some(pick.channel) {
        Outcome::Refused(
            this + " is where "@ + name
                + "'s phase measurement arrives, so the setup keeps it for the driver and out of the aggregate, and there is nothing there to "@
                + purpose + ": choose another input, or move the phase cable under Phase setup on "@ + name
                + "'s card"@,
        )
    } else if !input && whose is Some {
        Outcome::Refused(
            this + " carries the signal "@ + whose->0
                + "'s phase is measured with, so the setup keeps it for the driver and out of the aggregate, and there is nothing there to "@
                + purpose + ": choose another output, or move the phase cable under Phase setup on "@ + whose->0
                + "'s card"@,
        )
    } else if position_in(list, pick.spec_index(), pick.channel, list.len() as int) is Some {
        Outcome::Done(position_in(list, pick.spec_index(), pick.channel, list.len() as int)->0 as i32)
    } else if exposed.len() == 0 {
        Outcome::Refused(
            this + " is kept out of the aggregate by the setup, and so is every other "@ + what + " "@ + name
                + " has, so there is nothing there to "@ + purpose + ": expose it on "@ + name + "'s card"@,
        )
    } else if exists|k: int| 0 <= k < exposed.len() && exposed[k] == i32::MAX {
        Outcome::Undefined
    } else {
        Outcome::Refused(
            this + " is kept out of the aggregate by the setup, so there is nothing there to "@ + purpose
                + ": choose one of the "@ + what + "s "@ + name + " does expose ("@ + spec_numbered(exposed)
                + "), or expose this one on "@ + name + "'s card"@,
        )
    }
}

proof fn lemma_position_stays(list: Seq<(usize, i32)>, device: usize, channel: i32, from: int, to: int)
    requires
        0 <= from <= to,
        position_in(list, device, channel, from).is_some(),
    ensures
        position_in(list, device, channel, to) == position_in(list, device, channel, from),
    decreases to - from,
{
    if to > from {
        lemma_position_stays(list, device, channel, from, to - 1);
    }
}

proof fn lemma_phase_output_stays(outputs: Seq<(i32, String)>, channel: i32, from: int, to: int)
    requires
        0 <= from <= to,
        phase_output_upto(outputs, channel, from).is_some(),
    ensures
        phase_output_upto(outputs, channel, to) == phase_output_upto(outputs, channel, from),
    decreases to - from,
{
    if to > from {
        lemma_phase_output_stays(outputs, channel, from, to - 1);
    }
}

fn exposed_channels(list: &[(usize, i32)], device: usize) -> (exposed: Vec<i32>)
    ensures
        exposed@ == exposed_of(list@, device),
{
    let mut exposed: Vec<i32> = Vec::new();
    let mut i: usize = 0;
    while i < list.len()
        invariant
            i <= list@.len(),
            exposed@ == exposed_of(list@.take(i as int), device),
        decreases list@.len() - i,
    {
        proof {
            assert(list@.take(i + 1).drop_last() =~= list@.take(i as int));
        }
        if list[i].0 == device {
            exposed.push(list[i].1);
        }
        i = i + 1;
    }
    assert(list@.take(list@.len() as int) =~= list@);
    exposed
}

/// Where one interface's own channel is in the aggregate's list, or why it is not there.
#[verifier::loop_isolation(false)]
fn locate(layout: &Layout, names: &[String], pick: Pick, input: bool, purpose: &str) -> (located: Result<i32, String>)
    requires
        names@ == layout.spec_names(),
        pick.spec_index() < layout.interfaces@.len(),
        !(spec_locate(*layout, pick, input, purpose@) is Undefined),
    ensures
        match located {
            Ok(at) => spec_locate(*layout, pick, input, purpose@) == Outcome::Done(at),
            Err(why) => spec_locate(*layout, pick, input, purpose@) == Outcome::<i32>::Refused(why@),
        },
{
    proof {
        reveal_strlit("input");
        reveal_strlit("output");
        reveal_strlit(" has no ");
        reveal_strlit("s at all, so there is no ");
        reveal_strlit(" ");
        reveal_strlit(" on it to ");
        reveal_strlit(" has ");
        reveal_strlit("s, numbered 1 to ");
        reveal_strlit(", so there is no ");
        reveal_strlit(" (a request counts them from zero, 0 to ");
        reveal_strlit(")");
        reveal_strlit(" is where ");
        reveal_strlit(
            "'s phase measurement arrives, so the setup keeps it for the driver and out of the aggregate, and there is nothing there to ",
        );
        reveal_strlit(": choose another input, or move the phase cable under Phase setup on ");
        reveal_strlit("'s card");
        reveal_strlit(" carries the signal ");
        reveal_strlit(
            "'s phase is measured with, so the setup keeps it for the driver and out of the aggregate, and there is nothing there to ",
        );
        reveal_strlit(": choose another output, or move the phase cable under Phase setup on ");
        reveal_strlit(" is kept out of the aggregate by the setup, and so is every other ");
        reveal_strlit(" has, so there is nothing there to ");
        reveal_strlit(": expose it on ");
        reveal_strlit(" is kept out of the aggregate by the setup, so there is nothing there to ");
        reveal_strlit(": choose one of the ");
        reveal_strlit("s ");
        reveal_strlit(" does expose (");
        reveal_strlit("), or expose this one on ");
    }
    let what = if input {
        "input"
    } else {
        "output"
    };
    let index = pick.index();
    let interface = &layout.interfaces[index];
    let name = interface.name.as_str();
    let has = if input {
        interface.inputs
    } else {
        interface.outputs
    };
    if pick.channel >= has {
        let asked = number((pick.channel + 1) as i64);
        if has <= 0 {
            let mut why = String::from_str(name);
            append_str(&mut why, " has no ");
            append_str(&mut why, what);
            append_str(&mut why, "s at all, so there is no ");
            append_str(&mut why, what);
            append_str(&mut why, " ");
            append_str(&mut why, asked.as_str());
            append_str(&mut why, " on it to ");
            append_str(&mut why, purpose);
            return Err(why);
        }
        let count = number(has as i64);
        let top = number((has - 1) as i64);
        let mut why = String::from_str(name);
        append_str(&mut why, " has ");
        append_str(&mut why, count.as_str());
        append_str(&mut why, " ");
        append_str(&mut why, what);
        append_str(&mut why, "s, numbered 1 to ");
        append_str(&mut why, count.as_str());
        append_str(&mut why, ", so there is no ");
        append_str(&mut why, what);
        append_str(&mut why, " ");
        append_str(&mut why, asked.as_str());
        append_str(&mut why, " on it to ");
        append_str(&mut why, purpose);
        append_str(&mut why, " (a request counts them from zero, 0 to ");
        append_str(&mut why, top.as_str());
        append_str(&mut why, ")");
        return Err(why);
    }
    // Kept for the driver's phase measurement: opened at the interface and never given to anyone,
    // so that nothing played can land on the measurement and the measurement is never heard.
    let this = pick.named(what, names);
    if input && interface.phase_input == Some(pick.channel) {
        let mut why = this;
        append_str(&mut why, " is where ");
        append_str(&mut why, name);
        append_str(
            &mut why,
            "'s phase measurement arrives, so the setup keeps it for the driver and out of the aggregate, and there is nothing there to ",
        );
        append_str(&mut why, purpose);
        append_str(&mut why, ": choose another input, or move the phase cable under Phase setup on ");
        append_str(&mut why, name);
        append_str(&mut why, "'s card");
        return Err(why);
    }
    if !input {
        let mut k: usize = 0;
        while k < interface.phase_outputs.len()
            invariant
                k <= interface.phase_outputs@.len(),
                phase_output_upto(interface.phase_outputs@, pick.channel, k as int).is_none(),
            decreases interface.phase_outputs@.len() - k,
        {
            if interface.phase_outputs[k].0 == pick.channel {
                proof {
                    lemma_phase_output_stays(
                        interface.phase_outputs@,
                        pick.channel,
                        k + 1,
                        interface.phase_outputs@.len() as int,
                    );
                }
                let whose = interface.phase_outputs[k].1.as_str();
                let mut why = this;
                append_str(&mut why, " carries the signal ");
                append_str(&mut why, whose);
                append_str(
                    &mut why,
                    "'s phase is measured with, so the setup keeps it for the driver and out of the aggregate, and there is nothing there to ",
                );
                append_str(&mut why, purpose);
                append_str(&mut why, ": choose another output, or move the phase cable under Phase setup on ");
                append_str(&mut why, whose);
                append_str(&mut why, "'s card");
                return Err(why);
            }
            k = k + 1;
        }
    }
    let list = if input {
        &layout.inputs
    } else {
        &layout.outputs
    };
    let mut at: usize = 0;
    while at < list.len()
        invariant
            at <= list@.len(),
            position_in(list@, index, pick.channel, at as int).is_none(),
        decreases list@.len() - at,
    {
        if list[at].0 == index && list[at].1 == pick.channel {
            proof {
                lemma_position_stays(list@, index, pick.channel, at + 1, list@.len() as int);
            }
            return Ok(at as i32);
        }
        at = at + 1;
    }
    let exposed = exposed_channels(list.as_slice(), index);
    if exposed.len() == 0 {
        let mut why = this;
        append_str(&mut why, " is kept out of the aggregate by the setup, and so is every other ");
        append_str(&mut why, what);
        append_str(&mut why, " ");
        append_str(&mut why, name);
        append_str(&mut why, " has, so there is nothing there to ");
        append_str(&mut why, purpose);
        append_str(&mut why, ": expose it on ");
        append_str(&mut why, name);
        append_str(&mut why, "'s card");
        return Err(why);
    }
    proof {
        assert(!(pick.channel >= has));
        assert(!(input && interface.phase_input == Some(pick.channel)));
        assert(!input ==> phase_output_upto(interface.phase_outputs@, pick.channel, interface.phase_outputs@.len() as int).is_none());
        assert(position_in(list@, index, pick.channel, list@.len() as int).is_none());
        assert(exposed@ == exposed_of(list@, pick.spec_index()));
        if exists|k: int| 0 <= k < exposed@.len() && exposed@[k] == i32::MAX {
            let k = choose|k: int| 0 <= k < exposed@.len() && exposed@[k] == i32::MAX;
            assert(side_list(*layout, input) == list@);
            let spec_exposed = exposed_of(side_list(*layout, input), pick.spec_index());
            assert(spec_exposed[k] == i32::MAX);
            assert(spec_locate(*layout, pick, input, purpose@) is Undefined);
        }
        assert(!(exists|k: int| 0 <= k < exposed@.len() && exposed@[k] == i32::MAX));
        assert forall|k: int| 0 <= k < exposed@.len() implies exposed@[k] < i32::MAX by {
            if exposed@[k] == i32::MAX {
                assert(exists|j: int| 0 <= j < exposed@.len() && exposed@[j] == i32::MAX);
            }
        }
    }
    let listed = numbered(exposed.as_slice());
    let mut why = this;
    append_str(&mut why, " is kept out of the aggregate by the setup, so there is nothing there to ");
    append_str(&mut why, purpose);
    append_str(&mut why, ": choose one of the ");
    append_str(&mut why, what);
    append_str(&mut why, "s ");
    append_str(&mut why, name);
    append_str(&mut why, " does expose (");
    append_str(&mut why, listed.as_str());
    append_str(&mut why, "), or expose this one on ");
    append_str(&mut why, name);
    append_str(&mut why, "'s card");
    Err(why)
}

/// The first pick of a list that names no interface the aggregate has, looking no further than
/// `upto`.
pub open spec fn stranger_upto(list: Seq<Pick>, count: nat, upto: int) -> Option<Pick>
    decreases upto,
{
    if upto <= 0 {
        None
    } else {
        match stranger_upto(list, count, upto - 1) {
            Some(pick) => Some(pick),
            None => if list[upto - 1].spec_index() >= count {
                Some(list[upto - 1])
            } else {
                None
            },
        }
    }
}

/// The first pick of a whole list that names no interface the aggregate has.
pub open spec fn stranger(list: Seq<Pick>, count: nat) -> Option<Pick> {
    stranger_upto(list, count, list.len() as int)
}

/// The first pick of a list on another interface than `first`, looking no further than `upto`.
pub open spec fn stray_upto(list: Seq<Pick>, first: usize, upto: int) -> Option<Pick>
    decreases upto,
{
    if upto <= 0 {
        None
    } else {
        match stray_upto(list, first, upto - 1) {
            Some(pick) => Some(pick),
            None => if list[upto - 1].spec_index() != first {
                Some(list[upto - 1])
            } else {
                None
            },
        }
    }
}

/// The first place in a list whose pick is not on the interface of that place, looking no further
/// than `upto`.
pub open spec fn misplaced_upto(list: Seq<Pick>, upto: int) -> Option<int>
    decreases upto,
{
    if upto <= 0 {
        None
    } else {
        match misplaced_upto(list, upto - 1) {
            Some(at) => Some(at),
            None => if list[upto - 1].spec_index() != (upto - 1) as usize {
                Some(upto - 1)
            } else {
                None
            },
        }
    }
}

/// Each pick of a list in the aggregate's own numbers, stopping at the first that has none.
pub open spec fn located_upto(layout: Layout, picks: Seq<Pick>, input: bool, purpose: Seq<char>, upto: int) -> Outcome<
    Seq<i32>,
>
    decreases upto,
{
    if upto <= 0 {
        Outcome::Done(Seq::empty())
    } else {
        match located_upto(layout, picks, input, purpose, upto - 1) {
            Outcome::Undefined => Outcome::Undefined,
            Outcome::Refused(why) => Outcome::Refused(why),
            Outcome::Done(found) => match spec_locate(layout, picks[upto - 1], input, purpose) {
                Outcome::Undefined => Outcome::Undefined,
                Outcome::Refused(why) => Outcome::Refused(why),
                Outcome::Done(at) => Outcome::Done(found.push(at)),
            },
        }
    }
}

/// The interfaces counted out for a person: "0 is Quadro".
pub open spec fn counted_names(names: Seq<String>) -> Seq<Seq<char>> {
    Seq::new(names.len(), |i: int| digits(i as nat) + " is "@ + names[i]@)
}

/// A rig written for another number of interfaces than the aggregate has.
pub open spec fn count_refusal(devices: nat, names: Seq<String>) -> Seq<char> {
    "this rig is written for "@ + digits(devices) + " interfaces and the aggregate has "@ + digits(names.len())
        + " ("@ + joined(names.map_values(|name: String| name@), ", "@)
        + "): every interface in aggregate.json needs a cable, and nothing else may be in the list"@
}

/// A pick of an interface the aggregate has not got.
pub open spec fn stranger_refusal(pick: Pick, names: Seq<String>) -> Seq<char> {
    "interface "@ + decimal(pick.device as int)
        + " is not one of them: a request counts the interfaces from zero, in the order aggregate.json lists them, and there are "@
        + digits(names.len()) + " ("@ + joined(counted_names(names), ", "@) + ")"@
}

/// The common side of the cabling spread across two interfaces.
pub open spec fn spread_refusal(side: Seq<char>, first: Seq<char>, stray: Seq<char>) -> Seq<char> {
    "the "@ + side + " this rig names are spread across "@ + first + " and "@ + stray
        + ", and they all have to be on one interface: that is what makes both copies of the click leave on the same sample"@
}

/// A measured channel listed for another interface than its own.
pub open spec fn misplaced_refusal(pick: Pick, side: Seq<char>, names: Seq<String>, at: int) -> Seq<char> {
    pick.spec_named(side, names) + " was given as "@ + names[at]@ + "'s cable, and it has to be one of "@
        + names[at]@ + "'s own "@ + side
        + "s: the cables are listed one per interface, in the order the interfaces appear in aggregate.json"@
}

fn count_refusal_of(devices: usize, names: &[String]) -> (why: String)
    ensures
        why@ == count_refusal(devices as nat, names@),
{
    proof {
        reveal_strlit("this rig is written for ");
        reveal_strlit(" interfaces and the aggregate has ");
        reveal_strlit(" (");
        reveal_strlit(", ");
        reveal_strlit("): every interface in aggregate.json needs a cable, and nothing else may be in the list");
    }
    let mut why = String::from_str("this rig is written for ");
    let count = number_usize(devices);
    append_str(&mut why, count.as_str());
    append_str(&mut why, " interfaces and the aggregate has ");
    let there = number_usize(names.len());
    append_str(&mut why, there.as_str());
    append_str(&mut why, " (");
    let listed = join_strings(names, ", ");
    append_str(&mut why, listed.as_str());
    append_str(&mut why, "): every interface in aggregate.json needs a cable, and nothing else may be in the list");
    why
}

fn stranger_refusal_of(pick: Pick, names: &[String]) -> (why: String)
    ensures
        why@ == stranger_refusal(pick, names@),
{
    proof {
        reveal_strlit("interface ");
        reveal_strlit(
            " is not one of them: a request counts the interfaces from zero, in the order aggregate.json lists them, and there are ",
        );
        reveal_strlit(" (");
        reveal_strlit(", ");
        reveal_strlit(")");
        reveal_strlit(" is ");
    }
    let count = names.len();
    let mut counted: Vec<String> = Vec::new();
    let mut i: usize = 0;
    while i < count
        invariant
            i <= count,
            count == names@.len(),
            counted@.len() == i,
            counted@.map_values(|piece: String| piece@) == counted_names(names@).take(i as int),
        decreases count - i,
    {
        let mut piece = number_usize(i);
        append_str(&mut piece, " is ");
        append_str(&mut piece, names[i].as_str());
        proof {
            let grown = counted@.push(piece).map_values(|piece: String| piece@);
            let wanted = counted_names(names@).take(i + 1);
            assert(piece@ == digits(i as nat) + " is "@ + names@[i as int]@);
            assert(wanted[i as int] == piece@);
            assert forall|j: int| 0 <= j < i + 1 implies grown[j] == wanted[j] by {
                if j < i {
                    assert(grown[j] == counted@[j]@);
                    assert(counted@.map_values(|piece: String| piece@)[j] == counted@[j]@);
                    assert(wanted[j] == counted_names(names@).take(i as int)[j]);
                }
            }
            assert(grown =~= wanted);
        }
        counted.push(piece);
        i = i + 1;
    }
    assert(counted_names(names@).take(count as int) =~= counted_names(names@));
    let mut why = String::from_str("interface ");
    let device = number(pick.device as i64);
    append_str(&mut why, device.as_str());
    append_str(
        &mut why,
        " is not one of them: a request counts the interfaces from zero, in the order aggregate.json lists them, and there are ",
    );
    let there = number_usize(count);
    append_str(&mut why, there.as_str());
    append_str(&mut why, " (");
    let listed = join_strings(counted.as_slice(), ", ");
    append_str(&mut why, listed.as_str());
    append_str(&mut why, ")");
    why
}

fn spread_refusal_of(side: &str, first: &str, stray: &str) -> (why: String)
    ensures
        why@ == spread_refusal(side@, first@, stray@),
{
    proof {
        reveal_strlit("the ");
        reveal_strlit(" this rig names are spread across ");
        reveal_strlit(" and ");
        reveal_strlit(
            ", and they all have to be on one interface: that is what makes both copies of the click leave on the same sample",
        );
    }
    let mut why = String::from_str("the ");
    append_str(&mut why, side);
    append_str(&mut why, " this rig names are spread across ");
    append_str(&mut why, first);
    append_str(&mut why, " and ");
    append_str(&mut why, stray);
    append_str(
        &mut why,
        ", and they all have to be on one interface: that is what makes both copies of the click leave on the same sample",
    );
    why
}

fn misplaced_refusal_of(pick: Pick, side: &str, names: &[String], at: usize) -> (why: String)
    requires
        at < names@.len(),
    ensures
        why@ == misplaced_refusal(pick, side@, names@, at as int),
{
    proof {
        reveal_strlit(" was given as ");
        reveal_strlit("'s cable, and it has to be one of ");
        reveal_strlit("'s own ");
        reveal_strlit(
            "s: the cables are listed one per interface, in the order the interfaces appear in aggregate.json",
        );
    }
    let mut why = pick.named(side, names);
    append_str(&mut why, " was given as ");
    append_str(&mut why, names[at].as_str());
    append_str(&mut why, "'s cable, and it has to be one of ");
    append_str(&mut why, names[at].as_str());
    append_str(&mut why, "'s own ");
    append_str(&mut why, side);
    append_str(
        &mut why,
        "s: the cables are listed one per interface, in the order the interfaces appear in aggregate.json",
    );
    why
}

impl Rig {
    /// The word for the side the click has in common, for more than one channel of it.
    pub open spec fn common_plural(self) -> Seq<char> {
        match self.direction {
            Direction::Inputs => "outputs"@,
            Direction::Outputs => "inputs"@,
        }
    }

    /// The rig in the aggregate's own numbers, or the sentence that refuses it.
    pub open spec fn spec_wired(self, layout: Layout) -> Outcome<(Seq<i32>, Seq<i32>, Seq<i32>)> {
        let names = layout.spec_names();
        let count = names.len();
        let common = self.common();
        let separate = self.separate();
        let strange = if stranger(self.outputs@, count) is Some {
            stranger(self.outputs@, count)
        } else if stranger(self.inputs@, count) is Some {
            stranger(self.inputs@, count)
        } else {
            stranger(self.witnesses@, count)
        };
        if count != self.inputs@.len() {
            Outcome::Refused(count_refusal(self.inputs@.len(), names))
        } else if strange is Some {
            Outcome::Refused(stranger_refusal(strange->0, names))
        } else if common.len() == 0 {
            Outcome::Undefined
        } else if stray_upto(common, common[0].spec_index(), common.len() as int) is Some {
            Outcome::Refused(
                spread_refusal(
                    self.common_plural(),
                    names[common[0].spec_index() as int]@,
                    names[stray_upto(common, common[0].spec_index(), common.len() as int)->0.spec_index() as int]@,
                ),
            )
        } else if misplaced_upto(separate, separate.len() as int) is Some {
            let at = misplaced_upto(separate, separate.len() as int)->0;
            if at >= count {
                Outcome::Undefined
            } else {
                Outcome::Refused(misplaced_refusal(separate[at], self.separate_side(), names, at))
            }
        } else {
            match located_upto(layout, self.outputs@, false, "play the click from"@, self.outputs@.len() as int) {
                Outcome::Undefined => Outcome::Undefined,
                Outcome::Refused(why) => Outcome::Refused(why),
                Outcome::Done(outputs) => match located_upto(
                    layout,
                    self.inputs@,
                    true,
                    "record the click on"@,
                    self.inputs@.len() as int,
                ) {
                    Outcome::Undefined => Outcome::Undefined,
                    Outcome::Refused(why) => Outcome::Refused(why),
                    Outcome::Done(inputs) => match located_upto(
                        layout,
                        self.witnesses@,
                        true,
                        "listen in on"@,
                        self.witnesses@.len() as int,
                    ) {
                        Outcome::Undefined => Outcome::Undefined,
                        Outcome::Refused(why) => Outcome::Refused(why),
                        Outcome::Done(witnesses) => Outcome::Done((outputs, inputs, witnesses)),
                    },
                },
            }
        }
    }
}

proof fn lemma_stranger_stays(list: Seq<Pick>, count: nat, from: int, to: int)
    requires
        0 <= from <= to,
        stranger_upto(list, count, from).is_some(),
    ensures
        stranger_upto(list, count, to) == stranger_upto(list, count, from),
    decreases to - from,
{
    if to > from {
        lemma_stranger_stays(list, count, from, to - 1);
    }
}

proof fn lemma_stray_stays(list: Seq<Pick>, first: usize, from: int, to: int)
    requires
        0 <= from <= to,
        stray_upto(list, first, from).is_some(),
    ensures
        stray_upto(list, first, to) == stray_upto(list, first, from),
    decreases to - from,
{
    if to > from {
        lemma_stray_stays(list, first, from, to - 1);
    }
}

proof fn lemma_misplaced_stays(list: Seq<Pick>, from: int, to: int)
    requires
        0 <= from <= to,
        misplaced_upto(list, from).is_some(),
    ensures
        misplaced_upto(list, to) == misplaced_upto(list, from),
    decreases to - from,
{
    if to > from {
        lemma_misplaced_stays(list, from, to - 1);
    }
}

proof fn lemma_located_stays(layout: Layout, picks: Seq<Pick>, input: bool, purpose: Seq<char>, from: int, to: int)
    requires
        0 <= from <= to,
        !(located_upto(layout, picks, input, purpose, from) is Done),
    ensures
        located_upto(layout, picks, input, purpose, to) == located_upto(layout, picks, input, purpose, from),
    decreases to - from,
{
    if to > from {
        lemma_located_stays(layout, picks, input, purpose, from, to - 1);
    }
}

/// The first pick of a list that names no interface there is.
fn find_stranger(list: &[Pick], count: usize) -> (strange: Option<Pick>)
    ensures
        strange == stranger(list@, count as nat),
{
    let mut i: usize = 0;
    while i < list.len()
        invariant
            i <= list@.len(),
            stranger_upto(list@, count as nat, i as int).is_none(),
        decreases list@.len() - i,
    {
        if list[i].index() >= count {
            proof {
                lemma_stranger_stays(list@, count as nat, i + 1, list@.len() as int);
            }
            return Some(list[i]);
        }
        i = i + 1;
    }
    None
}

/// Each pick of a list in the aggregate's own numbers, or the first sentence that refuses one.
fn locate_all(layout: &Layout, names: &[String], picks: &[Pick], input: bool, purpose: &str) -> (located: Result<
    Vec<i32>,
    String,
>)
    requires
        names@ == layout.spec_names(),
        stranger(picks@, layout.interfaces@.len()).is_none(),
        !(located_upto(*layout, picks@, input, purpose@, picks@.len() as int) is Undefined),
    ensures
        match located {
            Ok(found) => located_upto(*layout, picks@, input, purpose@, picks@.len() as int) == Outcome::Done(
                found@,
            ),
            Err(why) => located_upto(*layout, picks@, input, purpose@, picks@.len() as int) == Outcome::<
                Seq<i32>,
            >::Refused(why@),
        },
{
    let mut found: Vec<i32> = Vec::new();
    let mut i: usize = 0;
    while i < picks.len()
        invariant
            i <= picks@.len(),
            names@ == layout.spec_names(),
            stranger(picks@, layout.interfaces@.len()).is_none(),
            !(located_upto(*layout, picks@, input, purpose@, picks@.len() as int) is Undefined),
            located_upto(*layout, picks@, input, purpose@, i as int) == Outcome::Done(found@),
        decreases picks@.len() - i,
    {
        proof {
            lemma_stranger_none_prefix(picks@, layout.interfaces@.len(), i as int);
            if !(located_upto(*layout, picks@, input, purpose@, i + 1) is Done) {
                lemma_located_stays(*layout, picks@, input, purpose@, i + 1, picks@.len() as int);
            }
        }
        match locate(layout, names, picks[i], input, purpose) {
            Ok(at) => {
                found.push(at);
            },
            Err(why) => {
                proof {
                    lemma_located_stays(*layout, picks@, input, purpose@, i + 1, picks@.len() as int);
                }
                return Err(why);
            },
        }
        i = i + 1;
    }
    Ok(found)
}

proof fn lemma_stranger_none_prefix(list: Seq<Pick>, count: nat, at: int)
    requires
        0 <= at < list.len(),
        stranger(list, count).is_none(),
    ensures
        list[at].spec_index() < count,
{
    if stranger_upto(list, count, at + 1).is_some() {
        lemma_stranger_stays(list, count, at + 1, list.len() as int);
    } else {
        lemma_stranger_upto_none(list, count, at + 1, at);
    }
}

proof fn lemma_stranger_upto_none(list: Seq<Pick>, count: nat, upto: int, at: int)
    requires
        0 <= at < upto <= list.len(),
        stranger_upto(list, count, upto).is_none(),
    ensures
        list[at].spec_index() < count,
    decreases upto,
{
    if at < upto - 1 {
        lemma_stranger_upto_none(list, count, upto - 1, at);
    }
}

impl Rig {
    /// **The rig in the aggregate's own channel numbers**, now that the drivers are open and the
    /// layout is known, or the sentence that says what is wrong with it and what would be right.
    ///
    /// This is the one place the interface's own numbering meets the aggregate's, so every way a
    /// name can miss is refused here, before a buffer is made: an interface that is not one of
    /// them, a channel the interface has not got, one the setup keeps out of the aggregate, and
    /// one the setup keeps for the phase measurement.
    #[verifier::loop_isolation(false)]
    pub fn wired(&self, layout: &Layout) -> (wired: Result<Wired, String>)
        requires
            !(self.spec_wired(*layout) is Undefined),
        ensures
            match wired {
                Ok(w) => self.spec_wired(*layout) == Outcome::Done((w.outputs@, w.inputs@, w.witnesses@)),
                Err(why) => self.spec_wired(*layout) == Outcome::<(Seq<i32>, Seq<i32>, Seq<i32>)>::Refused(why@),
            },
    {
        proof {
            reveal_strlit("outputs");
            reveal_strlit("inputs");
            reveal_strlit("input");
            reveal_strlit("output");
            reveal_strlit("play the click from");
            reveal_strlit("record the click on");
            reveal_strlit("listen in on");
        }
        let names = layout.names();
        let count = names.len();
        if count != self.devices() {
            return Err(count_refusal_of(self.devices(), names.as_slice()));
        }
        let mut strange = find_stranger(self.outputs.as_slice(), count);
        if strange.is_none() {
            strange = find_stranger(self.inputs.as_slice(), count);
        }
        if strange.is_none() {
            strange = find_stranger(self.witnesses.as_slice(), count);
        }
        if let Some(pick) = strange {
            return Err(stranger_refusal_of(pick, names.as_slice()));
        }
        // The side the click has in common must be one device, or the measurement is the
        // difference between two devices' clocks and two devices' converters at once.
        let (common, side) = match self.direction {
            Direction::Inputs => (&self.outputs, "outputs"),
            Direction::Outputs => (&self.inputs, "inputs"),
        };
        proof {
            lemma_stranger_none_prefix(common@, count as nat, 0);
        }
        let first = common[0].index();
        let mut k: usize = 0;
        while k < common.len()
            invariant
                k <= common@.len(),
                stray_upto(common@, first, k as int).is_none(),
            decreases common@.len() - k,
        {
            if common[k].index() != first {
                proof {
                    lemma_stray_stays(common@, first, k + 1, common@.len() as int);
                    lemma_stranger_none_prefix(common@, count as nat, k as int);
                }
                return Err(
                    spread_refusal_of(side, names[first].as_str(), names[common[k].index()].as_str()),
                );
            }
            k = k + 1;
        }
        // And the side being measured must be one channel per device, on its own device.
        let (separate, side) = match self.direction {
            Direction::Inputs => (&self.inputs, "input"),
            Direction::Outputs => (&self.outputs, "output"),
        };
        let mut index: usize = 0;
        while index < separate.len()
            invariant
                index <= separate@.len(),
                misplaced_upto(separate@, index as int).is_none(),
            decreases separate@.len() - index,
        {
            if separate[index].index() != index {
                proof {
                    lemma_misplaced_stays(separate@, index + 1, separate@.len() as int);
                }
                return Err(misplaced_refusal_of(separate[index], side, names.as_slice(), index));
            }
            index = index + 1;
        }
        let outputs = match locate_all(layout, names.as_slice(), self.outputs.as_slice(), false, "play the click from") {
            Ok(found) => found,
            Err(why) => return Err(why),
        };
        let inputs = match locate_all(layout, names.as_slice(), self.inputs.as_slice(), true, "record the click on") {
            Ok(found) => found,
            Err(why) => return Err(why),
        };
        let witnesses = match locate_all(layout, names.as_slice(), self.witnesses.as_slice(), true, "listen in on") {
            Ok(found) => found,
            Err(why) => return Err(why),
        };
        Ok(Wired { outputs, inputs, witnesses })
    }
}

/// What a driver has, as the most that can honestly be said without its own answer: one more than
/// the highest channel the plan opened on it, or none.
pub open spec fn opened(list: Seq<i32>) -> int {
    if list.len() == 0 {
        0
    } else {
        longest(list) + 1
    }
}

/// The outputs each device's phase is measured from on the master, each with the device whose
/// phase it is, over the first `upto` devices.
pub open spec fn phase_sources(devices: Seq<DeviceView>, upto: int) -> Seq<(i32, Seq<char>)>
    decreases upto,
{
    if upto <= 0 {
        Seq::empty()
    } else {
        match devices[upto - 1].phase {
            Some(phase) => phase_sources(devices, upto - 1).push((phase.master_output, devices[upto - 1].name)),
            None => phase_sources(devices, upto - 1),
        }
    }
}

/// The aggregate's channels on one side as `(interface, that interface's own channel)`, over the
/// first `upto` of the plan's list, leaving out any the plan does not hold.
pub open spec fn own_upto(refs: Seq<ChannelRef>, devices: Seq<DeviceView>, input: bool, upto: int) -> Seq<(usize, i32)>
    decreases upto,
{
    if upto <= 0 {
        Seq::empty()
    } else {
        let at = refs[upto - 1];
        let before = own_upto(refs, devices, input, upto - 1);
        if at.device < devices.len() {
            let channels = if input {
                devices[at.device as int].inputs
            } else {
                devices[at.device as int].outputs
            };
            if at.slot < channels.len() {
                before.push((at.device, channels[at.slot as int]))
            } else {
                before
            }
        } else {
            before
        }
    }
}

/// Whether the highest channel a device opened can be counted past.
pub open spec fn openings_fit(devices: Seq<DeviceView>, drivers: Seq<Description>) -> bool {
    forall|i: int|
        0 <= i < devices.len() && i >= drivers.len() ==> opened(#[trigger] devices[i].inputs) <= i32::MAX && opened(
            devices[i].outputs,
        ) <= i32::MAX
}

/// One interface of an opened aggregate, as the layout has it.
pub open spec fn spec_interface(planned: Seq<DeviceView>, master: usize, drivers: Seq<Description>, index: int) -> (
    Seq<char>,
    i32,
    i32,
    Option<i32>,
    Seq<(i32, Seq<char>)>,
) {
    let device = planned[index];
    (
        device.name,
        if index < drivers.len() {
            drivers[index].inputs
        } else {
            opened(device.inputs) as i32
        },
        if index < drivers.len() {
            drivers[index].outputs
        } else {
            opened(device.outputs) as i32
        },
        match device.phase {
            Some(phase) => Some(phase.input),
            None => None,
        },
        if index == master as int {
            phase_sources(planned, planned.len() as int)
        } else {
            Seq::empty()
        },
    )
}

/// An interface as the contracts compare it.
pub open spec fn interface_view(interface: Interface) -> (Seq<char>, i32, i32, Option<i32>, Seq<(i32, Seq<char>)>) {
    (
        interface.name@,
        interface.inputs,
        interface.outputs,
        interface.phase_input,
        interface.phase_outputs@.map_values(|source: (i32, String)| (source.0, source.1@)),
    )
}

fn opened_of(list: &Vec<i32>) -> (count: i32)
    requires
        opened(list@) <= i32::MAX,
    ensures
        count == opened(list@),
{
    if list.len() == 0 {
        return 0;
    }
    let mut most: i32 = list[0];
    let mut i: usize = 1;
    proof {
        assert(list@.subrange(0, 1).drop_last() =~= Seq::<i32>::empty());
    }
    while i < list.len()
        invariant
            1 <= i <= list@.len(),
            most == longest(list@.subrange(0, i as int)),
        decreases list@.len() - i,
    {
        proof {
            assert(list@.subrange(0, i + 1).drop_last() =~= list@.subrange(0, i as int));
        }
        if list[i] > most {
            most = list[i];
        }
        i = i + 1;
    }
    assert(list@.subrange(0, list@.len() as int) =~= list@);
    most + 1
}

fn phase_sources_of(devices: &Vec<DevicePlan>) -> (sources: Vec<(i32, String)>)
    ensures
        sources@.map_values(|source: (i32, String)| (source.0, source.1@)) == phase_sources(
            devices@.map_values(|device: DevicePlan| device@),
            devices@.len() as int,
        ),
{
    let ghost views = devices@.map_values(|device: DevicePlan| device@);
    let mut sources: Vec<(i32, String)> = Vec::new();
    let mut i: usize = 0;
    while i < devices.len()
        invariant
            i <= devices@.len(),
            views == devices@.map_values(|device: DevicePlan| device@),
            sources@.map_values(|source: (i32, String)| (source.0, source.1@)) == phase_sources(views, i as int),
        decreases devices@.len() - i,
    {
        proof {
            assert(views[i as int] == devices@[i as int]@);
        }
        if let Some(phase) = devices[i].phase {
            let ghost before = sources@;
            sources.push((phase.master_output, devices[i].name.clone()));
            proof {
                assert(sources@.map_values(|source: (i32, String)| (source.0, source.1@)) =~= before.map_values(
                    |source: (i32, String)| (source.0, source.1@),
                ).push((phase.master_output, devices@[i as int].name@)));
            }
        }
        i = i + 1;
    }
    sources
}

fn own_of(refs: &Vec<ChannelRef>, devices: &Vec<DevicePlan>, input: bool) -> (own: Vec<(usize, i32)>)
    ensures
        own@ == own_upto(refs@, devices@.map_values(|device: DevicePlan| device@), input, refs@.len() as int),
{
    let ghost views = devices@.map_values(|device: DevicePlan| device@);
    let mut own: Vec<(usize, i32)> = Vec::new();
    let mut i: usize = 0;
    while i < refs.len()
        invariant
            i <= refs@.len(),
            views == devices@.map_values(|device: DevicePlan| device@),
            own@ == own_upto(refs@, views, input, i as int),
        decreases refs@.len() - i,
    {
        let at = refs[i];
        if at.device < devices.len() {
            let device = &devices[at.device];
            proof {
                assert(views[at.device as int] == device@);
            }
            let channels = if input {
                &device.inputs
            } else {
                &device.outputs
            };
            if at.slot < channels.len() {
                own.push((at.device, channels[at.slot]));
            }
        }
        i = i + 1;
    }
    own
}

impl Layout {
    /// The layout of an opened aggregate, from its plan and from what each driver said it has.
    /// The plan only has the channels the setup exposes; should a driver's own answer be missing,
    /// the most that can honestly be said is one more than the highest channel it opened.
    pub fn of(plan: &Plan, drivers: &[Description]) -> (layout: Layout)
        requires
            openings_fit(plan@.devices, drivers@),
        ensures
            layout.interfaces@.len() == plan@.devices.len(),
            forall|i: int|
                0 <= i < plan@.devices.len() ==> interface_view(#[trigger] layout.interfaces@[i]) == spec_interface(
                    plan@.devices,
                    plan.master,
                    drivers@,
                    i,
                ),
            layout.inputs@ == own_upto(plan@.inputs, plan@.devices, true, plan@.inputs.len() as int),
            layout.outputs@ == own_upto(plan@.outputs, plan@.devices, false, plan@.outputs.len() as int),
    {
        let ghost views = plan@.devices;
        let mut interfaces: Vec<Interface> = Vec::new();
        let mut index: usize = 0;
        while index < plan.devices.len()
            invariant
                index <= plan.devices@.len(),
                views == plan.devices@.map_values(|device: DevicePlan| device@),
                openings_fit(views, drivers@),
                interfaces@.len() == index,
                forall|i: int|
                    0 <= i < index ==> interface_view(#[trigger] interfaces@[i]) == spec_interface(
                        views,
                        plan.master,
                        drivers@,
                        i,
                    ),
            decreases plan.devices@.len() - index,
        {
            let device = &plan.devices[index];
            proof {
                assert(views[index as int] == device@);
                if index >= drivers@.len() {
                    assert(opened(views[index as int].inputs) <= i32::MAX);
                }
            }
            let inputs = if index < drivers.len() {
                drivers[index].inputs
            } else {
                opened_of(&device.inputs)
            };
            let outputs = if index < drivers.len() {
                drivers[index].outputs
            } else {
                opened_of(&device.outputs)
            };
            let phase_input = match device.phase {
                Some(phase) => Some(phase.input),
                None => None,
            };
            let phase_outputs = if index == plan.master {
                phase_sources_of(&plan.devices)
            } else {
                Vec::new()
            };
            let interface = Interface { name: device.name.clone(), inputs, outputs, phase_input, phase_outputs };
            proof {
                assert(interface.phase_outputs@.map_values(|source: (i32, String)| (source.0, source.1@)) =~= spec_interface(
                    views,
                    plan.master,
                    drivers@,
                    index as int,
                ).4);
                assert(interface_view(interface) == spec_interface(views, plan.master, drivers@, index as int));
            }
            interfaces.push(interface);
            index = index + 1;
        }
        let inputs = own_of(&plan.inputs, &plan.devices, true);
        let outputs = own_of(&plan.outputs, &plan.devices, false);
        Layout { interfaces, inputs, outputs }
    }
}

/// What is wrong with a run's settings, in the order they are checked: a run needs two clicks,
/// some time between them, a click long enough to find again, a search of some width, a settling
/// time that is a number of seconds, a rate that is a rate and a buffer size that is a size.
///
/// The times and the rate are seconds and samples a second: `spacing_ok` and `settle_ok` are
/// whether the spacing is more than nothing and the settling time is not below it, and
/// `bad_rate` is what a rate that is not a rate was written as.
pub open spec fn spec_settings_refusal(
    clicks: u32,
    spacing_ok: bool,
    click_samples: usize,
    search_samples: usize,
    settle_ok: bool,
    bad_rate: Option<Seq<char>>,
    buffer_size: Option<i32>,
) -> Option<Seq<char>> {
    if clicks < 2 {
        Some(
            "a run needs at least two clicks: one number on its own has no spread and no slope, so there is no way to tell a measurement from a coincidence"@,
        )
    } else if !spacing_ok {
        Some("the clicks have to be some time apart, and this run puts them all at once"@)
    } else if click_samples < 8 {
        Some(
            "a click of "@ + digits(click_samples as nat)
                + " samples is too short to find again: a converter's filters need a shaped burst of a few dozen samples to keep a start worth measuring"@,
        )
    } else if search_samples == 0 {
        Some("nothing can be found if the search is zero samples wide"@)
    } else if !settle_ok {
        Some("the settling time is not a number of seconds"@)
    } else if bad_rate is Some {
        Some(bad_rate->0 + " is not a sample rate"@)
    } else if buffer_size matches Some(size) && size <= 0 {
        Some(decimal(buffer_size->0 as int) + " samples is not a buffer size"@)
    } else {
        None
    }
}

/// **Everything that is wrong with a run's settings themselves**, the first of it, or `None`.
pub fn settings_refusal(
    clicks: u32,
    spacing_ok: bool,
    click_samples: usize,
    search_samples: usize,
    settle_ok: bool,
    bad_rate: Option<&str>,
    buffer_size: Option<i32>,
) -> (why: Option<String>)
    ensures
        match why {
            Some(text) => spec_settings_refusal(
                clicks,
                spacing_ok,
                click_samples,
                search_samples,
                settle_ok,
                match bad_rate {
                    Some(rate) => Some(rate@),
                    None => None,
                },
                buffer_size,
            ) == Some(text@),
            None => spec_settings_refusal(
                clicks,
                spacing_ok,
                click_samples,
                search_samples,
                settle_ok,
                match bad_rate {
                    Some(rate) => Some(rate@),
                    None => None,
                },
                buffer_size,
            ) is None,
        },
{
    proof {
        reveal_strlit(
            "a run needs at least two clicks: one number on its own has no spread and no slope, so there is no way to tell a measurement from a coincidence",
        );
        reveal_strlit("the clicks have to be some time apart, and this run puts them all at once");
        reveal_strlit("a click of ");
        reveal_strlit(
            " samples is too short to find again: a converter's filters need a shaped burst of a few dozen samples to keep a start worth measuring",
        );
        reveal_strlit("nothing can be found if the search is zero samples wide");
        reveal_strlit("the settling time is not a number of seconds");
        reveal_strlit(" is not a sample rate");
        reveal_strlit(" samples is not a buffer size");
    }
    if clicks < 2 {
        return Some(
            String::from_str(
                "a run needs at least two clicks: one number on its own has no spread and no slope, so there is no way to tell a measurement from a coincidence",
            ),
        );
    }
    if !spacing_ok {
        return Some(String::from_str("the clicks have to be some time apart, and this run puts them all at once"));
    }
    if click_samples < 8 {
        let mut why = String::from_str("a click of ");
        let said = number_usize(click_samples);
        append_str(&mut why, said.as_str());
        append_str(
            &mut why,
            " samples is too short to find again: a converter's filters need a shaped burst of a few dozen samples to keep a start worth measuring",
        );
        return Some(why);
    }
    if search_samples == 0 {
        return Some(String::from_str("nothing can be found if the search is zero samples wide"));
    }
    if !settle_ok {
        return Some(String::from_str("the settling time is not a number of seconds"));
    }
    if let Some(rate) = bad_rate {
        let mut why = String::from_str(rate);
        append_str(&mut why, " is not a sample rate");
        return Some(why);
    }
    if let Some(size) = buffer_size {
        if size <= 0 {
            let mut why = number(size as i64);
            append_str(&mut why, " samples is not a buffer size");
            return Some(why);
        }
    }
    None
}

} // verus!
