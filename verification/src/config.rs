//! The configuration file: which devices, which master, which alignment.
//!
//! Everything in it is optional, and a field this version does not know is ignored rather than
//! refused, so an older driver can read a file written by a newer one. What is wrong with a file
//! however it was written is refused here, with the device named, because silently ignoring what
//! someone asked for is worse than saying no.
use vstd::prelude::*;
use std::collections::BTreeMap;
use crate::text::{
    append_str, chars_of, decimal, lower, lowercase, lowered, number, same_chars, trim, trim_chars,
    trimmed_bounds,
};
use vstd::string::StrSliceExecFns;

verus! {

/// How the aggregate lines its devices up.
#[derive(Clone, Copy, Debug, PartialEq, Eq, Structural)]
pub enum Alignment {
    /// Every device's inputs and outputs line up with every other's, at the cost of delaying the
    /// master by about one buffer. This is the default.
    Aligned,
    /// The master's path is direct and the other devices sit about one buffer behind it.
    LowestLatency,
}

/// A word with its dashes and spaces made into underscores.
pub open spec fn underscored(s: Seq<char>) -> Seq<char> {
    s.map_values(|c: char| if c == '-' || c == ' ' { '_' } else { c })
}

/// What a word in the file means as an alignment: spelling and case are not what it turns on,
/// and a word this version does not know is the default.
pub open spec fn spec_alignment_from(value: Seq<char>) -> Alignment {
    if underscored(lowered(trim(value))) == "lowest_latency"@ {
        Alignment::LowestLatency
    } else {
        Alignment::Aligned
    }
}

impl Alignment {
    pub open spec fn spec_as_str(self) -> Seq<char> {
        match self {
            Alignment::Aligned => "aligned"@,
            Alignment::LowestLatency => "lowest_latency"@,
        }
    }

    pub fn as_str(self) -> (word: &'static str)
        ensures
            word@ == self.spec_as_str(),
    {
        match self {
            Alignment::Aligned => "aligned",
            Alignment::LowestLatency => "lowest_latency",
        }
    }

    /// The alignment a word in the file asks for.
    pub fn from_text(value: &str) -> (alignment: Alignment)
        ensures
            alignment == spec_alignment_from(value@),
    {
        let chars = chars_of(value);
        let trimmed = trim_chars(&chars);
        let small = lowercase(&trimmed);
        let mut word: Vec<char> = Vec::new();
        let mut i: usize = 0;
        while i < small.len()
            invariant
                i <= small@.len(),
                word@ == underscored(small@.subrange(0, i as int)),
            decreases small@.len() - i,
        {
            let c = small[i];
            let d = if c == '-' || c == ' ' { '_' } else { c };
            proof {
                assert(underscored(small@.subrange(0, i + 1)) =~= underscored(small@.subrange(0, i as int)).push(d));
            }
            word.push(d);
            i = i + 1;
        }
        assert(small@.subrange(0, small@.len() as int) =~= small@);
        let target = chars_of("lowest_latency");
        if same_chars(&word, &target) {
            Alignment::LowestLatency
        } else {
            Alignment::Aligned
        }
    }

    /// The default, which is to line everything up.
    pub fn default_alignment() -> (alignment: Alignment)
        ensures
            alignment == Alignment::Aligned,
    {
        Alignment::Aligned
    }
}

/// A name that is empty or only spaces is nobody's name for anything.
pub open spec fn spec_label(by_channel: Map<u32, String>, channel: u32) -> Option<Seq<char>> {
    if by_channel.contains_key(channel) && trim(by_channel[channel]@).len() > 0 {
        Some(trim(by_channel[channel]@))
    } else {
        None
    }
}

/// Whether a character is one of the ten digits.
pub open spec fn is_digit(c: char) -> bool {
    '0' <= c <= '9'
}

/// The number a run of digits writes.
pub open spec fn digits_value(s: Seq<char>) -> int
    decreases s.len(),
{
    if s.len() == 0 {
        0
    } else {
        digits_value(s.drop_last()) * 10 + (s.last() as int - '0' as int)
    }
}

/// Text with the plus sign a number may start with taken off.
pub open spec fn unsigned_body(s: Seq<char>) -> Seq<char> {
    if s.len() > 0 && s[0] == '+' {
        s.drop_first()
    } else {
        s
    }
}

/// A channel number as Rust reads a `u32`: an optional plus sign and then at least one digit, no
/// larger than a `u32` holds.
pub open spec fn spec_parse_u32(s: Seq<char>) -> Option<u32> {
    let body = unsigned_body(s);
    if body.len() > 0 && (forall|i: int| 0 <= i < body.len() ==> is_digit(#[trigger] body[i])) && digits_value(body)
        <= u32::MAX {
        Some(digits_value(body) as u32)
    } else {
        None
    }
}

/// What is wrong with the first `upto` fields of a name list, in the words the refusal uses.
pub open spec fn read_problem_upto(fields: Seq<(String, Option<String>)>, upto: int) -> Option<Seq<char>>
    decreases upto,
{
    if upto <= 0 {
        None
    } else {
        match read_problem_upto(fields, upto - 1) {
            Some(why) => Some(why),
            None => {
                let (key, value) = fields[upto - 1];
                match spec_parse_u32(trim(key@)) {
                    None => Some(
                        "\""@ + key@
                            + "\" is not a channel number, and channel names are keyed by the device's own channel numbers, from zero"@,
                    ),
                    Some(channel) => if value is None {
                        Some("the name for channel "@ + decimal(channel as int) + " is not text"@)
                    } else {
                        None
                    },
                }
            },
        }
    }
}

/// What is wrong with a name list as the file writes it, if anything is.
pub open spec fn spec_read_problem(fields: Option<Seq<(String, Option<String>)>>) -> Option<Seq<char>> {
    match fields {
        None => Some(
            "channel names are written as an object of channel number to name, such as {\"0\": \"Vocal mic\"}"@,
        ),
        Some(list) => read_problem_upto(list, list.len() as int),
    }
}

proof fn lemma_read_problem_stays(fields: Seq<(String, Option<String>)>, from: int, to: int)
    requires
        0 <= from <= to,
        read_problem_upto(fields, from).is_some(),
    ensures
        read_problem_upto(fields, to) == read_problem_upto(fields, from),
    decreases to - from,
{
    if to > from {
        lemma_read_problem_stays(fields, from, to - 1);
    }
}

proof fn lemma_digits_value_grows(s: Seq<char>)
    requires
        forall|i: int| 0 <= i < s.len() ==> is_digit(#[trigger] s[i]),
    ensures
        digits_value(s) >= 0,
        s.len() > 0 ==> digits_value(s) >= digits_value(s.drop_last()),
    decreases s.len(),
{
    if s.len() > 0 {
        lemma_digits_value_grows(s.drop_last());
    }
}

/// A longer run of digits writes a number at least as large as any run it begins with.
proof fn lemma_value_at_least_prefix(body: Seq<char>, end: int)
    requires
        0 <= end <= body.len(),
        forall|k: int| 0 <= k < body.len() ==> is_digit(#[trigger] body[k]),
    ensures
        digits_value(body) >= digits_value(body.take(end)),
        digits_value(body.take(end)) >= 0,
    decreases body.len() - end,
{
    if end < body.len() {
        lemma_value_at_least_prefix(body, end + 1);
        assert(body.take(end + 1).drop_last() =~= body.take(end));
    } else {
        assert(body.take(end) =~= body);
        lemma_digits_nonnegative(body);
    }
}

proof fn lemma_digits_nonnegative(body: Seq<char>)
    requires
        forall|k: int| 0 <= k < body.len() ==> is_digit(#[trigger] body[k]),
    ensures
        digits_value(body) >= 0,
    decreases body.len(),
{
    if body.len() > 0 {
        lemma_digits_nonnegative(body.drop_last());
    }
}

/// A channel number read from text as Rust reads a `u32`.
#[verifier::loop_isolation(false)]
pub fn parse_u32(s: &[char]) -> (parsed: Option<u32>)
    ensures
        parsed == spec_parse_u32(s@),
{
    let start: usize = if s.len() > 0 && s[0] == '+' {
        1
    } else {
        0
    };
    let ghost body = unsigned_body(s@);
    assert(body =~= s@.subrange(start as int, s@.len() as int));
    if start >= s.len() {
        return None;
    }
    let mut value: u64 = 0;
    let mut i: usize = start;
    while i < s.len()
        invariant
            start <= i <= s@.len(),
            body == s@.subrange(start as int, s@.len() as int),
            forall|k: int| 0 <= k < i - start ==> is_digit(#[trigger] body[k]),
            value == digits_value(body.take(i - start)),
            value <= u32::MAX,
        decreases s@.len() - i,
    {
        let c = s[i];
        proof {
            assert(body[i - start] == c);
            assert(body.take(i - start + 1).drop_last() =~= body.take(i - start));
        }
        if !('0' <= c && c <= '9') {
            proof {
                assert(!is_digit(body[i - start]));
            }
            return None;
        }
        let next = value * 10 + (c as u64 - '0' as u64);
        proof {
            assert(next == digits_value(body.take(i - start + 1)));
        }
        if next > 0xFFFF_FFFFu64 {
            proof {
                if forall|k: int| 0 <= k < body.len() ==> is_digit(#[trigger] body[k]) {
                    lemma_value_at_least_prefix(body, i - start + 1);
                }
            }
            return None;
        }
        value = next;
        i = i + 1;
    }
    proof {
        assert(body.take(body.len() as int) =~= body);
    }
    Some(value as u32)
}

/// The last of the first `upto` pairs that names `channel`.
pub open spec fn last_pair_for(pairs: Seq<(u32, String)>, channel: u32, upto: int) -> Option<int>
    decreases upto,
{
    if upto <= 0 {
        None
    } else if pairs[upto - 1].0 == channel {
        Some(upto - 1)
    } else {
        last_pair_for(pairs, channel, upto - 1)
    }
}

proof fn lemma_last_pair(pairs: Seq<(u32, String)>, channel: u32, upto: int)
    requires
        0 <= upto <= pairs.len(),
    ensures
        last_pair_for(pairs, channel, upto) is Some <==> exists|k: int| 0 <= k < upto && pairs[k].0 == channel,
        last_pair_for(pairs, channel, upto) matches Some(k) ==> 0 <= k < upto && pairs[k].0 == channel,
    decreases upto,
{
    if upto > 0 {
        lemma_last_pair(pairs, channel, upto - 1);
        if pairs[upto - 1].0 == channel {
            assert(pairs[upto - 1].0 == channel);
        }
    }
}

/// The last of the first `upto` fields whose key is `channel`'s number.
pub open spec fn last_field_for(fields: Seq<(String, Option<String>)>, channel: u32, upto: int) -> Option<int>
    decreases upto,
{
    if upto <= 0 {
        None
    } else if spec_parse_u32(trim(fields[upto - 1].0@)) == Some(channel) {
        Some(upto - 1)
    } else {
        last_field_for(fields, channel, upto - 1)
    }
}

proof fn lemma_last_field(fields: Seq<(String, Option<String>)>, channel: u32, upto: int)
    requires
        0 <= upto <= fields.len(),
    ensures
        last_field_for(fields, channel, upto) is Some <==> exists|k: int|
            0 <= k < upto && spec_parse_u32(trim(fields[k].0@)) == Some(channel),
        last_field_for(fields, channel, upto) matches Some(k) ==> 0 <= k < upto && spec_parse_u32(
            trim(fields[k].0@),
        ) == Some(channel),
    decreases upto,
{
    if upto > 0 {
        lemma_last_field(fields, channel, upto - 1);
        if spec_parse_u32(trim(fields[upto - 1].0@)) == Some(channel) {
            assert(spec_parse_u32(trim(fields[upto - 1].0@)) == Some(channel));
        }
    }
}

/// What a person calls a device's channels, by the device's own channel number from zero.
///
/// What the file holds is taken as it is written, and any objection to it is kept here rather than
/// raised on the spot, so that the refusal can name the device it belongs to.
#[derive(Clone, Debug)]
pub struct Labels {
    by_channel: BTreeMap<u32, String>,
    problem: Option<String>,
}

impl Labels {
    pub closed spec fn names(&self) -> Map<u32, String> {
        self.by_channel@
    }

    pub closed spec fn spec_problem(&self) -> Option<String> {
        self.problem
    }

    /// No names at all, and nothing wrong.
    pub fn none() -> (labels: Labels)
        ensures
            labels.names() == Map::<u32, String>::empty(),
            labels.spec_problem().is_none(),
    {
        Labels { by_channel: BTreeMap::new(), problem: None }
    }

    /// Names, as channel number and name, the later of two for one channel winning.
    pub fn from_pairs(pairs: Vec<(u32, String)>) -> (labels: Labels)
        ensures
            labels.spec_problem().is_none(),
            forall|channel: u32| #[trigger] labels.names().contains_key(channel) <==> exists|i: int|
                0 <= i < pairs@.len() && pairs@[i].0 == channel,
            forall|channel: u32|
                #[trigger] labels.names().contains_key(channel) ==> labels.names()[channel] == pairs@[last_pair_for(
                    pairs@,
                    channel,
                    pairs@.len() as int,
                )->0].1,
    {
        broadcast use vstd::std_specs::btree::group_btree_axioms;
        let mut by_channel: BTreeMap<u32, String> = BTreeMap::new();
        let mut i: usize = 0;
        while i < pairs.len()
            invariant
                i <= pairs@.len(),
                forall|channel: u32| #[trigger] by_channel@.contains_key(channel) <==> last_pair_for(pairs@, channel, i as int) is Some,
                forall|channel: u32|
                    #[trigger] by_channel@.contains_key(channel) ==> by_channel@[channel] == pairs@[last_pair_for(
                        pairs@,
                        channel,
                        i as int,
                    )->0].1,
            decreases pairs@.len() - i,
        {
            let channel = pairs[i].0;
            let label = pairs[i].1.clone();
            by_channel.insert(channel, label);
            i = i + 1;
        }
        proof {
            assert forall|c: u32| #[trigger] by_channel@.contains_key(c) <==> exists|k: int|
                0 <= k < pairs@.len() && pairs@[k].0 == c by {
                lemma_last_pair(pairs@, c, pairs@.len() as int);
            }
        }
        Labels { by_channel, problem: None }
    }

    /// The same names, and the same objection, as another value.
    pub fn copied(&self) -> (labels: Labels)
        ensures
            labels.names() == self.names(),
            labels.spec_problem() == self.spec_problem(),
    {
        let problem = match &self.problem {
            Some(why) => Some(why.clone()),
            None => None,
        };
        Labels { by_channel: self.by_channel.clone(), problem }
    }

    /// Names that could not be read, and why.
    pub fn refused(why: String) -> (labels: Labels)
        ensures
            labels.names() == Map::<u32, String>::empty(),
            labels.spec_problem() == Some(why),
    {
        broadcast use vstd::std_specs::btree::group_btree_axioms;
        Labels { by_channel: BTreeMap::new(), problem: Some(why) }
    }

    /// Names as the file writes them: `None` when what is written is not an object at all, and
    /// otherwise each field's key with its value's text, or `None` where the value is not text. The
    /// first key that is not a channel number, or value that is not text, is what is wrong.
    pub fn read(fields: Option<Vec<(String, Option<String>)>>) -> (labels: Labels)
        ensures
            labels.spec_problem() matches Some(why) ==> Some(why@) == spec_read_problem(
                match fields {
                    Some(list) => Some(list@),
                    None => None,
                },
            ),
            spec_read_problem(
                match fields {
                    Some(list) => Some(list@),
                    None => None,
                },
            ) is Some ==> labels.spec_problem() is Some,
            labels.spec_problem() is None ==> forall|channel: u32| #[trigger] labels.names().contains_key(channel)
                <==> exists|i: int|
                0 <= i < fields->0@.len() && spec_parse_u32(trim(fields->0@[i].0@)) == Some(channel),
            labels.spec_problem() is None ==> forall|i: int|
                0 <= i < fields->0@.len() ==> #[trigger] fields->0@[i].1 is Some,
            labels.spec_problem() is None ==> forall|channel: u32|
                #[trigger] labels.names().contains_key(channel) ==> labels.names()[channel]
                    == fields->0@[last_field_for(fields->0@, channel, fields->0@.len() as int)->0].1->0,
            labels.spec_problem() is Some ==> labels.names() == Map::<u32, String>::empty(),
    {
        broadcast use vstd::std_specs::btree::group_btree_axioms;
        proof {
            reveal_strlit(
                "channel names are written as an object of channel number to name, such as {\"0\": \"Vocal mic\"}",
            );
            reveal_strlit("\"");
            reveal_strlit(
                "\" is not a channel number, and channel names are keyed by the device's own channel numbers, from zero",
            );
            reveal_strlit("the name for channel ");
            reveal_strlit(" is not text");
        }
        let list = match fields {
            Some(list) => list,
            None => {
                return Labels::refused(
                    String::from_str(
                        "channel names are written as an object of channel number to name, such as {\"0\": \"Vocal mic\"}",
                    ),
                );
            },
        };
        let mut by_channel: BTreeMap<u32, String> = BTreeMap::new();
        let mut i: usize = 0;
        while i < list.len()
            invariant
                i <= list@.len(),
                fields == Some(list),
                read_problem_upto(list@, i as int).is_none(),
                forall|channel: u32| #[trigger] by_channel@.contains_key(channel) <==> last_field_for(list@, channel, i as int) is Some,
                forall|channel: u32|
                    #[trigger] by_channel@.contains_key(channel) ==> by_channel@[channel] == list@[last_field_for(
                        list@,
                        channel,
                        i as int,
                    )->0].1->0,
                forall|k: int| 0 <= k < i ==> #[trigger] list@[k].1 is Some,
            decreases list@.len() - i,
        {
            let key = &list[i].0;
            let key_chars = chars_of(key.as_str());
            let trimmed = trim_chars(&key_chars);
            let parsed = parse_u32(&trimmed);
            let channel = match parsed {
                Some(channel) => channel,
                None => {
                    let mut why = String::from_str("\"");
                    append_str(&mut why, key.as_str());
                    append_str(
                        &mut why,
                        "\" is not a channel number, and channel names are keyed by the device's own channel numbers, from zero",
                    );
                    proof {
                        lemma_read_problem_stays(list@, i + 1, list@.len() as int);
                    }
                    return Labels::refused(why);
                },
            };
            let label = match &list[i].1 {
                Some(label) => label.clone(),
                None => {
                    let mut why = String::from_str("the name for channel ");
                    let said = number(channel as i64);
                    append_str(&mut why, said.as_str());
                    append_str(&mut why, " is not text");
                    proof {
                        lemma_read_problem_stays(list@, i + 1, list@.len() as int);
                    }
                    return Labels::refused(why);
                },
            };
            proof {
                assert(spec_parse_u32(trim(list@[i as int].0@)) == Some(channel));
                assert(list@[i as int].1 == Some(label));
            }
            by_channel.insert(channel, label);
            i = i + 1;
        }
        proof {
            assert forall|c: u32| #[trigger] by_channel@.contains_key(c) <==> exists|k: int|
                0 <= k < list@.len() && spec_parse_u32(trim(list@[k].0@)) == Some(c) by {
                lemma_last_field(list@, c, list@.len() as int);
            }
        }
        Labels { by_channel, problem: None }
    }

    /// What this device's channel is called, by the device's own number from zero. A name that is
    /// empty or only spaces counts as not given.
    pub fn get(&self, channel: u32) -> (label: Option<&str>)
        ensures
            match label {
                Some(text) => spec_label(self.names(), channel) == Some(text@),
                None => spec_label(self.names(), channel).is_none(),
            },
    {
        broadcast use vstd::std_specs::btree::group_btree_axioms;
        match self.by_channel.get(&channel) {
            Some(label) => {
                let text: &str = label.as_str();
                let chars = chars_of(text);
                let (start, end) = trimmed_bounds(&chars);
                if start == end {
                    None
                } else {
                    let kept = text.substring_char(start, end);
                    Some(kept)
                }
            },
            None => None,
        }
    }

    /// What is wrong with the way it was written, if anything is.
    pub fn problem(&self) -> (problem: Option<&String>)
        ensures
            match problem {
                Some(why) => self.spec_problem() == Some(*why),
                None => self.spec_problem().is_none(),
            },
    {
        match &self.problem {
            Some(why) => Some(why),
            None => None,
        }
    }

    pub fn is_empty(&self) -> (empty: bool)
        ensures
            empty == (self.names().dom().len() == 0),
    {
        broadcast use vstd::std_specs::btree::group_btree_axioms;
        self.by_channel.len() == 0
    }
}

/// The digital path the driver measures a follower's phase over: which output of the device that
/// drives the callback feeds it, which of its own inputs the cable arrives on, and the phase that
/// was measured over it while this device's trim was measured.
#[derive(Clone, Copy, Debug, PartialEq, Eq, Structural)]
pub struct PhaseConfig {
    /// The callback master's output channel the cable leaves from.
    pub master_output: Option<i32>,
    /// This device's input channel the cable arrives on.
    pub input: Option<i32>,
    /// The phase measured in the session this device's trim was measured in, in samples.
    pub reference: Option<i32>,
}

/// What is wrong with a phase setting, in the words the refusal uses.
pub open spec fn spec_phase_problem(phase: PhaseConfig) -> Option<Seq<char>> {
    match (phase.master_output, phase.input) {
        (Some(output), Some(input)) => if output >= 0 && input >= 0 {
            None
        } else {
            Some("phase names a channel below zero, and channels are numbered from zero"@)
        },
        (None, _) => Some(
            "phase needs master_output, which is the output channel of the device that drives the callback that the cable leaves from"@,
        ),
        (_, None) => Some(
            "phase needs input, which is this device's own input channel the cable arrives on"@,
        ),
    }
}

impl PhaseConfig {
    /// Both channels, when both were given.
    pub fn channels(&self) -> (channels: Option<(i32, i32)>)
        ensures
            channels == match (self.master_output, self.input) {
                (Some(output), Some(input)) => Some((output, input)),
                _ => None,
            },
    {
        match (self.master_output, self.input) {
            (Some(output), Some(input)) => Some((output, input)),
            _ => None,
        }
    }

    /// What is wrong with the way it was written, if anything is.
    pub fn problem(&self) -> (problem: Option<&'static str>)
        ensures
            match problem {
                Some(why) => spec_phase_problem(*self) == Some(why@),
                None => spec_phase_problem(*self).is_none(),
            },
    {
        match (self.master_output, self.input) {
            (Some(output), Some(input)) => if output >= 0 && input >= 0 {
                None
            } else {
                Some("phase names a channel below zero, and channels are numbered from zero")
            },
            (None, _) => Some(
                "phase needs master_output, which is the output channel of the device that drives the callback that the cable leaves from",
            ),
            (_, None) => Some("phase needs input, which is this device's own input channel the cable arrives on"),
        }
    }
}

/// One sub-device, and how to find it.
#[derive(Clone, Debug)]
pub struct DeviceConfig {
    /// The registry key name the vendor driver registers itself under.
    pub key: Option<String>,
    /// The vendor driver's class id, which is the sure way to name one.
    pub clsid: Option<String>,
    /// What to call this device's channels. Defaults to the registry key name.
    pub name: Option<String>,
    /// Which of the device's inputs to expose, by the device's own numbering from zero.
    pub inputs: Option<Vec<i32>>,
    /// Which of the device's outputs to expose.
    pub outputs: Option<Vec<i32>>,
    /// What the person calls this device's inputs, by the device's own channel numbering.
    pub input_names: Labels,
    /// The same for the device's outputs.
    pub output_names: Labels,
    /// Samples to add to this device's reported input latency. A device that records late takes a
    /// positive trim.
    pub input_trim: Option<i32>,
    /// The same for the device's outputs.
    pub output_trim: Option<i32>,
    /// How to measure this device's capture phase at the start of a session.
    pub phase: Option<PhaseConfig>,
}

/// How a configuration entry reads in a message.
pub open spec fn spec_described(name: Option<String>, key: Option<String>, clsid: Option<String>) -> Seq<char> {
    match (name, key, clsid) {
        (Some(name), _, _) => name@,
        (_, Some(key), _) => key@,
        (_, _, Some(clsid)) => clsid@,
        _ => "a device with no name, key or class id"@,
    }
}

impl DeviceConfig {
    pub open spec fn spec_described(&self) -> Seq<char> {
        spec_described(self.name, self.key, self.clsid)
    }

    /// An entry that finds a device by its key and says nothing else.
    pub fn keyed(key: String) -> (device: DeviceConfig)
        ensures
            device.key == Some(key),
            device.clsid.is_none(),
            device.name.is_none(),
            device.inputs.is_none(),
            device.outputs.is_none(),
            device.input_trim.is_none(),
            device.output_trim.is_none(),
            device.phase.is_none(),
            device.input_names.names() == Map::<u32, String>::empty(),
            device.output_names.names() == Map::<u32, String>::empty(),
            device.input_names.spec_problem().is_none(),
            device.output_names.spec_problem().is_none(),
    {
        DeviceConfig {
            key: Some(key),
            clsid: None,
            name: None,
            inputs: None,
            outputs: None,
            input_names: Labels::none(),
            output_names: Labels::none(),
            input_trim: None,
            output_trim: None,
            phase: None,
        }
    }

    /// How this entry reads in a message.
    pub fn described(&self) -> (text: String)
        ensures
            text@ == self.spec_described(),
    {
        match (&self.name, &self.key, &self.clsid) {
            (Some(name), _, _) => name.clone(),
            (_, Some(key), _) => key.clone(),
            (_, _, Some(clsid)) => clsid.clone(),
            _ => String::from_str("a device with no name, key or class id"),
        }
    }
}

/// How many of the master's buffers a device may miss before it is called stalled.
pub fn default_stall_after() -> (buffers: u32)
    ensures
        buffers == 4,
{
    4
}

/// How many of the master's buffers a stalled device must call back for before it is trusted
/// again.
pub fn default_recover_after() -> (buffers: u32)
    ensures
        buffers == 2,
{
    2
}

/// How many buffers of slack each device's ring holds.
pub fn default_ring_buffers() -> (buffers: usize)
    ensures
        buffers == 4,
{
    4
}

/// The whole file, less the rate it may ask every device to run at, which is a number of samples
/// a second and is checked where it is read. Every field has a default.
#[derive(Clone, Debug)]
pub struct Config {
    /// The sub-devices, in the order their channels appear to the DAW. Empty means every driver
    /// of the maker's this PC has, in registry order.
    pub devices: Vec<DeviceConfig>,
    /// Which device drives the DAW's callback, by its name. Left out means the first.
    pub callback_master: Option<String>,
    pub alignment: Alignment,
    /// The buffer size to offer the DAW as preferred. Left out means the size the devices agree on.
    pub buffer_size: Option<i32>,
    /// How many of the master's buffers a device may miss before it is called stalled.
    pub stall_after_buffers: u32,
    /// How many of the master's buffers a stalled device must call back for before it is trusted
    /// again.
    pub recover_after_buffers: u32,
    /// How many buffers of slack each device's ring holds.
    pub ring_buffers: usize,
}

/// Whether channels include one below zero.
pub open spec fn below_zero(channels: Seq<i32>) -> bool {
    exists|i: int| 0 <= i < channels.len() && #[trigger] channels[i] < 0
}

/// Whether a list of channels names one below zero.
pub open spec fn spec_any_below_zero(list: Option<Vec<i32>>) -> bool {
    match list {
        Some(channels) => below_zero(channels@),
        None => false,
    }
}

/// What is wrong with one device entry, however it was written.
pub open spec fn spec_device_problem(device: DeviceConfig) -> Option<Seq<char>> {
    if device.key.is_none() && device.clsid.is_none() {
        Some("every device needs a key or a clsid to find it by"@)
    } else if spec_any_below_zero(device.inputs) || spec_any_below_zero(device.outputs) {
        Some(device.spec_described() + " lists a channel below zero"@)
    } else if device.phase matches Some(phase) && spec_phase_problem(phase) is Some {
        Some(device.spec_described() + ": "@ + spec_phase_problem(device.phase.unwrap()).unwrap())
    } else if device.input_names.spec_problem() is Some {
        Some(device.spec_described() + "'s input_names: "@ + device.input_names.spec_problem().unwrap()@)
    } else if device.output_names.spec_problem() is Some {
        Some(device.spec_described() + "'s output_names: "@ + device.output_names.spec_problem().unwrap()@)
    } else {
        None
    }
}

/// The first device entry, from `from` on, that is wrong, and what is wrong with it.
pub open spec fn spec_devices_problem(devices: Seq<DeviceConfig>, from: int) -> Option<Seq<char>>
    decreases devices.len() - from,
{
    if from < 0 || from >= devices.len() {
        None
    } else if spec_device_problem(devices[from]) is Some {
        spec_device_problem(devices[from])
    } else {
        spec_devices_problem(devices, from + 1)
    }
}

/// What is wrong with a whole file, in the order the file is checked. `rate_ok` is whether the
/// rate it asks for, if any, is a positive number of samples a second.
pub open spec fn spec_config_problem(config: Config, rate_ok: bool) -> Option<Seq<char>> {
    if config.ring_buffers < 2 {
        Some("ring_buffers must be at least 2"@)
    } else if config.buffer_size matches Some(size) && size <= 0 {
        Some("buffer_size must be more than zero"@)
    } else if !rate_ok {
        Some("rate must be a positive number of samples a second"@)
    } else {
        spec_devices_problem(config.devices@, 0)
    }
}

impl Config {
    /// `{}`, or no file at all.
    pub fn default_config() -> (config: Config)
        ensures
            config.devices@.len() == 0,
            config.callback_master.is_none(),
            config.alignment == Alignment::Aligned,
            config.buffer_size.is_none(),
            config.stall_after_buffers == 4,
            config.recover_after_buffers == 2,
            config.ring_buffers == 4,
    {
        Config {
            devices: Vec::new(),
            callback_master: None,
            alignment: Alignment::Aligned,
            buffer_size: None,
            stall_after_buffers: default_stall_after(),
            recover_after_buffers: default_recover_after(),
            ring_buffers: default_ring_buffers(),
        }
    }

    /// The things that are wrong however they were written, or the configuration as it is.
    /// `rate_ok` is whether the rate the file asks for, if it asks for one, is a positive number of
    /// samples a second; it is checked in its place in the order.
    pub fn checked(self, rate_ok: bool) -> (checked: Result<Config, String>)
        ensures
            match checked {
                Ok(config) => config == self && spec_config_problem(self, rate_ok).is_none(),
                Err(why) => spec_config_problem(self, rate_ok) == Some(why@),
            },
    {
        if self.ring_buffers < 2 {
            return Err(String::from_str("ring_buffers must be at least 2"));
        }
        if let Some(size) = self.buffer_size {
            if size <= 0 {
                return Err(String::from_str("buffer_size must be more than zero"));
            }
        }
        if !rate_ok {
            return Err(String::from_str("rate must be a positive number of samples a second"));
        }
        let mut index: usize = 0;
        while index < self.devices.len()
            invariant
                self.ring_buffers >= 2,
                rate_ok,
                !(self.buffer_size matches Some(size) && size <= 0),
                index <= self.devices@.len(),
                spec_devices_problem(self.devices@, 0) == spec_devices_problem(self.devices@, index as int),
            decreases self.devices@.len() - index,
        {
            let found = device_problem(&self.devices[index]);
            proof {
                assert(spec_devices_problem(self.devices@, index as int) == if spec_device_problem(self.devices@[index as int]) is Some {
                    spec_device_problem(self.devices@[index as int])
                } else {
                    spec_devices_problem(self.devices@, index + 1)
                });
            }
            if let Some(why) = found {
                return Err(why);
            }
            index = index + 1;
        }
        Ok(self)
    }
}

/// Whether channels include one below zero.
fn channels_below_zero(channels: &Vec<i32>) -> (below: bool)
    ensures
        below == below_zero(channels@),
{
    let mut i: usize = 0;
    while i < channels.len()
        invariant
            i <= channels@.len(),
            forall|k: int| 0 <= k < i ==> channels@[k] >= 0,
        decreases channels@.len() - i,
    {
        if channels[i] < 0 {
            assert(channels@[i as int] < 0);
            return true;
        }
        i = i + 1;
    }
    false
}

/// Whether a list of channels names one below zero.
fn any_below_zero(list: &Option<Vec<i32>>) -> (below: bool)
    ensures
        below == spec_any_below_zero(*list),
{
    match list {
        Some(channels) => channels_below_zero(channels),
        None => false,
    }
}

/// What is wrong with one device entry, however it was written.
fn device_problem(device: &DeviceConfig) -> (problem: Option<String>)
    ensures
        match problem {
            Some(why) => spec_device_problem(*device) == Some(why@),
            None => spec_device_problem(*device).is_none(),
        },
{
    if device.key.is_none() && device.clsid.is_none() {
        return Some(String::from_str("every device needs a key or a clsid to find it by"));
    }
    if any_below_zero(&device.inputs) || any_below_zero(&device.outputs) {
        let mut why = device.described();
        append_str(&mut why, " lists a channel below zero");
        return Some(why);
    }
    if let Some(phase) = &device.phase {
        if let Some(problem) = phase.problem() {
            let mut why = device.described();
            append_str(&mut why, ": ");
            append_str(&mut why, problem);
            return Some(why);
        }
    }
    if let Some(problem) = device.input_names.problem() {
        let mut why = device.described();
        append_str(&mut why, "'s input_names: ");
        append_str(&mut why, problem.as_str());
        return Some(why);
    }
    if let Some(problem) = device.output_names.problem() {
        let mut why = device.described();
        append_str(&mut why, "'s output_names: ");
        append_str(&mut why, problem.as_str());
        return Some(why);
    }
    None
}

/// Whether `text` is `word` written with any case, and with a dash or a space wherever `word` has
/// an underscore.
pub open spec fn spelt_as(text: Seq<char>, word: Seq<char>) -> bool {
    &&& text.len() == word.len()
    &&& forall|i: int|
        0 <= i < word.len() ==> lower(#[trigger] text[i]) == word[i] || (word[i] == '_' && (text[i] == '-'
            || text[i] == ' '))
}

/// **The file's alignment word turns on nothing but its spelling.** `lowest_latency`, in any case,
/// with a dash or a space for its underscore and space around it, is the lowest latency; every
/// other word is lined up.
pub proof fn law_lowest_latency_is_read_however_it_is_spelt(value: Seq<char>)
    ensures
        (spec_alignment_from(value) == Alignment::LowestLatency) <==> spelt_as(trim(value), "lowest_latency"@),
        (spec_alignment_from(value) == Alignment::Aligned) <==> !spelt_as(trim(value), "lowest_latency"@),
{
    reveal_strlit("lowest_latency");
    let word = "lowest_latency"@;
    let text = trim(value);
    let read = underscored(lowered(text));
    if spelt_as(text, word) {
        assert forall|i: int| 0 <= i < word.len() implies read[i] == word[i] by {
            assert(lower(text[i]) == word[i] || (word[i] == '_' && (text[i] == '-' || text[i] == ' ')));
        }
        assert(read =~= word);
    }
    if read == word {
        assert forall|i: int| 0 <= i < word.len() implies lower(#[trigger] text[i]) == word[i] || (word[i] == '_'
            && (text[i] == '-' || text[i] == ' ')) by {
            assert(read[i] == word[i]);
        }
    }
}

/// **A device entry is found by its key or by its clsid, and either is enough.** One with neither
/// is refused for it; one with either, or both, is refused for nothing else than the same entry with
/// the other would be.
pub proof fn law_a_key_or_a_clsid_is_enough(device: DeviceConfig, key: String, clsid: String)
    ensures
        spec_device_problem(DeviceConfig { key: None, clsid: None, ..device }) == Some(
            "every device needs a key or a clsid to find it by"@,
        ),
        spec_device_problem(DeviceConfig { key: Some(key), clsid: None, ..device }) is None
            <==> spec_device_problem(DeviceConfig { key: None, clsid: Some(clsid), ..device }) is None,
        spec_device_problem(DeviceConfig { key: Some(key), clsid: None, ..device }) is None
            <==> spec_device_problem(DeviceConfig { key: Some(key), clsid: Some(clsid), ..device }) is None,
        spec_device_problem(DeviceConfig { key: Some(key), clsid: None, ..device }) is None <==> !(
        spec_any_below_zero(device.inputs) || spec_any_below_zero(device.outputs) || (device.phase matches Some(phase)
            && spec_phase_problem(phase) is Some) || device.input_names.spec_problem() is Some
            || device.output_names.spec_problem() is Some),
{
}

} // verus!
