//! What the aggregate decides when a DAW asks it for something that is not audio: which of the
//! PC's drivers the configuration means, which of the aggregate's channels each buffer the DAW asks
//! for is, whether a block size will do, what a channel is called, and in which order the devices
//! are started and stopped.
//!
//! [`Aggregate`] puts these together over the devices it holds: it works out the plan, makes the
//! buffers at the block the DAW asks for, and starts, stops and lets them go.
use vstd::prelude::*;
use crate::config::{Config, DeviceConfig};
use crate::devices::{
    create_device_buffers, dispose_devices, each, grew_by, let_go, spec_created, spec_started, start_devices, stop_devices, Act,
    Devices,
};
use crate::plan::{
    looks_like_ours, mentions_maker, plan, spec_matches, spec_plan, ChannelRef, DevicePlan, Found, Plan, Worked,
};
use crate::text::{append_str, decimal, digits, number, number_usize};

verus! {

/// How many sub-devices one aggregate can hold. Each needs its own set of static callbacks,
/// because the interface gives a callback nothing to say which device called it.
pub const MAX_DEVICES: usize = 8;

/// The sample type every channel of the aggregate presents: 32 bit integers, least significant
/// byte first, as the stream interface numbers it.
pub const INT32_LSB: i32 = 18;

/// What the DAW asked for, one entry per buffer: an input or an output, and which channel.
#[derive(Clone, Copy, Debug, PartialEq, Eq, Structural)]
pub struct Wanted {
    pub is_input: bool,
    pub channel: i32,
}

/// What a channel is called and what it carries.
#[derive(Clone, Debug, PartialEq, Eq)]
pub struct ChannelInfo {
    pub name: String,
    pub active: bool,
    pub group: i32,
    pub sample_type: i32,
}

/// One driver the PC has registered, as the aggregate chooses among them: the key it is listed
/// under, its class id, what it says it is, and the library it lives in when that could be read.
#[derive(Clone, Debug, PartialEq, Eq)]
pub struct Entry {
    pub key: String,
    pub clsid: String,
    pub description: Option<String>,
    pub dll: Option<String>,
}

/// The text an optional string holds, as the contracts speak of it.
pub open spec fn text_of(text: Option<String>) -> Option<Seq<char>> {
    match text {
        Some(text) => Some(text@),
        None => None,
    }
}

/// Whether an entry is one of the maker's own drivers, which is what is opened with no file.
pub open spec fn is_ours(entry: Entry) -> bool {
    mentions_maker(entry.key@) || (entry.description matches Some(text) && mentions_maker(text@)) || (
    entry.dll matches Some(text) && mentions_maker(text@))
}

/// The maker's own drivers among the first `upto` entries, in registry order.
pub open spec fn ours_upto(entries: Seq<Entry>, upto: int) -> Seq<usize>
    decreases upto,
{
    if upto <= 0 {
        Seq::empty()
    } else if is_ours(entries[upto - 1]) {
        ours_upto(entries, upto - 1).push((upto - 1) as usize)
    } else {
        ours_upto(entries, upto - 1)
    }
}

/// The first entry, looking no further than `upto`, that a configuration entry asks for.
/// `same_class[j]` is whether entry `j`'s class id is the one the configuration entry names.
pub open spec fn match_upto(entries: Seq<Entry>, same_class: Seq<bool>, wanted: DeviceConfig, upto: int) -> Option<
    usize,
>
    decreases upto,
{
    if upto <= 0 {
        None
    } else {
        match match_upto(entries, same_class, wanted, upto - 1) {
            Some(at) => Some(at),
            None => if spec_matches(
                entries[upto - 1].key@,
                same_class[upto - 1],
                text_of(entries[upto - 1].description),
                wanted,
            ) {
                Some((upto - 1) as usize)
            } else {
                None
            },
        }
    }
}

/// The sentence for a PC with none of the maker's drivers and a file that names none.
pub open spec fn none_of_ours() -> Seq<char> {
    "no Antelope drivers are registered on this PC, and the configuration file names none either"@
}

/// The sentence for a configured device no driver matches.
pub open spec fn unmatched(wanted: DeviceConfig) -> Seq<char> {
    wanted.spec_described() + " is in the configuration but no driver on this PC matches it"@
}

/// The entries each of the first `upto` configured devices finds, or the sentence for the first
/// that finds none.
pub open spec fn chosen_upto(entries: Seq<Entry>, devices: Seq<DeviceConfig>, same_class: Seq<Seq<bool>>, upto: int) -> Result<
    Seq<usize>,
    Seq<char>,
>
    decreases upto,
{
    if upto <= 0 {
        Ok(Seq::empty())
    } else {
        match chosen_upto(entries, devices, same_class, upto - 1) {
            Err(why) => Err(why),
            Ok(chosen) => match match_upto(entries, same_class[upto - 1], devices[upto - 1], entries.len() as int) {
                Some(at) => Ok(chosen.push(at)),
                None => Err(unmatched(devices[upto - 1])),
            },
        }
    }
}

/// Which of the PC's drivers a configuration is asking for, by their place among the entries: with
/// no devices in the file, every one of the maker's own in registry order; otherwise, for each
/// configured device in the file's order, the first entry it matches.
pub open spec fn spec_choose_drivers(entries: Seq<Entry>, config: Config, same_class: Seq<Seq<bool>>) -> Result<
    Seq<usize>,
    Seq<char>,
> {
    if config.devices@.len() == 0 {
        let ours = ours_upto(entries, entries.len() as int);
        if ours.len() == 0 {
            Err(none_of_ours())
        } else {
            Ok(ours)
        }
    } else {
        chosen_upto(entries, config.devices@, same_class, config.devices@.len() as int)
    }
}

proof fn lemma_match_stays(entries: Seq<Entry>, same_class: Seq<bool>, wanted: DeviceConfig, from: int, to: int)
    requires
        0 <= from <= to,
        match_upto(entries, same_class, wanted, from).is_some(),
    ensures
        match_upto(entries, same_class, wanted, to) == match_upto(entries, same_class, wanted, from),
    decreases to - from,
{
    if to > from {
        lemma_match_stays(entries, same_class, wanted, from, to - 1);
    }
}

proof fn lemma_chosen_stays(entries: Seq<Entry>, devices: Seq<DeviceConfig>, same_class: Seq<Seq<bool>>, from: int, to: int)
    requires
        0 <= from <= to,
        chosen_upto(entries, devices, same_class, from) is Err,
    ensures
        chosen_upto(entries, devices, same_class, to) == chosen_upto(entries, devices, same_class, from),
    decreases to - from,
{
    if to > from {
        lemma_chosen_stays(entries, devices, same_class, from, to - 1);
    }
}

fn first_match(entries: &[Entry], same_class: &Vec<bool>, wanted: &DeviceConfig) -> (found: Option<usize>)
    requires
        same_class@.len() == entries@.len(),
    ensures
        found == match_upto(entries@, same_class@, *wanted, entries@.len() as int),
        found matches Some(at) ==> at < entries@.len(),
{
    let mut j: usize = 0;
    while j < entries.len()
        invariant
            j <= entries@.len(),
            same_class@.len() == entries@.len(),
            match_upto(entries@, same_class@, *wanted, j as int).is_none(),
        decreases entries@.len() - j,
    {
        let entry = &entries[j];
        let description = match &entry.description {
            Some(text) => Some(text.as_str()),
            None => None,
        };
        if crate::plan::matches(entry.key.as_str(), same_class[j], description, wanted) {
            proof {
                lemma_match_stays(entries@, same_class@, *wanted, j + 1, entries@.len() as int);
            }
            return Some(j);
        }
        j = j + 1;
    }
    None
}

/// Which of the PC's drivers this configuration is asking for, in the configuration's own order,
/// by their place among the entries. `same_class[i][j]` is whether entry `j`'s class id is the one
/// configured device `i` names, which the stream interface decides.
pub fn choose_drivers(entries: &[Entry], config: &Config, same_class: &Vec<Vec<bool>>) -> (chosen: Result<Vec<usize>, String>)
    requires
        same_class@.len() == config.devices@.len(),
        forall|i: int| 0 <= i < same_class@.len() ==> (#[trigger] same_class@[i])@.len() == entries@.len(),
    ensures
        match chosen {
            Ok(at) => spec_choose_drivers(
                entries@,
                *config,
                same_class@.map_values(|row: Vec<bool>| row@),
            ) == Ok::<Seq<usize>, Seq<char>>(at@),
            Err(why) => spec_choose_drivers(entries@, *config, same_class@.map_values(|row: Vec<bool>| row@)) == Err::<
                Seq<usize>,
                Seq<char>,
            >(why@),
        },
        chosen matches Ok(at) ==> (forall|k: int| 0 <= k < at@.len() ==> #[trigger] at@[k] < entries@.len()) && (
        config.devices@.len() > 0 ==> at@.len() == config.devices@.len()),
{
    proof {
        reveal_strlit("no Antelope drivers are registered on this PC, and the configuration file names none either");
        reveal_strlit(" is in the configuration but no driver on this PC matches it");
    }
    let ghost rows = same_class@.map_values(|row: Vec<bool>| row@);
    if config.devices.len() == 0 {
        let mut ours: Vec<usize> = Vec::new();
        let mut j: usize = 0;
        while j < entries.len()
            invariant
                j <= entries@.len(),
                ours@ == ours_upto(entries@, j as int),
                forall|k: int| 0 <= k < ours@.len() ==> #[trigger] ours@[k] < j,
            decreases entries@.len() - j,
        {
            let entry = &entries[j];
            let description = match &entry.description {
                Some(text) => Some(text.as_str()),
                None => None,
            };
            let dll = match &entry.dll {
                Some(text) => Some(text.as_str()),
                None => None,
            };
            if looks_like_ours(entry.key.as_str(), description, dll) {
                ours.push(j);
            }
            j = j + 1;
        }
        if ours.len() == 0 {
            return Err(
                String::from_str(
                    "no Antelope drivers are registered on this PC, and the configuration file names none either",
                ),
            );
        }
        return Ok(ours);
    }
    let mut chosen: Vec<usize> = Vec::new();
    let mut i: usize = 0;
    while i < config.devices.len()
        invariant
            i <= config.devices@.len(),
            config.devices@.len() > 0,
            same_class@.len() == config.devices@.len(),
            forall|k: int| 0 <= k < same_class@.len() ==> (#[trigger] same_class@[k])@.len() == entries@.len(),
            rows == same_class@.map_values(|row: Vec<bool>| row@),
            chosen_upto(entries@, config.devices@, rows, i as int) == Ok::<Seq<usize>, Seq<char>>(chosen@),
            chosen@.len() == i,
            forall|k: int| 0 <= k < chosen@.len() ==> #[trigger] chosen@[k] < entries@.len(),
        decreases config.devices@.len() - i,
    {
        let wanted = &config.devices[i];
        proof {
            assert(rows[i as int] == same_class@[i as int]@);
        }
        match first_match(entries, &same_class[i], wanted) {
            Some(at) => {
                chosen.push(at);
            },
            None => {
                let mut why = wanted.described();
                append_str(&mut why, " is in the configuration but no driver on this PC matches it");
                proof {
                    lemma_chosen_stays(entries@, config.devices@, rows, i + 1, config.devices@.len() as int);
                }
                return Err(why);
            },
        }
        i = i + 1;
    }
    Ok(chosen)
}

/// The sentence for more devices than one aggregate holds.
pub open spec fn too_many(count: nat) -> Seq<char> {
    digits(count) + " devices were configured and this driver holds at most 8"@
}

/// Whether one aggregate can hold this many devices, and the sentence when it cannot.
pub fn count_refusal(count: usize) -> (why: Option<String>)
    ensures
        match why {
            Some(text) => count > MAX_DEVICES && text@ == too_many(count as nat),
            None => count <= MAX_DEVICES,
        },
{
    proof {
        reveal_strlit(" devices were configured and this driver holds at most 8");
    }
    if count > MAX_DEVICES {
        let mut why = number_usize(count);
        append_str(&mut why, " devices were configured and this driver holds at most 8");
        Some(why)
    } else {
        None
    }
}

/// The sentence for a block size outside what the devices take.
pub open spec fn block_outside(block: i32, min: i32, max: i32) -> Seq<char> {
    decimal(block as int) + " samples is outside what these devices will take, which is "@ + decimal(min as int)
        + " to "@ + decimal(max as int)
}

/// Whether a DAW's block size is one every device takes, and the sentence when it is not.
pub fn block_refusal(block: i32, min: i32, max: i32) -> (why: Option<String>)
    ensures
        match why {
            Some(text) => (block < min || block > max) && text@ == block_outside(block, min, max),
            None => min <= block <= max,
        },
{
    proof {
        reveal_strlit(" samples is outside what these devices will take, which is ");
        reveal_strlit(" to ");
    }
    if block < min || block > max {
        let mut why = number(block as i64);
        append_str(&mut why, " samples is outside what these devices will take, which is ");
        let least = number(min as i64);
        append_str(&mut why, least.as_str());
        append_str(&mut why, " to ");
        let most = number(max as i64);
        append_str(&mut why, most.as_str());
        Some(why)
    } else {
        None
    }
}

/// The sentence for a channel number below zero.
pub open spec fn not_a_channel(channel: i32) -> Seq<char> {
    "channel "@ + decimal(channel as int) + " is not a channel"@
}

/// The sentence for a channel past the end of the aggregate's list.
pub open spec fn no_such_channel(is_input: bool, index: nat, count: nat) -> Seq<char> {
    "there is no "@ + (if is_input {
        "input"@
    } else {
        "output"@
    }) + " channel "@ + digits(index) + ": this aggregate has "@ + digits(count)
}

/// What the DAW's buffers are, in the aggregate's own terms, over its first `upto` requests: the
/// inputs asked for and the outputs asked for, each as the aggregate channel it is, and for every
/// request in the DAW's order whether it is an input and where among its side it went; or the
/// sentence for the first request that is no channel at all.
pub open spec fn mapped_upto(inputs: Seq<ChannelRef>, outputs: Seq<ChannelRef>, wanted: Seq<Wanted>, upto: int) -> Result<
    (Seq<ChannelRef>, Seq<ChannelRef>, Seq<(bool, usize)>),
    Seq<char>,
>
    decreases upto,
{
    if upto <= 0 {
        Ok((Seq::empty(), Seq::empty(), Seq::empty()))
    } else {
        match mapped_upto(inputs, outputs, wanted, upto - 1) {
            Err(why) => Err(why),
            Ok((ins, outs, order)) => {
                let want = wanted[upto - 1];
                let list = if want.is_input {
                    inputs
                } else {
                    outputs
                };
                if want.channel < 0 {
                    Err(not_a_channel(want.channel))
                } else if want.channel >= list.len() {
                    Err(no_such_channel(want.is_input, want.channel as nat, list.len()))
                } else if want.is_input {
                    Ok((ins.push(list[want.channel as int]), outs, order.push((true, ins.len() as usize))))
                } else {
                    Ok((ins, outs.push(list[want.channel as int]), order.push((false, outs.len() as usize))))
                }
            },
        }
    }
}

proof fn lemma_mapped_stays(inputs: Seq<ChannelRef>, outputs: Seq<ChannelRef>, wanted: Seq<Wanted>, from: int, to: int)
    requires
        0 <= from <= to,
        mapped_upto(inputs, outputs, wanted, from) is Err,
    ensures
        mapped_upto(inputs, outputs, wanted, to) == mapped_upto(inputs, outputs, wanted, from),
    decreases to - from,
{
    if to > from {
        lemma_mapped_stays(inputs, outputs, wanted, from, to - 1);
    }
}

/// Which aggregate channel each buffer the DAW asks for is, refused clearly rather than silently
/// dropped: the inputs asked for, the outputs asked for, and for each request in the DAW's order
/// whether it is an input and where among its side it went.
pub fn buffer_map(inputs: &[ChannelRef], outputs: &[ChannelRef], wanted: &[Wanted]) -> (mapped: Result<
    (Vec<ChannelRef>, Vec<ChannelRef>, Vec<(bool, usize)>),
    String,
>)
    ensures
        match mapped {
            Ok((ins, outs, order)) => mapped_upto(inputs@, outputs@, wanted@, wanted@.len() as int) == Ok::<
                (Seq<ChannelRef>, Seq<ChannelRef>, Seq<(bool, usize)>),
                Seq<char>,
            >((ins@, outs@, order@)),
            Err(why) => mapped_upto(inputs@, outputs@, wanted@, wanted@.len() as int) == Err::<
                (Seq<ChannelRef>, Seq<ChannelRef>, Seq<(bool, usize)>),
                Seq<char>,
            >(why@),
        },
{
    proof {
        reveal_strlit("channel ");
        reveal_strlit(" is not a channel");
        reveal_strlit("there is no ");
        reveal_strlit("input");
        reveal_strlit("output");
        reveal_strlit(" channel ");
        reveal_strlit(": this aggregate has ");
    }
    let mut ins: Vec<ChannelRef> = Vec::new();
    let mut outs: Vec<ChannelRef> = Vec::new();
    let mut order: Vec<(bool, usize)> = Vec::new();
    let mut k: usize = 0;
    while k < wanted.len()
        invariant
            k <= wanted@.len(),
            mapped_upto(inputs@, outputs@, wanted@, k as int) == Ok::<
                (Seq<ChannelRef>, Seq<ChannelRef>, Seq<(bool, usize)>),
                Seq<char>,
            >((ins@, outs@, order@)),
        decreases wanted@.len() - k,
    {
        let want = wanted[k];
        let list = if want.is_input {
            inputs
        } else {
            outputs
        };
        if want.channel < 0 {
            let mut why = String::from_str("channel ");
            let said = number(want.channel as i64);
            append_str(&mut why, said.as_str());
            append_str(&mut why, " is not a channel");
            proof {
                lemma_mapped_stays(inputs@, outputs@, wanted@, k + 1, wanted@.len() as int);
            }
            return Err(why);
        }
        let index = want.channel as usize;
        if index >= list.len() {
            let mut why = String::from_str("there is no ");
            append_str(&mut why, if want.is_input {
                "input"
            } else {
                "output"
            });
            append_str(&mut why, " channel ");
            let said = number_usize(index);
            append_str(&mut why, said.as_str());
            append_str(&mut why, ": this aggregate has ");
            let count = number_usize(list.len());
            append_str(&mut why, count.as_str());
            proof {
                lemma_mapped_stays(inputs@, outputs@, wanted@, k + 1, wanted@.len() as int);
            }
            return Err(why);
        }
        let reference = list[index];
        if want.is_input {
            order.push((true, ins.len()));
            ins.push(reference);
        } else {
            order.push((false, outs.len()));
            outs.push(reference);
        }
        k = k + 1;
    }
    Ok((ins, outs, order))
}

/// One channel of the aggregate, named so that a person can tell the devices apart, and whether
/// the DAW has asked for it.
pub open spec fn spec_channel_info(names: Seq<String>, wanted: Seq<Wanted>, is_input: bool, channel: i32) -> Option<
    (Seq<char>, bool, i32, i32),
> {
    if 0 <= channel < names.len() {
        Some(
            (
                names[channel as int]@,
                exists|k: int| 0 <= k < wanted.len() && #[trigger] wanted[k] == (Wanted { is_input, channel }),
                0i32,
                INT32_LSB,
            ),
        )
    } else {
        None
    }
}

/// One channel of the aggregate, named so that a person can tell the devices apart. `names` is
/// the plan's names of that side, `wanted` what the DAW has asked for.
pub fn channel_info(names: &[String], wanted: &[Wanted], is_input: bool, channel: i32) -> (info: Option<ChannelInfo>)
    ensures
        match info {
            Some(info) => spec_channel_info(names@, wanted@, is_input, channel) == Some(
                (info.name@, info.active, info.group, info.sample_type),
            ),
            None => spec_channel_info(names@, wanted@, is_input, channel).is_none(),
        },
{
    if channel < 0 || channel as usize >= names.len() {
        return None;
    }
    let name = names[channel as usize].clone();
    let mut active = false;
    let mut k: usize = 0;
    while k < wanted.len()
        invariant
            k <= wanted@.len(),
            active == exists|j: int| 0 <= j < k && #[trigger] wanted@[j] == (Wanted { is_input, channel }),
        decreases wanted@.len() - k,
    {
        if wanted[k].is_input == is_input && wanted[k].channel == channel {
            active = true;
        }
        k = k + 1;
    }
    Some(ChannelInfo { name, active, group: 0, sample_type: INT32_LSB })
}

/// The order the devices are started in: the ones that follow first, so that the one driving the
/// callback is the last thing to begin and never calls the DAW before the others can answer it.
pub open spec fn spec_start_order(count: nat, master: usize) -> Seq<usize> {
    spec_followers(count as int, master).push(master)
}

/// Every device among the first `upto` but the one driving the callback, in order.
pub open spec fn spec_followers(upto: int, master: usize) -> Seq<usize>
    decreases upto,
{
    if upto <= 0 {
        Seq::empty()
    } else if upto - 1 == master {
        spec_followers(upto - 1, master)
    } else {
        spec_followers(upto - 1, master).push((upto - 1) as usize)
    }
}

/// The order the devices are stopped in: the one driving the callback first.
pub open spec fn spec_stop_order(count: nat, master: usize) -> Seq<usize> {
    seq![master] + spec_followers(count as int, master)
}

fn followers(count: usize, master: usize) -> (rest: Vec<usize>)
    ensures
        rest@ == spec_followers(count as int, master),
{
    let mut rest: Vec<usize> = Vec::new();
    let mut i: usize = 0;
    while i < count
        invariant
            i <= count,
            rest@ == spec_followers(i as int, master),
        decreases count - i,
    {
        if i != master {
            rest.push(i);
        }
        i = i + 1;
    }
    rest
}

/// The order the devices are started in: every follower, and the master last.
pub fn start_order(count: usize, master: usize) -> (order: Vec<usize>)
    ensures
        order@ == spec_start_order(count as nat, master),
{
    let mut order = followers(count, master);
    order.push(master);
    order
}

/// The order the devices are stopped in: the master first, and every follower after it.
pub fn stop_order(count: usize, master: usize) -> (order: Vec<usize>)
    ensures
        order@ == spec_stop_order(count as nat, master),
{
    let rest = followers(count, master);
    let mut order: Vec<usize> = Vec::new();
    order.push(master);
    let mut i: usize = 0;
    while i < rest.len()
        invariant
            i <= rest@.len(),
            order@ == seq![master] + rest@.take(i as int),
        decreases rest@.len() - i,
    {
        order.push(rest[i]);
        proof {
            assert(order@ =~= seq![master] + rest@.take(i + 1));
        }
        i = i + 1;
    }
    assert(rest@.take(rest@.len() as int) =~= rest@);
    order
}

/// Whether every device takes `outputReady`: the aggregate offers it only when every one of them
/// does, and never with no devices at all.
pub fn output_ready(ready: &[bool]) -> (offered: bool)
    ensures
        offered == (ready@.len() > 0 && forall|i: int| 0 <= i < ready@.len() ==> #[trigger] ready@[i]),
{
    if ready.len() == 0 {
        return false;
    }
    let mut i: usize = 0;
    while i < ready.len()
        invariant
            i <= ready@.len(),
            forall|k: int| 0 <= k < i ==> #[trigger] ready@[k],
        decreases ready@.len() - i,
    {
        if !ready[i] {
            return false;
        }
        i = i + 1;
    }
    true
}

proof fn lemma_followers(upto: int, master: usize)
    requires
        0 <= upto <= usize::MAX as int + 1,
    ensures
        forall|a: int, b: int|
            0 <= a < b < spec_followers(upto, master).len() ==> spec_followers(upto, master)[a] < spec_followers(
                upto,
                master,
            )[b],
        forall|k: int|
            0 <= k < spec_followers(upto, master).len() ==> (#[trigger] spec_followers(upto, master)[k]) < upto
                && spec_followers(upto, master)[k] != master,
        forall|i: int| 0 <= i < upto && i != master ==> #[trigger] spec_followers(upto, master).contains(i as usize),
        spec_followers(upto, master).len() == if master < upto {
            upto - 1
        } else {
            upto
        },
    decreases upto,
{
    if upto > 0 {
        lemma_followers(upto - 1, master);
        let before = spec_followers(upto - 1, master);
        let now = spec_followers(upto, master);
        assert forall|i: int| 0 <= i < upto && i != master implies #[trigger] now.contains(i as usize) by {
            if i < upto - 1 {
                assert(before.contains(i as usize));
                let k = choose|k: int| 0 <= k < before.len() && before[k] == i as usize;
                assert(now[k] == i as usize);
            } else {
                assert(now[now.len() - 1] == i as usize);
            }
        }
    }
}

/// **Every device is started once, and the one driving the callback last**, so that it never
/// calls the DAW before the others can answer; stopping is the same devices, that one first.
pub proof fn law_every_device_starts_once_and_the_master_last(count: usize, master: usize)
    requires
        master < count,
    ensures
        spec_start_order(count as nat, master).len() == count,
        spec_start_order(count as nat, master).last() == master,
        spec_stop_order(count as nat, master)[0] == master,
        spec_stop_order(count as nat, master).len() == count,
        forall|i: int|
            0 <= i < count ==> #[trigger] spec_start_order(count as nat, master).contains(i as usize)
                && spec_stop_order(count as nat, master).contains(i as usize),
        forall|a: int, b: int|
            0 <= a < b < count ==> spec_start_order(count as nat, master)[a] != spec_start_order(
                count as nat,
                master,
            )[b],
        forall|k: int| 0 <= k < count ==> #[trigger] spec_start_order(count as nat, master)[k] < count,
        forall|k: int| 0 <= k < count ==> #[trigger] spec_stop_order(count as nat, master)[k] < count,
{
    lemma_followers(count as int, master);
    let rest = spec_followers(count as int, master);
    let start = spec_start_order(count as nat, master);
    let stop = spec_stop_order(count as nat, master);
    assert forall|i: int| 0 <= i < count implies #[trigger] start.contains(i as usize) && stop.contains(i as usize) by {
        if i == master {
            assert(start[start.len() - 1] == master);
            assert(stop[0] == master);
        } else {
            assert(rest.contains(i as usize));
            let k = choose|k: int| 0 <= k < rest.len() && rest[k] == i as usize;
            assert(start[k] == i as usize);
            assert(stop[k + 1] == i as usize);
        }
    }
    assert forall|k: int| 0 <= k < count implies start[k] < count && stop[k] < count by {
        if k < count - 1 {
            assert(start[k] == rest[k]);
            assert(stop[k + 1] == rest[k]);
        } else {
            assert(start[k] == master);
        }
        if k > 0 {
            assert(stop[k] == rest[k - 1]);
        }
    }
    assert forall|a: int, b: int| 0 <= a < b < count implies start[a] != start[b] by {
        if b == count - 1 {
            assert(start[b] == master);
            assert(start[a] == rest[a]);
        } else {
            assert(start[a] == rest[a]);
            assert(start[b] == rest[b]);
        }
    }
}

/// A list of requests, copied.
fn copied(order: &Vec<(bool, usize)>) -> (copy: Vec<(bool, usize)>)
    ensures
        copy@ == order@,
{
    let mut copy: Vec<(bool, usize)> = Vec::new();
    let mut i: usize = 0;
    while i < order.len()
        invariant
            i <= order@.len(),
            copy@ == order@.take(i as int),
        decreases order@.len() - i,
    {
        copy.push(order[i]);
        i = i + 1;
        assert(order@.take(i as int) =~= order@.take(i - 1).push(order@[i - 1]));
    }
    assert(order@.take(order@.len() as int) =~= order@);
    copy
}

/// What the devices of a plan are called, by their place in it.
pub open spec fn plan_names(plan: Plan) -> Seq<String> {
    plan.devices@.map_values(|device: DevicePlan| device.name)
}

fn names_in(plan: &Plan) -> (names: Vec<String>)
    ensures
        names@ == plan_names(*plan),
{
    let mut names: Vec<String> = Vec::new();
    let mut i: usize = 0;
    while i < plan.devices.len()
        invariant
            i <= plan.devices@.len(),
            names@ == plan.devices@.take(i as int).map_values(|device: DevicePlan| device.name),
        decreases plan.devices@.len() - i,
    {
        names.push(plan.devices[i].name.clone());
        i = i + 1;
        assert(plan.devices@.take(i as int) =~= plan.devices@.take(i - 1).push(plan.devices@[i - 1]));
    }
    assert(plan.devices@.take(plan.devices@.len() as int) =~= plan.devices@);
    names
}

/// A DAW's requests, copied.
fn copied_wanted(wanted: &[Wanted]) -> (copy: Vec<Wanted>)
    ensures
        copy@ == wanted@,
{
    let mut copy: Vec<Wanted> = Vec::new();
    let mut i: usize = 0;
    while i < wanted.len()
        invariant
            i <= wanted@.len(),
            copy@ == wanted@.take(i as int),
        decreases wanted@.len() - i,
    {
        copy.push(wanted[i]);
        i = i + 1;
        assert(wanted@.take(i as int) =~= wanted@.take(i - 1).push(wanted@[i - 1]));
    }
    assert(wanted@.take(wanted@.len() as int) =~= wanted@);
    copy
}

/// The sentence for a driver started before its buffers were made.
pub open spec fn not_made() -> Seq<char> {
    "the driver was started before its buffers were made"@
}

/// The sentence for a DAW asking for buffers it already has.
pub open spec fn already_made() -> Seq<char> {
    "the buffers are already made"@
}

/// The sentence for a DAW asking for buffers before the driver was opened.
pub open spec fn not_opened() -> Seq<char> {
    "the driver was asked for buffers before it was opened"@
}

/// What a result without a value says of its refusal.
pub open spec fn as_done(made: Result<Vec<(bool, usize)>, String>) -> Result<(), String> {
    match made {
        Ok(_) => Ok(()),
        Err(why) => Err(why),
    }
}

/// **The aggregate a DAW opens**: the devices underneath it, the configuration they were opened
/// from, what they said they are, the plan in force, the DAW's buffers when it has them, and the
/// last refusal, which is what a DAW asking why is told.
pub struct Aggregate<D: Devices> {
    /// The devices, each by its place in the plan.
    devices: D,
    config: Config,
    /// The devices as they were read when they were opened, which is what every plan is worked out
    /// from.
    found: Vec<Found>,
    plan: Option<Plan>,
    /// For each buffer the DAW asked for, in its order, whether it is an input and where among
    /// its side it went; there only while the DAW has its buffers.
    buffers: Option<Vec<(bool, usize)>>,
    /// What the DAW asked for, while it has its buffers.
    wanted: Vec<Wanted>,
    /// Whether the devices are running.
    started: bool,
    error: String,
}

impl<D: Devices> Aggregate<D> {
    pub closed spec fn wf(&self) -> bool {
        &&& self.devices.count() == self.found@.len()
        &&& self.buffers is Some ==> self.plan is Some
        &&& self.started ==> self.buffers is Some
        &&& self.buffers is None ==> self.wanted@.len() == 0
        &&& self.plan matches Some(p) ==> p.devices@.len() == self.found@.len() && p.master < self.found@.len()
    }

    pub closed spec fn spec_devices(&self) -> D {
        self.devices
    }

    /// The devices, each by its place in the plan.
    pub fn devices(&self) -> (devices: &D)
        ensures
            *devices == self.spec_devices(),
    {
        &self.devices
    }

    pub closed spec fn spec_config(&self) -> Config {
        self.config
    }

    pub closed spec fn spec_found(&self) -> Seq<Found> {
        self.found@
    }

    /// The plan in force, if the driver is open.
    pub closed spec fn spec_plan_in_force(&self) -> Option<Plan> {
        self.plan
    }

    /// The DAW's buffers, by request, while it has them.
    pub closed spec fn spec_buffers(&self) -> Option<Seq<(bool, usize)>> {
        match self.buffers {
            Some(order) => Some(order@),
            None => None,
        }
    }

    pub closed spec fn spec_error(&self) -> Seq<char> {
        self.error@
    }

    pub closed spec fn spec_started(&self) -> bool {
        self.started
    }

    /// What the DAW asked for, while it has its buffers.
    pub closed spec fn spec_wanted(&self) -> Seq<Wanted> {
        self.wanted@
    }

    /// A driver over devices that have been opened and read, with nothing worked out yet.
    pub fn new(devices: D, config: Config, found: Vec<Found>) -> (aggregate: Aggregate<D>)
        requires
            devices.count() == found@.len(),
        ensures
            aggregate.wf(),
            aggregate.spec_devices() == devices,
            aggregate.spec_config() == config,
            aggregate.spec_found() == found@,
            aggregate.spec_plan_in_force() is None,
            aggregate.spec_buffers() is None,
            !aggregate.spec_started(),
            aggregate.spec_error() == Seq::<char>::empty(),
    {
        Aggregate {
            devices,
            config,
            found,
            plan: None,
            buffers: None,
            wanted: Vec::new(),
            started: false,
            error: String::new(),
        }
    }

    /// The last refusal.
    pub fn last_error(&self) -> (why: &str)
        ensures
            why@ == self.spec_error(),
    {
        self.error.as_str()
    }

    /// Whether a DAW has its buffers.
    pub fn has_buffers(&self) -> (has: bool)
        ensures
            has == self.spec_buffers() is Some,
    {
        self.buffers.is_some()
    }

    /// Whether the driver is open: whether there is a plan in force.
    pub fn is_initialised(&self) -> (open: bool)
        ensures
            open == self.spec_plan_in_force() is Some,
    {
        self.plan.is_some()
    }

    /// Remember a refusal that happened before the aggregate itself was asked anything, so that a
    /// DAW asking why still has something to be told.
    pub fn refuse(&mut self, message: String)
        ensures
            final(self).spec_error() == message@,
            final(self).spec_devices() == old(self).spec_devices(),
            final(self).spec_config() == old(self).spec_config(),
            final(self).spec_found() == old(self).spec_found(),
            final(self).spec_plan_in_force() == old(self).spec_plan_in_force(),
            final(self).spec_buffers() == old(self).spec_buffers(),
            final(self).spec_started() == old(self).spec_started(),
            final(self).spec_wanted() == old(self).spec_wanted(),
    {
        self.error = message;
    }

    /// Whether the devices are running, and with them the stream their callbacks feed.
    pub fn is_started(&self) -> (started: bool)
        ensures
            started == self.spec_started(),
    {
        self.started
    }

    /// The plan in force, if the driver is open.
    pub fn plan(&self) -> (planned: Option<&Plan>)
        ensures
            planned == match self.spec_plan_in_force() {
                Some(p) => Some(&p),
                None => None::<&Plan>,
            },
    {
        match &self.plan {
            Some(p) => Some(p),
            None => None,
        }
    }

    /// How many channels the aggregate has, inputs and outputs; none before it is open.
    pub fn channels(&self) -> (counts: (i32, i32))
        ensures
            counts == match self.spec_plan_in_force() {
                Some(p) => (p.inputs@.len() as i32, p.outputs@.len() as i32),
                None => (0i32, 0i32),
            },
    {
        match &self.plan {
            Some(p) => (p.inputs.len() as i32, p.outputs.len() as i32),
            None => (0, 0),
        }
    }

    /// One channel, named so that a person can tell the devices apart, and whether the DAW has
    /// asked for it.
    pub fn channel_info(&self, is_input: bool, channel: i32) -> (info: Option<ChannelInfo>)
        ensures
            match self.spec_plan_in_force() {
                None => info is None,
                Some(p) => {
                    let names = if is_input {
                        p.input_names@
                    } else {
                        p.output_names@
                    };
                    match info {
                        Some(info) => spec_channel_info(names, self.spec_wanted(), is_input, channel) == Some(
                            (info.name@, info.active, info.group, info.sample_type),
                        ),
                        None => spec_channel_info(names, self.spec_wanted(), is_input, channel).is_none(),
                    }
                },
            },
    {
        match &self.plan {
            None => None,
            Some(p) => {
                let names = if is_input {
                    p.input_names.as_slice()
                } else {
                    p.output_names.as_slice()
                };
                channel_info(names, self.wanted.as_slice(), is_input, channel)
            },
        }
    }

    /// The buffer sizes every device can take, the one to prefer, and the steps between them.
    pub fn buffer_sizes(&self) -> (sizes: Option<(i32, i32, i32, i32)>)
        ensures
            sizes == match self.spec_plan_in_force() {
                Some(p) => Some((p.min, p.max, p.preferred, p.granularity)),
                None => None,
            },
    {
        match &self.plan {
            Some(p) => Some((p.min, p.max, p.preferred, p.granularity)),
            None => None,
        }
    }

    /// One figure each way, covering the whole aggregate.
    pub fn latencies(&self) -> (latencies: Option<(i32, i32)>)
        ensures
            latencies == match self.spec_plan_in_force() {
                Some(p) => Some((p.input_latency, p.output_latency)),
                None => None,
            },
    {
        match &self.plan {
            Some(p) => Some((p.input_latency, p.output_latency)),
            None => None,
        }
    }

    /// Remember a refusal, and hand it back to be answered with.
    fn remember(&mut self, why: String) -> (said: String)
        ensures
            said@ == why@,
            final(self).spec_error() == why@,
            final(self).spec_devices() == old(self).spec_devices(),
            final(self).spec_config() == old(self).spec_config(),
            final(self).spec_found() == old(self).spec_found(),
            final(self).spec_plan_in_force() == old(self).spec_plan_in_force(),
            final(self).spec_buffers() == old(self).spec_buffers(),
            final(self).spec_started() == old(self).spec_started(),
            final(self).spec_wanted() == old(self).spec_wanted(),
    {
        self.error = why.clone();
        why
    }

    /// **Work out what the devices make together**, once: an open driver stays as it is. A refusal
    /// is remembered, and leaves the driver unopened.
    pub fn init(&mut self) -> (opened: Result<(), String>)
        requires
            old(self).spec_plan_in_force() is None ==> !(spec_plan(old(self).spec_found(), old(self).spec_config(), None) is Undefined),
        ensures
            final(self).spec_devices() == old(self).spec_devices(),
            final(self).spec_config() == old(self).spec_config(),
            final(self).spec_found() == old(self).spec_found(),
            final(self).spec_buffers() == old(self).spec_buffers(),
            final(self).spec_wanted() == old(self).spec_wanted(),
            final(self).spec_started() == old(self).spec_started(),
            old(self).wf() ==> final(self).wf(),
            old(self).spec_plan_in_force() is Some ==> opened is Ok && final(self).spec_plan_in_force() == old(self).spec_plan_in_force()
                && final(self).spec_error() == old(self).spec_error(),
            old(self).spec_plan_in_force() is None ==> match spec_plan(old(self).spec_found(), old(self).spec_config(), None) {
                Worked::Done(view) => opened is Ok && final(self).spec_error() == old(self).spec_error() && (final(
                    self).spec_plan_in_force() matches Some(p) && p@ == view && p.devices@.len() == old(self).spec_found().len()),
                Worked::Refused(why) => final(self).spec_error() == why && final(self).spec_plan_in_force() is None && (
                opened matches Err(said) && said@ == why),
                Worked::Undefined => false,
            },
    {
        if self.plan.is_some() {
            return Ok(());
        }
        match plan(&self.found, &self.config, None) {
            Ok(planned) => {
                self.plan = Some(planned);
                Ok(())
            },
            Err(why) => {
                let said = self.remember(why);
                Err(said)
            },
        }
    }

    /// **Start every device, the one driving the callback last.** One that will not start is
    /// named, and the ones already started are stopped again, the last of them first. A driver
    /// without buffers is refused, and a running one left as it is.
    pub fn start(&mut self) -> (result: Result<(), String>)
        requires
            old(self).wf(),
        ensures
            final(self).wf(),
            final(self).spec_config() == old(self).spec_config(),
            final(self).spec_found() == old(self).spec_found(),
            final(self).spec_plan_in_force() == old(self).spec_plan_in_force(),
            final(self).spec_buffers() == old(self).spec_buffers(),
            final(self).spec_wanted() == old(self).spec_wanted(),
            final(self).spec_devices().count() == old(self).spec_devices().count(),
            result matches Err(why) ==> final(self).spec_error() == why@ && final(self).spec_started()
                == old(self).spec_started(),
            result is Ok ==> final(self).spec_started() && final(self).spec_error() == old(self).spec_error(),
            old(self).spec_buffers() is None ==> (result matches Err(why) && why@ == not_made()) && final(self).spec_devices()
                == old(self).spec_devices(),
            old(self).spec_started() ==> result is Ok && final(self).spec_devices() == old(self).spec_devices(),
            old(self).spec_buffers() is Some && !old(self).spec_started() ==> grew_by(
                old(self).spec_devices().journal(),
                final(self).spec_devices().journal(),
                final(self).spec_devices().journal().skip(old(self).spec_devices().journal().len() as int),
            ) && spec_started(
                final(self).spec_devices().journal().skip(old(self).spec_devices().journal().len() as int),
                spec_start_order(old(self).spec_devices().count(), old(self).spec_plan_in_force()->0.master),
                plan_names(old(self).spec_plan_in_force()->0),
                result,
            ),
    {
        if self.buffers.is_none() {
            let why = self.remember(String::from_str("the driver was started before its buffers were made"));
            return Err(why);
        }
        if self.started {
            return Ok(());
        }
        let (master, names) = match &self.plan {
            Some(p) => (p.master, names_in(p)),
            None => (0, Vec::new()),
        };
        let result = start_devices(&mut self.devices, master, names.as_slice());
        match result {
            Ok(()) => {
                self.started = true;
                Ok(())
            },
            Err(why) => {
                let why = self.remember(why);
                Err(why)
            },
        }
    }

    /// **Stop every device, the one driving the callback first**, when there are buffers.
    pub fn stop(&mut self)
        requires
            old(self).wf(),
        ensures
            final(self).wf(),
            !final(self).spec_started(),
            final(self).spec_config() == old(self).spec_config(),
            final(self).spec_found() == old(self).spec_found(),
            final(self).spec_plan_in_force() == old(self).spec_plan_in_force(),
            final(self).spec_buffers() == old(self).spec_buffers(),
            final(self).spec_wanted() == old(self).spec_wanted(),
            final(self).spec_error() == old(self).spec_error(),
            final(self).spec_devices().count() == old(self).spec_devices().count(),
            final(self).spec_devices().journal() == old(self).spec_devices().journal() + if old(self).spec_buffers() is Some {
                each(spec_stop_order(old(self).spec_devices().count(), old(self).spec_plan_in_force()->0.master), Act::Stop)
            } else {
                Seq::<(usize, Act)>::empty()
            },
    {
        if self.buffers.is_some() {
            let master = match &self.plan {
                Some(p) => p.master,
                None => 0,
            };
            stop_devices(&mut self.devices, master);
        } else {
            assert(self.devices.journal() + Seq::<(usize, Act)>::empty() =~= self.devices.journal());
        }
        self.started = false;
    }

    /// **Let go of every buffer.** With buffers made, every device is stopped first, the one
    /// driving the callback first; then each lets its buffers go, and the stream with them. The
    /// DAW has no buffers after.
    pub fn dispose_buffers(&mut self)
        requires
            old(self).wf(),
        ensures
            final(self).wf(),
            final(self).spec_buffers() is None,
            !final(self).spec_started(),
            final(self).spec_wanted().len() == 0,
            final(self).spec_config() == old(self).spec_config(),
            final(self).spec_found() == old(self).spec_found(),
            final(self).spec_plan_in_force() == old(self).spec_plan_in_force(),
            final(self).spec_error() == old(self).spec_error(),
            final(self).spec_devices().count() == old(self).spec_devices().count(),
            final(self).spec_devices().journal() == old(self).spec_devices().journal() + (if old(self).spec_buffers() is Some {
                each(spec_stop_order(old(self).spec_devices().count(), old(self).spec_plan_in_force()->0.master), Act::Stop)
            } else {
                Seq::<(usize, Act)>::empty()
            }) + let_go(old(self).spec_devices().count()),
    {
        let count = self.devices.how_many();
        let master = match &self.plan {
            Some(p) => p.master,
            None => 0,
        };
        if count > 0 {
            dispose_devices(&mut self.devices, master, self.buffers.is_some());
        } else {
            assert(let_go(0) =~= Seq::<(usize, Act)>::empty());
            assert(self.devices.journal() + Seq::<(usize, Act)>::empty() + Seq::<(usize, Act)>::empty() =~= self.devices.journal());
        }
        self.buffers = None;
        self.wanted = Vec::new();
        self.started = false;
    }

    /// **Make every device's buffers, and say which of the aggregate's channels each buffer the DAW
    /// asked for is.** A block outside what the devices take is refused before any device is
    /// asked anything, and so is a request for a channel the aggregate does not have. The plan is
    /// worked out again at the block the DAW asked for, because the latencies and the holding back
    /// depend on it, and every device makes its buffers for the channels that plan opens on it;
    /// one that will not is named, and every device that already had lets its buffers go again.
    /// Every refusal is remembered, and leaves the DAW without buffers it did not already have.
    pub fn create_buffers(&mut self, wanted: &[Wanted], block: i32) -> (made: Result<Vec<(bool, usize)>, String>)
        requires
            old(self).wf(),
            old(self).spec_buffers() is None ==> (old(self).spec_plan_in_force() matches Some(p) && p.min <= block
                <= p.max && mapped_upto(p.inputs@, p.outputs@, wanted@, wanted@.len() as int) is Ok ==> !(spec_plan(
                old(self).spec_found(),
                old(self).spec_config(),
                Some(block),
            ) is Undefined)),
        ensures
            final(self).wf(),
            final(self).spec_config() == old(self).spec_config(),
            final(self).spec_found() == old(self).spec_found(),
            final(self).spec_started() == old(self).spec_started(),
            final(self).spec_devices().journal().len() >= old(self).spec_devices().journal().len(),
            grew_by(
                old(self).spec_devices().journal(),
                final(self).spec_devices().journal(),
                final(self).spec_devices().journal().skip(old(self).spec_devices().journal().len() as int),
            ),
            made matches Err(why) ==> final(self).spec_error() == why@,
            made is Err && old(self).spec_buffers() is None ==> final(self).spec_buffers() is None,
            made is Err ==> final(self).spec_plan_in_force() == old(self).spec_plan_in_force()
                && final(self).spec_wanted() == old(self).spec_wanted(),
            old(self).spec_buffers() is Some ==> (made matches Err(why) && why@ == already_made())
                && final(self).spec_devices() == old(self).spec_devices() && final(self).spec_buffers() == old(self).spec_buffers(),
            old(self).spec_buffers() is None && old(self).spec_plan_in_force() is None ==> (made matches Err(why)
                && why@ == not_opened()) && final(self).spec_devices() == old(self).spec_devices(),
            old(self).spec_buffers() is None ==> (old(self).spec_plan_in_force() matches Some(p) ==> (!(p.min <= block
                <= p.max) ==> (made matches Err(why) && why@ == block_outside(block, p.min, p.max))
                && final(self).spec_devices() == old(self).spec_devices())),
            old(self).spec_buffers() is None ==> (old(self).spec_plan_in_force() matches Some(p) ==> (p.min <= block
                <= p.max ==> (mapped_upto(p.inputs@, p.outputs@, wanted@, wanted@.len() as int) matches Err(refusal)
                ==> (made matches Err(why) && why@ == refusal) && final(self).spec_devices() == old(self).spec_devices()))),
            old(self).spec_buffers() is None ==> (old(self).spec_plan_in_force() matches Some(p) ==> (p.min <= block
                <= p.max ==> (mapped_upto(p.inputs@, p.outputs@, wanted@, wanted@.len() as int) is Ok ==> (spec_plan(
                old(self).spec_found(),
                old(self).spec_config(),
                Some(block),
            ) matches Worked::Refused(refusal) ==> (made matches Err(why) && why@ == refusal) && final(self).spec_devices()
                == old(self).spec_devices())))),
            old(self).spec_buffers() is None ==> (old(self).spec_plan_in_force() matches Some(p) ==> (p.min <= block
                <= p.max ==> (mapped_upto(p.inputs@, p.outputs@, wanted@, wanted@.len() as int) matches Ok(mapped) ==> (
            spec_plan(old(self).spec_found(), old(self).spec_config(), Some(block)) matches Worked::Done(view)
                ==> exists|replanned: Plan|
                replanned@ == view && #[trigger] spec_created(
                    final(self).spec_devices().journal().skip(old(self).spec_devices().journal().len() as int),
                    replanned.devices@,
                    block,
                    as_done(made),
                ) && (made matches Ok(given) ==> given@ == mapped.2 && final(self).spec_buffers() == Some(mapped.2)
                    && final(self).spec_plan_in_force() == Some(replanned) && final(self).spec_wanted() == wanted@))))),
    {
        let ghost journal0 = self.devices.journal();
        proof {
            assert(journal0.skip(journal0.len() as int) =~= Seq::<(usize, crate::devices::Act)>::empty());
            assert(journal0 + Seq::<(usize, crate::devices::Act)>::empty() =~= journal0);
        }
        if self.buffers.is_some() {
            let why = self.remember(String::from_str("the buffers are already made"));
            return Err(why);
        }
        let (min, max, mapped) = match &self.plan {
            None => {
                let why = self.remember(String::from_str("the driver was asked for buffers before it was opened"));
                return Err(why);
            },
            Some(p) => (p.min, p.max, buffer_map(p.inputs.as_slice(), p.outputs.as_slice(), wanted)),
        };
        if let Some(why) = block_refusal(block, min, max) {
            let why = self.remember(why);
            return Err(why);
        }
        let order = match mapped {
            Err(why) => {
                let why = self.remember(why);
                return Err(why);
            },
            Ok((_, _, order)) => order,
        };
        let replanned = match plan(&self.found, &self.config, Some(block)) {
            Err(why) => {
                let why = self.remember(why);
                return Err(why);
            },
            Ok(replanned) => replanned,
        };
        let made = create_device_buffers(&mut self.devices, &replanned, block);
        match made {
            Err(why) => {
                let why = self.remember(why);
                proof {
                    assert(spec_created(
                        self.spec_devices().journal().skip(old(self).spec_devices().journal().len() as int),
                        replanned.devices@,
                        block,
                        as_done(Err::<Vec<(bool, usize)>, String>(why)),
                    ));
                }
                Err(why)
            },
            Ok(()) => {
                let given = copied(&order);
                self.plan = Some(replanned);
                self.buffers = Some(order);
                self.wanted = copied_wanted(wanted);
                proof {
                    assert(spec_created(
                        self.spec_devices().journal().skip(old(self).spec_devices().journal().len() as int),
                        replanned.devices@,
                        block,
                        as_done(Ok::<Vec<(bool, usize)>, String>(given)),
                    ));
                    assert(spec_plan(old(self).spec_found(), old(self).spec_config(), Some(block)) == Worked::Done(
                        replanned@,
                    ));
                }
                Ok(given)
            },
        }
    }
}

} // verus!
