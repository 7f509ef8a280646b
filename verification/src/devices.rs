//! The devices an aggregate has opened, taken together: making their buffers, starting them,
//! stopping them and letting their buffers go, in the order that keeps a DAW from ever being called
//! by a device whose partners cannot answer.
//!
//! - **The device that drives the callback starts last and stops first**, so it never calls the
//!   DAW before the others are running, nor after they have stopped.
//! - **A device that will not start stops the ones that did**, newest first, and the refusal names
//!   it.
//! - **A device that will not take the buffer size is named, and every device that had already
//!   made its buffers lets them go**, the newest first, so nothing is left open.
use vstd::prelude::*;
use crate::aggregate::{spec_start_order, spec_stop_order, start_order, stop_order};
use crate::aggregate::{choose_drivers, count_refusal, spec_choose_drivers, too_many, Entry, MAX_DEVICES};
use crate::config::{Config, DeviceConfig, Labels};
use crate::plan::{Description, DevicePlan, Found, Plan, SampleKind};
use crate::text::{append_str, decimal, digits, number, number_usize};
use crate::watch::objection;

verus! {

/// One thing asked of one device, with what came back.
pub enum Act {
    /// It was asked to make its buffers for these channels of its own, at this block, and this
    /// is why it would not, if it would not.
    Create(Seq<i32>, Seq<i32>, i32, Option<Seq<char>>),
    /// It was asked to start, and this is why it would not, if it would not.
    Start(Option<Seq<char>>),
    Stop,
    /// It was asked to let its buffers go.
    Dispose,
    /// It was told to let go of the stream its callbacks belonged to.
    Detach,
}

/// The devices an aggregate has opened, each by its place in the plan.
///
/// Every call is written down in [`Devices::journal`], with the device it was for and what came
/// back, in the order it was made.
pub trait Devices {
    /// Everything asked of the devices so far, in order.
    spec fn journal(&self) -> Seq<(usize, Act)>;

    /// How many devices there are.
    spec fn count(&self) -> nat;

    /// How many devices there are.
    fn how_many(&self) -> (count: usize)
        ensures
            count == self.count(),
    ;

    /// Open exactly these channels of one device, by its own numbering, at `block` samples.
    fn create_buffers(&mut self, device: usize, inputs: &[i32], outputs: &[i32], block: i32) -> (made: Result<(), String>)
        requires
            device < old(self).count(),
        ensures
            final(self).count() == old(self).count(),
            final(self).journal() == old(self).journal().push(
                (device, Act::Create(inputs@, outputs@, block, objection(made))),
            ),
    ;

    fn start(&mut self, device: usize) -> (started: Result<(), String>)
        requires
            device < old(self).count(),
        ensures
            final(self).count() == old(self).count(),
            final(self).journal() == old(self).journal().push((device, Act::Start(objection(started)))),
    ;

    fn stop(&mut self, device: usize)
        requires
            device < old(self).count(),
        ensures
            final(self).count() == old(self).count(),
            final(self).journal() == old(self).journal().push((device, Act::Stop)),
    ;

    fn dispose_buffers(&mut self, device: usize)
        requires
            device < old(self).count(),
        ensures
            final(self).count() == old(self).count(),
            final(self).journal() == old(self).journal().push((device, Act::Dispose)),
    ;

    fn detach(&mut self, device: usize)
        requires
            device < old(self).count(),
        ensures
            final(self).count() == old(self).count(),
            final(self).journal() == old(self).journal().push((device, Act::Detach)),
    ;
}

/// What a device is called in a message: its name in the plan, or its place when there is none.
pub open spec fn name_of(names: Seq<String>, device: usize) -> Seq<char> {
    if device < names.len() {
        names[device as int]@
    } else {
        "device "@ + digits(device as nat)
    }
}

fn name_for(names: &[String], device: usize) -> (name: String)
    ensures
        name@ == name_of(names@, device),
{
    if device < names.len() {
        names[device].clone()
    } else {
        let mut name = String::from_str("device ");
        let said = number_usize(device);
        append_str(&mut name, said.as_str());
        name
    }
}

/// The first `upto` devices of an order, each asked to start and starting.
pub open spec fn started(order: Seq<usize>, upto: int) -> Seq<(usize, Act)> {
    Seq::new(upto as nat, |k: int| (order[k], Act::Start(None)))
}

/// The first `upto` devices of an order stopped again, the last of them first.
pub open spec fn stopped_back(order: Seq<usize>, upto: int) -> Seq<(usize, Act)> {
    Seq::new(upto as nat, |k: int| (order[upto - 1 - k], Act::Stop))
}

/// Every device of an order, in turn, each told one thing.
pub open spec fn each(order: Seq<usize>, act: Act) -> Seq<(usize, Act)> {
    Seq::new(order.len(), |k: int| (order[k], act))
}

/// What a device that would not start is refused with.
pub open spec fn would_not_start(name: Seq<char>, why: Seq<char>) -> Seq<char> {
    name + " would not start: "@ + why
}

/// What starting the devices asked of them, and what it came to: every device in `order`
/// started, or the first that would not, with the ones before it stopped again, newest first.
pub open spec fn spec_started(asked: Seq<(usize, Act)>, order: Seq<usize>, names: Seq<String>, result: Result<(), String>) -> bool {
    match result {
        Ok(_) => asked == started(order, order.len() as int),
        Err(why) => exists|at: int, refusal: Seq<char>|
            0 <= at < order.len() && asked == started(order, at) + seq![(order[at], Act::Start(Some(refusal)))]
                + stopped_back(order, at) && why@ == would_not_start(name_of(names, order[at]), refusal),
    }
}

/// Whether a journal grew by `asked`, leaving what was already in it alone.
pub open spec fn grew_by(before: Seq<(usize, Act)>, after: Seq<(usize, Act)>, asked: Seq<(usize, Act)>) -> bool {
    after == before + asked
}

/// **Start every device, the one driving the callback last.** If one will not start, the ones
/// already started are stopped again, the last of them first, and the refusal names the one that
/// would not. `names` is what the devices are called, by their place in the plan.
pub fn start_devices<D: Devices>(devices: &mut D, master: usize, names: &[String]) -> (result: Result<(), String>)
    requires
        master < old(devices).count(),
    ensures
        final(devices).count() == old(devices).count(),
        final(devices).journal().len() >= old(devices).journal().len(),
        grew_by(
            old(devices).journal(),
            final(devices).journal(),
            final(devices).journal().skip(old(devices).journal().len() as int),
        ),
        spec_started(
            final(devices).journal().skip(old(devices).journal().len() as int),
            spec_start_order(old(devices).count(), master),
            names@,
            result,
        ),
{
    let ghost journal0 = devices.journal();
    let ghost count = devices.count();
    let count_now: usize = devices.how_many();
    let order = start_order(count_now, master);
    proof {
        crate::aggregate::law_every_device_starts_once_and_the_master_last(count_now, master);
    }
    let mut k: usize = 0;
    while k < order.len()
        invariant
            k <= order@.len(),
            order@ == spec_start_order(count, master),
            order@.len() == count,
            count == old(devices).count(),
            journal0 == old(devices).journal(),
            devices.count() == count,
            forall|i: int| 0 <= i < order@.len() ==> #[trigger] order@[i] < count,
            devices.journal() == journal0 + started(order@, k as int),
        decreases order@.len() - k,
    {
        let device = order[k];
        let answer = devices.start(device);
        match answer {
            Ok(()) => {
                proof {
                    assert(started(order@, k + 1) =~= started(order@, k as int).push((device, Act::Start(None))));
                }
                k = k + 1;
            },
            Err(refusal) => {
                let ghost refused = refusal@;
                let ghost at = k as int;
                let mut back: usize = k;
                while back > 0
                    invariant
                        back <= at,
                        at < order@.len(),
                        order@ == spec_start_order(count, master),
                        count == old(devices).count(),
                        journal0 == old(devices).journal(),
                        devices.count() == count,
                        forall|i: int| 0 <= i < order@.len() ==> #[trigger] order@[i] < count,
                        devices.journal() == journal0 + started(order@, at) + seq![
                            (order@[at], Act::Start(Some(refused))),
                        ] + stopped_back(order@, at).take(at - back),
                    decreases back,
                {
                    back = back - 1;
                    devices.stop(order[back]);
                    proof {
                        assert(stopped_back(order@, at).take(at - back) =~= stopped_back(order@, at).take(
                            at - back - 1,
                        ).push((order@[back as int], Act::Stop)));
                    }
                }
                assert(stopped_back(order@, at).take(at) =~= stopped_back(order@, at));
                let name = name_for(names, device);
                let mut why = name;
                append_str(&mut why, " would not start: ");
                append_str(&mut why, refusal.as_str());
                proof {
                    let asked = devices.journal().skip(journal0.len() as int);
                    assert(asked =~= started(order@, at) + seq![(order@[at], Act::Start(Some(refused)))]
                        + stopped_back(order@, at));
                    assert(devices.journal() =~= journal0 + asked);
                    assert(order@[at] == device);
                    assert(why@ =~= would_not_start(name_of(names@, order@[at]), refused));
                    assert(0 <= at < order@.len() && asked == started(order@, at) + seq![
                        (order@[at], Act::Start(Some(refused))),
                    ] + stopped_back(order@, at) && why@ == would_not_start(name_of(names@, order@[at]), refused));
                }
                return Err(why);
            },
        }
    }
    proof {
        let asked = devices.journal().skip(journal0.len() as int);
        assert(asked =~= started(order@, order@.len() as int));
        assert(devices.journal() =~= journal0 + asked);
    }
    Ok(())
}

/// **Stop every device, the one driving the callback first.**
pub fn stop_devices<D: Devices>(devices: &mut D, master: usize)
    requires
        master < old(devices).count(),
    ensures
        final(devices).count() == old(devices).count(),
        final(devices).journal() == old(devices).journal() + each(spec_stop_order(old(devices).count(), master), Act::Stop),
{
    let ghost journal0 = devices.journal();
    let ghost count = devices.count();
    let count_now: usize = devices.how_many();
    let order = stop_order(count_now, master);
    proof {
        crate::aggregate::law_every_device_starts_once_and_the_master_last(count_now, master);
    }
    let mut k: usize = 0;
    while k < order.len()
        invariant
            k <= order@.len(),
            order@ == spec_stop_order(count, master),
            order@.len() == count,
            count == old(devices).count(),
            journal0 == old(devices).journal(),
            devices.count() == count,
            forall|i: int| 0 <= i < order@.len() ==> #[trigger] order@[i] < count,
            devices.journal() == journal0 + each(order@, Act::Stop).take(k as int),
        decreases order@.len() - k,
    {
        devices.stop(order[k]);
        proof {
            assert(each(order@, Act::Stop).take(k + 1) =~= each(order@, Act::Stop).take(k as int).push(
                (order@[k as int], Act::Stop),
            ));
        }
        k = k + 1;
    }
    assert(each(order@, Act::Stop).take(k as int) =~= each(order@, Act::Stop));
}

/// The first `upto` devices of a plan, each asked for its buffers and making them.
pub open spec fn created(devices: Seq<DevicePlan>, upto: int, block: i32) -> Seq<(usize, Act)> {
    Seq::new(upto as nat, |d: int| (d as usize, Act::Create(devices[d].inputs@, devices[d].outputs@, block, None)))
}

/// The first `upto` devices, each letting its buffers go, the newest first.
pub open spec fn disposed(upto: int) -> Seq<(usize, Act)> {
    Seq::new(upto as nat, |k: int| ((upto - 1 - k) as usize, Act::Dispose))
}

/// What a device that will not take the buffer size is refused with.
pub open spec fn would_not_take(name: Seq<char>, block: i32, why: Seq<char>) -> Seq<char> {
    name + " would not take "@ + decimal(block as int) + " samples a buffer: "@ + why
}

/// What making the buffers asked of the devices, and what it came to: every device of the plan
/// made its buffers, or the first that would not is named, and every one before it let its
/// buffers go again.
pub open spec fn spec_created(asked: Seq<(usize, Act)>, devices: Seq<DevicePlan>, block: i32, result: Result<(), String>) -> bool {
    match result {
        Ok(_) => asked == created(devices, devices.len() as int, block),
        Err(why) => exists|at: int, refusal: Seq<char>|
            0 <= at < devices.len() && asked == created(devices, at, block) + seq![
                (at as usize, Act::Create(devices[at].inputs@, devices[at].outputs@, block, Some(refusal))),
            ] + disposed(at) && why@ == would_not_take(devices[at].name@, block, refusal),
    }
}

/// **Every device makes its buffers for the channels the plan opens on it, at the block the DAW
/// asked for.** One that will not is named, and every device that had already made its buffers
/// lets them go, the newest first, so that nothing is left open.
pub fn create_device_buffers<D: Devices>(devices: &mut D, plan: &Plan, block: i32) -> (result: Result<(), String>)
    requires
        plan.devices@.len() == old(devices).count(),
    ensures
        final(devices).count() == old(devices).count(),
        final(devices).journal().len() >= old(devices).journal().len(),
        grew_by(
            old(devices).journal(),
            final(devices).journal(),
            final(devices).journal().skip(old(devices).journal().len() as int),
        ),
        spec_created(
            final(devices).journal().skip(old(devices).journal().len() as int),
            plan.devices@,
            block,
            result,
        ),
{
    let ghost journal0 = devices.journal();
    let ghost count = devices.count();
    let mut d: usize = 0;
    while d < plan.devices.len()
        invariant
            d <= plan.devices@.len(),
            plan.devices@.len() == count,
            count == old(devices).count(),
            journal0 == old(devices).journal(),
            devices.count() == count,
            devices.journal() == journal0 + created(plan.devices@, d as int, block),
        decreases plan.devices@.len() - d,
    {
        let device = &plan.devices[d];
        let answer = devices.create_buffers(d, device.inputs.as_slice(), device.outputs.as_slice(), block);
        match answer {
            Ok(()) => {
                proof {
                    assert(created(plan.devices@, d + 1, block) =~= created(plan.devices@, d as int, block).push(
                        (d, Act::Create(device.inputs@, device.outputs@, block, None)),
                    ));
                }
                d = d + 1;
            },
            Err(refusal) => {
                let ghost refused = refusal@;
                let ghost at = d as int;
                let ghost failed = journal0 + created(plan.devices@, at, block) + seq![
                    (d, Act::Create(device.inputs@, device.outputs@, block, Some(refused))),
                ];
                assert(devices.journal() == failed);
                let mut left: usize = d;
                while left > 0
                    invariant
                        left <= at,
                        at == d,
                        at < count,
                        count == old(devices).count(),
                        journal0 == old(devices).journal(),
                        devices.count() == count,
                        devices.journal() == failed + disposed(at).take(at - left),
                    decreases left,
                {
                    left = left - 1;
                    devices.dispose_buffers(left);
                    proof {
                        assert(disposed(at).take(at - left) =~= disposed(at).take(at - left - 1).push(
                            (left, Act::Dispose),
                        ));
                    }
                }
                assert(disposed(at).take(at) =~= disposed(at));
                let mut why = device.name.clone();
                append_str(&mut why, " would not take ");
                let said = number(block as i64);
                append_str(&mut why, said.as_str());
                append_str(&mut why, " samples a buffer: ");
                append_str(&mut why, refusal.as_str());
                proof {
                    let asked = devices.journal().skip(journal0.len() as int);
                    assert(asked =~= created(plan.devices@, at, block) + seq![
                        (d, Act::Create(device.inputs@, device.outputs@, block, Some(refused))),
                    ] + disposed(at));
                    assert(devices.journal() =~= journal0 + asked);
                    assert(plan.devices@[at] == *device);
                    assert(why@ =~= would_not_take(plan.devices@[at].name@, block, refused));
                    assert(0 <= at < plan.devices@.len() && asked == created(plan.devices@, at, block) + seq![
                        (
                            at as usize,
                            Act::Create(plan.devices@[at].inputs@, plan.devices@[at].outputs@, block, Some(refused)),
                        ),
                    ] + disposed(at) && why@ == would_not_take(plan.devices@[at].name@, block, refused));
                }
                return Err(why);
            },
        }
    }
    proof {
        let asked = devices.journal().skip(journal0.len() as int);
        assert(asked =~= created(plan.devices@, plan.devices@.len() as int, block));
        assert(devices.journal() =~= journal0 + asked);
    }
    Ok(())
}

/// Every device in turn letting its buffers go and the stream with them.
pub open spec fn let_go(count: nat) -> Seq<(usize, Act)> {
    Seq::new(2 * count, |k: int| ((k / 2) as usize, if k % 2 == 0 { Act::Dispose } else { Act::Detach }))
}

/// **Let go of every buffer.** Nothing can be calling back by then: with buffers made, every
/// device is stopped first, the one driving the callback first; then each lets its buffers go and
/// the stream with them.
pub fn dispose_devices<D: Devices>(devices: &mut D, master: usize, has_buffers: bool)
    requires
        master < old(devices).count(),
    ensures
        final(devices).count() == old(devices).count(),
        final(devices).journal() == old(devices).journal() + (if has_buffers {
            each(spec_stop_order(old(devices).count(), master), Act::Stop)
        } else {
            Seq::<(usize, Act)>::empty()
        }) + let_go(old(devices).count()),
{
    let ghost journal0 = devices.journal();
    let ghost count = devices.count();
    if has_buffers {
        stop_devices(devices, master);
    }
    let ghost stopped = devices.journal();
    assert(stopped =~= journal0 + (if has_buffers {
        each(spec_stop_order(count, master), Act::Stop)
    } else {
        Seq::<(usize, Act)>::empty()
    }));
    let count_now = devices.how_many();
    let mut d: usize = 0;
    while d < count_now
        invariant
            d <= count_now,
            count_now == count,
            devices.count() == count,
            devices.journal() == stopped + let_go(count).take(2 * d),
        decreases count_now - d,
    {
        devices.dispose_buffers(d);
        devices.detach(d);
        proof {
            assert(let_go(count).take(2 * d + 2) =~= let_go(count).take(2 * d).push((d, Act::Dispose)).push(
                (d, Act::Detach),
            ));
        }
        d = d + 1;
    }
    assert(let_go(count).take(2 * d) =~= let_go(count));
}

/// **The device that drives the callback is asked to start only once every other device is
/// running, and a refused start leaves nothing running**: every device that started is stopped
/// again after the one that would not.
pub proof fn law_the_master_starts_only_after_the_rest_and_a_refusal_leaves_nothing_running(
    asked: Seq<(usize, Act)>,
    count: usize,
    master: usize,
    names: Seq<String>,
    result: Result<(), String>,
)
    requires
        master < count,
        spec_started(asked, spec_start_order(count as nat, master), names, result),
    ensures
        forall|k: int|
            0 <= k < asked.len() && (#[trigger] asked[k]).0 == master && asked[k].1 is Start ==> k == count - 1
                && forall|j: int| 0 <= j < k ==> asked[j].0 != master && asked[j].1 == Act::Start(None),
        result is Err ==> forall|k: int|
            0 <= k < asked.len() && (#[trigger] asked[k]).1 == Act::Start(None) ==> exists|j: int|
                k < j < asked.len() && asked[j] == (asked[k].0, Act::Stop),
{
    crate::aggregate::law_every_device_starts_once_and_the_master_last(count, master);
    let order = spec_start_order(count as nat, master);
    assert(order[count - 1] == master);
    assert forall|a: int| 0 <= a < count - 1 implies #[trigger] order[a] != master by {
        assert(order[a] != order[count - 1]);
    }
    match result {
        Ok(_) => {
            assert forall|k: int|
                0 <= k < asked.len() && (#[trigger] asked[k]).0 == master && asked[k].1 is Start implies k == count
                    - 1 && forall|j: int| 0 <= j < k ==> asked[j].0 != master && asked[j].1 == Act::Start(None) by {
                assert(asked[k] == (order[k], Act::Start(None)));
            }
        },
        Err(why) => {
            let (at, refusal) = choose|at: int, refusal: Seq<char>|
                0 <= at < order.len() && asked == started(order, at) + seq![(order[at], Act::Start(Some(refusal)))]
                    + stopped_back(order, at) && why@ == would_not_start(name_of(names, order[at]), refusal);
            assert(asked.len() == 2 * at + 1);
            assert forall|k: int|
                0 <= k < asked.len() && (#[trigger] asked[k]).0 == master && asked[k].1 is Start implies k == count
                    - 1 && forall|j: int| 0 <= j < k ==> asked[j].0 != master && asked[j].1 == Act::Start(None) by {
                if k < at {
                    assert(asked[k] == (order[k], Act::Start(None)));
                } else if k > at {
                    assert(asked[k] == (order[at - 1 - (k - at - 1)], Act::Stop));
                } else {
                    assert(asked[k] == (order[at], Act::Start(Some(refusal))));
                    assert forall|j: int| 0 <= j < k implies asked[j].0 != master && asked[j].1 == Act::Start(None) by {
                        assert(asked[j] == (order[j], Act::Start(None)));
                    }
                }
            }
            assert forall|k: int|
                0 <= k < asked.len() && (#[trigger] asked[k]).1 == Act::Start(None) implies exists|j: int|
                    k < j < asked.len() && asked[j] == (asked[k].0, Act::Stop) by {
                if k < at {
                    let j = 2 * at - k;
                    assert(asked[j] == (order[at - 1 - (j - at - 1)], Act::Stop));
                    assert(asked[k] == (order[k], Act::Start(None)));
                } else if k > at {
                    assert(asked[k] == (order[at - 1 - (k - at - 1)], Act::Stop));
                } else {
                    assert(asked[k] == (order[at], Act::Start(Some(refusal))));
                }
            }
        },
    }
}

/// What a device answers when `refusal` may name it: the reason, when it does.
pub open spec fn refused_by(refusal: Option<(usize, String)>, device: usize) -> Result<(), String> {
    match refusal {
        Some((refusing, why)) => if refusing == device {
            Err(why)
        } else {
            Ok(())
        },
        None => Ok(()),
    }
}

/// A set of devices made of data, for saying what the aggregate asks of its devices: each answers
/// from what it was given, and what was asked is written down in words.
pub struct Bench {
    /// How many devices there are.
    pub count: usize,
    /// A device that will not start, and why.
    pub refuses_start: Option<(usize, String)>,
    /// A device that will not make its buffers, and why.
    pub refuses_buffers: Option<(usize, String)>,
    /// What was asked, in words, in order: the device's place and what it was asked.
    pub calls: Vec<String>,
    /// What was asked, in order.
    pub asked: Ghost<Seq<(usize, Act)>>,
}

impl Bench {
    /// `count` devices that do whatever they are asked.
    pub fn new(count: usize) -> (bench: Bench)
        ensures
            bench.count == count,
            bench.refuses_start.is_none(),
            bench.refuses_buffers.is_none(),
            bench.calls@.len() == 0,
            bench.asked@ == Seq::<(usize, Act)>::empty(),
    {
        Bench { count, refuses_start: None, refuses_buffers: None, calls: Vec::new(), asked: Ghost(Seq::empty()) }
    }

    fn note(&mut self, device: usize, what: &str)
        ensures
            final(self).count == old(self).count,
            final(self).asked == old(self).asked,
            final(self).refuses_start == old(self).refuses_start,
            final(self).refuses_buffers == old(self).refuses_buffers,
            final(self).calls@.len() == old(self).calls@.len() + 1,
            final(self).calls@.take(old(self).calls@.len() as int) == old(self).calls@,
            final(self).calls@.last()@ == digits(device as nat) + ": "@ + what@,
    {
        proof {
            reveal_strlit(": ");
        }
        let mut line = number_usize(device);
        append_str(&mut line, ": ");
        append_str(&mut line, what);
        self.calls.push(line);
    }

    /// Why `device` refuses, when `refusal` names it.
    fn refusal_for(refusal: &Option<(usize, String)>, device: usize) -> (answer: Result<(), String>)
        ensures
            answer == refused_by(*refusal, device),
    {
        match refusal {
            Some((refusing, why)) => if *refusing == device {
                Err(why.clone())
            } else {
                Ok(())
            },
            None => Ok(()),
        }
    }
}

impl Devices for Bench {
    open spec fn journal(&self) -> Seq<(usize, Act)> {
        self.asked@
    }

    open spec fn count(&self) -> nat {
        self.count as nat
    }

    fn how_many(&self) -> (count: usize) {
        self.count
    }

    fn create_buffers(&mut self, device: usize, inputs: &[i32], outputs: &[i32], block: i32) -> (made: Result<(), String>)
        ensures
            made == refused_by(old(self).refuses_buffers, device),
    {
        let made = Bench::refusal_for(&self.refuses_buffers, device);
        self.note(device, if made.is_ok() { "create" } else { "create refused" });
        self.asked = Ghost(self.asked@.push((device, Act::Create(inputs@, outputs@, block, objection(made)))));
        made
    }

    fn start(&mut self, device: usize) -> (started: Result<(), String>)
        ensures
            started == refused_by(old(self).refuses_start, device),
    {
        let started = Bench::refusal_for(&self.refuses_start, device);
        self.note(device, if started.is_ok() { "start" } else { "start refused" });
        self.asked = Ghost(self.asked@.push((device, Act::Start(objection(started)))));
        started
    }

    fn stop(&mut self, device: usize) {
        self.note(device, "stop");
        self.asked = Ghost(self.asked@.push((device, Act::Stop)));
    }

    fn dispose_buffers(&mut self, device: usize) {
        self.note(device, "dispose");
        self.asked = Ghost(self.asked@.push((device, Act::Dispose)));
    }

    fn detach(&mut self, device: usize) {
        self.note(device, "detach");
        self.asked = Ghost(self.asked@.push((device, Act::Detach)));
    }
}

/// One thing asked of the PC while the devices are opened, with what came back.
pub enum Opening {
    /// The driver of one registry entry was created, to call back through one slot's callbacks.
    Open(usize, usize, Option<Seq<char>>),
    /// The device in a slot was asked to start up.
    Init(usize, Option<Seq<char>>),
    /// The device in a slot was asked what it is: its description and its two sample types.
    Describe(usize, Result<(Description, SampleKind, SampleKind), Seq<char>>),
}

/// What reading a device gave, with any objection as text.
pub open spec fn as_described(read: Result<(Description, SampleKind, SampleKind), String>) -> Result<
    (Description, SampleKind, SampleKind),
    Seq<char>,
> {
    match read {
        Ok(described) => Ok(described),
        Err(why) => Err(why@),
    }
}

/// The PC, as the aggregate opens its devices: each device by the slot of callbacks it is given.
///
/// Every call is written down in [`Pc::opened`], with what came back, in the order it was made.
pub trait Pc {
    /// Everything asked of the PC so far, in order.
    spec fn opened(&self) -> Seq<Opening>;

    /// Create the driver object for one registry entry. `slot` is which set of callbacks it gets,
    /// because the interface gives a callback nothing to say who called it.
    fn open(&mut self, entry: usize, slot: usize) -> (opened: Result<(), String>)
        ensures
            final(self).opened() == old(self).opened().push(Opening::Open(entry, slot, objection(opened))),
    ;

    fn init(&mut self, slot: usize) -> (started: Result<(), String>)
        ensures
            final(self).opened() == old(self).opened().push(Opening::Init(slot, objection(started))),
    ;

    fn describe(&mut self, slot: usize) -> (read: Result<(Description, SampleKind, SampleKind), String>)
        ensures
            final(self).opened() == old(self).opened().push(Opening::Describe(slot, as_described(read))),
    ;
}

/// What a device opened in slot `slot` is called: its name in the file, or its registry key.
pub open spec fn slot_name(config: Config, entries: Seq<Entry>, chosen: Seq<usize>, slot: int) -> Seq<char> {
    if config.devices@.len() > 0 && config.devices@[slot].name is Some {
        config.devices@[slot].name->0@
    } else {
        entries[chosen[slot] as int].key@
    }
}

/// A list of channels, as the contracts speak of it.
pub open spec fn channels_of(list: Option<Vec<i32>>) -> Option<Seq<i32>> {
    match list {
        Some(channels) => Some(channels@),
        None => None,
    }
}

/// A trim from the file: none given is none at all.
pub open spec fn trim_of(trim: Option<i32>) -> i32 {
    match trim {
        Some(samples) => samples,
        None => 0,
    }
}

/// One device as the plan wants it, from what it said it is and the entry in the file that found
/// it; with no devices in the file, it was found as one of the maker's own, and the file asks
/// nothing of it.
pub open spec fn spec_found(
    config: Config,
    entries: Seq<Entry>,
    chosen: Seq<usize>,
    slot: int,
    described: (Description, SampleKind, SampleKind),
    found: Found,
) -> bool {
    &&& found.name@ == slot_name(config, entries, chosen, slot)
    &&& found.description == described.0
    &&& found.input_sample == described.1
    &&& found.output_sample == described.2
    &&& if config.devices@.len() > 0 {
        let wanted = config.devices@[slot];
        &&& channels_of(found.wanted_inputs) == channels_of(wanted.inputs)
        &&& channels_of(found.wanted_outputs) == channels_of(wanted.outputs)
        &&& found.input_trim == trim_of(wanted.input_trim)
        &&& found.output_trim == trim_of(wanted.output_trim)
        &&& found.input_labels.names() == wanted.input_names.names()
        &&& found.input_labels.spec_problem() == wanted.input_names.spec_problem()
        &&& found.output_labels.names() == wanted.output_names.names()
        &&& found.output_labels.spec_problem() == wanted.output_names.spec_problem()
        &&& found.phase == wanted.phase
    } else {
        &&& found.wanted_inputs is None
        &&& found.wanted_outputs is None
        &&& found.input_trim == 0
        &&& found.output_trim == 0
        &&& found.input_labels.names() == Map::<u32, String>::empty()
        &&& found.input_labels.spec_problem() is None
        &&& found.output_labels.names() == Map::<u32, String>::empty()
        &&& found.output_labels.spec_problem() is None
        &&& found.phase is None
    }
}

/// Whether slot `slot` was opened, started up and read, and what it said it is.
pub open spec fn slot_opened(asked: Seq<Opening>, chosen: Seq<usize>, slot: int) -> bool {
    &&& asked[3 * slot] == Opening::Open(chosen[slot], slot as usize, None)
    &&& asked[3 * slot + 1] == Opening::Init(slot as usize, None)
    &&& asked[3 * slot + 2] matches Opening::Describe(at, Ok(_)) && at == slot
}

/// What slot `slot` said it is, once it was read.
pub open spec fn described_at(asked: Seq<Opening>, slot: int) -> (Description, SampleKind, SampleKind) {
    match asked[3 * slot + 2] {
        Opening::Describe(_, Ok(described)) => described,
        _ => arbitrary(),
    }
}

/// What opening the devices asked of the PC, and what it came to: every chosen driver opened,
/// started up and read, in the order it was chosen, or the first that would not do one of those,
/// named, with what it said.
pub open spec fn spec_opened(
    asked: Seq<Opening>,
    config: Config,
    entries: Seq<Entry>,
    chosen: Seq<usize>,
    result: Result<Vec<Found>, String>,
) -> bool {
    match result {
        Ok(found) => {
            &&& asked.len() == 3 * chosen.len()
            &&& found@.len() == chosen.len()
            &&& forall|slot: int|
                0 <= slot < chosen.len() ==> #[trigger] slot_opened(asked, chosen, slot) && spec_found(
                    config,
                    entries,
                    chosen,
                    slot,
                    described_at(asked, slot),
                    found@[slot],
                )
        },
        Err(why) => exists|at: int|
            #![trigger slot_name(config, entries, chosen, at)]
            0 <= at < chosen.len() && (forall|slot: int| 0 <= slot < at ==> #[trigger] slot_opened(asked, chosen, slot))
                && {
                let name = slot_name(config, entries, chosen, at);
                ||| exists|refusal: Seq<char>|
                    asked.len() == 3 * at + 1 && asked[3 * at] == Opening::Open(chosen[at], at as usize, Some(refusal))
                        && why@ == name + " could not be opened: "@ + refusal
                ||| exists|refusal: Seq<char>|
                    asked.len() == 3 * at + 2 && asked[3 * at] == Opening::Open(chosen[at], at as usize, None)
                        && asked[3 * at + 1] == Opening::Init(at as usize, Some(refusal)) && why@ == name
                        + " refused to start up: "@ + refusal
                ||| exists|refusal: Seq<char>|
                    asked.len() == 3 * at + 3 && asked[3 * at] == Opening::Open(chosen[at], at as usize, None)
                        && asked[3 * at + 1] == Opening::Init(at as usize, None) && asked[3 * at + 2]
                        == Opening::Describe(at as usize, Err(refusal)) && why@ == name + " could not be read: "@
                        + refusal
            },
    }
}

/// A list of channels, copied.
fn copy_channels(list: &Option<Vec<i32>>) -> (copy: Option<Vec<i32>>)
    ensures
        channels_of(copy) == channels_of(*list),
{
    match list {
        Some(channels) => {
            let mut copy: Vec<i32> = Vec::new();
            let mut i: usize = 0;
            while i < channels.len()
                invariant
                    i <= channels@.len(),
                    copy@ == channels@.take(i as int),
                decreases channels@.len() - i,
            {
                copy.push(channels[i]);
                assert(copy@ =~= channels@.take(i + 1));
                i = i + 1;
            }
            assert(channels@.take(i as int) =~= channels@);
            Some(copy)
        },
        None => None,
    }
}

/// One device as the plan wants it, from what it said it is and what the file asked of it.
fn found_for(
    config: &Config,
    entries: &[Entry],
    chosen: &[usize],
    slot: usize,
    described: (Description, SampleKind, SampleKind),
) -> (found: Found)
    requires
        slot < chosen@.len(),
        chosen@[slot as int] < entries@.len(),
        config.devices@.len() > 0 ==> slot < config.devices@.len(),
    ensures
        spec_found(*config, entries@, chosen@, slot as int, described, found),
{
    let (description, input_sample, output_sample) = described;
    if config.devices.len() > 0 {
        let wanted = &config.devices[slot];
        let name = match &wanted.name {
            Some(name) => name.clone(),
            None => entries[chosen[slot]].key.clone(),
        };
        Found {
            name,
            description,
            input_sample,
            output_sample,
            wanted_inputs: copy_channels(&wanted.inputs),
            wanted_outputs: copy_channels(&wanted.outputs),
            input_trim: match wanted.input_trim {
                Some(samples) => samples,
                None => 0,
            },
            output_trim: match wanted.output_trim {
                Some(samples) => samples,
                None => 0,
            },
            input_labels: wanted.input_names.copied(),
            output_labels: wanted.output_names.copied(),
            phase: wanted.phase,
        }
    } else {
        Found {
            name: entries[chosen[slot]].key.clone(),
            description,
            input_sample,
            output_sample,
            wanted_inputs: None,
            wanted_outputs: None,
            input_trim: 0,
            output_trim: 0,
            input_labels: Labels::none(),
            output_labels: Labels::none(),
            phase: None,
        }
    }
}

/// **Open every chosen driver, start it up and read what it is**, each in the slot of callbacks
/// of its place in the choice, and turn what it said into what the plan works from. The first
/// that will not open, start up or be read is named, with what it said. `chosen` is which
/// registry entries to open, in the order the file asks for them; with no devices in the file,
/// every one of them is one of the maker's own, found by its key.
pub fn open_devices<P: Pc>(pc: &mut P, entries: &[Entry], config: &Config, chosen: &[usize]) -> (result: Result<
    Vec<Found>,
    String,
>)
    requires
        forall|slot: int| 0 <= slot < chosen@.len() ==> #[trigger] chosen@[slot] < entries@.len(),
        config.devices@.len() > 0 ==> chosen@.len() == config.devices@.len(),
    ensures
        final(pc).opened().len() >= old(pc).opened().len(),
        final(pc).opened().take(old(pc).opened().len() as int) == old(pc).opened(),
        spec_opened(
            final(pc).opened().skip(old(pc).opened().len() as int),
            *config,
            entries@,
            chosen@,
            result,
        ),
{
    let ghost opened0 = pc.opened();
    let mut found: Vec<Found> = Vec::new();
    let mut slot: usize = 0;
    while slot < chosen.len()
        invariant
            slot <= chosen@.len(),
            opened0 == old(pc).opened(),
            forall|s: int| 0 <= s < chosen@.len() ==> #[trigger] chosen@[s] < entries@.len(),
            config.devices@.len() > 0 ==> chosen@.len() == config.devices@.len(),
            pc.opened().len() == opened0.len() + 3 * slot,
            pc.opened().take(opened0.len() as int) == opened0,
            found@.len() == slot,
            forall|s: int|
                0 <= s < slot ==> #[trigger] slot_opened(pc.opened().skip(opened0.len() as int), chosen@, s)
                    && spec_found(
                    *config,
                    entries@,
                    chosen@,
                    s,
                    described_at(pc.opened().skip(opened0.len() as int), s),
                    found@[s],
                ),
        decreases chosen@.len() - slot,
    {
        let ghost before = pc.opened();
        let entry = chosen[slot];
        let name = if config.devices.len() > 0 {
            match &config.devices[slot].name {
                Some(name) => name.clone(),
                None => entries[entry].key.clone(),
            }
        } else {
            entries[entry].key.clone()
        };
        proof {
            assert(name@ == slot_name(*config, entries@, chosen@, slot as int));
        }
        let opened = pc.open(entry, slot);
        if let Err(refusal) = opened {
            let mut why = name;
            append_str(&mut why, " could not be opened: ");
            append_str(&mut why, refusal.as_str());
            proof {
                assert(pc.opened().take(before.len() as int) =~= before);
                lemma_earlier_slots_stay(before, pc.opened(), opened0, chosen@, slot as int);
                let asked = pc.opened().skip(opened0.len() as int);
                assert(asked[3 * slot] == Opening::Open(chosen@[slot as int], slot, Some(refusal@)));
                assert(why@ =~= slot_name(*config, entries@, chosen@, slot as int) + " could not be opened: "@
                    + refusal@);
                assert(pc.opened().take(opened0.len() as int) =~= opened0);
            }
            return Err(why);
        }
        let started = pc.init(slot);
        if let Err(refusal) = started {
            let mut why = name;
            append_str(&mut why, " refused to start up: ");
            append_str(&mut why, refusal.as_str());
            proof {
                assert(pc.opened().take(before.len() as int) =~= before);
                lemma_earlier_slots_stay(before, pc.opened(), opened0, chosen@, slot as int);
                let asked = pc.opened().skip(opened0.len() as int);
                assert(asked[3 * slot] == Opening::Open(chosen@[slot as int], slot, None));
                assert(asked[3 * slot + 1] == Opening::Init(slot, Some(refusal@)));
                assert(why@ =~= slot_name(*config, entries@, chosen@, slot as int) + " refused to start up: "@
                    + refusal@);
                assert(pc.opened().take(opened0.len() as int) =~= opened0);
            }
            return Err(why);
        }
        let read = pc.describe(slot);
        let described = match read {
            Err(refusal) => {
                let mut why = name;
                append_str(&mut why, " could not be read: ");
                append_str(&mut why, refusal.as_str());
                proof {
                    assert(pc.opened().take(before.len() as int) =~= before);
                    lemma_earlier_slots_stay(before, pc.opened(), opened0, chosen@, slot as int);
                    let asked = pc.opened().skip(opened0.len() as int);
                    assert(asked[3 * slot] == Opening::Open(chosen@[slot as int], slot, None));
                    assert(asked[3 * slot + 1] == Opening::Init(slot, None));
                    assert(asked[3 * slot + 2] == Opening::Describe(slot, Err(refusal@)));
                    assert(why@ =~= slot_name(*config, entries@, chosen@, slot as int) + " could not be read: "@
                        + refusal@);
                    assert(pc.opened().take(opened0.len() as int) =~= opened0);
                }
                return Err(why);
            },
            Ok(described) => described,
        };
        let ghost said = described;
        proof {
            assert(pc.opened().take(before.len() as int) =~= before);
            lemma_earlier_slots_stay(before, pc.opened(), opened0, chosen@, slot as int);
            assert(pc.opened().skip(opened0.len() as int)[3 * slot + 2] == Opening::Describe(slot, Ok(said)));
        }
        let device = found_for(config, entries, chosen, slot, described);
        let ghost found_before = found@;
        found.push(device);
        proof {
            let asked = pc.opened().skip(opened0.len() as int);
            assert(slot_opened(asked, chosen@, slot as int));
            assert(described_at(asked, slot as int) == said);
            assert forall|s: int| 0 <= s < slot + 1 implies #[trigger] slot_opened(asked, chosen@, s) && spec_found(
                *config,
                entries@,
                chosen@,
                s,
                described_at(asked, s),
                found@[s],
            ) by {
                if s < slot {
                    assert(slot_opened(before.skip(opened0.len() as int), chosen@, s));
                    assert(described_at(asked, s) == described_at(before.skip(opened0.len() as int), s));
                    assert(found@[s] == found_before[s]);
                } else {
                    assert(found@[s] == device);
                }
            }
            assert(pc.opened().take(opened0.len() as int) =~= opened0);
        }
        slot = slot + 1;
    }
    proof {
        assert(pc.opened().skip(opened0.len() as int).len() == 3 * chosen@.len());
    }
    Ok(found)
}

/// Calls made after slot `slot` began leave what the earlier slots were asked exactly as it was.
proof fn lemma_earlier_slots_stay(before: Seq<Opening>, after: Seq<Opening>, opened0: Seq<Opening>, chosen: Seq<usize>, slot: int)
    requires
        before.len() == opened0.len() + 3 * slot,
        after.len() >= before.len(),
        after.take(before.len() as int) == before,
        before.take(opened0.len() as int) == opened0,
        0 <= slot,
        forall|s: int| 0 <= s < slot ==> #[trigger] slot_opened(before.skip(opened0.len() as int), chosen, s),
    ensures
        after.take(opened0.len() as int) == opened0,
        forall|s: int| 0 <= s < slot ==> #[trigger] slot_opened(after.skip(opened0.len() as int), chosen, s),
        forall|k: int|
            0 <= k < 3 * slot ==> #[trigger] after.skip(opened0.len() as int)[k] == before.skip(opened0.len() as int)[k],
{
    assert(after.take(opened0.len() as int) =~= before.take(opened0.len() as int));
    assert forall|k: int| 0 <= k < 3 * slot implies #[trigger] after.skip(opened0.len() as int)[k] == before.skip(
        opened0.len() as int,
    )[k] by {
        assert(after[opened0.len() + k] == after.take(before.len() as int)[opened0.len() + k]);
    }
    assert forall|s: int| 0 <= s < slot implies #[trigger] slot_opened(after.skip(opened0.len() as int), chosen, s) by {
        assert(slot_opened(before.skip(opened0.len() as int), chosen, s));
        assert(after.skip(opened0.len() as int)[3 * s] == before.skip(opened0.len() as int)[3 * s]);
        assert(after.skip(opened0.len() as int)[3 * s + 1] == before.skip(opened0.len() as int)[3 * s + 1]);
        assert(after.skip(opened0.len() as int)[3 * s + 2] == before.skip(opened0.len() as int)[3 * s + 2]);
    }
}

/// A PC made of data, for saying what opening the devices asks of it: each driver answers from
/// what it was given, and what was asked is written down in words.
pub struct Shelf {
    /// What the device in each slot says it is, by slot. A slot with nothing given cannot be read.
    pub descriptions: Vec<(Description, SampleKind, SampleKind)>,
    /// A registry entry whose driver will not be created, and why.
    pub refuses_open: Option<(usize, String)>,
    /// A slot whose device will not start up, and why.
    pub refuses_init: Option<(usize, String)>,
    /// What was asked, in words, in order.
    pub calls: Vec<String>,
    /// What was asked, in order.
    pub asked: Ghost<Seq<Opening>>,
}

impl Shelf {
    /// A PC whose devices, slot by slot, say they are `descriptions`, and refuse nothing.
    pub fn new(descriptions: Vec<(Description, SampleKind, SampleKind)>) -> (shelf: Shelf)
        ensures
            shelf.descriptions == descriptions,
            shelf.refuses_open.is_none(),
            shelf.refuses_init.is_none(),
            shelf.calls@.len() == 0,
            shelf.asked@ == Seq::<Opening>::empty(),
    {
        Shelf { descriptions, refuses_open: None, refuses_init: None, calls: Vec::new(), asked: Ghost(Seq::empty()) }
    }

    fn note(&mut self, what: &str, at: usize)
        ensures
            final(self).asked == old(self).asked,
            final(self).descriptions == old(self).descriptions,
            final(self).refuses_open == old(self).refuses_open,
            final(self).refuses_init == old(self).refuses_init,
            final(self).calls@.len() == old(self).calls@.len() + 1,
            final(self).calls@.take(old(self).calls@.len() as int) == old(self).calls@,
            final(self).calls@.last()@ == what@ + " "@ + digits(at as nat),
    {
        proof {
            reveal_strlit(" ");
        }
        let mut line = String::from_str(what);
        append_str(&mut line, " ");
        let said = number_usize(at);
        append_str(&mut line, said.as_str());
        self.calls.push(line);
    }
}

impl Pc for Shelf {
    open spec fn opened(&self) -> Seq<Opening> {
        self.asked@
    }

    fn open(&mut self, entry: usize, slot: usize) -> (opened: Result<(), String>)
        ensures
            opened == refused_by(old(self).refuses_open, entry),
    {
        let opened = Bench::refusal_for(&self.refuses_open, entry);
        self.note("open", entry);
        self.asked = Ghost(self.asked@.push(Opening::Open(entry, slot, objection(opened))));
        opened
    }

    fn init(&mut self, slot: usize) -> (started: Result<(), String>)
        ensures
            started == refused_by(old(self).refuses_init, slot),
    {
        let started = Bench::refusal_for(&self.refuses_init, slot);
        self.note("init", slot);
        self.asked = Ghost(self.asked@.push(Opening::Init(slot, objection(started))));
        started
    }

    fn describe(&mut self, slot: usize) -> (read: Result<(Description, SampleKind, SampleKind), String>)
        ensures
            read is Ok <==> slot < old(self).descriptions@.len(),
    {
        let read = if slot < self.descriptions.len() {
            let said = &self.descriptions[slot];
            Ok((said.0.clone(), said.1.clone(), said.2.clone()))
        } else {
            Err(String::from_str("nothing is there"))
        };
        self.note("describe", slot);
        self.asked = Ghost(self.asked@.push(Opening::Describe(slot, as_described(read))));
        read
    }
}

/// What opening every device a configuration asks for comes to: the configuration's own refusal,
/// or one for more devices than an aggregate holds, with nothing asked of the PC; or what opening,
/// starting up and reading the chosen ones asked and gave.
pub open spec fn spec_open_everything(
    asked: Seq<Opening>,
    entries: Seq<Entry>,
    config: Config,
    same_class: Seq<Seq<bool>>,
    result: Result<Vec<Found>, String>,
) -> bool {
    match spec_choose_drivers(entries, config, same_class) {
        Err(why) => asked.len() == 0 && (result matches Err(said) && said@ == why),
        Ok(chosen) => if chosen.len() > MAX_DEVICES {
            asked.len() == 0 && (result matches Err(said) && said@ == too_many(chosen.len()))
        } else {
            spec_opened(asked, config, entries, chosen, result)
        },
    }
}

/// The rows of a table of answers, as the contracts speak of them.
pub open spec fn rows_of(table: Seq<Vec<bool>>) -> Seq<Seq<bool>> {
    table.map_values(|row: Vec<bool>| row@)
}

/// **Open every device the configuration asks for**: choose them among the PC's drivers, refuse
/// more of them than one aggregate holds before any is opened, and then open, start up and read
/// each in turn. `same_class[i][j]` is whether entry `j`'s class id is the one configured device
/// `i` names.
pub fn open_everything<P: Pc>(pc: &mut P, entries: &[Entry], config: &Config, same_class: &Vec<Vec<bool>>) -> (result: Result<
    Vec<Found>,
    String,
>)
    requires
        same_class@.len() == config.devices@.len(),
        forall|i: int| 0 <= i < same_class@.len() ==> (#[trigger] same_class@[i])@.len() == entries@.len(),
    ensures
        final(pc).opened().len() >= old(pc).opened().len(),
        final(pc).opened().take(old(pc).opened().len() as int) == old(pc).opened(),
        spec_open_everything(
            final(pc).opened().skip(old(pc).opened().len() as int),
            entries@,
            *config,
            rows_of(same_class@),
            result,
        ),
{
    proof {
        assert(pc.opened().take(pc.opened().len() as int) =~= pc.opened());
        assert(pc.opened().skip(pc.opened().len() as int) =~= Seq::<Opening>::empty());
        assert(rows_of(same_class@) =~= same_class@.map_values(|row: Vec<bool>| row@));
    }
    let chosen = match choose_drivers(entries, config, same_class) {
        Err(why) => return Err(why),
        Ok(chosen) => chosen,
    };
    if let Some(why) = count_refusal(chosen.len()) {
        return Err(why);
    }
    open_devices(pc, entries, config, chosen.as_slice())
}

/// The sentence for a configuration changed while a DAW has the buffers.
pub open spec fn busy() -> Seq<char> {
    "the configuration cannot be changed while a DAW has the buffers"@
}

/// **Take a new configuration, and put back the one that worked if it will not open.** Nothing may
/// be pulled out from under a DAW that has the buffers, so that is refused with nothing asked of
/// the PC. Otherwise the new configuration's devices are opened; when that is refused and a plan
/// was in force, the configuration that was in force, `was`, is opened again, so that a refusal
/// leaves a working driver rather than none. Whoever holds the devices lets every one of them go
/// before this, because two instances of one vendor driver in one process is not a thing to try.
///
/// What comes back is what opening the new configuration gave and, when it was opened again, what
/// opening the old one gave.
pub fn reconfigure<P: Pc>(
    pc: &mut P,
    entries: &[Entry],
    was: &Config,
    was_same_class: &Vec<Vec<bool>>,
    config: &Config,
    same_class: &Vec<Vec<bool>>,
    has_buffers: bool,
    had_plan: bool,
) -> (result: (Result<Vec<Found>, String>, Option<Result<Vec<Found>, String>>))
    requires
        same_class@.len() == config.devices@.len(),
        forall|i: int| 0 <= i < same_class@.len() ==> (#[trigger] same_class@[i])@.len() == entries@.len(),
        was_same_class@.len() == was.devices@.len(),
        forall|i: int| 0 <= i < was_same_class@.len() ==> (#[trigger] was_same_class@[i])@.len() == entries@.len(),
    ensures
        final(pc).opened().len() >= old(pc).opened().len(),
        final(pc).opened().take(old(pc).opened().len() as int) == old(pc).opened(),
        has_buffers ==> (result.0 matches Err(why) && why@ == busy()) && result.1 is None && final(pc).opened()
            == old(pc).opened(),
        !has_buffers ==> exists|split: int|
            old(pc).opened().len() <= split <= final(pc).opened().len() && #[trigger] spec_open_everything(
                final(pc).opened().subrange(old(pc).opened().len() as int, split),
                entries@,
                *config,
                rows_of(same_class@),
                result.0,
            ) && if result.0 is Err && had_plan {
                result.1 matches Some(back) && spec_open_everything(
                    final(pc).opened().subrange(split, final(pc).opened().len() as int),
                    entries@,
                    *was,
                    rows_of(was_same_class@),
                    back,
                )
            } else {
                result.1 is None && split == final(pc).opened().len()
            },
{
    let ghost before = pc.opened();
    if has_buffers {
        proof {
            assert(pc.opened().take(before.len() as int) =~= before);
        }
        return (Err(String::from_str("the configuration cannot be changed while a DAW has the buffers")), None);
    }
    let adopted = open_everything(pc, entries, config, same_class);
    let ghost middle = pc.opened();
    proof {
        assert(middle.skip(before.len() as int) =~= middle.subrange(before.len() as int, middle.len() as int));
    }
    if adopted.is_err() && had_plan {
        let back = open_everything(pc, entries, was, was_same_class);
        proof {
            let split = middle.len() as int;
            assert(pc.opened().take(split) == middle);
            assert(pc.opened().subrange(before.len() as int, split) =~= middle.subrange(
                before.len() as int,
                middle.len() as int,
            ));
            assert(pc.opened().skip(split) =~= pc.opened().subrange(split, pc.opened().len() as int));
            assert(pc.opened().take(before.len() as int) =~= before);
            assert(spec_open_everything(
                pc.opened().subrange(before.len() as int, split),
                entries@,
                *config,
                rows_of(same_class@),
                adopted,
            ));
        }
        return (adopted, Some(back));
    }
    proof {
        assert(spec_open_everything(
            pc.opened().subrange(before.len() as int, pc.opened().len() as int),
            entries@,
            *config,
            rows_of(same_class@),
            adopted,
        ));
    }
    (adopted, None)
}

} // verus!
