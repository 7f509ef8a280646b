//! A calibration run, as the decisions it makes between the things it asks of the PC.
//!
//! A run opens the aggregate, makes its buffers, plays and records, and lets everything go again;
//! each of those is somebody else's work, and what comes back decides what is asked next.
//! [`run_step`] is that decision: from where the run is and what just came back, where it is now
//! and what to do. Whoever holds the devices does it and comes back with the answer.
//!
//! - **Nothing is opened until the rig and the settings have passed**, and nothing is played until
//!   the aggregate has been found to hold two interfaces or more, the rig's channels are among its
//!   own, and it knows its rate.
//! - **A run measures and applies nothing**: the aggregate is opened measuring, unless this run is
//!   a check, which is lined up exactly as a DAW's session would be.
//! - **Buffers once made are always let go of**: every way on from there stops the devices and
//!   then disposes of the buffers before the run answers.
//! - **A run somebody stopped is refused as stopped**, after the devices are stopped and the
//!   buffers let go.
use vstd::prelude::*;
use crate::aggregate::Wanted;
use crate::text::{append_str, digits, number_usize};

verus! {

/// What a run that somebody stopped part way is refused with.
pub const STOPPED: &'static str = "the measurement was stopped part way, so nothing was measured";

/// The sentence for an aggregate that opened and has no plan.
pub open spec fn no_plan() -> Seq<char> {
    "the aggregate opened without a plan, which should not be possible"@
}

/// The sentence for an aggregate of fewer than two interfaces, which have no lag between them.
pub open spec fn fewer_than_two(count: nat) -> Seq<char> {
    "the aggregate has "@ + digits(count)
        + " interface in it, and a lag is the difference between two of them: add the other interface to aggregate.json and measure again"@
}

/// The sentence for interfaces that did not say what rate they run at.
pub open spec fn no_rate() -> Seq<char> {
    "these interfaces did not say what rate they are running at"@
}

/// The sentence for a run in which no interface ever called back.
pub open spec fn never_called_back() -> Seq<char> {
    "the interfaces never called back, so nothing was recorded at all: they opened and then did nothing, which usually means another program still has them"@
}

/// How a run that made its buffers is ending.
pub enum Ran {
    /// It played and recorded until its recording was full or its time was up.
    Finished,
    /// Somebody stopped it part way.
    Stopped,
    /// The aggregate would not start, and said why.
    Refused(String),
}

/// Where a run is.
pub enum RunState {
    /// Nothing asked yet: the rig and the settings are still to be checked.
    Checking,
    /// The aggregate has been asked to open; whether a rate is to be set after is remembered.
    Opening { set_rate: bool },
    /// The aggregate has been asked to move to the settings' rate.
    SettingRate,
    /// The aggregate is open, and what it came to has been asked for.
    Planning,
    /// The buffers have been asked for.
    Making,
    /// The buffers are made and the devices have been asked to start.
    Starting,
    /// Playing and recording; this many waits between blocks have been answered.
    Running(usize),
    /// The devices have been asked to stop.
    Stopping(Ran),
    /// The buffers have been asked to go.
    Disposing(Ran),
    /// The run has answered.
    Done,
}

/// What came back from the last thing asked.
pub enum RunEvent {
    /// The run begins: why the rig will not do, why the settings will not do, whether this run is
    /// a check, and whether the settings ask for a rate.
    Begin { rig: Option<String>, settings: Option<String>, checking: bool, set_rate: bool },
    /// The aggregate opened, or said why not.
    Opened(Result<(), String>),
    /// The aggregate moved to the rate, or said why not.
    RateSet(Result<(), String>),
    /// What the open aggregate came to: how many interfaces its plan holds, when it has one; why
    /// the rig's channels are not among its own, if they are not; whether it knows its rate; the
    /// block the settings ask for and the one the plan prefers; and the buffers the rig needs.
    Planned {
        interfaces: Option<usize>,
        channels: Option<String>,
        rate_known: bool,
        buffer_size: Option<i32>,
        preferred: i32,
        wanted: Vec<Wanted>,
    },
    /// The buffers were made, or the aggregate said why not.
    Made(Result<(), String>),
    /// The devices started, or the aggregate said why not.
    Started(Result<(), String>),
    /// One wait between blocks: `None` when the recording was already full or the time up, and
    /// otherwise whether whoever waited wants the run to go on.
    Pumped(Option<bool>),
    /// The devices stopped.
    Stopped,
    /// The buffers went; whether anything at all was recorded.
    Disposed { captured: bool },
}

/// What to do next.
pub enum RunAction {
    /// Answer with this refusal, and publish it.
    Refuse(String),
    /// Answer with the aggregate's own refusal, which it has already published.
    PassOn(String),
    /// Open the aggregate, measuring what it hears without moving anything for it when asked to.
    Open { measure_trims: bool },
    /// Move the aggregate to the settings' rate.
    SetRate,
    /// Read what the open aggregate came to.
    Plan,
    /// Make these buffers at this block.
    MakeBuffers(Vec<Wanted>, i32),
    /// Start the devices.
    Start,
    /// Unless the recording is full or the time is up, look at what the audio path noticed and
    /// wait for the next block, handing the waiter this count.
    Pump(usize),
    /// Stop the devices.
    Stop,
    /// Let the buffers go.
    Dispose,
    /// Read the recording into the answer.
    Read,
    /// Nothing: what came back was not an answer to what was asked.
    Nothing,
}

/// A [`RunAction`], as the contracts speak of it.
pub enum ActionView {
    Refuse(Seq<char>),
    PassOn(Seq<char>),
    Open { measure_trims: bool },
    SetRate,
    Plan,
    MakeBuffers(Seq<Wanted>, i32),
    Start,
    Pump(usize),
    Stop,
    Dispose,
    Read,
    Nothing,
}

impl View for RunAction {
    type V = ActionView;

    open spec fn view(&self) -> ActionView {
        match self {
            RunAction::Refuse(why) => ActionView::Refuse(why@),
            RunAction::PassOn(why) => ActionView::PassOn(why@),
            RunAction::Open { measure_trims } => ActionView::Open { measure_trims: *measure_trims },
            RunAction::SetRate => ActionView::SetRate,
            RunAction::Plan => ActionView::Plan,
            RunAction::MakeBuffers(wanted, block) => ActionView::MakeBuffers(wanted@, *block),
            RunAction::Start => ActionView::Start,
            RunAction::Pump(count) => ActionView::Pump(*count),
            RunAction::Stop => ActionView::Stop,
            RunAction::Dispose => ActionView::Dispose,
            RunAction::Read => ActionView::Read,
            RunAction::Nothing => ActionView::Nothing,
        }
    }
}

/// Where the plan leaves a run: refused for the first check it fails, or asking for its buffers.
pub open spec fn spec_planned(
    interfaces: Option<usize>,
    channels: Option<String>,
    rate_known: bool,
    buffer_size: Option<i32>,
    preferred: i32,
    wanted: Vec<Wanted>,
) -> (RunState, ActionView) {
    match interfaces {
        None => (RunState::Done, ActionView::Refuse(no_plan())),
        Some(count) => if count < 2 {
            (RunState::Done, ActionView::Refuse(fewer_than_two(count as nat)))
        } else {
            match channels {
                Some(why) => (RunState::Done, ActionView::Refuse(why@)),
                None => if !rate_known {
                    (RunState::Done, ActionView::Refuse(no_rate()))
                } else {
                    (
                        RunState::Making,
                        ActionView::MakeBuffers(
                            wanted@,
                            match buffer_size {
                                Some(block) => block,
                                None => preferred,
                            },
                        ),
                    )
                },
            }
        },
    }
}

/// How a run whose buffers are gone answers.
pub open spec fn spec_answer(ran: Ran, captured: bool) -> ActionView {
    match ran {
        Ran::Stopped => ActionView::Refuse(STOPPED@),
        Ran::Refused(why) => ActionView::PassOn(why@),
        Ran::Finished => if captured {
            ActionView::Read
        } else {
            ActionView::Refuse(never_called_back())
        },
    }
}

/// **Where a run goes from here**: from where it is and what just came back, where it is now and
/// what to do. Anything that is not an answer to what was asked leaves the run where it was.
pub open spec fn spec_run_step(state: RunState, event: RunEvent) -> (RunState, ActionView) {
    match state {
        RunState::Checking => match event {
            RunEvent::Begin { rig, settings, checking, set_rate } => match rig {
                Some(why) => (RunState::Done, ActionView::Refuse(why@)),
                None => match settings {
                    Some(why) => (RunState::Done, ActionView::Refuse(why@)),
                    None => (RunState::Opening { set_rate }, ActionView::Open { measure_trims: !checking }),
                },
            },
            _ => (state, ActionView::Nothing),
        },
        RunState::Opening { set_rate } => match event {
            RunEvent::Opened(Err(why)) => (RunState::Done, ActionView::PassOn(why@)),
            RunEvent::Opened(Ok(_)) => if set_rate {
                (RunState::SettingRate, ActionView::SetRate)
            } else {
                (RunState::Planning, ActionView::Plan)
            },
            _ => (state, ActionView::Nothing),
        },
        RunState::SettingRate => match event {
            RunEvent::RateSet(Err(why)) => (RunState::Done, ActionView::PassOn(why@)),
            RunEvent::RateSet(Ok(_)) => (RunState::Planning, ActionView::Plan),
            _ => (state, ActionView::Nothing),
        },
        RunState::Planning => match event {
            RunEvent::Planned { interfaces, channels, rate_known, buffer_size, preferred, wanted } => spec_planned(
                interfaces,
                channels,
                rate_known,
                buffer_size,
                preferred,
                wanted,
            ),
            _ => (state, ActionView::Nothing),
        },
        RunState::Making => match event {
            RunEvent::Made(Err(why)) => (RunState::Done, ActionView::PassOn(why@)),
            RunEvent::Made(Ok(_)) => (RunState::Starting, ActionView::Start),
            _ => (state, ActionView::Nothing),
        },
        RunState::Starting => match event {
            RunEvent::Started(Err(why)) => (RunState::Stopping(Ran::Refused(why)), ActionView::Stop),
            RunEvent::Started(Ok(_)) => (RunState::Running(0), ActionView::Pump(0)),
            _ => (state, ActionView::Nothing),
        },
        RunState::Running(count) => match event {
            RunEvent::Pumped(None) => (RunState::Stopping(Ran::Finished), ActionView::Stop),
            RunEvent::Pumped(Some(false)) => (RunState::Stopping(Ran::Stopped), ActionView::Stop),
            RunEvent::Pumped(Some(true)) => (
                RunState::Running((count + 1) as usize),
                ActionView::Pump((count + 1) as usize),
            ),
            _ => (state, ActionView::Nothing),
        },
        RunState::Stopping(ran) => match event {
            RunEvent::Stopped => (RunState::Disposing(ran), ActionView::Dispose),
            _ => (RunState::Stopping(ran), ActionView::Nothing),
        },
        RunState::Disposing(ran) => match event {
            RunEvent::Disposed { captured } => (RunState::Done, spec_answer(ran, captured)),
            _ => (RunState::Disposing(ran), ActionView::Nothing),
        },
        RunState::Done => (RunState::Done, ActionView::Nothing),
    }
}

/// Whether a step from `state` on `event` would count past what a `usize` holds, which no run
/// lives long enough to reach.
pub open spec fn counts_over(state: RunState, event: RunEvent) -> bool {
    state matches RunState::Running(count) && count == usize::MAX && event matches RunEvent::Pumped(Some(true))
}

fn planned(
    interfaces: Option<usize>,
    channels: Option<String>,
    rate_known: bool,
    buffer_size: Option<i32>,
    preferred: i32,
    wanted: Vec<Wanted>,
) -> (next: (RunState, RunAction))
    ensures
        (next.0, next.1@) == spec_planned(interfaces, channels, rate_known, buffer_size, preferred, wanted),
{
    let count = match interfaces {
        None => {
            return (
                RunState::Done,
                RunAction::Refuse(String::from_str("the aggregate opened without a plan, which should not be possible")),
            );
        },
        Some(count) => count,
    };
    if count < 2 {
        let mut why = String::from_str("the aggregate has ");
        let said = number_usize(count);
        append_str(&mut why, said.as_str());
        append_str(
            &mut why,
            " interface in it, and a lag is the difference between two of them: add the other interface to aggregate.json and measure again",
        );
        return (RunState::Done, RunAction::Refuse(why));
    }
    if let Some(why) = channels {
        return (RunState::Done, RunAction::Refuse(why));
    }
    if !rate_known {
        return (
            RunState::Done,
            RunAction::Refuse(String::from_str("these interfaces did not say what rate they are running at")),
        );
    }
    let block = match buffer_size {
        Some(block) => block,
        None => preferred,
    };
    (RunState::Making, RunAction::MakeBuffers(wanted, block))
}

fn answer(ran: Ran, captured: bool) -> (action: RunAction)
    ensures
        action@ == spec_answer(ran, captured),
{
    match ran {
        Ran::Stopped => RunAction::Refuse(String::from_str(STOPPED)),
        Ran::Refused(why) => RunAction::PassOn(why),
        Ran::Finished => if captured {
            RunAction::Read
        } else {
            RunAction::Refuse(
                String::from_str(
                    "the interfaces never called back, so nothing was recorded at all: they opened and then did nothing, which usually means another program still has them",
                ),
            )
        },
    }
}

/// **One step of a run**: from where it is and what just came back, where it is now and what to
/// do next.
pub fn run_step(state: RunState, event: RunEvent) -> (next: (RunState, RunAction))
    requires
        !counts_over(state, event),
    ensures
        (next.0, next.1@) == spec_run_step(state, event),
{
    match state {
        RunState::Checking => match event {
            RunEvent::Begin { rig, settings, checking, set_rate } => match rig {
                Some(why) => (RunState::Done, RunAction::Refuse(why)),
                None => match settings {
                    Some(why) => (RunState::Done, RunAction::Refuse(why)),
                    None => (RunState::Opening { set_rate }, RunAction::Open { measure_trims: !checking }),
                },
            },
            _ => (RunState::Checking, RunAction::Nothing),
        },
        RunState::Opening { set_rate } => match event {
            RunEvent::Opened(Err(why)) => (RunState::Done, RunAction::PassOn(why)),
            RunEvent::Opened(Ok(_)) => if set_rate {
                (RunState::SettingRate, RunAction::SetRate)
            } else {
                (RunState::Planning, RunAction::Plan)
            },
            _ => (RunState::Opening { set_rate }, RunAction::Nothing),
        },
        RunState::SettingRate => match event {
            RunEvent::RateSet(Err(why)) => (RunState::Done, RunAction::PassOn(why)),
            RunEvent::RateSet(Ok(_)) => (RunState::Planning, RunAction::Plan),
            _ => (RunState::SettingRate, RunAction::Nothing),
        },
        RunState::Planning => match event {
            RunEvent::Planned { interfaces, channels, rate_known, buffer_size, preferred, wanted } => planned(
                interfaces,
                channels,
                rate_known,
                buffer_size,
                preferred,
                wanted,
            ),
            _ => (RunState::Planning, RunAction::Nothing),
        },
        RunState::Making => match event {
            RunEvent::Made(Err(why)) => (RunState::Done, RunAction::PassOn(why)),
            RunEvent::Made(Ok(_)) => (RunState::Starting, RunAction::Start),
            _ => (RunState::Making, RunAction::Nothing),
        },
        RunState::Starting => match event {
            RunEvent::Started(Err(why)) => (RunState::Stopping(Ran::Refused(why)), RunAction::Stop),
            RunEvent::Started(Ok(_)) => (RunState::Running(0), RunAction::Pump(0)),
            _ => (RunState::Starting, RunAction::Nothing),
        },
        RunState::Running(count) => match event {
            RunEvent::Pumped(None) => (RunState::Stopping(Ran::Finished), RunAction::Stop),
            RunEvent::Pumped(Some(false)) => (RunState::Stopping(Ran::Stopped), RunAction::Stop),
            RunEvent::Pumped(Some(true)) => (RunState::Running(count + 1), RunAction::Pump(count + 1)),
            _ => (RunState::Running(count), RunAction::Nothing),
        },
        RunState::Stopping(ran) => match event {
            RunEvent::Stopped => (RunState::Disposing(ran), RunAction::Dispose),
            _ => (RunState::Stopping(ran), RunAction::Nothing),
        },
        RunState::Disposing(ran) => match event {
            RunEvent::Disposed { captured } => (RunState::Done, answer(ran, captured)),
            _ => (RunState::Disposing(ran), RunAction::Nothing),
        },
        RunState::Done => (RunState::Done, RunAction::Nothing),
    }
}

/// The buffers a run records and plays through: every measured input, then every witness, each as
/// an input, then every output the clicks leave by.
pub open spec fn spec_wanted_for(inputs: Seq<i32>, witnesses: Seq<i32>, outputs: Seq<i32>) -> Seq<Wanted> {
    (inputs + witnesses).map_values(|channel: i32| Wanted { is_input: true, channel }) + outputs.map_values(
        |channel: i32| Wanted { is_input: false, channel },
    )
}

/// The buffers a run asks the aggregate for, in the order the recording keeps them.
pub fn wanted_for(inputs: &[i32], witnesses: &[i32], outputs: &[i32]) -> (wanted: Vec<Wanted>)
    ensures
        wanted@ == spec_wanted_for(inputs@, witnesses@, outputs@),
{
    let mut wanted: Vec<Wanted> = Vec::new();
    let mut i: usize = 0;
    while i < inputs.len()
        invariant
            i <= inputs@.len(),
            wanted@ == inputs@.take(i as int).map_values(|channel: i32| Wanted { is_input: true, channel }),
        decreases inputs@.len() - i,
    {
        wanted.push(Wanted { is_input: true, channel: inputs[i] });
        i = i + 1;
        assert(inputs@.take(i as int) =~= inputs@.take(i - 1).push(inputs@[i - 1]));
    }
    let mut i: usize = 0;
    while i < witnesses.len()
        invariant
            i <= witnesses@.len(),
            wanted@ == (inputs@ + witnesses@.take(i as int)).map_values(
                |channel: i32| Wanted { is_input: true, channel },
            ),
        decreases witnesses@.len() - i,
    {
        wanted.push(Wanted { is_input: true, channel: witnesses[i] });
        i = i + 1;
        assert(inputs@ + witnesses@.take(i as int) =~= (inputs@ + witnesses@.take(i - 1)).push(witnesses@[i - 1]));
    }
    assert(inputs@ + witnesses@.take(witnesses@.len() as int) =~= inputs@ + witnesses@);
    let ghost first = wanted@;
    let mut i: usize = 0;
    while i < outputs.len()
        invariant
            i <= outputs@.len(),
            wanted@ == first + outputs@.take(i as int).map_values(|channel: i32| Wanted { is_input: false, channel }),
        decreases outputs@.len() - i,
    {
        wanted.push(Wanted { is_input: false, channel: outputs[i] });
        i = i + 1;
        assert(outputs@.take(i as int) =~= outputs@.take(i - 1).push(outputs@[i - 1]));
    }
    assert(outputs@.take(outputs@.len() as int) =~= outputs@);
    wanted
}

/// `states` is where a run went under `events`, each step answered with the action beside it.
pub open spec fn run_of(states: Seq<RunState>, events: Seq<RunEvent>, actions: Seq<ActionView>) -> bool {
    &&& states.len() == events.len() + 1
    &&& actions.len() == events.len()
    &&& forall|i: int| 0 <= i < events.len() ==> #[trigger] spec_run_step(states[i], events[i]) == (states[i + 1], actions[i])
}

/// The rig and the settings have both passed.
pub open spec fn begins_clear(event: RunEvent) -> bool {
    event matches RunEvent::Begin { rig: None, settings: None, .. }
}

/// The open aggregate holds two interfaces or more, the rig's channels are among its own, and it
/// knows its rate.
pub open spec fn plans_clear(event: RunEvent) -> bool {
    event matches RunEvent::Planned { interfaces: Some(count), channels: None, rate_known: true, .. } && count >= 2
}

/// Somewhere before step `upto`, the rig and the settings passed.
pub open spec fn began_clear(events: Seq<RunEvent>, upto: int) -> bool {
    exists|i: int| 0 <= i < upto && #[trigger] begins_clear(events[i])
}

/// Somewhere before step `upto`, every check on the open aggregate passed.
pub open spec fn planned_clear(events: Seq<RunEvent>, upto: int) -> bool {
    exists|i: int| 0 <= i < upto && #[trigger] plans_clear(events[i])
}

/// The aggregate is open, or being opened.
pub open spec fn opening(state: RunState) -> bool {
    state is Opening || state is SettingRate || state is Planning
}

/// The buffers have been asked for, or are made.
pub open spec fn making(state: RunState) -> bool {
    state is Making || state is Starting || state is Running || state is Stopping || state is Disposing
}

/// The buffers are made and the devices have not been asked to stop.
pub open spec fn holding(state: RunState) -> bool {
    state is Starting || state is Running
}

/// **Nothing is opened until the rig and the settings have passed**, the rig's refusal first; and
/// a run opens the aggregate measuring what it hears and moving nothing for it, unless it is a
/// check.
pub proof fn law_nothing_opens_before_the_rig_and_settings_pass(
    rig: Option<String>,
    settings: Option<String>,
    checking: bool,
    set_rate: bool,
)
    ensures
        ({
            let next = spec_run_step(RunState::Checking, RunEvent::Begin { rig, settings, checking, set_rate });
            &&& (next.1 is Open) <==> (rig is None && settings is None)
            &&& rig matches Some(why) ==> next.1 == ActionView::Refuse(why@)
            &&& rig is None ==> (settings matches Some(why) ==> next.1 == ActionView::Refuse(why@))
            &&& next.1 is Open ==> next.1 == ActionView::Open { measure_trims: !checking }
        }),
{
}

proof fn lemma_checks_before(states: Seq<RunState>, events: Seq<RunEvent>, actions: Seq<ActionView>, m: int)
    requires
        run_of(states, events, actions),
        states[0] == RunState::Checking,
        0 <= m <= events.len(),
    ensures
        opening(states[m]) ==> began_clear(events, m),
        making(states[m]) ==> began_clear(events, m) && planned_clear(events, m),
    decreases m,
{
    if m > 0 {
        lemma_checks_before(states, events, actions, m - 1);
        assert(spec_run_step(states[m - 1], events[m - 1]) == (states[m], actions[m - 1]));
        if began_clear(events, m - 1) {
            let i = choose|i: int| 0 <= i < m - 1 && #[trigger] begins_clear(events[i]);
            assert(begins_clear(events[i]));
        }
        if planned_clear(events, m - 1) {
            let i = choose|i: int| 0 <= i < m - 1 && #[trigger] plans_clear(events[i]);
            assert(plans_clear(events[i]));
        }
        if states[m - 1] is Checking && opening(states[m]) {
            assert(begins_clear(events[m - 1]));
        }
        if states[m - 1] is Planning && making(states[m]) {
            assert(plans_clear(events[m - 1]));
        }
    }
}

/// **Nothing is played until every check has passed.** In any run, the devices are asked to start
/// only after the rig and the settings passed, and after the open aggregate was found to hold two
/// interfaces or more, to have the rig's channels among its own, and to know its rate.
pub proof fn law_nothing_plays_before_every_check_passes(
    states: Seq<RunState>,
    events: Seq<RunEvent>,
    actions: Seq<ActionView>,
    k: int,
)
    requires
        run_of(states, events, actions),
        states[0] == RunState::Checking,
        0 <= k < events.len(),
        actions[k] is Start,
    ensures
        began_clear(events, k),
        planned_clear(events, k),
{
    lemma_checks_before(states, events, actions, k);
    assert(spec_run_step(states[k], events[k]) == (states[k + 1], actions[k]));
}

proof fn lemma_stopped_before(
    states: Seq<RunState>,
    events: Seq<RunEvent>,
    actions: Seq<ActionView>,
    i: int,
    m: int,
)
    requires
        run_of(states, events, actions),
        0 <= i <= m <= events.len(),
        holding(states[i]),
        states[m] is Stopping,
    ensures
        exists|j: int| i <= j < m && #[trigger] actions[j] is Stop,
    decreases m,
{
    assert(m != i);
    assert(spec_run_step(states[m - 1], events[m - 1]) == (states[m], actions[m - 1]));
    if states[m - 1] is Stopping {
        lemma_stopped_before(states, events, actions, i, m - 1);
        let j = choose|j: int| i <= j < m - 1 && #[trigger] actions[j] is Stop;
        assert(actions[j] is Stop);
    } else {
        assert(actions[m - 1] is Stop);
    }
}

/// **Buffers once made are always let go of.** In any run, from the moment the buffers are made
/// until the run has left them behind, the devices are stopped and then the buffers disposed of.
pub proof fn law_made_buffers_are_let_go(
    states: Seq<RunState>,
    events: Seq<RunEvent>,
    actions: Seq<ActionView>,
    i: int,
    n: int,
)
    requires
        run_of(states, events, actions),
        0 <= i <= n <= events.len(),
        holding(states[i]),
        !holding(states[n]),
        !(states[n] is Stopping),
    ensures
        exists|j: int, k: int| i <= j < k < n && #[trigger] actions[j] is Stop && #[trigger] actions[k] is Dispose,
    decreases n,
{
    assert(n != i);
    assert(spec_run_step(states[n - 1], events[n - 1]) == (states[n], actions[n - 1]));
    if holding(states[n - 1]) || states[n - 1] is Stopping {
        assert(states[n - 1] is Stopping);
        assert(actions[n - 1] is Dispose);
        lemma_stopped_before(states, events, actions, i, n - 1);
        let j = choose|j: int| i <= j < n - 1 && #[trigger] actions[j] is Stop;
        assert(actions[j] is Stop && actions[n - 1] is Dispose);
    } else {
        law_made_buffers_are_let_go(states, events, actions, i, n - 1);
        let (j, k) = choose|j: int, k: int| i <= j < k < n - 1 && #[trigger] actions[j] is Stop && #[trigger] actions[k] is Dispose;
        assert(actions[j] is Stop && actions[k] is Dispose);
    }
}

/// Where a run somebody stopped at step `i` stands by step `m`.
pub open spec fn stopping_as_stopped(states: Seq<RunState>, actions: Seq<ActionView>, i: int, m: int) -> bool {
    ||| states[m] == RunState::Stopping(Ran::Stopped)
    ||| states[m] == RunState::Disposing(Ran::Stopped) && exists|k: int| i < k < m && #[trigger] actions[k] is Dispose
    ||| states[m] is Done && (exists|k: int| i < k < m && #[trigger] actions[k] is Dispose) && exists|l: int|
        i < l < m && #[trigger] actions[l] == ActionView::Refuse(STOPPED@)
}

proof fn lemma_stopping_as_stopped(
    states: Seq<RunState>,
    events: Seq<RunEvent>,
    actions: Seq<ActionView>,
    i: int,
    m: int,
)
    requires
        run_of(states, events, actions),
        0 <= i < m <= events.len(),
        states[i] is Running,
        events[i] == RunEvent::Pumped(Some(false)),
    ensures
        stopping_as_stopped(states, actions, i, m),
    decreases m,
{
    assert(spec_run_step(states[m - 1], events[m - 1]) == (states[m], actions[m - 1]));
    if m - 1 > i {
        lemma_stopping_as_stopped(states, events, actions, i, m - 1);
        if states[m - 1] == RunState::Disposing(Ran::Stopped) || states[m - 1] is Done {
            let k = choose|k: int| i < k < m - 1 && #[trigger] actions[k] is Dispose;
            assert(actions[k] is Dispose);
        }
        if states[m - 1] is Done {
            let l = choose|l: int| i < l < m - 1 && #[trigger] actions[l] == ActionView::Refuse(STOPPED@);
            assert(actions[l] == ActionView::Refuse(STOPPED@));
        }
        if states[m - 1] == RunState::Stopping(Ran::Stopped) && states[m] is Disposing {
            assert(actions[m - 1] is Dispose);
        }
        if states[m - 1] is Disposing && states[m] is Done {
            assert(actions[m - 1] == ActionView::Refuse(STOPPED@));
        }
    }
}

/// **A run somebody stopped is refused as stopped, after the devices are stopped and the buffers
/// let go.** In any run in which the wait between blocks answers that the run is not to go on, the
/// devices are stopped at once; and by the time the run has answered, the buffers have been
/// disposed of and the answer is the refusal [`STOPPED`].
pub proof fn law_a_stopped_run_is_refused_as_stopped(
    states: Seq<RunState>,
    events: Seq<RunEvent>,
    actions: Seq<ActionView>,
    i: int,
    n: int,
)
    requires
        run_of(states, events, actions),
        0 <= i < n <= events.len(),
        states[i] is Running,
        events[i] == RunEvent::Pumped(Some(false)),
        states[n] is Done,
    ensures
        actions[i] is Stop,
        exists|k: int| i < k < n && #[trigger] actions[k] is Dispose,
        exists|l: int| i < l < n && #[trigger] actions[l] == ActionView::Refuse(STOPPED@),
{
    assert(spec_run_step(states[i], events[i]) == (states[i + 1], actions[i]));
    lemma_stopping_as_stopped(states, events, actions, i, n);
}

/// **The buffers are made at the size the run's settings ask for**, and at the size the plan
/// prefers only when they ask for none; and only once the open aggregate has passed every check.
pub proof fn law_buffers_are_made_at_the_size_asked_for(
    interfaces: Option<usize>,
    channels: Option<String>,
    rate_known: bool,
    buffer_size: Option<i32>,
    preferred: i32,
    wanted: Vec<Wanted>,
)
    ensures
        ({
            let next = spec_run_step(
                RunState::Planning,
                RunEvent::Planned { interfaces, channels, rate_known, buffer_size, preferred, wanted },
            );
            &&& (next.1 is MakeBuffers) <==> (interfaces matches Some(count) && count >= 2 && channels is None
                && rate_known)
            &&& next.1 matches ActionView::MakeBuffers(asked, block) ==> asked == wanted@ && next.0 is Making
                && (buffer_size matches Some(size) ==> block == size) && (buffer_size is None ==> block == preferred)
        }),
{
}

} // verus!
