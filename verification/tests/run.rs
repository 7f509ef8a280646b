use gazelle_aggregate::aggregate::Wanted;
use gazelle_aggregate::run::{run_step, wanted_for, Ran, RunAction, RunEvent, RunState, STOPPED};

fn begin(rig: Option<&str>, settings: Option<&str>, checking: bool) -> RunEvent {
    RunEvent::Begin {
        rig: rig.map(str::to_string),
        settings: settings.map(str::to_string),
        checking,
        set_rate: false,
    }
}

fn planned(interfaces: Option<usize>) -> RunEvent {
    RunEvent::Planned {
        interfaces,
        channels: None,
        rate_known: true,
        buffer_size: None,
        preferred: 256,
        wanted: vec![Wanted { is_input: true, channel: 0 }],
    }
}

fn refusal(action: RunAction) -> String {
    match action {
        RunAction::Refuse(why) => why,
        _ => panic!("expected a refusal"),
    }
}

#[test]
fn a_rig_that_will_not_do_is_refused_before_anything_is_opened() {
    let (state, action) = run_step(RunState::Checking, begin(Some("no inputs"), Some("no clicks"), false));
    assert!(matches!(state, RunState::Done));
    assert_eq!(refusal(action), "no inputs");
    let (_, action) = run_step(RunState::Checking, begin(None, Some("no clicks"), false));
    assert_eq!(refusal(action), "no clicks");
}

#[test]
fn a_run_opens_the_aggregate_measuring_and_a_check_opens_it_lined_up() {
    let (state, action) = run_step(RunState::Checking, begin(None, None, false));
    assert!(matches!(state, RunState::Opening { set_rate: false }));
    assert!(matches!(action, RunAction::Open { measure_trims: true }));
    let (_, action) = run_step(RunState::Checking, begin(None, None, true));
    assert!(matches!(action, RunAction::Open { measure_trims: false }));
}

#[test]
fn an_aggregate_of_one_interface_is_refused_because_a_lag_needs_two() {
    let (_, action) = run_step(RunState::Planning, planned(Some(1)));
    assert_eq!(
        refusal(action),
        "the aggregate has 1 interface in it, and a lag is the difference between two of them: add the other \
         interface to aggregate.json and measure again"
    );
    let (_, action) = run_step(RunState::Planning, planned(None));
    assert_eq!(refusal(action), "the aggregate opened without a plan, which should not be possible");
}

#[test]
fn two_interfaces_ask_for_the_buffers_at_the_block_the_plan_prefers() {
    let (state, action) = run_step(RunState::Planning, planned(Some(2)));
    assert!(matches!(state, RunState::Making));
    match action {
        RunAction::MakeBuffers(wanted, block) => {
            assert_eq!(wanted, vec![Wanted { is_input: true, channel: 0 }]);
            assert_eq!(block, 256);
        }
        _ => panic!("expected the buffers to be asked for"),
    }
}

#[test]
fn a_stopped_run_is_refused_as_stopped_after_stopping_and_letting_go() {
    let (state, action) = run_step(RunState::Running(3), RunEvent::Pumped(Some(false)));
    assert!(matches!(action, RunAction::Stop));
    let (state, action) = run_step(state, RunEvent::Stopped);
    assert!(matches!(action, RunAction::Dispose));
    let (state, action) = run_step(state, RunEvent::Disposed { captured: true });
    assert!(matches!(state, RunState::Done));
    assert_eq!(refusal(action), STOPPED);
}

#[test]
fn a_run_that_finished_is_read_and_one_that_heard_nothing_is_refused() {
    let (state, action) = run_step(RunState::Running(7), RunEvent::Pumped(Some(true)));
    assert!(matches!(state, RunState::Running(8)));
    assert!(matches!(action, RunAction::Pump(8)));
    let (state, _) = run_step(state, RunEvent::Pumped(None));
    assert!(matches!(state, RunState::Stopping(Ran::Finished)));
    let (_, action) = run_step(RunState::Disposing(Ran::Finished), RunEvent::Disposed { captured: true });
    assert!(matches!(action, RunAction::Read));
    let (_, action) = run_step(RunState::Disposing(Ran::Finished), RunEvent::Disposed { captured: false });
    assert!(refusal(action).starts_with("the interfaces never called back"));
}

#[test]
fn devices_that_would_not_start_are_still_stopped_and_let_go() {
    let (state, action) = run_step(RunState::Starting, RunEvent::Started(Err("Quadro would not start".to_string())));
    assert!(matches!(action, RunAction::Stop));
    let (state, action) = run_step(state, RunEvent::Stopped);
    assert!(matches!(action, RunAction::Dispose));
    let (_, action) = run_step(state, RunEvent::Disposed { captured: false });
    match action {
        RunAction::PassOn(why) => assert_eq!(why, "Quadro would not start"),
        _ => panic!("the aggregate's own refusal is passed on"),
    }
}

#[test]
fn the_buffers_are_every_input_then_every_witness_then_every_output() {
    let wanted = wanted_for(&[2, 3], &[7], &[0]);
    assert_eq!(
        wanted,
        vec![
            Wanted { is_input: true, channel: 2 },
            Wanted { is_input: true, channel: 3 },
            Wanted { is_input: true, channel: 7 },
            Wanted { is_input: false, channel: 0 },
        ]
    );
}
