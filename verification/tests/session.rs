use visu::session::delay_to_speed;
use visu::session::speed_to_delay;
use visu::AlgorithmChoice;
use visu::AnimationClock;
use visu::CancelToken;
use visu::Session;
use visu::SessionCommand;
use visu::SessionState;

#[test]
fn run_from_idle_resets_and_launches() {
    let mut session = Session::new();
    assert_eq!(session.state, SessionState::Idle);
    let cmds = session.request_run(AlgorithmChoice::BubbleSort);
    assert_eq!(
        cmds,
        vec![
            SessionCommand::ResetToken,
            SessionCommand::Launch(AlgorithmChoice::BubbleSort),
        ]
    );
    assert_eq!(session.state, SessionState::Running);
}

#[test]
fn run_while_running_stops_joins_then_launches() {
    let mut session = Session::new();
    session.request_run(AlgorithmChoice::QuickSort);
    let cmds = session.request_run(AlgorithmChoice::Shuffle);
    assert_eq!(
        cmds,
        vec![
            SessionCommand::SignalStop,
            SessionCommand::JoinTask,
            SessionCommand::ResetToken,
            SessionCommand::Launch(AlgorithmChoice::Shuffle),
        ]
    );
    assert_eq!(session.state, SessionState::Running);
}

#[test]
fn stop_signals_and_joins_then_accepts_a_new_run() {
    let mut session = Session::new();
    assert_eq!(session.request_stop(), Vec::new());

    session.request_run(AlgorithmChoice::BubbleSort);
    let cmds = session.request_stop();
    assert_eq!(
        cmds,
        vec![SessionCommand::SignalStop, SessionCommand::JoinTask]
    );
    assert_eq!(session.state, SessionState::Idle);

    // A new run request is accepted immediately after a stop.
    let cmds = session.request_run(AlgorithmChoice::QuickSort);
    assert_eq!(
        cmds,
        vec![
            SessionCommand::ResetToken,
            SessionCommand::Launch(AlgorithmChoice::QuickSort),
        ]
    );
}

#[test]
fn task_finishing_returns_the_session_to_idle() {
    let mut session = Session::new();
    session.request_run(AlgorithmChoice::BubbleSort);
    session.task_finished();
    assert_eq!(session.state, SessionState::Idle);
}

#[test]
fn token_signal_and_reset() {
    let token = CancelToken::new();
    assert!(!token.is_signalled());
    token.signal();
    assert!(token.is_signalled());
    // Signalling is observed until the controller resets.
    assert!(token.is_signalled());
    token.reset();
    assert!(!token.is_signalled());
}

#[test]
fn clock_set_and_get() {
    let clock = AnimationClock::new(10);
    assert_eq!(clock.get(), 10);
    clock.set(100);
    assert_eq!(clock.get(), 100);
    clock.set(0);
    assert_eq!(clock.get(), 0);
}

#[test]
fn speed_mapping_is_inverse_linear_and_invertible() {
    assert_eq!(speed_to_delay(&1), 100);
    assert_eq!(speed_to_delay(&10), 10);
    let mut previous = u8::MAX;
    for v in 1..=10u8 {
        let delay = speed_to_delay(&v);
        // A higher speed always gives a strictly smaller delay.
        assert!(delay < previous);
        previous = delay;
        // The slider reads back the speed it was set to.
        assert_eq!(delay_to_speed(&delay), v);
    }
}
