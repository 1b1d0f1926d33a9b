//! The controller-facing pieces: the shared cancellation token and
//! animation clock, the session state machine with its
//! stop-join-reset-launch protocol, and the mapping between the UI's speed
//! setting and the per-step delay.
use vstd::prelude::*;

use core::sync::atomic::AtomicBool;
use core::sync::atomic::AtomicU8;
use core::sync::atomic::Ordering;

verus! {

/// The shared cancellation flag: set by the controller that wants the
/// current run to stop, polled (never cleared) by the running algorithm at
/// each step boundary, reset by the controller before a new run starts.
/// The atomic carries no cross-thread value reasoning: every poll is
/// handled by its caller whichever way it comes out.
pub struct CancelToken {
    flag: AtomicBool,
}

impl CancelToken {
    /// A fresh token starts unsignalled.
    pub fn new() -> CancelToken {
        CancelToken { flag: AtomicBool::new(false) }
    }

    /// Asks the current run to stop.
    pub fn signal(&self) {
        self.flag.store(true, Ordering::Relaxed);
    }

    /// Makes the token unsignalled again, before a new run starts.
    pub fn reset(&self) {
        self.flag.store(false, Ordering::Relaxed);
    }

    /// The current state of the flag, as the running algorithm polls it.
    pub fn is_signalled(&self) -> bool {
        self.flag.load(Ordering::Relaxed)
    }
}

/// The shared per-step delay in milliseconds. The controller may change it
/// at any time; the running algorithm reads it fresh before every sleep,
/// so a change takes effect on the next step.
pub struct AnimationClock {
    millis: AtomicU8,
}

impl AnimationClock {
    pub fn new(initial_ms: u8) -> AnimationClock {
        AnimationClock { millis: AtomicU8::new(initial_ms) }
    }

    pub fn set(&self, ms: u8) {
        self.millis.store(ms, Ordering::Relaxed);
    }

    pub fn get(&self) -> u8 {
        self.millis.load(Ordering::Relaxed)
    }
}

/// The algorithm a run request names.
#[derive(Clone, Copy, Debug, PartialEq, Eq, Structural)]
pub enum AlgorithmChoice {
    BubbleSort,
    QuickSort,
    Shuffle,
}

/// Whether a session has an in-flight algorithm task.
#[derive(Clone, Copy, Debug, PartialEq, Eq, Structural)]
pub enum SessionState {
    Idle,
    Running,
}

/// One step the runner around a session must perform, in the order the
/// session hands them out.
#[derive(Clone, Copy, Debug, PartialEq, Eq, Structural)]
pub enum SessionCommand {
    /// Signal the in-flight task's token.
    SignalStop,
    /// Wait until the in-flight task has observably terminated.
    JoinTask,
    /// Reset the token to unsignalled.
    ResetToken,
    /// Launch a new task running the chosen algorithm.
    Launch(AlgorithmChoice),
}

/// The session's two-state start/stop protocol. The session itself only
/// decides; the runner that owns the thread handle, the token and the
/// shared sequence executes the commands in order. The decisive rule: a
/// new task is launched only after any previous task was signalled,
/// joined, and the token reset, so no two tasks ever mutate the same
/// sequence at once.
pub struct Session {
    pub state: SessionState,
}

impl Session {
    pub fn new() -> (s: Session)
        ensures
            s.state == SessionState::Idle,
    {
        Session { state: SessionState::Idle }
    }

    /// A run request is accepted in every state. From a running session it
    /// first brings the in-flight task to full quiescence - signal, then
    /// join - and only then resets the token and launches; from an idle
    /// session it resets and launches directly.
    pub fn request_run(&mut self, choice: AlgorithmChoice) -> (cmds: Vec<SessionCommand>)
        ensures
            final(self).state == SessionState::Running,
            old(self).state == SessionState::Running ==> cmds@ == seq![
                SessionCommand::SignalStop,
                SessionCommand::JoinTask,
                SessionCommand::ResetToken,
                SessionCommand::Launch(choice),
            ],
            old(self).state == SessionState::Idle ==> cmds@ == seq![
                SessionCommand::ResetToken,
                SessionCommand::Launch(choice),
            ],
    {
        let mut cmds: Vec<SessionCommand> = Vec::new();
        match self.state {
            SessionState::Running => {
                cmds.push(SessionCommand::SignalStop);
                cmds.push(SessionCommand::JoinTask);
                cmds.push(SessionCommand::ResetToken);
                cmds.push(SessionCommand::Launch(choice));
                proof {
                    assert(cmds@ =~= seq![
                        SessionCommand::SignalStop,
                        SessionCommand::JoinTask,
                        SessionCommand::ResetToken,
                        SessionCommand::Launch(choice),
                    ]);
                }
            },
            SessionState::Idle => {
                cmds.push(SessionCommand::ResetToken);
                cmds.push(SessionCommand::Launch(choice));
                proof {
                    assert(cmds@ =~= seq![
                        SessionCommand::ResetToken,
                        SessionCommand::Launch(choice),
                    ]);
                }
            },
        }
        self.state = SessionState::Running;
        cmds
    }

    /// A stop request discards the in-flight task: signal, then join. On
    /// an idle session there is nothing to do.
    pub fn request_stop(&mut self) -> (cmds: Vec<SessionCommand>)
        ensures
            final(self).state == SessionState::Idle,
            old(self).state == SessionState::Running ==> cmds@ == seq![
                SessionCommand::SignalStop,
                SessionCommand::JoinTask,
            ],
            old(self).state == SessionState::Idle ==> cmds@ == Seq::<SessionCommand>::empty(),
    {
        let mut cmds: Vec<SessionCommand> = Vec::new();
        match self.state {
            SessionState::Running => {
                cmds.push(SessionCommand::SignalStop);
                cmds.push(SessionCommand::JoinTask);
                proof {
                    assert(cmds@ =~= seq![SessionCommand::SignalStop, SessionCommand::JoinTask]);
                }
            },
            SessionState::Idle => {
                proof {
                    assert(cmds@ =~= Seq::<SessionCommand>::empty());
                }
            },
        }
        self.state = SessionState::Idle;
        cmds
    }

    /// The in-flight task reached the end of its algorithm on its own.
    pub fn task_finished(&mut self)
        ensures
            final(self).state == SessionState::Idle,
    {
        self.state = SessionState::Idle;
    }
}

/// The delay that a speed setting of the UI's slider stands for:
/// inverse-linear, so a larger speed means a smaller per-step delay.
pub open spec fn delay_of_speed(v: int) -> int {
    110 - 10 * v
}

/// The speed setting that a delay stands for: the inverse of
/// `delay_of_speed` on the slider range.
pub open spec fn speed_of_delay(dt: int) -> int {
    11 - dt / 10
}

/// Maps a per-step delay in milliseconds back to the slider's speed value.
pub fn delay_to_speed(dt: &u8) -> (v: u8)
    requires
        *dt <= 119,
    ensures
        v == speed_of_delay(*dt as int),
{
    11 - dt / 10
}

/// Maps the slider's speed value to a per-step delay in milliseconds.
pub fn speed_to_delay(v: &u8) -> (dt: u8)
    requires
        *v <= 11,
    ensures
        dt == delay_of_speed(*v as int),
{
    110 - 10 * v
}

/// The speed mapping is strictly monotonic - a higher speed gives a
/// strictly smaller delay - and invertible over the slider range, so the
/// slider always reads back the speed it was set to.
pub proof fn lemma_speed_mapping_invertible(v1: int, v2: int)
    requires
        1 <= v1 <= 10,
        1 <= v2 <= 10,
    ensures
        v1 < v2 ==> delay_of_speed(v1) > delay_of_speed(v2),
        speed_of_delay(delay_of_speed(v1)) == v1,
{
}

} // verus!
