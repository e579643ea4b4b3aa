//! The supervisor of one invocation: it decides whether the child's output
//! is captured, in which order the steps of the invocation are taken, and
//! with which code the invocation ends.
//!
//! The supervisor is a state machine. It says what is to be done next; the
//! caller does it and reports how it went.

use crate::ignore::IgnoreSet;
use vstd::prelude::*;

verus! {

/// The exit code of an invocation whose child could not be started, whose log
/// file could not be created, or whose child ended without an exit code.
pub const FAILURE_CODE: i32 = 1;

/// How the child is run.
#[derive(Clone, Copy, Debug, PartialEq, Eq, Structural)]
pub enum Mode {
    /// With the terminal to itself; nothing is logged.
    Bypass,
    /// With its output piped through the broadcasters into the log.
    Captured,
}

/// Where an invocation stands.
#[derive(Clone, Copy, Debug, PartialEq, Eq, Structural)]
pub enum Stage {
    /// Old logs are being rotated.
    Rotating,
    /// The log file is being created.
    CreatingLog,
    /// The child is being started.
    Launching,
    /// The child runs.
    Running,
    /// The child has ended; the broadcasters are emptying their pipes.
    Draining(i32),
    /// The invocation is over, with this exit code.
    Exited(i32),
}

/// What the caller reports to the supervisor.
#[derive(Clone, Copy, Debug, PartialEq, Eq, Structural)]
pub enum Event {
    /// The rotation pass is over. Files that could not be deleted are no
    /// failure.
    RotationDone,
    /// The log file is open for writing.
    LogCreated,
    /// The log directory or the log file could not be made.
    LogFailed,
    /// The child runs.
    Launched,
    /// The program was not found or could not be started.
    LaunchFailed,
    /// The child has ended, with its exit code where it has one.
    ChildExited(Option<i32>),
    /// Both broadcasters have finished.
    Drained,
}

/// What the supervisor asks of the caller.
#[derive(Clone, Copy, Debug, PartialEq, Eq, Structural)]
pub enum Action {
    /// Delete the log files that a rotation pass names.
    RotateLogs,
    /// Create the log file of this invocation.
    CreateLog,
    /// Start the child on the caller's own terminal.
    LaunchInherited,
    /// Start the child with its output and its errors piped, and a
    /// broadcaster on each pipe.
    LaunchCaptured,
    /// Wait for the child to end.
    WaitForChild,
    /// Wait for both broadcasters to finish.
    JoinBroadcasters,
    /// End with this exit code.
    Exit(i32),
}

/// The exit code for a child's status: its own code, or the failure code
/// where it ended without one.
pub open spec fn code_of(status: Option<i32>) -> i32 {
    match status {
        Some(code) => code,
        None => FAILURE_CODE,
    }
}

/// The exit code for a child's status.
pub fn exit_code(status: Option<i32>) -> (code: i32)
    ensures
        code == code_of(status),
{
    match status {
        Some(code) => code,
        None => FAILURE_CODE,
    }
}

/// How a program is run under an ignore set: on the terminal where the set
/// names it, captured where it does not.
pub open spec fn mode_for(ignore: Set<Seq<char>>, program: Seq<char>) -> Mode {
    if ignore.contains(program) {
        Mode::Bypass
    } else {
        Mode::Captured
    }
}

/// Decides how to run `program`: on the terminal where the ignore set names
/// it, captured where it does not.
pub fn resolve_mode(program: &str, ignore: &IgnoreSet) -> (mode: Mode)
    ensures
        mode == mode_for(ignore@, program@),
{
    if ignore.contains(program) {
        Mode::Bypass
    } else {
        Mode::Captured
    }
}

impl Action {
    /// This action has to do with the log: the rotation pass, the log file,
    /// or the broadcasters that write to it.
    pub open spec fn touches_log(self) -> bool {
        self == Action::RotateLogs || self == Action::CreateLog || self == Action::LaunchCaptured
            || self == Action::JoinBroadcasters
    }
}

/// The state of a supervisor.
#[derive(Clone, Copy, Debug, PartialEq, Eq, Structural)]
pub struct SupervisorState {
    pub mode: Mode,
    pub stage: Stage,
}

impl SupervisorState {
    /// The state of an invocation that has not begun. A captured invocation
    /// begins with the rotation pass, a bypassed one with the start of the
    /// child.
    pub open spec fn initial(mode: Mode) -> SupervisorState {
        SupervisorState {
            mode,
            stage: match mode {
                Mode::Bypass => Stage::Launching,
                Mode::Captured => Stage::Rotating,
            },
        }
    }

    /// The state after `event`. An event that the supervisor is not waiting
    /// for changes nothing.
    pub open spec fn next(self, event: Event) -> SupervisorState {
        let stage = match (self.stage, event) {
            (Stage::Rotating, Event::RotationDone) => Stage::CreatingLog,
            (Stage::CreatingLog, Event::LogCreated) => Stage::Launching,
            (Stage::CreatingLog, Event::LogFailed) => Stage::Exited(FAILURE_CODE),
            (Stage::Launching, Event::Launched) => Stage::Running,
            (Stage::Launching, Event::LaunchFailed) => Stage::Exited(FAILURE_CODE),
            (Stage::Running, Event::ChildExited(status)) => match self.mode {
                Mode::Bypass => Stage::Exited(code_of(status)),
                Mode::Captured => Stage::Draining(code_of(status)),
            },
            (Stage::Draining(code), Event::Drained) => Stage::Exited(code),
            _ => self.stage,
        };
        SupervisorState { mode: self.mode, stage }
    }

    /// What the supervisor asks the caller to do in this state.
    pub open spec fn wants(self) -> Action {
        match self.stage {
            Stage::Rotating => Action::RotateLogs,
            Stage::CreatingLog => Action::CreateLog,
            Stage::Launching => match self.mode {
                Mode::Bypass => Action::LaunchInherited,
                Mode::Captured => Action::LaunchCaptured,
            },
            Stage::Running => Action::WaitForChild,
            Stage::Draining(_) => Action::JoinBroadcasters,
            Stage::Exited(code) => Action::Exit(code),
        }
    }

    /// The state after a run of events, from the start of an invocation.
    pub open spec fn run(mode: Mode, events: Seq<Event>) -> SupervisorState
        decreases events.len(),
    {
        if events.len() == 0 {
            SupervisorState::initial(mode)
        } else {
            SupervisorState::run(mode, events.drop_last()).next(events.last())
        }
    }

    /// A bypassed invocation stands at no stage that has to do with the log.
    pub open spec fn spares_log(self) -> bool {
        self.mode == Mode::Bypass ==> self.stage == Stage::Launching || self.stage
            == Stage::Running || self.stage is Exited
    }
}

/// The supervisor of one invocation.
pub struct Supervisor {
    state: SupervisorState,
}

impl View for Supervisor {
    type V = SupervisorState;

    closed spec fn view(&self) -> SupervisorState {
        self.state
    }
}

impl Supervisor {
    /// A bypassed invocation never stands at a stage that has to do with the
    /// log.
    #[verifier::type_invariant]
    spec fn bypass_spares_log(&self) -> bool {
        self.state.spares_log()
    }

    /// The supervisor of an invocation that has not begun.
    pub fn new(mode: Mode) -> (supervisor: Supervisor)
        ensures
            supervisor@ == SupervisorState::initial(mode),
    {
        Supervisor {
            state: SupervisorState {
                mode,
                stage: match mode {
                    Mode::Bypass => Stage::Launching,
                    Mode::Captured => Stage::Rotating,
                },
            },
        }
    }

    /// How the child is run.
    pub fn mode(&self) -> (mode: Mode)
        ensures
            mode == self@.mode,
    {
        self.state.mode
    }

    /// Where the invocation stands.
    pub fn stage(&self) -> (stage: Stage)
        ensures
            stage == self@.stage,
            self@.spares_log(),
    {
        proof {
            use_type_invariant(self);
        }
        self.state.stage
    }

    /// What the supervisor asks the caller to do now. In a bypassed
    /// invocation it never has to do with the log.
    pub fn awaited(&self) -> (action: Action)
        ensures
            action == self@.wants(),
            self@.mode == Mode::Bypass ==> !action.touches_log(),
    {
        proof {
            use_type_invariant(self);
        }
        match self.state.stage {
            Stage::Rotating => Action::RotateLogs,
            Stage::CreatingLog => Action::CreateLog,
            Stage::Launching => match self.state.mode {
                Mode::Bypass => Action::LaunchInherited,
                Mode::Captured => Action::LaunchCaptured,
            },
            Stage::Running => Action::WaitForChild,
            Stage::Draining(_) => Action::JoinBroadcasters,
            Stage::Exited(code) => Action::Exit(code),
        }
    }

    /// Takes the report of what happened and says what is to be done next.
    /// A report that the supervisor is not waiting for changes nothing, and
    /// the supervisor asks again for what it is waiting for. In a bypassed
    /// invocation what it asks for never has to do with the log.
    pub fn step(&mut self, event: Event) -> (action: Action)
        ensures
            final(self)@ == old(self)@.next(event),
            action == final(self)@.wants(),
            final(self)@.mode == Mode::Bypass ==> !action.touches_log(),
    {
        proof {
            use_type_invariant(&*self);
        }
        let stage = match (self.state.stage, event) {
            (Stage::Rotating, Event::RotationDone) => Stage::CreatingLog,
            (Stage::CreatingLog, Event::LogCreated) => Stage::Launching,
            (Stage::CreatingLog, Event::LogFailed) => Stage::Exited(FAILURE_CODE),
            (Stage::Launching, Event::Launched) => Stage::Running,
            (Stage::Launching, Event::LaunchFailed) => Stage::Exited(FAILURE_CODE),
            (Stage::Running, Event::ChildExited(status)) => match self.state.mode {
                Mode::Bypass => Stage::Exited(exit_code(status)),
                Mode::Captured => Stage::Draining(exit_code(status)),
            },
            (Stage::Draining(code), Event::Drained) => Stage::Exited(code),
            (stage, _) => stage,
        };
        self.state = SupervisorState { mode: self.state.mode, stage };
        self.awaited()
    }
}

/// Among `events`, `first` was reported and later `then`.
pub open spec fn in_order(events: Seq<Event>, first: Event, then: Event) -> bool {
    exists|i: int, j: int|
        0 <= i < j < events.len() && #[trigger] events[i] == first && #[trigger] events[j]
            == then
}

/// What the events of a captured invocation must hold for it to stand at
/// `stage`.
pub open spec fn captured_history(events: Seq<Event>, stage: Stage) -> bool {
    match stage {
        Stage::Rotating => true,
        Stage::CreatingLog => events.contains(Event::RotationDone),
        Stage::Launching => in_order(events, Event::RotationDone, Event::LogCreated),
        Stage::Running => in_order(events, Event::RotationDone, Event::LogCreated) && in_order(
            events,
            Event::LogCreated,
            Event::Launched,
        ),
        Stage::Draining(code) => exists|status: Option<i32>|
            code == code_of(status) && #[trigger] in_order(
                events,
                Event::Launched,
                Event::ChildExited(status),
            ),
        Stage::Exited(code) => {
            ||| code == FAILURE_CODE && events.contains(Event::LogFailed)
            ||| code == FAILURE_CODE && events.contains(Event::LaunchFailed)
            ||| exists|status: Option<i32>|
                code == code_of(status) && #[trigger] in_order(
                    events,
                    Event::ChildExited(status),
                    Event::Drained,
                )
        },
    }
}

/// What the events of a bypassed invocation must hold for it to stand at
/// `stage`. It never stands at a stage that has to do with the log.
pub open spec fn bypass_history(events: Seq<Event>, stage: Stage) -> bool {
    match stage {
        Stage::Launching => true,
        Stage::Running => events.contains(Event::Launched),
        Stage::Exited(code) => {
            ||| code == FAILURE_CODE && events.contains(Event::LaunchFailed)
            ||| exists|status: Option<i32>|
                code == code_of(status) && #[trigger] in_order(
                    events,
                    Event::Launched,
                    Event::ChildExited(status),
                )
        },
        _ => false,
    }
}

/// What was reported stays reported when another event follows.
proof fn lemma_history_grows(events: Seq<Event>)
    requires
        events.len() > 0,
    ensures
        forall|e: Event|
            #![trigger events.drop_last().contains(e)]
            #![trigger events.contains(e)]
            events.drop_last().contains(e) ==> events.contains(e),
        forall|a: Event, b: Event|
            #![trigger in_order(events.drop_last(), a, b)]
            #![trigger in_order(events, a, b)]
            in_order(events.drop_last(), a, b) ==> in_order(events, a, b),
        forall|a: Event|
            #![trigger events.drop_last().contains(a)]
            events.drop_last().contains(a) ==> in_order(events, a, events.last()),
        events.contains(events.last()),
{
    let earlier = events.drop_last();
    assert forall|e: Event| earlier.contains(e) implies events.contains(e) by {
        let i = choose|i: int| 0 <= i < earlier.len() && earlier[i] == e;
        assert(events[i] == e);
    }
    assert forall|a: Event, b: Event| in_order(earlier, a, b) implies in_order(events, a, b) by {
        let (i, j) = choose|i: int, j: int|
            0 <= i < j < earlier.len() && #[trigger] earlier[i] == a && #[trigger] earlier[j]
                == b;
        assert(events[i] == a && events[j] == b);
    }
    assert forall|a: Event| earlier.contains(a) implies in_order(events, a, events.last()) by {
        let i = choose|i: int| 0 <= i < earlier.len() && earlier[i] == a;
        assert(events[i] == a && events[events.len() - 1] == events.last());
    }
}

/// Of two events that were reported in order, each was reported.
proof fn lemma_in_order_contains(events: Seq<Event>, first: Event, then: Event)
    requires
        in_order(events, first, then),
    ensures
        events.contains(first),
        events.contains(then),
{
    let (i, j) = choose|i: int, j: int|
        0 <= i < j < events.len() && #[trigger] events[i] == first && #[trigger] events[j]
            == then;
    assert(events[i] == first && events[j] == then);
}

/// Whatever is reported to the supervisor of a captured invocation, it takes
/// the steps in their order: the rotation pass comes before the log file is
/// created, the log file before the child is started, and the invocation
/// ends only for want of a log file or of a child, or once the child has
/// ended and, after that, both broadcasters have finished. It then ends with
/// the child's exit code, or with the failure code where the child had none.
pub proof fn lemma_captured_steps(events: Seq<Event>)
    ensures
        SupervisorState::run(Mode::Captured, events).mode == Mode::Captured,
        captured_history(events, SupervisorState::run(Mode::Captured, events).stage),
    decreases events.len(),
{
    if events.len() > 0 {
        let earlier = events.drop_last();
        let before = SupervisorState::run(Mode::Captured, earlier);
        lemma_captured_steps(earlier);
        lemma_history_grows(events);
        match before.stage {
            Stage::Launching => {
                lemma_in_order_contains(earlier, Event::RotationDone, Event::LogCreated);
            },
            Stage::Running => {
                lemma_in_order_contains(earlier, Event::LogCreated, Event::Launched);
            },
            Stage::Draining(code) => {
                let status = choose|status: Option<i32>|
                    code == code_of(status) && #[trigger] in_order(
                        earlier,
                        Event::Launched,
                        Event::ChildExited(status),
                    );
                lemma_in_order_contains(earlier, Event::Launched, Event::ChildExited(status));
            },
            _ => {},
        }
    }
}

/// Whatever is reported to the supervisor of a bypassed invocation, it never
/// asks for a rotation pass, for a log file or for broadcasters: it starts
/// the child on the terminal, waits for it, and ends with the child's exit
/// code, or with the failure code where the child had none or did not start.
pub proof fn lemma_bypass_steps(events: Seq<Event>)
    ensures
        SupervisorState::run(Mode::Bypass, events).mode == Mode::Bypass,
        bypass_history(events, SupervisorState::run(Mode::Bypass, events).stage),
        SupervisorState::run(Mode::Bypass, events).wants() != Action::RotateLogs,
        SupervisorState::run(Mode::Bypass, events).wants() != Action::CreateLog,
        SupervisorState::run(Mode::Bypass, events).wants() != Action::LaunchCaptured,
        SupervisorState::run(Mode::Bypass, events).wants() != Action::JoinBroadcasters,
    decreases events.len(),
{
    if events.len() > 0 {
        let earlier = events.drop_last();
        lemma_bypass_steps(earlier);
        lemma_history_grows(events);
    }
}

/// A program that the ignore set names leaves the log alone: whatever is
/// reported during its invocation, the supervisor asks neither for a
/// rotation pass nor for a log file, nor for anything else that has to do
/// with the log.
pub proof fn lemma_ignored_program_makes_no_log(
    ignore: Set<Seq<char>>,
    program: Seq<char>,
    events: Seq<Event>,
)
    requires
        ignore.contains(program),
    ensures
        !SupervisorState::run(mode_for(ignore, program), events).wants().touches_log(),
{
    lemma_bypass_steps(events);
}

} // verus!
