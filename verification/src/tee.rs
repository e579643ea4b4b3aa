//! The broadcaster of one output stream: it cuts what it reads into lines and
//! hands each line first to the terminal and then to the log.
//!
//! The broadcaster is a state machine. It says what is to be done next; the
//! caller does it and reports how it went.

use vstd::prelude::*;
use vstd::slice::slice_to_vec;

verus! {

/// The byte that ends a line.
pub const NEWLINE: u8 = 0x0a;

/// What a broadcaster is waiting for.
#[derive(Clone, Copy, Debug, PartialEq, Eq, Structural)]
pub enum TeePhase {
    /// For more of the stream.
    Reading,
    /// For the unit in flight to be written to the terminal.
    Terminal,
    /// For the unit in flight to be written to the log.
    Log,
    /// For nothing: the stream ended and all of it was handed on.
    Done,
    /// For nothing: reading the stream or writing the terminal failed.
    Stopped,
}

/// What the caller reports to a broadcaster.
#[derive(Debug, PartialEq, Eq)]
pub enum TeeEvent {
    /// Bytes that were read from the stream.
    Data(Vec<u8>),
    /// The stream has ended.
    EndOfStream,
    /// Reading the stream failed.
    ReadFailed,
    /// The unit was written.
    Written,
    /// The unit could not be written.
    WriteFailed,
}

/// What a broadcaster asks of the caller.
#[derive(Debug, PartialEq, Eq)]
pub enum TeeAction {
    /// Read from the stream and report what came.
    Read,
    /// Write the unit to the terminal and report how it went.
    WriteTerminal(Vec<u8>),
    /// Append the unit to the log and report how it went.
    WriteLog(Vec<u8>),
    /// Nothing more: the broadcaster has finished.
    Finish,
}

/// An event as the state machine sees it: the bytes of a chunk, not the
/// vector that holds them.
pub enum TeeInput {
    /// These bytes were read from the stream.
    Data(Seq<u8>),
    /// The stream has ended.
    EndOfStream,
    /// Reading the stream failed.
    ReadFailed,
    /// The unit was written.
    Written,
    /// The unit could not be written.
    WriteFailed,
}

impl View for TeeEvent {
    type V = TeeInput;

    open spec fn view(&self) -> TeeInput {
        match *self {
            TeeEvent::Data(chunk) => TeeInput::Data(chunk@),
            TeeEvent::EndOfStream => TeeInput::EndOfStream,
            TeeEvent::ReadFailed => TeeInput::ReadFailed,
            TeeEvent::Written => TeeInput::Written,
            TeeEvent::WriteFailed => TeeInput::WriteFailed,
        }
    }
}

/// The state of a broadcaster, with the record of what has passed through it.
pub struct TeeState {
    pub phase: TeePhase,
    /// Bytes that were read and belong to no unit yet.
    pub buffer: Seq<u8>,
    /// The unit in flight.
    pub unit: Seq<u8>,
    /// The end of the stream was seen.
    pub ended: bool,
    /// No write to the log has failed.
    pub log_open: bool,
    /// All bytes that were read from the stream, in order.
    pub received: Seq<u8>,
    /// All bytes that were written to the terminal, in order.
    pub terminal: Seq<u8>,
    /// All bytes that were written to the log, in order.
    pub log: Seq<u8>,
}

/// A whole line: it ends in a newline and holds no other.
pub open spec fn is_line(unit: Seq<u8>) -> bool {
    unit.len() > 0 && unit.last() == NEWLINE && !unit.drop_last().contains(NEWLINE)
}

/// The length of the first line of `bytes`, its newline included, or 0 where
/// `bytes` holds no newline.
pub open spec fn line_len(bytes: Seq<u8>) -> nat
    decreases bytes.len(),
{
    if bytes.len() == 0 {
        0
    } else if bytes[0] == NEWLINE {
        1
    } else if line_len(bytes.drop_first()) == 0 {
        0
    } else {
        line_len(bytes.drop_first()) + 1
    }
}

impl TeeState {
    /// A broadcaster that has read nothing yet.
    pub open spec fn initial() -> TeeState {
        TeeState {
            phase: TeePhase::Reading,
            buffer: Seq::empty(),
            unit: Seq::empty(),
            ended: false,
            log_open: true,
            received: Seq::empty(),
            terminal: Seq::empty(),
            log: Seq::empty(),
        }
    }

    /// Picks the next thing to do from what is buffered: the first line goes
    /// to the terminal; without a whole line, more is read; after the end of
    /// the stream the unfinished last line goes to the terminal, and with
    /// nothing left the broadcaster is done.
    pub open spec fn settled(self) -> TeeState {
        let n = line_len(self.buffer) as int;
        if n > 0 {
            TeeState {
                phase: TeePhase::Terminal,
                unit: self.buffer.take(n),
                buffer: self.buffer.skip(n),
                ..self
            }
        } else if !self.ended {
            TeeState { phase: TeePhase::Reading, unit: Seq::empty(), ..self }
        } else if self.buffer.len() > 0 {
            TeeState {
                phase: TeePhase::Terminal,
                unit: self.buffer,
                buffer: Seq::empty(),
                ..self
            }
        } else {
            TeeState { phase: TeePhase::Done, unit: Seq::empty(), ..self }
        }
    }

    /// The state after `event`. An event that the broadcaster is not waiting
    /// for changes nothing.
    pub open spec fn next(self, event: TeeInput) -> TeeState {
        match (self.phase, event) {
            (TeePhase::Reading, TeeInput::Data(chunk)) => TeeState {
                buffer: self.buffer + chunk,
                received: self.received + chunk,
                ..self
            }.settled(),
            (TeePhase::Reading, TeeInput::EndOfStream) => TeeState { ended: true, ..self }.settled(),
            (TeePhase::Reading, TeeInput::ReadFailed) => TeeState {
                phase: TeePhase::Stopped,
                ..self
            },
            (TeePhase::Terminal, TeeInput::Written) => {
                let written = TeeState { terminal: self.terminal + self.unit, ..self };
                if self.log_open {
                    TeeState { phase: TeePhase::Log, ..written }
                } else {
                    written.settled()
                }
            },
            (TeePhase::Terminal, TeeInput::WriteFailed) => TeeState {
                phase: TeePhase::Stopped,
                ..self
            },
            (TeePhase::Log, TeeInput::Written) => TeeState {
                log: self.log + self.unit,
                ..self
            }.settled(),
            (TeePhase::Log, TeeInput::WriteFailed) => TeeState { log_open: false, ..self }.settled(),
            _ => self,
        }
    }

    /// The part of the stream that is owed to the terminal as the unit in
    /// flight.
    pub open spec fn owed(self) -> Seq<u8> {
        match self.phase {
            TeePhase::Terminal | TeePhase::Stopped => self.unit,
            _ => Seq::empty(),
        }
    }

    /// What holds of every state that a broadcaster reaches.
    pub open spec fn inv(self) -> bool {
        &&& self.received == self.terminal + self.owed() + self.buffer
        &&& if !self.log_open {
            self.log.is_prefix_of(self.terminal)
        } else if self.phase == TeePhase::Log {
            self.log + self.unit == self.terminal
        } else {
            self.log == self.terminal
        }
        &&& self.phase == TeePhase::Log ==> self.log_open
        &&& self.phase == TeePhase::Reading ==> !self.ended && self.unit.len() == 0
            && !self.buffer.contains(NEWLINE)
        &&& self.phase == TeePhase::Terminal || self.phase == TeePhase::Log ==> self.unit.len() > 0
            && (is_line(self.unit) || (self.ended && self.buffer.len() == 0
            && !self.unit.contains(NEWLINE)))
        &&& self.phase == TeePhase::Done ==> self.ended && self.buffer.len() == 0
            && self.unit.len() == 0
    }

    /// The state after a run of events, from a broadcaster that has read
    /// nothing yet.
    pub open spec fn run(events: Seq<TeeInput>) -> TeeState
        decreases events.len(),
    {
        if events.len() == 0 {
            TeeState::initial()
        } else {
            TeeState::run(events.drop_last()).next(events.last())
        }
    }

    /// How many writes the unit in flight still needs at most.
    pub open spec fn writes_owed(self) -> nat {
        match self.phase {
            TeePhase::Terminal => 2,
            TeePhase::Log => 1,
            _ => 0,
        }
    }

    /// The state once the caller has carried out, with success, every write
    /// that the broadcaster asks for before it reads again or finishes.
    pub open spec fn flushed(self) -> TeeState
        decreases self.buffer.len(), self.writes_owed(),
    {
        if self.phase == TeePhase::Terminal || self.phase == TeePhase::Log {
            proof {
                lemma_line_len(self.buffer);
            }
            self.next(TeeInput::Written).flushed()
        } else {
            self
        }
    }

    /// The state after the stream has delivered `chunks`, one read each, with
    /// every write carried out.
    pub open spec fn fed(chunks: Seq<Seq<u8>>) -> TeeState
        decreases chunks.len(),
    {
        if chunks.len() == 0 {
            TeeState::initial()
        } else {
            TeeState::fed(chunks.drop_last()).next(TeeInput::Data(chunks.last())).flushed()
        }
    }
}

impl TeeAction {
    /// This action is what a broadcaster in state `state` asks for.
    pub open spec fn serves(self, state: TeeState) -> bool {
        match self {
            TeeAction::Read => state.phase == TeePhase::Reading,
            TeeAction::WriteTerminal(unit) => state.phase == TeePhase::Terminal && unit@
                == state.unit,
            TeeAction::WriteLog(unit) => state.phase == TeePhase::Log && unit@ == state.unit,
            TeeAction::Finish => state.phase == TeePhase::Done || state.phase
                == TeePhase::Stopped,
        }
    }
}

/// The parts of a broadcaster.
struct Core {
    phase: TeePhase,
    buffer: Vec<u8>,
    /// How many bytes at the start of the buffer were searched for a newline.
    scanned: usize,
    unit: Vec<u8>,
    ended: bool,
    log_open: bool,
    received: Ghost<Seq<u8>>,
    terminal: Ghost<Seq<u8>>,
    log: Ghost<Seq<u8>>,
}

impl Core {
    spec fn state(&self) -> TeeState {
        TeeState {
            phase: self.phase,
            buffer: self.buffer@,
            unit: self.unit@,
            ended: self.ended,
            log_open: self.log_open,
            received: self.received@,
            terminal: self.terminal@,
            log: self.log@,
        }
    }

    /// The part of the buffer that was searched holds no newline.
    spec fn searched(&self) -> bool {
        &&& self.scanned <= self.buffer@.len()
        &&& forall|i: int| 0 <= i < self.scanned ==> self.buffer@[i] != NEWLINE
    }

    fn fresh() -> (fresh: Core)
        ensures
            fresh.state() == TeeState::initial(),
            fresh.searched(),
    {
        Core {
            phase: TeePhase::Reading,
            buffer: Vec::new(),
            scanned: 0,
            unit: Vec::new(),
            ended: false,
            log_open: true,
            received: Ghost(Seq::empty()),
            terminal: Ghost(Seq::empty()),
            log: Ghost(Seq::empty()),
        }
    }

    fn awaited(&self) -> (action: TeeAction)
        ensures
            action.serves(self.state()),
    {
        match self.phase {
            TeePhase::Reading => TeeAction::Read,
            TeePhase::Terminal => TeeAction::WriteTerminal(slice_to_vec(self.unit.as_slice())),
            TeePhase::Log => TeeAction::WriteLog(slice_to_vec(self.unit.as_slice())),
            TeePhase::Done => TeeAction::Finish,
            TeePhase::Stopped => TeeAction::Finish,
        }
    }

    /// Picks the next thing to do from what is buffered. The search for a
    /// newline goes on where the last one ended.
    fn settle(&mut self) -> (action: TeeAction)
        requires
            old(self).searched(),
        ensures
            final(self).state() == old(self).state().settled(),
            final(self).searched(),
            action.serves(final(self).state()),
    {
        let ghost before = self.state();
        let mut end: usize = self.scanned;
        while end < self.buffer.len() && self.buffer[end] != NEWLINE
            invariant
                self.state() == before,
                end <= self.buffer.len(),
                forall|i: int| 0 <= i < end ==> self.buffer@[i] != NEWLINE,
            decreases self.buffer.len() - end,
        {
            end += 1;
        }
        self.scanned = 0;
        if end < self.buffer.len() {
            proof {
                lemma_line_len_at(before.buffer, end + 1);
            }
            let mut line = self.buffer.split_off(end + 1);
            core::mem::swap(&mut self.buffer, &mut line);
            self.unit = line;
            self.phase = TeePhase::Terminal;
        } else {
            proof {
                lemma_line_len(before.buffer);
            }
            self.unit = Vec::new();
            if !self.ended {
                self.scanned = end;
                self.phase = TeePhase::Reading;
            } else if self.buffer.len() > 0 {
                core::mem::swap(&mut self.buffer, &mut self.unit);
                self.phase = TeePhase::Terminal;
            } else {
                self.phase = TeePhase::Done;
            }
        }
        self.awaited()
    }

    fn step(&mut self, event: TeeEvent) -> (action: TeeAction)
        requires
            old(self).searched(),
        ensures
            final(self).state() == old(self).state().next(event@),
            final(self).searched(),
            action.serves(final(self).state()),
    {
        match (self.phase, event) {
            (TeePhase::Reading, TeeEvent::Data(chunk)) => {
                let mut chunk = chunk;
                self.received = Ghost(self.received@ + chunk@);
                self.buffer.append(&mut chunk);
                self.settle()
            },
            (TeePhase::Reading, TeeEvent::EndOfStream) => {
                self.ended = true;
                self.settle()
            },
            (TeePhase::Reading, TeeEvent::ReadFailed) => {
                self.phase = TeePhase::Stopped;
                TeeAction::Finish
            },
            (TeePhase::Terminal, TeeEvent::Written) => {
                self.terminal = Ghost(self.terminal@ + self.unit@);
                if self.log_open {
                    self.phase = TeePhase::Log;
                    self.awaited()
                } else {
                    self.settle()
                }
            },
            (TeePhase::Terminal, TeeEvent::WriteFailed) => {
                self.phase = TeePhase::Stopped;
                TeeAction::Finish
            },
            (TeePhase::Log, TeeEvent::Written) => {
                self.log = Ghost(self.log@ + self.unit@);
                self.settle()
            },
            (TeePhase::Log, TeeEvent::WriteFailed) => {
                self.log_open = false;
                self.settle()
            },
            _ => self.awaited(),
        }
    }
}

/// The broadcaster of one stream.
pub struct Tee {
    core: Core,
}

impl View for Tee {
    type V = TeeState;

    closed spec fn view(&self) -> TeeState {
        self.core.state()
    }
}

impl Tee {
    /// A broadcaster is always in a state that keeps the invariant.
    #[verifier::type_invariant]
    spec fn sound(&self) -> bool {
        self.core.state().inv() && self.core.searched()
    }

    /// A broadcaster that has read nothing yet. It waits for a read.
    pub fn new() -> (tee: Tee)
        ensures
            tee@ == TeeState::initial(),
            tee@.inv(),
    {
        let inner = Core::fresh();
        assert(inner.state().received =~= inner.state().terminal + inner.state().owed()
            + inner.state().buffer);
        Tee { core: inner }
    }

    /// What the broadcaster is waiting for.
    pub fn phase(&self) -> (phase: TeePhase)
        ensures
            phase == self@.phase,
            self@.inv(),
    {
        proof {
            use_type_invariant(self);
        }
        self.core.phase
    }

    /// Whether the log still takes part: no write to it has failed.
    pub fn log_open(&self) -> (open: bool)
        ensures
            open == self@.log_open,
            self@.inv(),
    {
        proof {
            use_type_invariant(self);
        }
        self.core.log_open
    }

    /// What the broadcaster asks the caller to do now.
    pub fn awaited(&self) -> (action: TeeAction)
        ensures
            action.serves(self@),
            self@.inv(),
    {
        proof {
            use_type_invariant(self);
        }
        self.core.awaited()
    }

    /// Takes the report of what happened and says what is to be done next.
    /// A report that the broadcaster is not waiting for changes nothing, and
    /// the broadcaster asks again for what it is waiting for.
    pub fn step(&mut self, event: TeeEvent) -> (action: TeeAction)
        ensures
            final(self)@ == old(self)@.next(event@),
            action.serves(final(self)@),
            old(self)@.inv(),
            final(self)@.inv(),
    {
        proof {
            use_type_invariant(&*self);
            lemma_next_inv(self@, event@);
        }
        let mut inner = Core::fresh();
        core::mem::swap(&mut self.core, &mut inner);
        let action = inner.step(event);
        self.core = inner;
        action
    }
}

/// Where the first line of `bytes` ends: `line_len` is 0 exactly when there
/// is no newline, and else it is one more than the place of the first one.
pub proof fn lemma_line_len(bytes: Seq<u8>)
    ensures
        line_len(bytes) <= bytes.len(),
        line_len(bytes) == 0 <==> !bytes.contains(NEWLINE),
        line_len(bytes) > 0 ==> is_line(bytes.take(line_len(bytes) as int)),
    decreases bytes.len(),
{
    if bytes.len() > 0 && bytes[0] != NEWLINE {
        let rest = bytes.drop_first();
        lemma_line_len(rest);
        let n = line_len(rest) as int;
        if n == 0 {
            assert forall|i: int| 0 <= i < bytes.len() implies bytes[i] != NEWLINE by {
                if i > 0 {
                    assert(rest[i - 1] == bytes[i]);
                }
            }
        } else {
            let line = rest.take(n);
            let longer = bytes.take(n + 1);
            assert(rest.contains(line.last())) by {
                assert(rest[n - 1] == line.last());
            }
            assert forall|i: int| 0 <= i < n implies longer.drop_last()[i] != NEWLINE by {
                if i > 0 {
                    assert(line.drop_last()[i - 1] == longer.drop_last()[i]);
                }
            }
        }
    }
}

/// The first line of `bytes` has length `n` when a newline stands at `n - 1`
/// and none before it.
pub proof fn lemma_line_len_at(bytes: Seq<u8>, n: int)
    requires
        0 < n <= bytes.len(),
        bytes[n - 1] == NEWLINE,
        forall|i: int| 0 <= i < n - 1 ==> bytes[i] != NEWLINE,
    ensures
        line_len(bytes) == n,
    decreases n,
{
    if n > 1 {
        lemma_line_len_at(bytes.drop_first(), n - 1);
    }
}

/// A broadcaster between two units: nothing is in flight, and the log has
/// what the terminal has unless a write to it failed.
spec fn between_units(state: TeeState) -> bool {
    &&& state.received == state.terminal + state.buffer
    &&& if state.log_open {
        state.log == state.terminal
    } else {
        state.log.is_prefix_of(state.terminal)
    }
}

/// Picking the next thing to do between two units leads to a state that
/// keeps the invariant.
proof fn lemma_settled_inv(state: TeeState)
    requires
        between_units(state),
    ensures
        state.settled().inv(),
        state.settled().received == state.received,
        state.settled().terminal == state.terminal,
        state.settled().log == state.log,
{
    lemma_line_len(state.buffer);
    let after = state.settled();
    assert(after.received =~= after.terminal + after.owed() + after.buffer);
}

/// Every event keeps the invariant.
pub proof fn lemma_next_inv(state: TeeState, event: TeeInput)
    requires
        state.inv(),
    ensures
        state.next(event).inv(),
{
    match (state.phase, event) {
        (TeePhase::Reading, TeeInput::Data(chunk)) => {
            let fed = TeeState {
                buffer: state.buffer + chunk,
                received: state.received + chunk,
                ..state
            };
            assert(fed.received =~= fed.terminal + fed.buffer);
            lemma_settled_inv(fed);
        },
        (TeePhase::Reading, TeeInput::EndOfStream) => {
            lemma_settled_inv(TeeState { ended: true, ..state });
        },
        (TeePhase::Terminal, TeeInput::Written) => {
            if !state.log_open {
                lemma_settled_inv(TeeState { terminal: state.terminal + state.unit, ..state });
            }
        },
        (TeePhase::Log, TeeInput::Written) => {
            lemma_settled_inv(TeeState { log: state.log + state.unit, ..state });
        },
        (TeePhase::Log, TeeInput::WriteFailed) => {
            lemma_settled_inv(TeeState { log_open: false, ..state });
        },
        _ => {},
    }
}

/// Whatever the events, a broadcaster neither invents nor reorders bytes:
/// what the log holds is the start of what the terminal holds, which is the
/// start of what was read. A broadcaster that is done has handed all that was
/// read to the terminal, up to the last byte before the end of the stream,
/// and to the log too unless a write to the log failed.
pub proof fn lemma_faithful(events: Seq<TeeInput>)
    ensures
        TeeState::run(events).inv(),
        TeeState::run(events).log.is_prefix_of(TeeState::run(events).terminal),
        TeeState::run(events).terminal.is_prefix_of(TeeState::run(events).received),
        TeeState::run(events).phase == TeePhase::Done ==> TeeState::run(events).ended
            && TeeState::run(events).terminal == TeeState::run(events).received,
        TeeState::run(events).phase == TeePhase::Done && TeeState::run(events).log_open
            ==> TeeState::run(events).log == TeeState::run(events).received,
    decreases events.len(),
{
    if events.len() > 0 {
        lemma_faithful(events.drop_last());
        lemma_next_inv(TeeState::run(events.drop_last()), events.last());
    }
    let state = TeeState::run(events);
    if state.log_open && state.phase != TeePhase::Log {
        assert(state.terminal =~= state.log);
    }
}

/// Carrying out the writes of a broadcaster whose log is open brings it to
/// the next read, or to the end where the stream has ended, and loses
/// nothing of what was read.
proof fn lemma_flushed(state: TeeState)
    requires
        state.inv(),
        state.log_open,
        state.phase != TeePhase::Stopped,
    ensures
        state.flushed().inv(),
        state.flushed().log_open,
        state.flushed().received == state.received,
        state.flushed().ended == state.ended,
        state.flushed().phase == if state.ended {
            TeePhase::Done
        } else {
            TeePhase::Reading
        },
    decreases state.buffer.len(), state.writes_owed(),
{
    if state.phase == TeePhase::Terminal || state.phase == TeePhase::Log {
        lemma_line_len(state.buffer);
        lemma_next_inv(state, TeeInput::Written);
        lemma_flushed(state.next(TeeInput::Written));
    }
}

/// A stream that is read to its end, with every write carried out, reaches
/// the terminal and the log whole: both hold exactly the bytes that were
/// read, in the order in which they were read, however the reads cut the
/// stream into chunks, and whether or not its last line ends in a newline.
pub proof fn lemma_clean_stream(chunks: Seq<Seq<u8>>)
    ensures
        TeeState::fed(chunks).inv(),
        TeeState::fed(chunks).phase == TeePhase::Reading,
        TeeState::fed(chunks).log_open,
        TeeState::fed(chunks).received == chunks.flatten(),
        TeeState::fed(chunks).next(TeeInput::EndOfStream).flushed().phase == TeePhase::Done,
        TeeState::fed(chunks).next(TeeInput::EndOfStream).flushed().terminal
            == chunks.flatten(),
        TeeState::fed(chunks).next(TeeInput::EndOfStream).flushed().log == chunks.flatten(),
    decreases chunks.len(),
{
    chunks.lemma_flatten_and_flatten_alt_are_equivalent();
    if chunks.len() > 0 {
        let earlier = TeeState::fed(chunks.drop_last());
        lemma_clean_stream(chunks.drop_last());
        chunks.drop_last().lemma_flatten_and_flatten_alt_are_equivalent();
        lemma_next_inv(earlier, TeeInput::Data(chunks.last()));
        lemma_line_len(earlier.buffer + chunks.last());
        lemma_flushed(earlier.next(TeeInput::Data(chunks.last())));
    }
    let read = TeeState::fed(chunks);
    lemma_next_inv(read, TeeInput::EndOfStream);
    lemma_line_len(read.buffer);
    lemma_flushed(read.next(TeeInput::EndOfStream));
}

} // verus!
