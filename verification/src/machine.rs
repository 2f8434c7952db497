//! The renderer as a state machine.
//!
//! Reading the input and writing the output are left to a driver. The
//! renderer tells the driver what to do next, and the driver reports back
//! what came of it.

use vstd::pervasive::unreached;
use vstd::prelude::*;
use crate::format::{program, Cmd, FormatCmd};
use crate::radix::{byte_text, format_byte};
use crate::render::{
    directive_count, lemma_directive_count_positive, lemma_directive_count_skip,
    lemma_text_from_byte, lemma_text_from_end, lemma_text_from_literal, text_from,
};

verus! {

/// Why a dump was abandoned. `E` is the cause as the driver reports it.
#[derive(Debug, PartialEq, Eq)]
pub enum RenderError<E> {
    /// Reading the next input byte failed.
    ReadError(E),
    /// Writing rendered text failed.
    WriteError(E),
}

/// What the driver reports to the renderer.
#[derive(Debug, PartialEq, Eq)]
pub enum Event<E> {
    /// Nothing is pending: the dump begins, or the last text was written.
    Ready,
    /// The byte that was asked for.
    Byte(u8),
    /// A byte was asked for and the input has ended.
    EndOfInput,
    /// A byte was asked for and reading failed.
    ReadFailed(E),
    /// Writing the last text failed.
    WriteFailed(E),
}

/// Text for the driver to write.
#[derive(Debug, PartialEq, Eq)]
pub enum Text<'s> {
    /// A literal of the format string.
    Literal(&'s str),
    /// The digits of a rendered byte.
    Digits(String),
}

impl<'s> View for Text<'s> {
    type V = Seq<char>;

    open spec fn view(&self) -> Seq<char> {
        match *self {
            Text::Literal(text) => text@,
            Text::Digits(text) => text@,
        }
    }
}

impl<'s> Text<'s> {
    /// The text as a string slice.
    pub fn as_str(&self) -> (s: &str)
        ensures
            s@ == self@,
    {
        match self {
            Text::Literal(text) => text,
            Text::Digits(text) => text.as_str(),
        }
    }
}

/// What the renderer asks of the driver.
#[derive(Debug, PartialEq, Eq)]
pub enum Action<'s, E> {
    /// Write this text, then report `Ready` or `WriteFailed`.
    Write(Text<'s>),
    /// Read one byte, then report `Byte`, `EndOfInput` or `ReadFailed`.
    Read,
    /// Stop: the dump is over, with this outcome.
    Finish(Result<(), RenderError<E>>),
}

/// An action as a mathematical value: the view of an [`Action`].
pub ghost enum Effect<E> {
    Write(Seq<char>),
    Read,
    Finish(Result<(), RenderError<E>>),
}

impl<'s, E> View for Action<'s, E> {
    type V = Effect<E>;

    open spec fn view(&self) -> Effect<E> {
        match *self {
            Action::Write(text) => Effect::Write(text@),
            Action::Read => Effect::Read,
            Action::Finish(outcome) => Effect::Finish(outcome),
        }
    }
}

/// What the renderer is waiting for.
#[derive(Clone, Copy, Debug, PartialEq, Eq, Structural)]
pub enum Phase {
    /// For `Ready`, or for the failure of the last write.
    Idle,
    /// For the outcome of a read.
    AwaitingByte,
    /// For nothing: the dump is over.
    Finished,
}

impl Phase {
    /// Whether `event` may be reported in this phase.
    pub open spec fn accepts<E>(self, event: Event<E>) -> bool {
        match self {
            Phase::Idle => event is Ready || event is WriteFailed,
            Phase::AwaitingByte => event is Byte || event is EndOfInput || event is ReadFailed,
            Phase::Finished => false,
        }
    }
}

/// The state of a renderer as a mathematical value.
pub ghost struct State {
    /// The index of the command to run next.
    pub cursor: nat,
    /// What the renderer is waiting for.
    pub phase: Phase,
}

impl State {
    /// The state in which every dump begins.
    pub open spec fn initial() -> State {
        State { cursor: 0, phase: Phase::Idle }
    }

    /// The state after the dump has ended at this cursor.
    pub open spec fn finished(self) -> State {
        State { cursor: self.cursor, phase: Phase::Finished }
    }

    /// The states that a dump under `cmds` can be in. The cursor runs off the
    /// end only where no directive makes the commands start over, and a byte
    /// is awaited only at a directive.
    pub open spec fn valid(self, cmds: Seq<Cmd>) -> bool {
        &&& self.cursor <= cmds.len()
        &&& directive_count(cmds) > 0 ==> self.cursor < cmds.len()
        &&& self.phase is AwaitingByte ==> self.cursor < cmds.len() && cmds[self.cursor as int]
            is NextByte
    }
}

/// The cursor after the command at `cursor` has run: the next command, or the
/// first one again where a directive makes the commands start over.
pub open spec fn advance(cmds: Seq<Cmd>, cursor: nat) -> nat {
    if cursor + 1 >= cmds.len() && directive_count(cmds) > 0 {
        0
    } else {
        cursor + 1
    }
}

/// The transition function of the renderer: the state after `event` and the
/// action it asks for.
///
/// Any failure and the end of the input stop the dump. A byte is rendered
/// under the directive that asked for it. On `Ready` the command at the
/// cursor runs: a literal is written, a directive asks for a byte, and past
/// the last command the dump is over.
pub open spec fn next<E>(cmds: Seq<Cmd>, state: State, event: Event<E>) -> (State, Effect<E>) {
    match event {
        Event::WriteFailed(cause) => (
            state.finished(),
            Effect::Finish(Err(RenderError::WriteError(cause))),
        ),
        Event::ReadFailed(cause) => (
            state.finished(),
            Effect::Finish(Err(RenderError::ReadError(cause))),
        ),
        Event::EndOfInput => (state.finished(), Effect::Finish(Ok(()))),
        Event::Byte(b) => (
            State { cursor: advance(cmds, state.cursor), phase: Phase::Idle },
            Effect::Write(byte_text(b, cmds[state.cursor as int]->NextByte_0)),
        ),
        Event::Ready => if state.cursor >= cmds.len() {
            (state.finished(), Effect::Finish(Ok(())))
        } else {
            match cmds[state.cursor as int] {
                Cmd::JustText(text) => (
                    State { cursor: advance(cmds, state.cursor), phase: Phase::Idle },
                    Effect::Write(text),
                ),
                Cmd::NextByte(_) => (
                    State { cursor: state.cursor, phase: Phase::AwaitingByte },
                    Effect::Read,
                ),
            }
        },
    }
}

/// Every transition from a valid state on an accepted event leads to a valid
/// state, and that state accepts whatever the driver may report of the
/// action: the driver can always go on, until the dump is over.
pub proof fn lemma_next_valid<E>(cmds: Seq<Cmd>, state: State, event: Event<E>)
    requires
        state.valid(cmds),
        state.phase.accepts(event),
    ensures
        next(cmds, state, event).0.valid(cmds),
        match next(cmds, state, event).1 {
            Effect::Write(_) => next(cmds, state, event).0.phase is Idle,
            Effect::Read => next(cmds, state, event).0.phase is AwaitingByte,
            Effect::Finish(_) => next(cmds, state, event).0.phase is Finished,
        },
{
}

/// The input that the renderer has yet to render when `event` is reported
/// and `unread` is what the driver has not read: a byte that is reported
/// comes before the unread ones.
pub open spec fn pending_input<E>(event: Event<E>, unread: Seq<u8>) -> Seq<u8> {
    match event {
        Event::Byte(b) => seq![b] + unread,
        _ => unread,
    }
}

/// Without a failure, every transition hands out the next piece of the
/// dump's text: the text to come before the transition is the text that it
/// has written, if any, and then the text to come after it, and nothing is to
/// come once the dump is over.
pub proof fn lemma_next_text<E>(cmds: Seq<Cmd>, state: State, event: Event<E>, unread: Seq<u8>)
    requires
        state.valid(cmds),
        state.phase.accepts(event),
        event is Ready || event is Byte || event is EndOfInput,
        event is EndOfInput ==> unread.len() == 0,
    ensures
        text_from(cmds, state.cursor as int, pending_input(event, unread)) == match next(
            cmds,
            state,
            event,
        ).1 {
            Effect::Write(text) => text + text_from(
                cmds,
                next(cmds, state, event).0.cursor as int,
                unread,
            ),
            Effect::Read => text_from(cmds, next(cmds, state, event).0.cursor as int, unread),
            Effect::Finish(_) => Seq::<char>::empty(),
        },
{
    let cursor = state.cursor as int;
    match event {
        Event::Byte(b) => {
            let input = seq![b] + unread;
            assert(input.drop_first() =~= unread);
            lemma_directive_count_skip(cmds, cursor);
            lemma_text_from_byte(cmds, cursor, input);
        },
        Event::Ready => {
            if cursor >= cmds.len() {
                lemma_text_from_end(cmds, cursor, unread);
            } else if cmds[cursor] is JustText {
                lemma_text_from_literal(cmds, cursor, unread);
            }
        },
        _ => {
            lemma_text_from_end(cmds, cursor, unread);
        },
    }
}

/// Whether there is a directive among `cmds`.
pub fn has_directive(cmds: &[FormatCmd]) -> (found: bool)
    ensures
        found == (directive_count(program(cmds@)) > 0),
{
    let mut i: usize = 0;
    while i < cmds.len()
        invariant
            i <= cmds.len(),
            forall|j: int| 0 <= j < i ==> !(#[trigger] program(cmds@)[j] is NextByte),
        decreases cmds.len() - i,
    {
        if let FormatCmd::NextByte(_) = cmds[i] {
            proof {
                assert(program(cmds@)[i as int] is NextByte);
                lemma_directive_count_positive(program(cmds@));
            }
            return true;
        }
        assert(!(program(cmds@)[i as int] is NextByte));
        i = i + 1;
    }
    proof {
        lemma_directive_count_positive(program(cmds@));
    }
    false
}

/// A renderer at work on one sequence of commands.
pub struct Renderer<'s> {
    cmds: &'s [FormatCmd<'s>],
    cyclic: bool,
    cursor: usize,
    phase: Phase,
}

impl<'s> View for Renderer<'s> {
    type V = State;

    closed spec fn view(&self) -> State {
        State { cursor: self.cursor as nat, phase: self.phase }
    }
}

impl<'s> Renderer<'s> {
    #[verifier::type_invariant]
    spec fn inv(self) -> bool {
        &&& self@.valid(self.program())
        &&& self.cyclic == (directive_count(self.program()) > 0)
    }

    /// The commands that this renderer applies.
    pub closed spec fn program(self) -> Seq<Cmd> {
        program(self.cmds@)
    }

    /// A renderer at the start of a dump under `cmds`.
    pub fn new(cmds: &'s [FormatCmd<'s>]) -> (r: Renderer<'s>)
        ensures
            r.program() == program(cmds@),
            r@ == State::initial(),
            r@.valid(r.program()),
    {
        let cyclic = has_directive(cmds);
        Renderer { cmds, cyclic, cursor: 0, phase: Phase::Idle }
    }

    /// Whether `event` may be reported now: the condition for `step`.
    pub fn accepts<E>(&self, event: &Event<E>) -> (b: bool)
        ensures
            b == self@.phase.accepts(*event),
    {
        match self.phase {
            Phase::Idle => matches!(event, Event::Ready | Event::WriteFailed(_)),
            Phase::AwaitingByte => matches!(
                event,
                Event::Byte(_) | Event::EndOfInput | Event::ReadFailed(_)
            ),
            Phase::Finished => false,
        }
    }

    /// Whether the dump is over.
    pub fn is_finished(&self) -> (b: bool)
        ensures
            b == (self@.phase is Finished),
    {
        matches!(self.phase, Phase::Finished)
    }

    /// Takes in `event` and says what to do next, as `next` defines it.
    pub fn step<E>(self, event: Event<E>) -> (r: (Renderer<'s>, Action<'s, E>))
        requires
            self@.phase.accepts(event),
        ensures
            r.0.program() == self.program(),
            r.0@.valid(self.program()),
            (r.0@, r.1@) == next(self.program(), self@, event),
    {
        proof {
            use_type_invariant(&self);
        }
        let Renderer { cmds, cyclic, cursor, phase: _ } = self;
        let stopped = Renderer { cmds, cyclic, cursor, phase: Phase::Finished };
        let after = if cursor >= cmds.len() {
            cursor
        } else if cursor + 1 == cmds.len() && cyclic {
            0
        } else {
            cursor + 1
        };
        let moved = Renderer { cmds, cyclic, cursor: after, phase: Phase::Idle };
        match event {
            Event::WriteFailed(cause) => (
                stopped,
                Action::Finish(Err(RenderError::WriteError(cause))),
            ),
            Event::ReadFailed(cause) => (
                stopped,
                Action::Finish(Err(RenderError::ReadError(cause))),
            ),
            Event::EndOfInput => (stopped, Action::Finish(Ok(()))),
            Event::Byte(b) => match cmds[cursor] {
                FormatCmd::NextByte(fmt) => (
                    moved,
                    Action::Write(Text::Digits(format_byte(b, fmt))),
                ),
                FormatCmd::JustText(_) => unreached(),
            },
            Event::Ready => if cursor >= cmds.len() {
                (stopped, Action::Finish(Ok(())))
            } else {
                match cmds[cursor] {
                    FormatCmd::JustText(text) => (moved, Action::Write(Text::Literal(text))),
                    FormatCmd::NextByte(_) => (
                        Renderer { cmds, cyclic, cursor, phase: Phase::AwaitingByte },
                        Action::Read,
                    ),
                }
            },
        }
    }
}

} // verus!
