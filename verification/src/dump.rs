//! Dumping a buffer of bytes: the renderer driven from memory.

use vstd::prelude::*;
use vstd::string::StringExecFns;
use crate::format::{program, Cmd, FormatCmd};
use crate::machine::{lemma_next_text, pending_input, Action, Event, Renderer};
use crate::render::{
    directive_count, dump_consumed, dump_text, lemma_directive_count_skip, lemma_text_from_start,
    text_from,
};

verus! {

/// The outcome of dumping a buffer.
#[derive(Debug, PartialEq, Eq)]
pub struct Dump {
    /// The text that was emitted.
    pub text: String,
    /// The number of bytes that were taken from the buffer.
    pub consumed: usize,
}

/// The index of the first command that `event` leaves to be run.
spec fn settled<E>(cursor: nat, event: Event<E>) -> int {
    if event is Byte {
        cursor as int + 1
    } else {
        cursor as int
    }
}

/// Whether the commands start over before the next directive is reached:
/// 1 if so, 0 if not.
spec fn wraps_first<E>(cmds: Seq<Cmd>, cursor: nat, event: Event<E>) -> int {
    if directive_count(cmds.skip(settled(cursor, event))) == 0 {
        1
    } else {
        0
    }
}

/// Renders `input` under `format_cmds`, applied cyclically.
///
/// The text is `dump_text` of the commands and the input. All of the input is
/// consumed if there is a directive; without one, the commands are emitted
/// once and no byte is consumed.
pub fn dump(input: &[u8], format_cmds: &[FormatCmd]) -> (r: Dump)
    ensures
        r.text@ == dump_text(program(format_cmds@), input@),
        r.consumed == dump_consumed(program(format_cmds@), input@),
{
    let ghost cmds = program(format_cmds@);
    let mut renderer = Renderer::new(format_cmds);
    let mut text = String::new();
    let mut taken: usize = 0;
    let mut event: Event<()> = Event::Ready;
    proof {
        lemma_text_from_start(cmds, input@);
        assert(input@.skip(0) =~= input@);
        assert(text@ + dump_text(cmds, input@) =~= dump_text(cmds, input@));
    }
    loop
        invariant
            cmds == program(format_cmds@),
            renderer.program() == cmds,
            renderer@.valid(cmds),
            renderer@.phase.accepts(event),
            taken <= input.len(),
            event is Ready || event is Byte || event is EndOfInput,
            event is EndOfInput ==> taken == input.len(),
            directive_count(cmds) == 0 ==> taken == 0,
            dump_text(cmds, input@) == text@ + text_from(
                cmds,
                renderer@.cursor as int,
                pending_input(event, input@.skip(taken as int)),
            ),
        decreases
            input.len() - taken,
            wraps_first(cmds, renderer@.cursor, event),
            2 * (cmds.len() - renderer@.cursor) + (if event is Ready {
                1int
            } else {
                0int
            }),
    {
        let ghost unread = input@.skip(taken as int);
        let ghost emitted = text@;
        proof {
            let cursor = renderer@.cursor as int;
            lemma_next_text(cmds, renderer@, event, unread);
            if cursor < cmds.len() {
                lemma_directive_count_skip(cmds, cursor);
            }
            assert(cmds.skip(0) =~= cmds);
            assert(cmds.skip(cmds.len() as int) =~= Seq::<Cmd>::empty());
        }
        let (stepped, action) = renderer.step(event);
        renderer = stepped;
        match action {
            Action::Write(piece) => {
                text.append(piece.as_str());
                event = Event::Ready;
                proof {
                    let to_come = text_from(cmds, renderer@.cursor as int, unread);
                    assert((emitted + piece@) + to_come =~= emitted + (piece@ + to_come));
                }
            },
            Action::Read => {
                if taken < input.len() {
                    event = Event::Byte(input[taken]);
                    taken = taken + 1;
                    assert(seq![input[taken - 1]] + input@.skip(taken as int) =~= unread);
                } else {
                    event = Event::EndOfInput;
                }
            },
            Action::Finish(_) => {
                assert(emitted + Seq::<char>::empty() =~= emitted);
                return Dump { text, consumed: taken };
            },
        }
    }
}

} // verus!
