//! What a dump emits: the text that a sequence of commands, applied
//! cyclically, produces from a given input.

use vstd::prelude::*;
use crate::format::Cmd;
use crate::radix::byte_text;

verus! {

/// The number of directives among `cmds`: the bytes that one full pass takes.
pub open spec fn directive_count(cmds: Seq<Cmd>) -> nat
    decreases cmds.len(),
{
    if cmds.len() == 0 {
        0
    } else {
        (if cmds[0] is NextByte {
            1nat
        } else {
            0nat
        }) + directive_count(cmds.drop_first())
    }
}

/// The text of one pass over `cmds`, from their first to their last: each
/// literal as it is, each directive as the text of the next byte of `input`.
/// The pass ends early, before any further literal, at the first directive
/// that finds no byte left.
pub open spec fn pass_text(cmds: Seq<Cmd>, input: Seq<u8>) -> Seq<char>
    decreases cmds.len(),
{
    if cmds.len() == 0 {
        Seq::empty()
    } else {
        match cmds[0] {
            Cmd::JustText(text) => text + pass_text(cmds.drop_first(), input),
            Cmd::NextByte(fmt) => if input.len() == 0 {
                Seq::empty()
            } else {
                byte_text(input[0], fmt) + pass_text(cmds.drop_first(), input.drop_first())
            },
        }
    }
}

/// The text of a whole dump of `input` under `cmds`.
///
/// Commands without a directive are emitted once. Otherwise the commands are
/// passed over again and again, each pass taking up the input where the one
/// before left it, until a directive finds the input exhausted.
pub open spec fn dump_text(cmds: Seq<Cmd>, input: Seq<u8>) -> Seq<char>
    decreases input.len(),
{
    let taken = directive_count(cmds);
    if taken == 0 || input.len() < taken {
        pass_text(cmds, input)
    } else {
        pass_text(cmds, input) + dump_text(cmds, input.skip(taken as int))
    }
}

/// The number of input bytes that a whole dump takes: all of them if there
/// is a directive to take them, none otherwise.
pub open spec fn dump_consumed(cmds: Seq<Cmd>, input: Seq<u8>) -> nat {
    if directive_count(cmds) == 0 {
        0
    } else {
        input.len()
    }
}

/// The text still to come when a dump stands before command `cursor` with
/// `input` left: the rest of the current pass, then whole passes again.
pub open spec fn text_from(cmds: Seq<Cmd>, cursor: int, input: Seq<u8>) -> Seq<char>
    recommends
        0 <= cursor <= cmds.len(),
{
    let rest = cmds.skip(cursor);
    let taken = directive_count(rest);
    if directive_count(cmds) == 0 || input.len() < taken {
        pass_text(rest, input)
    } else {
        pass_text(rest, input) + dump_text(cmds, input.skip(taken as int))
    }
}

/// There is a directive among `cmds` exactly if their count is positive.
pub proof fn lemma_directive_count_positive(cmds: Seq<Cmd>)
    ensures
        directive_count(cmds) > 0 <==> exists|i: int|
            0 <= i < cmds.len() && #[trigger] cmds[i] is NextByte,
    decreases cmds.len(),
{
    if cmds.len() > 0 {
        let rest = cmds.drop_first();
        lemma_directive_count_positive(rest);
        if directive_count(rest) > 0 {
            let i = choose|i: int| 0 <= i < rest.len() && #[trigger] rest[i] is NextByte;
            assert(cmds[i + 1] is NextByte);
        }
        if exists|i: int| 0 <= i < cmds.len() && #[trigger] cmds[i] is NextByte {
            let i = choose|i: int| 0 <= i < cmds.len() && #[trigger] cmds[i] is NextByte;
            if i > 0 {
                assert(rest[i - 1] is NextByte);
            }
        }
    }
}

/// The directives from `cursor` on, counted off one command at a time.
pub proof fn lemma_directive_count_skip(cmds: Seq<Cmd>, cursor: int)
    requires
        0 <= cursor < cmds.len(),
    ensures
        directive_count(cmds.skip(cursor)) == directive_count(cmds.skip(cursor + 1)) + (if cmds[cursor] is NextByte {
            1nat
        } else {
            0nat
        }),
        directive_count(cmds.skip(cursor)) <= directive_count(cmds),
        cmds[cursor] is NextByte ==> directive_count(cmds) > 0,
    decreases cursor,
{
    assert(cmds.skip(cursor).drop_first() =~= cmds.skip(cursor + 1));
    if cursor == 0 {
        assert(cmds.skip(0) =~= cmds);
    } else {
        lemma_directive_count_skip(cmds, cursor - 1);
    }
    lemma_directive_count_positive(cmds);
}

/// Before a literal, the text to come is the literal and then the text from
/// the command after it.
pub proof fn lemma_text_from_literal(cmds: Seq<Cmd>, cursor: int, input: Seq<u8>)
    requires
        0 <= cursor < cmds.len(),
        cmds[cursor] is JustText,
    ensures
        text_from(cmds, cursor, input) == cmds[cursor]->JustText_0 + text_from(
            cmds,
            if cursor + 1 == cmds.len() && directive_count(cmds) > 0 {
                0
            } else {
                cursor + 1
            },
            input,
        ),
{
    let text = cmds[cursor]->JustText_0;
    let rest = cmds.skip(cursor);
    let after = cmds.skip(cursor + 1);
    lemma_directive_count_skip(cmds, cursor);
    assert(rest.drop_first() =~= after);
    assert(pass_text(rest, input) == text + pass_text(after, input));
    if cursor + 1 == cmds.len() && directive_count(cmds) > 0 {
        assert(after =~= Seq::<Cmd>::empty());
        assert(input.skip(0) =~= input);
        lemma_text_from_start(cmds, input);
        assert(text_from(cmds, cursor, input) =~= text + dump_text(cmds, input));
    } else if directive_count(cmds) == 0 || input.len() < directive_count(rest) {
    } else {
        let more = dump_text(cmds, input.skip(directive_count(rest) as int));
        assert((text + pass_text(after, input)) + more =~= text + (pass_text(after, input) + more));
    }
}

/// Before a directive with a byte left, the text to come is the text of that
/// byte and then the text from the command after it, for the input without
/// that byte.
pub proof fn lemma_text_from_byte(cmds: Seq<Cmd>, cursor: int, input: Seq<u8>)
    requires
        0 <= cursor < cmds.len(),
        cmds[cursor] is NextByte,
        input.len() > 0,
    ensures
        text_from(cmds, cursor, input) == byte_text(input[0], cmds[cursor]->NextByte_0)
            + text_from(
            cmds,
            if cursor + 1 == cmds.len() {
                0
            } else {
                cursor + 1
            },
            input.drop_first(),
        ),
{
    let digits = byte_text(input[0], cmds[cursor]->NextByte_0);
    let rest = cmds.skip(cursor);
    let after = cmds.skip(cursor + 1);
    let left = input.drop_first();
    lemma_directive_count_skip(cmds, cursor);
    assert(rest.drop_first() =~= after);
    assert(pass_text(rest, input) == digits + pass_text(after, left));
    let taken = directive_count(rest) as int;
    if cursor + 1 == cmds.len() {
        assert(after =~= Seq::<Cmd>::empty());
        assert(taken == 1);
        assert(input.skip(1) =~= left);
        lemma_text_from_start(cmds, left);
        assert(text_from(cmds, cursor, input) =~= digits + dump_text(cmds, left));
    } else if input.len() < taken {
    } else {
        assert(input.skip(taken) =~= left.skip(taken - 1));
        let more = dump_text(cmds, input.skip(taken));
        assert((digits + pass_text(after, left)) + more =~= digits + (pass_text(after, left)
            + more));
    }
}

/// Nothing is to come before a directive that finds the input exhausted, nor
/// past the last command where no directive makes the commands start over.
pub proof fn lemma_text_from_end(cmds: Seq<Cmd>, cursor: int, input: Seq<u8>)
    requires
        0 <= cursor <= cmds.len(),
        if cursor < cmds.len() {
            cmds[cursor] is NextByte && input.len() == 0
        } else {
            directive_count(cmds) == 0
        },
    ensures
        text_from(cmds, cursor, input) == Seq::<char>::empty(),
{
    if cursor < cmds.len() {
        lemma_directive_count_skip(cmds, cursor);
    } else {
        assert(cmds.skip(cursor) =~= Seq::<Cmd>::empty());
    }
}

/// A dump starts before the first command.
pub proof fn lemma_text_from_start(cmds: Seq<Cmd>, input: Seq<u8>)
    ensures
        text_from(cmds, 0, input) == dump_text(cmds, input),
{
    assert(cmds.skip(0) =~= cmds);
}

} // verus!
