//! What compiling and dumping amount to for two simple families of format
//! strings: those without a marker and those made of directives alone.

use vstd::arithmetic::div_mod::{
    lemma_add_mod_noop, lemma_mod_add_multiples_vanish, lemma_small_mod,
};
use vstd::prelude::*;
use crate::format::{
    compiled, lemma_literal_len_is, parse, program, Cmd, CompileError, FormatCmd, MARKER,
};
use crate::grammar::{lemma_parse_complete, template_of, well_formed};
use crate::radix::{byte_text, ByteFmt};
use crate::render::{directive_count, dump_consumed, dump_text, pass_text};

verus! {

/// Compilation depends on the text of the format string alone: two results
/// for the same text hold the same commands in the same order, or the same
/// error.
pub proof fn lemma_compilation_repeats(
    t: Seq<char>,
    first: Result<Vec<FormatCmd>, CompileError>,
    second: Result<Vec<FormatCmd>, CompileError>,
)
    requires
        compiled(first) == parse(t),
        compiled(second) == parse(t),
    ensures
        compiled(first) == compiled(second),
        first is Ok ==> second is Ok && first->Ok_0@.len() == second->Ok_0@.len() && forall|i: int|
            0 <= i < first->Ok_0@.len() ==> (#[trigger] first->Ok_0@[i])@ == second->Ok_0@[i]@,
        first is Err ==> second == first,
{
    if let Ok(cmds) = first {
        let others = second->Ok_0;
        assert(program(cmds@).len() == cmds@.len());
        assert(program(others@).len() == others@.len());
        assert forall|i: int| 0 <= i < cmds@.len() implies (#[trigger] cmds@[i])@ == others@[i]@ by {
            assert(program(cmds@)[i] == cmds@[i]@);
            assert(program(others@)[i] == others@[i]@);
        }
    }
}

/// A format string without a marker compiles to itself as one literal, and
/// its dump is that text, once, whatever the input; no byte is consumed.
pub proof fn lemma_plain_template(t: Seq<char>, input: Seq<u8>)
    requires
        !t.contains(MARKER),
    ensures
        parse(t) == Ok::<Seq<Cmd>, CompileError>(seq![Cmd::JustText(t)]),
        dump_text(seq![Cmd::JustText(t)], input) == t,
        dump_consumed(seq![Cmd::JustText(t)], input) == 0,
{
    let cmds = seq![Cmd::JustText(t)];
    assert forall|j: int| 0 <= j < t.len() implies t[j] != MARKER by {
        if t[j] == MARKER {
            assert(t.contains(MARKER));
        }
    }
    lemma_literal_len_is(t, t.len() as int);
    assert(t.take(t.len() as int) =~= t);
    assert(cmds.drop_first() =~= Seq::<Cmd>::empty());
    assert(directive_count(cmds.drop_first()) == 0);
    assert(pass_text(cmds.drop_first(), input) =~= Seq::<char>::empty());
    assert(pass_text(cmds, input) =~= t);
}

/// The format string that holds the directives of `fmts` and nothing else.
pub open spec fn directives_template(fmts: Seq<ByteFmt>) -> Seq<char>
    decreases fmts.len(),
{
    if fmts.len() == 0 {
        Seq::empty()
    } else {
        seq![MARKER, fmts[0].specifier()] + directives_template(fmts.drop_first())
    }
}

/// The commands of `directives_template`: the directives of `fmts`, with an
/// empty literal before, between and after them.
pub open spec fn bare_directives(fmts: Seq<ByteFmt>) -> Seq<Cmd>
    decreases fmts.len(),
{
    if fmts.len() == 0 {
        seq![Cmd::JustText(Seq::empty())]
    } else {
        seq![Cmd::JustText(Seq::empty()), Cmd::NextByte(fmts[0])] + bare_directives(
            fmts.drop_first(),
        )
    }
}

/// The texts of the bytes of `input` from index `from` on, one after the
/// other with nothing between them, the byte at index `i` in the radix that
/// `fmts` holds at `i` modulo its length.
pub open spec fn tokens(fmts: Seq<ByteFmt>, input: Seq<u8>, from: int) -> Seq<char>
    recommends
        fmts.len() > 0,
        0 <= from,
    decreases input.len() - from,
{
    if from < 0 || from >= input.len() {
        Seq::empty()
    } else {
        byte_text(input[from], fmts[from % (fmts.len() as int)]) + tokens(fmts, input, from + 1)
    }
}

/// `bare_directives` has the shape of compiled commands, is written as
/// `directives_template`, and holds as many directives as `fmts`.
proof fn lemma_bare_directives(fmts: Seq<ByteFmt>)
    ensures
        well_formed(bare_directives(fmts)),
        bare_directives(fmts).len() == 2 * fmts.len() + 1,
        template_of(bare_directives(fmts)) == directives_template(fmts),
        directive_count(bare_directives(fmts)) == fmts.len(),
    decreases fmts.len(),
{
    let cmds = bare_directives(fmts);
    let none = Seq::<char>::empty();
    if fmts.len() == 0 {
        assert(cmds.drop_first() =~= Seq::<Cmd>::empty());
        assert(template_of(cmds.drop_first()) =~= none);
        assert(template_of(cmds) =~= none);
        assert(directive_count(cmds.drop_first()) == 0);
        assert(!none.contains(MARKER));
    } else {
        let rest = bare_directives(fmts.drop_first());
        lemma_bare_directives(fmts.drop_first());
        let after_text = cmds.drop_first();
        assert(after_text.drop_first() =~= rest);
        assert(after_text[0] == Cmd::NextByte(fmts[0]));
        assert(template_of(after_text) == seq![MARKER, fmts[0].specifier()] + template_of(rest));
        assert(template_of(cmds) =~= directives_template(fmts));
        assert(directive_count(after_text) == 1 + directive_count(rest));
        assert(!none.contains(MARKER));
        assert forall|i: int| 0 <= i < cmds.len() && i % 2 == 0 implies (
        #[trigger] cmds[i] matches Cmd::JustText(s) && !s.contains(MARKER)) by {
            if i >= 2 {
                assert(cmds[i] == rest[i - 2]);
            }
        }
        assert forall|i: int| 0 <= i < cmds.len() && i % 2 == 1 implies #[trigger] cmds[i]
            is NextByte by {
            if i >= 2 {
                assert(cmds[i] == rest[i - 2]);
            }
        }
    }
}

/// One pass over the directives of `fmts` from the `done`-th on, begun at a
/// multiple `from` of their number, gives the tokens up to the end of the
/// pass or of the input.
proof fn lemma_pass_tokens(fmts: Seq<ByteFmt>, input: Seq<u8>, from: int, done: int)
    requires
        fmts.len() > 0,
        0 <= from,
        from % (fmts.len() as int) == 0,
        0 <= done <= fmts.len(),
        from + done <= input.len(),
    ensures
        tokens(fmts, input, from + done) == pass_text(
            bare_directives(fmts.skip(done)),
            input.skip(from + done),
        ) + (if input.len() >= from + fmts.len() {
            tokens(fmts, input, from + fmts.len())
        } else {
            Seq::empty()
        }),
    decreases fmts.len() - done,
{
    let k = fmts.len() as int;
    let left_fmts = fmts.skip(done);
    let cmds = bare_directives(left_fmts);
    let left = input.skip(from + done);
    let none = Seq::<char>::empty();
    let beyond = if input.len() >= from + k {
        tokens(fmts, input, from + k)
    } else {
        Seq::empty()
    };
    if done == k {
        assert(left_fmts =~= Seq::<ByteFmt>::empty());
        assert(cmds.drop_first() =~= Seq::<Cmd>::empty());
        assert(pass_text(cmds.drop_first(), left) =~= none);
        assert(pass_text(cmds, left) =~= none);
        assert(none + beyond =~= beyond);
    } else {
        let fmt = fmts[done];
        let rest = bare_directives(left_fmts.drop_first());
        let after_text = cmds.drop_first();
        assert(left_fmts[0] == fmt);
        assert(left_fmts.drop_first() =~= fmts.skip(done + 1));
        assert(after_text.drop_first() =~= rest);
        assert(after_text[0] == Cmd::NextByte(fmt));
        assert(pass_text(cmds, left) =~= pass_text(after_text, left));
        if from + done == input.len() {
            assert(left.len() == 0);
            assert(pass_text(after_text, left) =~= none);
            assert(none + beyond =~= beyond);
        } else {
            assert((from + done) % k == done) by {
                lemma_small_mod(done as nat, k as nat);
                lemma_add_mod_noop(from, done, k);
            }
            assert(left[0] == input[from + done]);
            assert(left.drop_first() =~= input.skip(from + done + 1));
            lemma_pass_tokens(fmts, input, from, done + 1);
            let digits = byte_text(input[from + done], fmt);
            let more = pass_text(rest, left.drop_first());
            assert(pass_text(after_text, left) == digits + more);
            assert((digits + more) + beyond =~= digits + (more + beyond));
        }
    }
}

/// The dump of what is left of the input after whole passes gives the tokens
/// that are left.
proof fn lemma_dump_tokens(fmts: Seq<ByteFmt>, input: Seq<u8>, from: int)
    requires
        fmts.len() > 0,
        0 <= from <= input.len(),
        from % (fmts.len() as int) == 0,
    ensures
        dump_text(bare_directives(fmts), input.skip(from)) == tokens(fmts, input, from),
    decreases input.len() - from,
{
    let k = fmts.len() as int;
    let cmds = bare_directives(fmts);
    let left = input.skip(from);
    lemma_bare_directives(fmts);
    lemma_pass_tokens(fmts, input, from, 0);
    assert(fmts.skip(0) =~= fmts);
    if left.len() >= k {
        assert(left.skip(k) =~= input.skip(from + k));
        assert((from + k) % k == 0) by {
            lemma_mod_add_multiples_vanish(from, k);
        }
        lemma_dump_tokens(fmts, input, from + k);
    } else {
        assert(pass_text(cmds, left) + Seq::<char>::empty() =~= pass_text(cmds, left));
    }
}

/// A format string made of one or more directives and nothing else compiles,
/// and its dump is one token for each input byte, in the order of the input
/// and with nothing between them; every byte is consumed.
pub proof fn lemma_directives_only(fmts: Seq<ByteFmt>, input: Seq<u8>)
    requires
        fmts.len() > 0,
    ensures
        parse(directives_template(fmts)) == Ok::<Seq<Cmd>, CompileError>(bare_directives(fmts)),
        dump_text(bare_directives(fmts), input) == tokens(fmts, input, 0),
        dump_consumed(bare_directives(fmts), input) == input.len(),
{
    lemma_bare_directives(fmts);
    lemma_parse_complete(bare_directives(fmts));
    assert(0int % (fmts.len() as int) == 0) by {
        lemma_small_mod(0, fmts.len());
    }
    lemma_dump_tokens(fmts, input, 0);
    assert(input.skip(0) =~= input);
}

} // verus!
