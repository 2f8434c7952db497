//! Format strings and their compilation into commands.
//!
//! A format string is read as a sequence of Unicode scalar values. The
//! character `%` is the marker: it must be followed by one of the specifier
//! characters `b`, `d` or `h`, and the two together form a directive.
//! Everything else is literal text. Since the template is never cut inside a
//! character, a multi-byte character next to a marker is either literal text
//! or an invalid specifier, never a corrupted literal.

use vstd::prelude::*;
use vstd::std_specs::iter::IteratorSpec;
use vstd::string::StrSliceExecFns;
use crate::radix::ByteFmt;

verus! {

/// The character that introduces a directive.
pub const MARKER: char = '%';

/// One command of a compiled format string.
#[derive(Clone, Copy, Debug, PartialEq, Eq)]
pub enum FormatCmd<'s> {
    /// Consume the next input byte and render it.
    NextByte(ByteFmt),
    /// Emit a piece of the format string as it is.
    JustText(&'s str),
}

/// A command as a mathematical value: the view of a [`FormatCmd`].
pub ghost enum Cmd {
    NextByte(ByteFmt),
    JustText(Seq<char>),
}

impl<'s> View for FormatCmd<'s> {
    type V = Cmd;

    open spec fn view(&self) -> Cmd {
        match *self {
            FormatCmd::NextByte(fmt) => Cmd::NextByte(fmt),
            FormatCmd::JustText(text) => Cmd::JustText(text@),
        }
    }
}

/// The views of a sequence of commands.
pub open spec fn program(cmds: Seq<FormatCmd>) -> Seq<Cmd> {
    cmds.map_values(|cmd: FormatCmd| cmd@)
}

/// Why a format string was rejected.
#[derive(Clone, Copy, Debug, PartialEq, Eq)]
pub enum CompileError {
    /// A marker is followed by the given character, which is no specifier,
    /// or by nothing at all (`None`) because it ends the format string.
    InvalidSpecifier(Option<char>),
}

impl ByteFmt {
    /// The radix that a specifier character selects, if it is one.
    pub open spec fn of_specifier(c: char) -> Option<ByteFmt> {
        if c == 'b' {
            Some(ByteFmt::Bin)
        } else if c == 'd' {
            Some(ByteFmt::Dec)
        } else if c == 'h' {
            Some(ByteFmt::Hex)
        } else {
            None
        }
    }

    /// The specifier character of a radix.
    pub open spec fn specifier(self) -> char {
        match self {
            ByteFmt::Bin => 'b',
            ByteFmt::Dec => 'd',
            ByteFmt::Hex => 'h',
        }
    }

    /// Reads a specifier character.
    pub fn from_specifier(c: char) -> (r: Option<ByteFmt>)
        ensures
            r == ByteFmt::of_specifier(c),
    {
        if c == 'b' {
            Some(ByteFmt::Bin)
        } else if c == 'd' {
            Some(ByteFmt::Dec)
        } else if c == 'h' {
            Some(ByteFmt::Hex)
        } else {
            None
        }
    }
}

/// The length of the literal text that `t` starts with: the number of
/// characters before its first marker, or all of them if it has none.
pub open spec fn literal_len(t: Seq<char>) -> nat
    decreases t.len(),
{
    if t.len() == 0 || t[0] == MARKER {
        0
    } else {
        1 + literal_len(t.drop_first())
    }
}

/// Puts the commands `done` before a result for the rest of a template.
pub open spec fn prepend(done: Seq<Cmd>, rest: Result<Seq<Cmd>, CompileError>) -> Result<
    Seq<Cmd>,
    CompileError,
> {
    match rest {
        Ok(cmds) => Ok(done + cmds),
        Err(e) => Err(e),
    }
}

/// What a template compiles to.
///
/// The text before the first marker is one literal, empty or not. If there is
/// no marker, that literal is the whole result. Otherwise the character after
/// the marker selects the directive, and the rest of the template follows in
/// the same way; a marker without a valid specifier rejects the template.
pub open spec fn parse(t: Seq<char>) -> Result<Seq<Cmd>, CompileError>
    decreases t.len(),
{
    let n = literal_len(t) as int;
    let text = Cmd::JustText(t.take(n));
    if n >= t.len() {
        Ok(seq![text])
    } else if n + 1 == t.len() {
        Err(CompileError::InvalidSpecifier(None))
    } else {
        match ByteFmt::of_specifier(t[n + 1]) {
            None => Err(CompileError::InvalidSpecifier(Some(t[n + 1]))),
            Some(fmt) => prepend(seq![text, Cmd::NextByte(fmt)], parse(t.skip(n + 2))),
        }
    }
}

/// The result of a compilation as a mathematical value.
pub open spec fn compiled(r: Result<Vec<FormatCmd>, CompileError>) -> Result<
    Seq<Cmd>,
    CompileError,
> {
    match r {
        Ok(cmds) => Ok(program(cmds@)),
        Err(e) => Err(e),
    }
}

/// `literal_len` is the position of the first marker.
pub proof fn lemma_literal_len(t: Seq<char>)
    ensures
        literal_len(t) <= t.len(),
        forall|j: int| 0 <= j < literal_len(t) ==> t[j] != MARKER,
        literal_len(t) < t.len() ==> t[literal_len(t) as int] == MARKER,
    decreases t.len(),
{
    if t.len() != 0 && t[0] != MARKER {
        let rest = t.drop_first();
        lemma_literal_len(rest);
        assert forall|j: int| 0 <= j < literal_len(t) implies t[j] != MARKER by {
            if j > 0 {
                assert(t[j] == rest[j - 1]);
            }
        }
        assert(literal_len(rest) < rest.len() ==> rest[literal_len(rest) as int]
            == t[literal_len(t) as int]);
    }
}

/// A marker-free prefix of length `n` that ends the template or is followed
/// by a marker is the leading literal.
pub proof fn lemma_literal_len_is(t: Seq<char>, n: int)
    requires
        0 <= n <= t.len(),
        forall|j: int| 0 <= j < n ==> t[j] != MARKER,
        n < t.len() ==> t[n] == MARKER,
    ensures
        literal_len(t) == n,
{
    lemma_literal_len(t);
    let m = literal_len(t) as int;
    if m < n {
        assert(t[m] == MARKER);
    } else if n < m {
        assert(t[n] == MARKER);
    }
}

/// `parse` of the template from `start` on, where the next marker, or the
/// end of the template if none is left, is known to be at `pos`.
spec fn parse_at(t: Seq<char>, start: int, pos: int) -> Result<Seq<Cmd>, CompileError> {
    let text = Cmd::JustText(t.subrange(start, pos));
    if pos >= t.len() {
        Ok(seq![text])
    } else if pos + 1 == t.len() {
        Err(CompileError::InvalidSpecifier(None))
    } else {
        match ByteFmt::of_specifier(t[pos + 1]) {
            None => Err(CompileError::InvalidSpecifier(Some(t[pos + 1]))),
            Some(fmt) => prepend(seq![text, Cmd::NextByte(fmt)], parse(t.skip(pos + 2))),
        }
    }
}

/// Once the literal that begins at `start` is known to end at `pos`, what
/// the template compiles to from `start` on is `parse_at`.
proof fn lemma_parse_at(t: Seq<char>, start: int, pos: int)
    requires
        0 <= start <= pos <= t.len(),
        forall|j: int| start <= j < pos ==> t[j] != MARKER,
        pos < t.len() ==> t[pos] == MARKER,
    ensures
        parse(t.skip(start)) == parse_at(t, start, pos),
{
    let tail = t.skip(start);
    let n = pos - start;
    lemma_literal_len_is(tail, n);
    assert(tail.take(n) =~= t.subrange(start, pos));
    if pos + 1 < t.len() {
        assert(tail[n + 1] == t[pos + 1]);
        assert(tail.skip(n + 2) =~= t.skip(pos + 2));
    }
}

/// Commands put before a result one group after the other are put before it
/// together.
proof fn lemma_prepend_twice(
    first: Seq<Cmd>,
    second: Seq<Cmd>,
    rest: Result<Seq<Cmd>, CompileError>,
)
    ensures
        prepend(first, prepend(second, rest)) == prepend(first + second, rest),
{
    if let Ok(cmds) = rest {
        assert(first + (second + cmds) =~= (first + second) + cmds);
    }
}

/// Compiles a format string into its commands.
///
/// The result is `parse` of the text: either the commands, in order, or the
/// first marker's missing or invalid specifier.
pub fn parse_fmt<'s>(fmt_string: &'s str) -> (r: Result<Vec<FormatCmd<'s>>, CompileError>)
    ensures
        compiled(r) == parse(fmt_string@),
{
    let ghost t = fmt_string@;
    let len = fmt_string.unicode_len();
    let mut cmds: Vec<FormatCmd<'s>> = Vec::new();
    let mut chars = fmt_string.chars();
    let mut pos: usize = 0;
    let mut text_start: usize = 0;
    proof {
        assert(t.skip(0) =~= t);
        if let Ok(all) = parse(t) {
            assert(program(cmds@) + all =~= all);
        }
    }
    loop
        invariant
            t == fmt_string@,
            len == t.len(),
            text_start <= pos <= len,
            chars.remaining() == t.skip(pos as int),
            forall|j: int| text_start <= j < pos ==> t[j] != MARKER,
            parse(t) == prepend(program(cmds@), parse(t.skip(text_start as int))),
        decreases len - pos,
    {
        let ghost done = program(cmds@);
        match chars.next() {
            None => {
                let text = fmt_string.substring_char(text_start, pos);
                cmds.push(FormatCmd::JustText(text));
                proof {
                    lemma_parse_at(t, text_start as int, pos as int);
                    assert(program(cmds@) =~= done + seq![Cmd::JustText(text@)]);
                }
                return Ok(cmds);
            },
            Some(c) => {
                if c != MARKER {
                    pos = pos + 1;
                } else {
                    proof {
                        lemma_parse_at(t, text_start as int, pos as int);
                    }
                    let fmt = match chars.next() {
                        None => {
                            return Err(CompileError::InvalidSpecifier(None));
                        },
                        Some(spec) => match ByteFmt::from_specifier(spec) {
                            None => {
                                return Err(CompileError::InvalidSpecifier(Some(spec)));
                            },
                            Some(fmt) => fmt,
                        },
                    };
                    let text = fmt_string.substring_char(text_start, pos);
                    cmds.push(FormatCmd::JustText(text));
                    cmds.push(FormatCmd::NextByte(fmt));
                    proof {
                        let pair = seq![Cmd::JustText(text@), Cmd::NextByte(fmt)];
                        assert(program(cmds@) =~= done + pair);
                        lemma_prepend_twice(done, pair, parse(t.skip(pos + 2)));
                    }
                    pos = pos + 2;
                    text_start = pos;
                }
            },
        }
    }
}

} // verus!
