//! What compilation accepts and what it produces, stated without reference
//! to the order in which a template is scanned.

use vstd::prelude::*;
use crate::format::{
    lemma_literal_len, lemma_literal_len_is, literal_len, parse, Cmd, CompileError, MARKER,
};
use crate::radix::ByteFmt;

verus! {

/// The template text of one command.
pub open spec fn cmd_template(cmd: Cmd) -> Seq<char> {
    match cmd {
        Cmd::JustText(text) => text,
        Cmd::NextByte(fmt) => seq![MARKER, fmt.specifier()],
    }
}

/// The template that a sequence of commands is written as.
pub open spec fn template_of(cmds: Seq<Cmd>) -> Seq<char>
    decreases cmds.len(),
{
    if cmds.len() == 0 {
        Seq::empty()
    } else {
        cmd_template(cmds[0]) + template_of(cmds.drop_first())
    }
}

/// The shape of every compiled template: literals and directives alternate,
/// with a literal at both ends, and no literal holds a marker.
pub open spec fn well_formed(cmds: Seq<Cmd>) -> bool {
    &&& cmds.len() % 2 == 1
    &&& forall|i: int|
        0 <= i < cmds.len() && i % 2 == 0 ==> (#[trigger] cmds[i] matches Cmd::JustText(text)
            && !text.contains(MARKER))
    &&& forall|i: int| 0 <= i < cmds.len() && i % 2 == 1 ==> #[trigger] cmds[i] is NextByte
}

/// The character after position `i` of `t`, if there is one.
pub open spec fn char_after(t: Seq<char>, i: int) -> Option<char> {
    if 0 <= i + 1 < t.len() {
        Some(t[i + 1])
    } else {
        None
    }
}

/// Position `i` of `t` holds a marker that no valid specifier follows.
pub open spec fn bad_marker(t: Seq<char>, i: int) -> bool {
    &&& 0 <= i < t.len()
    &&& t[i] == MARKER
    &&& (char_after(t, i) matches Some(c) ==> ByteFmt::of_specifier(c) is None)
}

/// A template compiles to commands of the alternating shape, and writing those
/// commands out again gives the template back.
pub proof fn lemma_parse_sound(t: Seq<char>)
    requires
        parse(t) is Ok,
    ensures
        well_formed(parse(t)->Ok_0),
        template_of(parse(t)->Ok_0) == t,
    decreases t.len(),
{
    lemma_literal_len(t);
    let n = literal_len(t) as int;
    let text = t.take(n);
    let cmds = parse(t)->Ok_0;
    assert(!text.contains(MARKER));
    if n >= t.len() {
        assert(cmds == seq![Cmd::JustText(text)]);
        assert(template_of(cmds.drop_first()) =~= Seq::<char>::empty());
        assert(template_of(cmds) =~= t);
    } else {
        let fmt = ByteFmt::of_specifier(t[n + 1])->Some_0;
        let rest_t = t.skip(n + 2);
        let rest = parse(rest_t)->Ok_0;
        lemma_parse_sound(rest_t);
        let head = seq![Cmd::JustText(text), Cmd::NextByte(fmt)];
        assert(cmds == head + rest);
        assert forall|i: int| 0 <= i < cmds.len() && i % 2 == 0 implies (
        #[trigger] cmds[i] matches Cmd::JustText(s) && !s.contains(MARKER)) by {
            if i >= 2 {
                assert(cmds[i] == rest[i - 2]);
            }
        }
        assert forall|i: int| 0 <= i < cmds.len() && i % 2 == 1 implies #[trigger] cmds[i]
            is NextByte by {
            if i >= 2 {
                assert(cmds[i] == rest[i - 2]);
            }
        }
        let after_text = cmds.drop_first();
        assert(after_text.drop_first() =~= rest);
        assert(template_of(after_text) == seq![MARKER, fmt.specifier()] + template_of(rest));
        assert(template_of(cmds) =~= t);
    }
}

/// Commands of the alternating shape are what their own template compiles to:
/// together with `lemma_parse_sound`, compilation and writing out are inverse
/// to each other.
pub proof fn lemma_parse_complete(cmds: Seq<Cmd>)
    requires
        well_formed(cmds),
    ensures
        parse(template_of(cmds)) == Ok::<Seq<Cmd>, CompileError>(cmds),
    decreases cmds.len(),
{
    let t = template_of(cmds);
    let text = cmds[0]->JustText_0;
    let after_text = cmds.drop_first();
    assert(t == text + template_of(after_text));
    if cmds.len() == 1 {
        assert(after_text =~= Seq::<Cmd>::empty());
        assert(t =~= text);
        assert forall|j: int| 0 <= j < t.len() implies t[j] != MARKER by {
            if t[j] == MARKER {
                assert(text.contains(MARKER));
            }
        }
        lemma_literal_len_is(t, t.len() as int);
        assert(t.take(t.len() as int) =~= text);
        assert(seq![cmds[0]] =~= cmds);
    } else {
        let fmt = cmds[1]->NextByte_0;
        let rest = after_text.drop_first();
        assert(after_text[0] == cmds[1]);
        assert(rest =~= cmds.skip(2));
        assert(well_formed(rest)) by {
            assert forall|i: int| 0 <= i < rest.len() implies rest[i] == cmds[i + 2] by {}
            assert forall|i: int| 0 <= i < rest.len() && i % 2 == 0 implies (
            #[trigger] rest[i] matches Cmd::JustText(s) && !s.contains(MARKER)) by {
                assert(rest[i] == cmds[i + 2]);
            }
            assert forall|i: int| 0 <= i < rest.len() && i % 2 == 1 implies #[trigger] rest[i]
                is NextByte by {
                assert(rest[i] == cmds[i + 2]);
            }
        }
        lemma_parse_complete(rest);
        let rest_t = template_of(rest);
        assert(t =~= text + seq![MARKER, fmt.specifier()] + rest_t);
        let n = text.len() as int;
        assert forall|j: int| 0 <= j < n implies t[j] != MARKER by {
            if t[j] == MARKER {
                assert(text[j] == MARKER);
                assert(text.contains(MARKER));
            }
        }
        assert(t[n] == MARKER);
        lemma_literal_len_is(t, n);
        assert(t.take(n) =~= text);
        assert(t[n + 1] == fmt.specifier());
        assert(ByteFmt::of_specifier(fmt.specifier()) == Some(fmt));
        assert(t.skip(n + 2) =~= rest_t);
        assert(seq![cmds[0], cmds[1]] + rest =~= cmds);
    }
}

/// A template in which every marker has a valid specifier is accepted.
pub proof fn lemma_parse_accepts(t: Seq<char>)
    requires
        forall|i: int| !bad_marker(t, i),
    ensures
        parse(t) is Ok,
    decreases t.len(),
{
    lemma_literal_len(t);
    let n = literal_len(t) as int;
    if n < t.len() {
        assert(!bad_marker(t, n));
        let rest_t = t.skip(n + 2);
        assert forall|i: int| !bad_marker(rest_t, i) by {
            if 0 <= i < rest_t.len() {
                assert(!bad_marker(t, i + n + 2));
            }
        }
        lemma_parse_accepts(rest_t);
    }
}

/// A template is rejected at its first marker without a valid specifier, and
/// the error names what follows that marker.
pub proof fn lemma_parse_rejects(t: Seq<char>, i: int)
    requires
        bad_marker(t, i),
        forall|j: int| 0 <= j < i ==> !bad_marker(t, j),
    ensures
        parse(t) == Err::<Seq<Cmd>, CompileError>(
            CompileError::InvalidSpecifier(char_after(t, i)),
        ),
    decreases t.len(),
{
    lemma_literal_len(t);
    let n = literal_len(t) as int;
    if n < i {
        assert(!bad_marker(t, n));
        assert(t[n + 1] != MARKER);
        let rest_t = t.skip(n + 2);
        let k = i - (n + 2);
        assert(bad_marker(rest_t, k));
        assert forall|j: int| 0 <= j < k implies !bad_marker(rest_t, j) by {
            assert(!bad_marker(t, j + n + 2));
        }
        assert(char_after(rest_t, k) == char_after(t, i));
        lemma_parse_rejects(rest_t, k);
    }
}

} // verus!
