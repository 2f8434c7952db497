//! Rendering one byte as text in a chosen radix.

use vstd::prelude::*;
use vstd::string::StringExecFns;

verus! {

/// The radix in which a directive renders the byte it consumes.
#[derive(Clone, Copy, Debug, PartialEq, Eq, Structural)]
pub enum ByteFmt {
    /// Base 2.
    Bin,
    /// Base 10.
    Dec,
    /// Base 16, lowercase.
    Hex,
}

impl ByteFmt {
    /// The numeric base.
    pub open spec fn radix(self) -> nat {
        match self {
            ByteFmt::Bin => 2,
            ByteFmt::Dec => 10,
            ByteFmt::Hex => 16,
        }
    }

    /// The numeric base, as a machine integer.
    pub fn base(self) -> (r: u8)
        ensures
            r as nat == self.radix(),
    {
        match self {
            ByteFmt::Bin => 2,
            ByteFmt::Dec => 10,
            ByteFmt::Hex => 16,
        }
    }
}

/// The digit characters, indexed by their value.
pub open spec fn digit_chars() -> Seq<char> {
    seq!['0', '1', '2', '3', '4', '5', '6', '7', '8', '9', 'a', 'b', 'c', 'd', 'e', 'f']
}

/// The character that stands for the digit value `d` (below 16).
pub open spec fn digit_char(d: nat) -> char
    recommends
        d < 16,
{
    digit_chars()[d as int]
}

/// Positional notation of `n` in base `radix`, most significant digit first,
/// in as few digits as possible; zero is the single digit `0`.
pub open spec fn digits(n: nat, radix: nat) -> Seq<char>
    recommends
        2 <= radix <= 16,
    decreases n,
    via digits_terminates
{
    if radix < 2 || n < radix {
        seq![digit_char(n)]
    } else {
        digits(n / radix, radix).push(digit_char(n % radix))
    }
}

#[via_fn]
proof fn digits_terminates(n: nat, radix: nat) {
    if 2 <= radix <= n {
        lemma_quotient_smaller(n, radix);
    }
}

/// Dividing a positive number by a radix of at least 2 makes it smaller,
/// and leaves a remainder below the radix.
proof fn lemma_quotient_smaller(n: nat, radix: nat)
    requires
        2 <= radix,
        0 < n,
    ensures
        n / radix < n,
        n % radix < radix,
        n == radix * (n / radix) + n % radix,
{
    assert(n / radix < n && n % radix < radix && n == radix * (n / radix) + n % radix)
        by (nonlinear_arith)
        requires
            2 <= radix,
            0 < n,
    ;
}

/// The text of byte `b` under `fmt`.
pub open spec fn byte_text(b: u8, fmt: ByteFmt) -> Seq<char> {
    digits(b as nat, fmt.radix())
}

/// The value of a digit character; 16 for any other character.
pub open spec fn digit_value(c: char) -> nat {
    if digit_chars().contains(c) {
        digit_chars().index_of(c) as nat
    } else {
        16
    }
}

/// The number that a digit string denotes in base `radix`.
pub open spec fn number(text: Seq<char>, radix: nat) -> nat
    decreases text.len(),
{
    if text.len() == 0 {
        0
    } else {
        number(text.drop_last(), radix) * radix + digit_value(text.last())
    }
}

/// Every digit value has its own character.
pub proof fn lemma_digit_value(d: nat)
    requires
        d < 16,
    ensures
        digit_value(digit_char(d)) == d,
        d != 0 ==> digit_char(d) != '0',
{
    let table = digit_chars();
    let c = digit_char(d);
    assert(table[d as int] == c);
    assert(table.contains(c));
    let i = table.index_of(c);
    assert(0 <= i < 16 && table[i] == c);
    assert(forall|a: int, b: int| 0 <= a < b < 16 ==> table[a] != table[b]);
    assert('0' == table[0]);
}

/// The digits of a number denote that number, and each is a digit of the
/// radix.
pub proof fn lemma_digits_denote(n: nat, radix: nat)
    requires
        2 <= radix <= 16,
    ensures
        number(digits(n, radix), radix) == n,
        forall|i: int|
            0 <= i < digits(n, radix).len() ==> digit_value(#[trigger] digits(n, radix)[i])
                < radix,
    decreases n,
{
    let text = digits(n, radix);
    if n < radix {
        lemma_digit_value(n);
        assert(text.drop_last() =~= Seq::<char>::empty());
        assert(number(text.drop_last(), radix) * radix == 0) by (nonlinear_arith)
            requires
                number(text.drop_last(), radix) == 0,
        ;
    } else {
        lemma_quotient_smaller(n, radix);
        lemma_digits_denote(n / radix, radix);
        lemma_digit_value(n % radix);
        let high = digits(n / radix, radix);
        assert(text.drop_last() =~= high);
        assert((n / radix) * radix + n % radix == n) by (nonlinear_arith)
            requires
                n == radix * (n / radix) + n % radix,
        ;
        assert forall|i: int| 0 <= i < text.len() implies digit_value(#[trigger] text[i])
            < radix by {
            if i < high.len() {
                assert(text[i] == high[i]);
            }
        }
    }
}

/// The digits of a number are as few as can be: there is at least one, and
/// the first is `0` only for zero, whose digits are the single `0`.
pub proof fn lemma_digits_shortest(n: nat, radix: nat)
    requires
        2 <= radix <= 16,
    ensures
        digits(n, radix).len() >= 1,
        n == 0 ==> digits(n, radix) == seq!['0'],
        n != 0 ==> digits(n, radix)[0] != '0',
    decreases n,
{
    if n < radix {
        lemma_digit_value(n);
    } else {
        lemma_quotient_smaller(n, radix);
        lemma_digits_shortest(n / radix, radix);
        assert(n / radix != 0) by (nonlinear_arith)
            requires
                2 <= radix <= n,
        ;
    }
}

/// The one-character string of a digit value.
fn digit_str(d: u8) -> (s: &'static str)
    requires
        d < 16,
    ensures
        s@ == seq![digit_char(d as nat)],
{
    proof {
        reveal_strlit("0");
        reveal_strlit("1");
        reveal_strlit("2");
        reveal_strlit("3");
        reveal_strlit("4");
        reveal_strlit("5");
        reveal_strlit("6");
        reveal_strlit("7");
        reveal_strlit("8");
        reveal_strlit("9");
        reveal_strlit("a");
        reveal_strlit("b");
        reveal_strlit("c");
        reveal_strlit("d");
        reveal_strlit("e");
        reveal_strlit("f");
    }
    let s = match d {
        0 => "0",
        1 => "1",
        2 => "2",
        3 => "3",
        4 => "4",
        5 => "5",
        6 => "6",
        7 => "7",
        8 => "8",
        9 => "9",
        10 => "a",
        11 => "b",
        12 => "c",
        13 => "d",
        14 => "e",
        _ => "f",
    };
    assert(s@ =~= seq![digit_char(d as nat)]);
    s
}

/// Appends the digits of `n` in base `radix` to `out`.
fn push_digits(out: &mut String, n: u8, radix: u8)
    requires
        2 <= radix <= 16,
    ensures
        final(out)@ == old(out)@ + digits(n as nat, radix as nat),
    decreases n,
{
    if n >= radix {
        proof {
            lemma_quotient_smaller(n as nat, radix as nat);
        }
        push_digits(out, n / radix, radix);
        out.append(digit_str(n % radix));
        proof {
            let ghost high = digits((n / radix) as nat, radix as nat);
            let ghost low = seq![digit_char((n % radix) as nat)];
            assert(digits(n as nat, radix as nat) =~= high + low);
            assert(out@ =~= old(out)@ + (high + low));
        }
    } else {
        out.append(digit_str(n));
    }
}

/// Renders one byte as text: no prefix, no padding, lowercase digits.
pub fn format_byte(b: u8, fmt: ByteFmt) -> (text: String)
    ensures
        text@ == byte_text(b, fmt),
{
    let mut text = String::new();
    push_digits(&mut text, b, fmt.base());
    text
}

} // verus!
