//! Integers and lists written out as text.

use vstd::prelude::*;
use vstd::string::StringExecFns;

verus! {

/// The character for the decimal digit `d`.
pub open spec fn digit(d: int) -> char {
    if d == 0 {
        '0'
    } else if d == 1 {
        '1'
    } else if d == 2 {
        '2'
    } else if d == 3 {
        '3'
    } else if d == 4 {
        '4'
    } else if d == 5 {
        '5'
    } else if d == 6 {
        '6'
    } else if d == 7 {
        '7'
    } else if d == 8 {
        '8'
    } else {
        '9'
    }
}

/// The decimal digits of `n`, most significant first, without leading zeros.
pub open spec fn decimal(n: nat) -> Seq<char>
    decreases n,
{
    if n < 10 {
        seq![digit(n as int)]
    } else {
        decimal(n / 10).push(digit((n % 10) as int))
    }
}

/// The decimal form of `i`, with a minus sign before a negative number.
pub open spec fn signed_decimal(i: int) -> Seq<char> {
    if i < 0 {
        seq!['-'] + decimal((-i) as nat)
    } else {
        decimal(i as nat)
    }
}

/// `parts` written one after the other with `separator` between each two.
pub open spec fn joined(parts: Seq<Seq<char>>, separator: Seq<char>) -> Seq<char>
    decreases parts.len(),
{
    if parts.len() == 0 {
        Seq::empty()
    } else if parts.len() == 1 {
        parts[0]
    } else {
        joined(parts.drop_last(), separator) + separator + parts.last()
    }
}

/// `count` copies of `c`.
pub open spec fn repeated(c: char, count: nat) -> Seq<char> {
    Seq::new(count, |i: int| c)
}

/// Appends the digit `d`.
fn push_digit(text: &mut String, d: u8)
    requires
        d < 10,
    ensures
        final(text)@ == old(text)@.push(digit(d as int)),
{
    proof {
        reveal_strlit("0");
        reveal_strlit("1");
        reveal_strlit("2");
        reveal_strlit("3");
        reveal_strlit("4");
        reveal_strlit("5");
        reveal_strlit("6");
        reveal_strlit("7");
        reveal_strlit("8");
        reveal_strlit("9");
    }
    let ghost before = text@;
    let glyph = match d {
        0 => "0",
        1 => "1",
        2 => "2",
        3 => "3",
        4 => "4",
        5 => "5",
        6 => "6",
        7 => "7",
        8 => "8",
        _ => "9",
    };
    assert(glyph@ =~= seq![digit(d as int)]);
    text.append(glyph);
    assert(text@ =~= before.push(digit(d as int)));
}

/// Appends the decimal digits of `n`.
fn push_decimal(text: &mut String, n: u128)
    ensures
        final(text)@ == old(text)@ + decimal(n as nat),
    decreases n,
{
    let ghost before = text@;
    if n >= 10 {
        push_decimal(text, n / 10);
    }
    push_digit(text, (n % 10) as u8);
    assert(text@ =~= before + decimal(n as nat));
}

/// Appends the decimal form of `i`.
pub(crate) fn push_signed_decimal(text: &mut String, i: i128)
    requires
        i > i128::MIN,
    ensures
        final(text)@ == old(text)@ + signed_decimal(i as int),
{
    let ghost before = text@;
    if i < 0 {
        proof {
            reveal_strlit("-");
        }
        text.append("-");
        push_decimal(text, (-i) as u128);
        assert(text@ =~= before + signed_decimal(i as int));
    } else {
        push_decimal(text, i as u128);
    }
}

/// Appends `count` tab characters.
pub(crate) fn push_tabs(text: &mut String, count: usize)
    ensures
        final(text)@ == old(text)@ + repeated('\t', count as nat),
{
    let ghost before = text@;
    let mut i: usize = 0;
    while i < count
        invariant
            i <= count,
            text@ == before + repeated('\t', i as nat),
        decreases count - i,
    {
        proof {
            reveal_strlit("\t");
        }
        text.append("\t");
        i = i + 1;
        assert(text@ =~= before + repeated('\t', i as nat));
    }
}

} // verus!
