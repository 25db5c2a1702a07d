//! Reading ratios and index lists from text: ratios as `N/D`, index lists as
//! integers with commas between them.

use crate::math::lowest_terms;
use crate::ratio::Ratio;
use vstd::prelude::*;
use vstd::string::StrSliceExecFns;

verus! {

/// `c` is one of the ten decimal digits.
pub open spec fn is_digit(c: char) -> bool {
    '0' as int <= c as int <= '9' as int
}

/// Every character of `s` is a decimal digit.
pub open spec fn all_digits(s: Seq<char>) -> bool {
    forall|i: int| 0 <= i < s.len() ==> is_digit(#[trigger] s[i])
}

/// The number that a string of decimal digits stands for.
pub open spec fn digits_value(s: Seq<char>) -> int
    decreases s.len(),
{
    if s.len() == 0 {
        0
    } else {
        10 * digits_value(s.drop_last()) + (s.last() as int - '0' as int)
    }
}

/// `s` begins with a sign, `+` or `-`.
pub open spec fn has_sign(s: Seq<char>) -> bool {
    s.len() > 0 && (s[0] == '-' || s[0] == '+')
}

/// The digits of `s`: all of it but a leading sign.
pub open spec fn numeral_digits(s: Seq<char>) -> Seq<char> {
    if has_sign(s) {
        s.subrange(1, s.len() as int)
    } else {
        s
    }
}

/// `s` is a decimal numeral: an optional sign followed by one digit or more,
/// and nothing else.
pub open spec fn is_numeral(s: Seq<char>) -> bool {
    numeral_digits(s).len() > 0 && all_digits(numeral_digits(s))
}

/// The integer that the numeral `s` stands for.
pub open spec fn numeral_value(s: Seq<char>) -> int {
    if has_sign(s) && s[0] == '-' {
        -digits_value(numeral_digits(s))
    } else {
        digits_value(numeral_digits(s))
    }
}

/// What `s` reads as: the value of a numeral that fits an `i32`.
pub open spec fn parsed_integer(s: Seq<char>) -> Option<i32> {
    if is_numeral(s) && i32::MIN <= numeral_value(s) <= i32::MAX {
        Some(numeral_value(s) as i32)
    } else {
        None
    }
}

/// The pieces of `s` between the occurrences of `separator`, in order. There
/// is one piece more than there are separators; a piece may be empty.
pub open spec fn pieces(s: Seq<char>, separator: char) -> Seq<Seq<char>>
    decreases s.len(),
{
    if s.len() == 0 {
        seq![Seq::empty()]
    } else {
        let before = pieces(s.drop_last(), separator);
        if s.last() == separator {
            before.push(Seq::empty())
        } else {
            before.drop_last().push(before.last().push(s.last()))
        }
    }
}

/// What `s` reads as a list of indices: every piece between commas read as
/// an integer, if each of them is one.
pub open spec fn parsed_index(s: Seq<char>) -> Option<Seq<i32>> {
    let parts = pieces(s, ',');
    if forall|i: int| 0 <= i < parts.len() ==> parsed_integer(#[trigger] parts[i]) is Some {
        Some(Seq::new(parts.len(), |i: int| parsed_integer(parts[i]).unwrap()))
    } else {
        None
    }
}

/// What `s` reads as a ratio: the first two pieces between slashes read as
/// numerator and denominator, if there are two, both are integers and the
/// denominator is not zero. Further pieces are ignored.
pub open spec fn parsed_ratio(s: Seq<char>) -> Option<(int, int)> {
    let parts = pieces(s, '/');
    if parts.len() >= 2 && parsed_integer(parts[0]) is Some && parsed_integer(parts[1]) is Some
        && parsed_integer(parts[1]).unwrap() != 0 {
        Some(
            lowest_terms(
                parsed_integer(parts[0]).unwrap() as int,
                parsed_integer(parts[1]).unwrap() as int,
            ),
        )
    } else {
        None
    }
}

/// There is always at least one piece.
pub proof fn lemma_pieces_nonempty(s: Seq<char>, separator: char)
    ensures
        pieces(s, separator).len() > 0,
    decreases s.len(),
{
    if s.len() > 0 {
        lemma_pieces_nonempty(s.drop_last(), separator);
    }
}

/// A string of digits is worth no less than any of its beginnings.
proof fn lemma_digits_value_grows(s: Seq<char>, k: int)
    requires
        all_digits(s),
        0 <= k <= s.len(),
    ensures
        0 <= digits_value(s.take(k)) <= digits_value(s),
    decreases s.len() - k,
{
    if k == s.len() {
        assert(s.take(k) =~= s);
        lemma_digits_value_nonnegative(s);
    } else {
        lemma_digits_value_grows(s, k + 1);
        assert(s.take(k + 1).drop_last() =~= s.take(k));
        assert(is_digit(s[k]));
        assert(s.take(k + 1).last() == s[k]);
        lemma_digits_value_nonnegative(s.take(k));
    }
}

/// A string of digits is worth zero or more.
proof fn lemma_digits_value_nonnegative(s: Seq<char>)
    requires
        all_digits(s),
    ensures
        0 <= digits_value(s),
    decreases s.len(),
{
    if s.len() > 0 {
        assert(is_digit(s.last()));
        lemma_digits_value_nonnegative(s.drop_last());
    }
}

/// The characters of `s`.
fn chars_of(s: &str) -> (chars: Vec<char>)
    ensures
        chars@ == s@,
{
    let n = s.unicode_len();
    let mut chars: Vec<char> = Vec::new();
    let mut i: usize = 0;
    while i < n
        invariant
            i <= n,
            n == s@.len(),
            chars@ == s@.take(i as int),
        decreases n - i,
    {
        chars.push(s.get_char(i));
        i = i + 1;
        assert(chars@ =~= s@.take(i as int));
    }
    assert(s@.take(n as int) =~= s@);
    chars
}

/// The pieces of `text` between the occurrences of `separator`.
pub fn split(text: &[char], separator: char) -> (parts: Vec<Vec<char>>)
    ensures
        parts@.len() == pieces(text@, separator).len(),
        forall|i: int| 0 <= i < parts@.len() ==> (#[trigger] parts@[i])@ == pieces(
            text@,
            separator,
        )[i],
{
    let mut parts: Vec<Vec<char>> = Vec::new();
    let mut current: Vec<char> = Vec::new();
    let mut i: usize = 0;
    proof {
        assert(text@.take(0) =~= Seq::<char>::empty());
    }
    while i < text.len()
        invariant
            i <= text@.len(),
            parts@.len() + 1 == pieces(text@.take(i as int), separator).len(),
            forall|k: int|
                0 <= k < parts@.len() ==> (#[trigger] parts@[k])@ == pieces(
                    text@.take(i as int),
                    separator,
                )[k],
            current@ == pieces(text@.take(i as int), separator).last(),
        decreases text@.len() - i,
    {
        let c = text[i];
        proof {
            assert(text@.take(i + 1).drop_last() =~= text@.take(i as int));
            assert(text@.take(i + 1).last() == c);
        }
        if c == separator {
            parts.push(current);
            current = Vec::new();
        } else {
            current.push(c);
        }
        i = i + 1;
    }
    proof {
        assert(text@.take(text@.len() as int) =~= text@);
    }
    parts.push(current);
    parts
}

/// Reads `text` as a decimal integer: an optional sign, then digits only.
/// `None` where it is not such a numeral or its value is not an `i32`.
pub fn parse_integer(text: &[char]) -> (r: Option<i32>)
    ensures
        r == parsed_integer(text@),
{
    let n = text.len();
    if n == 0 {
        return None;
    }
    let negative = text[0] == '-';
    let start: usize = if text[0] == '-' || text[0] == '+' { 1 } else { 0 };
    if start == n {
        return None;
    }
    let ghost digits = numeral_digits(text@);
    assert(digits =~= text@.subrange(start as int, n as int));
    let mut magnitude: i64 = 0;
    let mut i: usize = start;
    proof {
        assert(digits.take(0) =~= Seq::<char>::empty());
    }
    while i < n
        invariant
            start <= i <= n,
            n == text@.len(),
            digits == text@.subrange(start as int, n as int),
            digits == numeral_digits(text@),
            digits.len() > 0,
            all_digits(digits.take(i - start)),
            magnitude == digits_value(digits.take(i - start)),
            0 <= magnitude <= 0x8000_0000,
        decreases n - i,
    {
        let c = text[i];
        proof {
            assert(digits[i - start] == c);
            assert(digits.take(i + 1 - start).drop_last() =~= digits.take(i - start));
            assert(digits.take(i + 1 - start).last() == c);
        }
        if c < '0' || c > '9' {
            assert(!is_digit(digits[i - start]));
            return None;
        }
        let d = (c as u32 - '0' as u32) as i64;
        magnitude = magnitude * 10 + d;
        proof {
            assert forall|k: int| 0 <= k < i + 1 - start implies is_digit(
                #[trigger] digits.take(i + 1 - start)[k],
            ) by {
                if k < i - start {
                    assert(digits.take(i - start)[k] == digits[k]);
                }
            }
        }
        if magnitude > 0x8000_0000 {
            proof {
                if all_digits(digits) {
                    lemma_digits_value_grows(digits, i + 1 - start);
                }
            }
            return None;
        }
        i = i + 1;
    }
    proof {
        assert(digits.take(n - start) =~= digits);
    }
    let value = if negative { -magnitude } else { magnitude };
    if value > i32::MAX as i64 {
        None
    } else {
        Some(value as i32)
    }
}

/// Reads `s` as a list of indices: integers with commas between them, each
/// with an optional sign. `None` where a piece between commas is not an
/// integer.
pub fn parse_index(s: &str) -> (r: Option<Vec<i32>>)
    ensures
        r is Some <==> parsed_index(s@) is Some,
        r matches Some(v) ==> v@ == parsed_index(s@).unwrap(),
{
    let chars = chars_of(s);
    let parts = split(chars.as_slice(), ',');
    let ghost wanted = pieces(s@, ',');
    let mut indices: Vec<i32> = Vec::new();
    let mut i: usize = 0;
    while i < parts.len()
        invariant
            i <= parts@.len(),
            wanted == pieces(s@, ','),
            parts@.len() == wanted.len(),
            forall|k: int| 0 <= k < parts@.len() ==> (#[trigger] parts@[k])@ == wanted[k],
            indices@.len() == i,
            forall|k: int| 0 <= k < i ==> parsed_integer(#[trigger] wanted[k]) == Some(indices@[k]),
        decreases parts@.len() - i,
    {
        match parse_integer(parts[i].as_slice()) {
            Some(index) => {
                indices.push(index);
            },
            None => {
                assert(parsed_integer(wanted[i as int]) is None);
                return None;
            },
        }
        i = i + 1;
    }
    assert(indices@ =~= parsed_index(s@).unwrap());
    Some(indices)
}

/// Reads every string of `indices` as a list of indices. `None` where one
/// of them is not such a list.
pub fn parse_indices(indices: Vec<String>) -> (r: Option<Vec<Vec<i32>>>)
    ensures
        r is Some <==> (forall|i: int|
            0 <= i < indices@.len() ==> parsed_index((#[trigger] indices@[i])@) is Some),
        r matches Some(lists) ==> lists@.len() == indices@.len() && forall|i: int|
            0 <= i < lists@.len() ==> parsed_index(indices@[i]@) == Some((#[trigger] lists@[i])@),
{
    let mut lists: Vec<Vec<i32>> = Vec::new();
    let mut i: usize = 0;
    while i < indices.len()
        invariant
            i <= indices@.len(),
            lists@.len() == i,
            forall|k: int| 0 <= k < i ==> parsed_index((#[trigger] indices@[k])@) is Some,
            forall|k: int|
                0 <= k < i ==> parsed_index(indices@[k]@) == Some((#[trigger] lists@[k])@),
        decreases indices@.len() - i,
    {
        match parse_index(indices[i].as_str()) {
            Some(list) => {
                lists.push(list);
            },
            None => {
                assert(parsed_index(indices@[i as int]@) is None);
                return None;
            },
        }
        i = i + 1;
    }
    Some(lists)
}

/// Reads `s` as a ratio `N/D` in lowest terms. `None` where there is no
/// slash, where numerator or denominator is not an integer, or where the
/// denominator is zero. What follows a second slash is ignored.
pub fn parse_ratio(s: &str) -> (r: Option<Ratio<i32>>)
    ensures
        r is Some <==> parsed_ratio(s@) is Some,
        r matches Some(ratio) ==> ratio@ == parsed_ratio(s@).unwrap() && ratio.is_reduced(),
{
    let chars = chars_of(s);
    let parts = split(chars.as_slice(), '/');
    if parts.len() < 2 {
        return None;
    }
    let numer = match parse_integer(parts[0].as_slice()) {
        Some(numer) => numer,
        None => {
            return None;
        },
    };
    let denom = match parse_integer(parts[1].as_slice()) {
        Some(denom) => denom,
        None => {
            return None;
        },
    };
    if denom == 0 {
        return None;
    }
    Some(Ratio::new(numer, denom))
}

/// Reads every string of `ratios` as a ratio. `None` where one of them is
/// not a ratio.
pub fn parse_ratios(ratios: Vec<String>) -> (r: Option<Vec<Ratio<i32>>>)
    ensures
        r is Some <==> (forall|i: int|
            0 <= i < ratios@.len() ==> parsed_ratio((#[trigger] ratios@[i])@) is Some),
        r matches Some(read) ==> read@.len() == ratios@.len() && forall|i: int|
            0 <= i < read@.len() ==> parsed_ratio(ratios@[i]@) == Some((#[trigger] read@[i])@),
{
    let mut read: Vec<Ratio<i32>> = Vec::new();
    let mut i: usize = 0;
    while i < ratios.len()
        invariant
            i <= ratios@.len(),
            read@.len() == i,
            forall|k: int| 0 <= k < i ==> parsed_ratio((#[trigger] ratios@[k])@) is Some,
            forall|k: int|
                0 <= k < i ==> parsed_ratio(ratios@[k]@) == Some((#[trigger] read@[k])@),
        decreases ratios@.len() - i,
    {
        match parse_ratio(ratios[i].as_str()) {
            Some(ratio) => {
                read.push(ratio);
            },
            None => {
                assert(parsed_ratio(ratios@[i as int]@) is None);
                return None;
            },
        }
        i = i + 1;
    }
    Some(read)
}

} // verus!
