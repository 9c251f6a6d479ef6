//! Characters and numerals: the classes of characters that the lexer tells
//! apart, the value of a digit string, and the decimal form of a number.

use vstd::prelude::*;

verus! {

/// Whether `c` is whitespace: a character with the Unicode property
/// `White_Space`.
pub open spec fn spec_is_space(c: char) -> bool {
    let u = c as u32;
    ||| 0x09 <= u <= 0x0D
    ||| u == 0x20
    ||| u == 0x85
    ||| u == 0xA0
    ||| u == 0x1680
    ||| 0x2000 <= u <= 0x200A
    ||| u == 0x2028
    ||| u == 0x2029
    ||| u == 0x202F
    ||| u == 0x205F
    ||| u == 0x3000
}

#[verifier::when_used_as_spec(spec_is_space)]
pub fn is_space(c: char) -> (b: bool)
    ensures
        b == is_space(c),
{
    let u = c as u32;
    (0x09 <= u && u <= 0x0D) || u == 0x20 || u == 0x85 || u == 0xA0 || u == 0x1680 || (0x2000 <= u
        && u <= 0x200A) || u == 0x2028 || u == 0x2029 || u == 0x202F || u == 0x205F || u == 0x3000
}

/// Whether `c` is one of the 52 ASCII letters.
pub open spec fn spec_is_letter(c: char) -> bool {
    ('a' <= c && c <= 'z') || ('A' <= c && c <= 'Z')
}

#[verifier::when_used_as_spec(spec_is_letter)]
pub fn is_letter(c: char) -> (b: bool)
    ensures
        b == is_letter(c),
{
    ('a' <= c && c <= 'z') || ('A' <= c && c <= 'Z')
}

/// The value of `c` as a digit in base `radix`: `0` to `9` count 0 to 9 and
/// the letters, in either case, count from 10 on. `None` where `c` is no
/// digit in that base.
pub open spec fn spec_to_digit(c: char, radix: u32) -> Option<u32> {
    let d: int = if '0' <= c && c <= '9' {
        c as u32 - '0' as u32
    } else if 'a' <= c && c <= 'z' {
        c as u32 - 'a' as u32 + 10
    } else if 'A' <= c && c <= 'Z' {
        c as u32 - 'A' as u32 + 10
    } else {
        36
    };
    if d < radix {
        Some(d as u32)
    } else {
        None
    }
}

#[verifier::when_used_as_spec(spec_to_digit)]
pub fn to_digit(c: char, radix: u32) -> (d: Option<u32>)
    requires
        2 <= radix <= 36,
    ensures
        d == to_digit(c, radix),
{
    let d: u32 = if '0' <= c && c <= '9' {
        c as u32 - '0' as u32
    } else if 'a' <= c && c <= 'z' {
        c as u32 - 'a' as u32 + 10
    } else if 'A' <= c && c <= 'Z' {
        c as u32 - 'A' as u32 + 10
    } else {
        36
    };
    if d < radix {
        Some(d)
    } else {
        None
    }
}

/// Whether `c` is one of the ten decimal digits.
pub open spec fn is_digit(c: char) -> bool {
    '0' <= c && c <= '9'
}

/// The number that `digits` spells in base `radix`, most significant digit
/// first. A character that is no digit counts as 0.
pub open spec fn value_of(digits: Seq<char>, radix: u32) -> nat
    decreases digits.len(),
{
    if digits.len() == 0 {
        0
    } else {
        let d: nat = match to_digit(digits.last(), radix) {
            Some(d) => d as nat,
            None => 0,
        };
        value_of(digits.drop_last(), radix) * (radix as nat) + d
    }
}

/// The character for the digit `d`.
pub open spec fn digit_char(d: nat) -> char
    recommends
        d < 10,
{
    ('0' as u32 + d) as char
}

/// The decimal numeral of `n`, without leading zeros.
pub open spec fn decimal(n: nat) -> Seq<char>
    decreases n,
{
    if n < 10 {
        seq![digit_char(n)]
    } else {
        decimal(n / 10).push(digit_char(n % 10))
    }
}

/// Whether `digits` is a decimal numeral as [`decimal`] writes it: one or
/// more digits, of which the first is `0` only when it is the only one.
pub open spec fn is_numeral(digits: Seq<char>) -> bool {
    &&& digits.len() > 0
    &&& forall|i: int| 0 <= i < digits.len() ==> is_digit(#[trigger] digits[i])
    &&& digits.len() > 1 ==> digits[0] != '0'
}

/// A numeral of at least two digits is worth at least 10, and a single digit
/// its own value.
proof fn lemma_numeral_size(digits: Seq<char>)
    requires
        is_numeral(digits),
    ensures
        digits.len() > 1 ==> value_of(digits, 10) >= 10,
        digits.len() == 1 ==> value_of(digits, 10) == digits[0] as u32 - '0' as u32,
    decreases digits.len(),
{
    let init = digits.drop_last();
    if digits.len() == 1 {
        assert(value_of(init, 10) == 0);
    } else {
        assert(is_numeral(init));
        lemma_numeral_size(init);
        assert(init[0] == digits[0]);
        assert(value_of(init, 10) >= 1);
        assert(value_of(init, 10) * 10 >= 10) by (nonlinear_arith)
            requires
                value_of(init, 10) >= 1,
        ;
    }
}

/// Writing out the value of a numeral gives the numeral back.
pub proof fn lemma_decimal_of_value(digits: Seq<char>)
    requires
        is_numeral(digits),
    ensures
        decimal(value_of(digits, 10)) == digits,
    decreases digits.len(),
{
    let init = digits.drop_last();
    let last = digits.last();
    let d = (last as u32 - '0' as u32) as nat;
    assert(is_digit(last));
    assert(to_digit(last, 10) == Some(d as u32));
    assert(digit_char(d) == last);
    lemma_numeral_size(digits);
    if digits.len() == 1 {
        assert(digits =~= seq![last]);
    } else {
        assert(is_numeral(init));
        lemma_decimal_of_value(init);
        let v = value_of(init, 10);
        assert(value_of(digits, 10) == v * 10 + d);
        assert((v * 10 + d) / 10 == v && (v * 10 + d) % 10 == d) by (nonlinear_arith)
            requires
                d < 10,
        ;
        assert(digits =~= init.push(last));
    }
}

/// The exec form of [`digit_char`].
fn digit_to_char(d: u32) -> (c: char)
    requires
        d < 10,
    ensures
        c == digit_char(d as nat),
{
    (48u8 + d as u8) as char
}

/// [`String::push`]: afterwards the string is what it was, followed by `c`.
#[verifier::external_body]
pub(crate) fn push_char(s: &mut String, c: char)
    ensures
        final(s)@ == old(s)@.push(c),
{
    s.push(c)
}

/// The string that holds `c` alone.
pub fn char_to_string(c: char) -> (s: String)
    ensures
        s@ == seq![c],
{
    let mut s = String::new();
    push_char(&mut s, c);
    assert(s@ =~= seq![c]);
    s
}

/// Appends the decimal numeral of `n` to `s`.
pub fn push_decimal(s: &mut String, n: u32)
    ensures
        final(s)@ == old(s)@ + decimal(n as nat),
    decreases n,
{
    if n >= 10 {
        push_decimal(s, n / 10);
    }
    push_char(s, digit_to_char(n % 10));
    assert(s@ =~= old(s)@ + decimal(n as nat));
}

} // verus!
