//! Elapsed time in words.

use vstd::prelude::*;
use vstd::string::StringExecFns;

verus! {

/// `String::push` of std: the character is appended at the end.
pub assume_specification[ String::push ](text: &mut String, c: char)
    ensures
        final(text)@ == old(text)@.push(c),
;

/// The character of a decimal digit.
pub open spec fn digit(d: int) -> char {
    if d == 0 {
        '0'
    } else if d == 1 {
        '1'
    } else if d == 2 {
        '2'
    } else if d == 3 {
        '3'
    } else if d == 4 {
        '4'
    } else if d == 5 {
        '5'
    } else if d == 6 {
        '6'
    } else if d == 7 {
        '7'
    } else if d == 8 {
        '8'
    } else {
        '9'
    }
}

/// A number in decimal digits, without leading zeros.
pub open spec fn decimal(n: nat) -> Seq<char>
    decreases n,
{
    if n < 10 {
        seq![digit(n as int)]
    } else {
        decimal(n / 10).push(digit((n % 10) as int))
    }
}

/// A duration of `total_secs` seconds in whole minutes and remaining seconds.
pub open spec fn duration_text(total_secs: nat) -> Seq<char> {
    decimal(total_secs / 60) + "mins "@ + decimal(total_secs % 60) + "secs"@
}

/// The character of the decimal digit `d`.
pub fn digit_char(d: u64) -> (c: char)
    requires
        d < 10,
    ensures
        c == digit(d as int),
{
    if d == 0 {
        '0'
    } else if d == 1 {
        '1'
    } else if d == 2 {
        '2'
    } else if d == 3 {
        '3'
    } else if d == 4 {
        '4'
    } else if d == 5 {
        '5'
    } else if d == 6 {
        '6'
    } else if d == 7 {
        '7'
    } else if d == 8 {
        '8'
    } else {
        '9'
    }
}

/// Appends `n` in decimal digits.
pub fn push_decimal(text: &mut String, n: u64)
    ensures
        final(text)@ == old(text)@ + decimal(n as nat),
    decreases n,
{
    if n >= 10 {
        push_decimal(text, n / 10);
    }
    text.push(digit_char(n % 10));
}

/// Renders a duration of `total_secs` seconds as minutes and seconds, as in
/// `2mins 5secs`.
pub fn format_duration(total_secs: u64) -> (text: String)
    ensures
        text@ == duration_text(total_secs as nat),
{
    let mut text = String::new();
    push_decimal(&mut text, total_secs / 60);
    text.append("mins ");
    push_decimal(&mut text, total_secs % 60);
    text.append("secs");
    text
}

} // verus!
