//! Numbers in decimal and hexadecimal notation.
use vstd::prelude::*;

verus! {

/// The digit for a value below sixteen.
pub open spec fn digit(value: int) -> char {
    if value < 10 {
        ('0' as int + value) as char
    } else {
        ('a' as int + value - 10) as char
    }
}

/// A number in decimal notation.
pub open spec fn decimal(n: int) -> Seq<char>
    decreases n,
{
    if n < 10 {
        seq![digit(n)]
    } else {
        decimal(n / 10).push(digit(n % 10))
    }
}

/// A number in hexadecimal notation, in lower case.
pub open spec fn hexadecimal(n: int) -> Seq<char>
    decreases n,
{
    if n < 16 {
        seq![digit(n)]
    } else {
        hexadecimal(n / 16).push(digit(n % 16))
    }
}

fn digit_char(value: u8) -> (c: char)
    requires
        value < 16,
    ensures
        c == digit(value as int),
{
    if value < 10 {
        (48u8 + value) as char
    } else {
        (87u8 + value) as char
    }
}

/// Appends a number in decimal notation.
pub(crate) fn push_decimal(text: &mut String, n: u64)
    ensures
        final(text)@ == old(text)@ + decimal(n as int),
    decreases n,
{
    if n >= 10 {
        push_decimal(text, n / 10);
    }
    text.push(digit_char((n % 10) as u8));
    assert(text@ =~= old(text)@ + decimal(n as int));
}

/// Appends a number in hexadecimal notation.
pub(crate) fn push_hexadecimal(text: &mut String, n: u64)
    ensures
        final(text)@ == old(text)@ + hexadecimal(n as int),
    decreases n,
{
    if n >= 16 {
        push_hexadecimal(text, n / 16);
    }
    text.push(digit_char((n % 16) as u8));
    assert(text@ =~= old(text)@ + hexadecimal(n as int));
}

/// Numbers in decimal notation: a number of one digit is that digit, any other the notation of its
/// tenth followed by its last digit.
pub proof fn law_decimal_notation(n: int)
    requires
        0 <= n,
    ensures
        n < 10 ==> decimal(n) == seq!["0123456789"@[n]],
        n >= 10 ==> decimal(n) == decimal(n / 10) + decimal(n % 10),
{
    reveal_strlit("0123456789");
    assert(n >= 10 ==> decimal(n) =~= decimal(n / 10) + decimal(n % 10));
}

/// Numbers in hexadecimal notation: a number of one digit is that digit, any other the notation of
/// its sixteenth followed by its last digit.
pub proof fn law_hexadecimal_notation(n: int)
    requires
        0 <= n,
    ensures
        n < 16 ==> hexadecimal(n) == seq!["0123456789abcdef"@[n]],
        n >= 16 ==> hexadecimal(n) == hexadecimal(n / 16) + hexadecimal(n % 16),
{
    reveal_strlit("0123456789abcdef");
    assert(n >= 16 ==> hexadecimal(n) =~= hexadecimal(n / 16) + hexadecimal(n % 16));
}

} // verus!
