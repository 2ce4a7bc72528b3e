//! Numbers as text.

use vstd::prelude::*;
use vstd::string::*;

verus! {

/// `String::push` appends one character at the end of the string.
pub assume_specification[ String::push ](s: &mut String, c: char)
    ensures
        final(s)@ == old(s)@.push(c),
;

/// The character for the digit `d`, lower case above nine.
pub open spec fn digit_char(d: int) -> char {
    if d < 10 {
        (0x30 + d) as char
    } else {
        (0x57 + d) as char
    }
}

/// `n` written in base `radix`, without leading zeros.
pub open spec fn number_text(n: int, radix: int) -> Seq<char>
    decreases n,
    when radix >= 2
{
    if n < radix {
        seq![digit_char(n)]
    } else {
        proof {
            assert(0 <= n / radix < n) by (nonlinear_arith)
                requires
                    n >= radix,
                    radix >= 2,
            ;
        }
        number_text(n / radix, radix).push(digit_char(n % radix))
    }
}

/// `text` with zeros in front of it, so that it has at least `width` characters.
pub open spec fn zero_padded(text: Seq<char>, width: int) -> Seq<char> {
    if text.len() < width {
        Seq::new((width - text.len()) as nat, |i: int| '0') + text
    } else {
        text
    }
}

/// The character for the digit `d`, lower case above nine.
pub fn digit(d: u8) -> (c: char)
    requires
        d < 16,
    ensures
        c == digit_char(d as int),
{
    if d < 10 {
        (0x30 + d) as char
    } else {
        (0x57 + d) as char
    }
}

/// Writes `n` in base `radix`.
pub fn number(n: u64, radix: u64) -> (s: String)
    requires
        2 <= radix <= 16,
    ensures
        s@ == number_text(n as int, radix as int),
    decreases n,
{
    if n < radix {
        let mut s: String = String::new();
        s.push(digit(n as u8));
        assert(s@ =~= number_text(n as int, radix as int));
        s
    } else {
        assert(n / radix < n) by (nonlinear_arith)
            requires
                n >= radix,
                radix >= 2,
        ;
        let mut s: String = number(n / radix, radix);
        s.push(digit((n % radix) as u8));
        s
    }
}

/// Writes `n` in base 16, with zeros in front up to `width` digits.
pub fn hex_padded(n: u64, width: usize) -> (s: String)
    ensures
        s@ == zero_padded(number_text(n as int, 16), width as int),
{
    let text: String = number(n, 16);
    let len: usize = text.as_str().unicode_len();
    let mut s: String = String::new();
    let mut i: usize = len;
    while i < width
        invariant
            len <= i,
            i <= width || i == len,
            s@ == Seq::new((i - len) as nat, |j: int| '0'),
        decreases width - i,
    {
        s.push('0');
        i = i + 1;
        assert(s@ =~= Seq::new((i - len) as nat, |j: int| '0'));
    }
    s.append(text.as_str());
    assert(s@ =~= zero_padded(number_text(n as int, 16), width as int));
    s
}

} // verus!
