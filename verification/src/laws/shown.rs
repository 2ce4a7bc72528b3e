//! What is shown to a person can be read back, and what a person writes is read as it is
//! meant.

use crate::cli::{
    byte_text, digit_value, digits_value, has_hex_prefix, hex_cells, hex_line_text, parsed,
    printable, unsigned_value, NumberError, NumberFault, MAX_READ_LEN,
};
use crate::error::{error_text, lifts, DeviceError, Error};
use crate::text::{digit_char, number_text, zero_padded};
use vstd::arithmetic::power::pow;
use vstd::prelude::*;
use vstd::string::*;
use vstd::utf8::*;

verus! {

/// What the character `c` is worth as a digit; less than nothing if it is none.
pub open spec fn worth(c: char) -> int {
    if '0' <= c <= '9' {
        c as int - '0' as int
    } else if 'a' <= c <= 'f' {
        c as int - 'a' as int + 10
    } else if 'A' <= c <= 'F' {
        c as int - 'A' as int + 10
    } else {
        -1
    }
}

/// What the digits `t` are worth in base `radix`, the most significant one first.
pub open spec fn worth_of(t: Seq<char>, radix: int) -> int
    decreases t.len(),
{
    if t.len() == 0 {
        0
    } else {
        worth_of(t.drop_last(), radix) * radix + worth(t.last())
    }
}

/// Every character of `t` is a digit in base `radix`, in lower case.
pub open spec fn all_digits(t: Seq<char>, radix: int) -> bool {
    forall|i: int| 0 <= i < t.len() ==> 0 <= worth(#[trigger] t[i]) < radix && !('A' <= t[i] <= 'F')
}

/// The character for a digit is worth that digit.
proof fn lemma_digit_worth(d: int)
    requires
        0 <= d < 16,
    ensures
        worth(digit_char(d)) == d,
        !('A' <= digit_char(d) <= 'F'),
{
}

/// A number that is shown is the one that its digits are worth, in every base up to 16,
/// and there is no zero in front of it.
pub proof fn number_is_shown_as_its_digits(n: int, radix: int)
    requires
        0 <= n,
        2 <= radix <= 16,
    ensures
        number_text(n, radix).len() > 0,
        all_digits(number_text(n, radix), radix),
        worth_of(number_text(n, radix), radix) == n,
        number_text(n, radix)[0] == '0' ==> n == 0,
        n == 0 ==> number_text(n, radix) == seq!['0'],
    decreases n,
{
    let t = number_text(n, radix);
    if n < radix {
        lemma_digit_worth(n);
        assert(t.drop_last() =~= Seq::<char>::empty());
        assert(worth_of(t.drop_last(), radix) == 0);
    } else {
        let q = n / radix;
        let d = n % radix;
        assert(0 < q < n && n == q * radix + d && 0 <= d < radix) by (nonlinear_arith)
            requires
                q == n / radix,
                d == n % radix,
                n >= radix,
                radix >= 2,
        ;
        number_is_shown_as_its_digits(q, radix);
        lemma_digit_worth(d);
        let u = number_text(q, radix);
        assert(t == u.push(digit_char(d)));
        assert(t.drop_last() =~= u);
        assert forall|i: int| 0 <= i < t.len() implies 0 <= worth(#[trigger] t[i]) < radix && !('A'
            <= t[i] <= 'F') by {
            if i < u.len() {
                assert(t[i] == u[i]);
            }
        }
    }
}

/// Different numbers are never shown alike.
pub proof fn different_numbers_are_shown_differently(n: int, m: int, radix: int)
    requires
        0 <= n,
        0 <= m,
        2 <= radix <= 16,
        number_text(n, radix) == number_text(m, radix),
    ensures
        n == m,
{
    number_is_shown_as_its_digits(n, radix);
    number_is_shown_as_its_digits(m, radix);
}

/// Zeros in front make a number longer, and leave what it is worth.
proof fn lemma_zeros_in_front(t: Seq<char>, k: nat, radix: int)
    ensures
        worth_of(Seq::new(k, |i: int| '0') + t, radix) == worth_of(t, radix),
    decreases t.len(), k,
{
    let z = Seq::new(k, |i: int| '0');
    let s = z + t;
    if t.len() > 0 {
        lemma_zeros_in_front(t.drop_last(), k, radix);
        assert(s.drop_last() =~= z + t.drop_last());
        assert(s.last() == t.last());
    } else if k > 0 {
        let y = Seq::new((k - 1) as nat, |i: int| '0');
        lemma_zeros_in_front(t, (k - 1) as nat, radix);
        assert(s.drop_last() =~= y + t);
        assert(s.last() == '0');
        assert(worth_of(y + t, radix) == 0);
        assert(0 * radix == 0);
    } else {
        assert(s =~= t);
    }
}

/// A number that is padded with zeros is as wide as asked, and still the number.
pub proof fn padded_number_is_the_number(n: int, width: int)
    requires
        0 <= n,
        0 <= width,
    ensures
        ({
            let t = zero_padded(number_text(n, 16), width);
            &&& worth_of(t, 16) == n
            &&& t.len() >= width
            &&& t.len() > width ==> t[0] != '0' || n == 0
            &&& all_digits(t, 16)
        }),
{
    number_is_shown_as_its_digits(n, 16);
    let u = number_text(n, 16);
    let t = zero_padded(u, width);
    if u.len() < width {
        let k = (width - u.len()) as nat;
        lemma_zeros_in_front(u, k, 16);
        assert forall|i: int| 0 <= i < t.len() implies 0 <= worth(#[trigger] t[i]) < 16 && !('A'
            <= t[i] <= 'F') by {
            if i >= k {
                assert(t[i] == u[i - k]);
            }
        }
    }
}

/// A number below a power of the base has at most as many digits.
proof fn lemma_digits_needed(n: int, k: nat)
    requires
        0 <= n < pow(16, k),
        1 <= k,
    ensures
        number_text(n, 16).len() <= k,
    decreases k,
{
    reveal(pow);
    if n >= 16 {
        if k == 1 {
            assert(pow(16, 1) == 16 * pow(16, 0));
        }
        assert(pow(16, k) == 16 * pow(16, (k - 1) as nat));
        lemma_digits_needed(n / 16, (k - 1) as nat);
    }
}

/// Each byte is shown as two digits which, in base 16, are worth that byte.
pub proof fn byte_is_shown_as_its_digits(b: u8)
    ensures
        byte_text(b).len() == 2,
        all_digits(byte_text(b), 16),
        16 * worth(byte_text(b)[0]) + worth(byte_text(b)[1]) == b,
{
    lemma_digit_worth(b as int / 16);
    lemma_digit_worth(b as int % 16);
}

/// Different bytes are never shown alike.
pub proof fn different_bytes_are_shown_differently(b: u8, c: u8)
    requires
        byte_text(b) == byte_text(c),
    ensures
        b == c,
{
    byte_is_shown_as_its_digits(b);
    byte_is_shown_as_its_digits(c);
}

/// Where byte `i` of a line is shown, counted from the first one: three columns for each,
/// and one more after the eighth.
pub open spec fn column(i: int) -> int {
    3 * i + (if i >= 8 {
        1int
    } else {
        0
    })
}

/// The cells of a line are where they belong.
proof fn lemma_cells(line: Seq<u8>, n: int)
    requires
        0 <= n <= line.len(),
        n <= 16,
    ensures
        hex_cells(line, n).len() == column(n),
        forall|i: int| #![trigger line[i]]
            0 <= i < n ==> 16 * worth(hex_cells(line, n)[column(i)]) + worth(
                hex_cells(line, n)[column(i) + 1],
            ) == line[i] && hex_cells(line, n)[column(i) + 2] == ' ' && worth(
                hex_cells(line, n)[column(i)],
            ) >= 0 && worth(hex_cells(line, n)[column(i) + 1]) >= 0,
        n >= 8 ==> hex_cells(line, n)[24] == ' ',
    decreases n,
{
    if n > 0 {
        lemma_cells(line, n - 1);
        byte_is_shown_as_its_digits(line[n - 1]);
        let a = hex_cells(line, n - 1);
        let b = hex_cells(line, n);
        let t = byte_text(line[n - 1]);
        assert(t[0] == t[0] && t[1] == t[1]);
        assert(forall|x: int| 0 <= x < a.len() ==> b[x] == a[x]);
        assert(a.len() == column(n - 1));
        let m = a.len() as int;
        assert(b[m] == t[0] && b[m + 1] == t[1] && b[m + 2] == ' ');
        assert forall|i: int| #![trigger line[i]]
            0 <= i < n implies 16 * worth(b[column(i)]) + worth(b[column(i) + 1]) == line[i]
            && b[column(i) + 2] == ' ' && worth(b[column(i)]) >= 0 && worth(b[column(i) + 1])
            >= 0 by {
            if i < n - 1 {
                assert(column(i) + 2 < column(n - 1));
                assert(a[column(i)] == b[column(i)]);
            }
        }
    }
}

/// The line `t` shows byte `b` in place `i` of `n`, and that the first of them is at `off`.
/// It starts with the offset, in eight digits or
/// as many as it takes; then come two spaces, the bytes, each in its columns, the columns
/// of those that are missing, and between bars the bytes again as characters, or dots.
pub open spec fn shows_byte(t: Seq<char>, off: int, n: int, i: int, b: u8) -> bool {
    let gap: int = if n >= 8 {
        1
    } else {
        0
    };
    let p = t.len() - (2 + 48 + gap + 2 + n + 1);
    let bar = p + 2 + 48 + gap + 1;
    &&& p >= 8
    &&& off < 0x1_0000_0000 ==> p == 8
    &&& p > 8 ==> t[0] != '0'
    &&& worth_of(t.subrange(0, p), 16) == off
    &&& t[p] == ' ' && t[p + 1] == ' '
    &&& worth(t[p + 2 + column(i)]) >= 0 && worth(t[p + 2 + column(i) + 1]) >= 0
    &&& 16 * worth(t[p + 2 + column(i)]) + worth(t[p + 2 + column(i) + 1]) == b
    &&& t[p + 2 + column(i) + 2] == ' '
    &&& t[bar - 1] == ' ' && t[bar] == '|' && t.last() == '|'
    &&& 0x20 <= b < 0x7f ==> t[bar + 1 + i] as int == b
    &&& !(0x20 <= b < 0x7f) ==> t[bar + 1 + i] == '.'
}

/// A line of a hex dump can be read back: each of its bytes is shown where it belongs.
pub proof fn hex_line_is_read_back(off: u64, line: Seq<u8>, i: int)
    requires
        line.len() <= 16,
        0 <= i < line.len(),
    ensures
        shows_byte(hex_line_text(off as int, line), off as int, line.len() as int, i, line[i]),
{
    let n = line.len() as int;
    let head = zero_padded(number_text(off as int, 16), 8);
    let cells = hex_cells(line, n);
    let t = hex_line_text(off as int, line);
    padded_number_is_the_number(off as int, 8);
    if off < 0x1_0000_0000 {
        assert(pow(16, 8) == 0x1_0000_0000) by {
            reveal(pow);
            reveal_with_fuel(pow, 9);
        }
        lemma_digits_needed(off as int, 8);
    }
    lemma_cells(line, n);
    let p = head.len() as int;
    assert(t.subrange(0, p) =~= head);
    assert(p > 8 ==> head[0] != '0' || off == 0);
    if off == 0 {
        assert(p == 8);
    }
    assert(line[i] == line[i]);
    assert(column(i) + 2 < cells.len());
    assert(t[p + 2 + column(i)] == cells[column(i)]);
    assert(t[p + 2 + column(i) + 1] == cells[column(i) + 1]);
    assert(t[p + 2 + column(i) + 2] == cells[column(i) + 2]);
    assert(printable(line)[i] == t[t.len() - 1 - n + i]);
}

/// A character that is ASCII is one byte, behind the bytes of what comes before it.
proof fn lemma_ascii_push(t: Seq<char>, c: char)
    requires
        is_ascii_chars(t),
        c <= '\u{7f}',
    ensures
        encode_utf8(t.push(c)) == encode_utf8(t).push(c as u8),
        encode_utf8(t).len() == t.len(),
        forall|i: int| 0 <= i < t.len() ==> #[trigger] encode_utf8(t)[i] == t[i] as u8,
{
    let u = t.push(c);
    assert forall|i: int| 0 <= i < u.len() implies '\0' <= #[trigger] u[i] <= '\u{7f}' by {
        if i < t.len() {
            assert(u[i] == t[i]);
        }
    }
    is_ascii_chars_encode_utf8(t);
    is_ascii_chars_encode_utf8(u);
    assert(encode_utf8(u) =~= encode_utf8(t).push(c as u8));
}

/// Digits in front are read alike, whatever comes behind them.
proof fn lemma_digits_in_front(b: Seq<u8>, c: u8, radix: int, n: int)
    requires
        0 <= n <= b.len(),
    ensures
        digits_value(b.push(c), radix, n) == digits_value(b, radix, n),
    decreases n,
{
    if n > 0 {
        lemma_digits_in_front(b, c, radix, n - 1);
        assert(b.push(c)[n - 1] == b[n - 1]);
    }
}

/// What a character is worth as a digit, in the base that is asked for.
proof fn lemma_digit_value(c: char, radix: int)
    requires
        c <= '\u{7f}',
        radix == 10 || radix == 16,
    ensures
        digit_value(c as u8, radix) == if 0 <= worth(c) < radix {
            Some(worth(c))
        } else {
            None
        },
{
}

/// What comes of one digit more, behind a number that was read.
pub open spec fn one_digit_more(n: int, c: char, radix: int, hex: bool) -> Result<int, NumberError> {
    if !(0 <= worth(c) < radix) {
        Err(NumberError { hex, fault: NumberFault::InvalidDigit })
    } else if n * radix + worth(c) > 0xffff_ffff_ffff_ffff {
        Err(NumberError { hex, fault: NumberFault::TooLarge })
    } else {
        Ok(n * radix + worth(c))
    }
}

/// A plain number is read digit by digit, in base ten: one digit more makes it ten times
/// what it was, and the digit. A character that is no digit, or a number that does not fit
/// 64 bits, is refused.
pub proof fn decimal_is_read_digit_by_digit(t: Seq<char>, n: int, c: char)
    requires
        is_ascii_chars(t),
        c <= '\u{7f}',
        !(t.len() >= 2 && t[0] == '0' && (t[1] == 'x' || t[1] == 'X')),
        !(t.len() == 1 && t[0] == '0' && (c == 'x' || c == 'X')),
        t.len() == 0 && n == 0 || parsed(t) == Ok::<int, NumberError>(n),
    ensures
        !(t.len() == 0 && c == '+') ==> parsed(t.push(c)) == one_digit_more(n, c, 10, false),
{
    lemma_ascii_push(t, c);
    lemma_digit_value(c, 10);
    let b = encode_utf8(t);
    let u = encode_utf8(t.push(c));
    assert(!has_hex_prefix(b));
    assert(!has_hex_prefix(u));
    if t.len() == 0 {
        assert(u =~= seq![c as u8]);
        assert(digits_value(u, 10, 0) == Ok::<int, NumberFault>(0));
        assert(unsigned_value(u, 10) == digits_value(u, 10, 1));
    } else if b[0] == 0x2b {
        let d = b.subrange(1, b.len() as int);
        assert(u.subrange(1, u.len() as int) =~= d.push(c as u8));
        lemma_digits_in_front(d, c as u8, 10, d.len() as int);
    } else {
        lemma_digits_in_front(b, c as u8, 10, b.len() as int);
    }
}

/// After `0x` or `0X` a number is read digit by digit, in base sixteen, with the letters
/// in either case.
pub proof fn hexadecimal_is_read_digit_by_digit(t: Seq<char>, n: int, c: char)
    requires
        is_ascii_chars(t),
        c <= '\u{7f}',
        t.len() >= 2,
        t[0] == '0',
        t[1] == 'x' || t[1] == 'X',
        t.len() == 2 && n == 0 || parsed(t) == Ok::<int, NumberError>(n),
    ensures
        !(t.len() == 2 && c == '+') ==> parsed(t.push(c)) == one_digit_more(n, c, 16, true),
{
    lemma_ascii_push(t, c);
    lemma_digit_value(c, 16);
    let b = encode_utf8(t);
    let u = encode_utf8(t.push(c));
    assert(has_hex_prefix(b));
    assert(has_hex_prefix(u));
    let r = b.subrange(2, b.len() as int);
    let s = u.subrange(2, u.len() as int);
    assert(s =~= r.push(c as u8));
    if t.len() == 2 {
        assert(s =~= seq![c as u8]);
        assert(digits_value(s, 16, 0) == Ok::<int, NumberFault>(0));
        assert(unsigned_value(s, 16) == digits_value(s, 16, 1));
    } else if r[0] == 0x2b {
        let d = r.subrange(1, r.len() as int);
        assert(s.subrange(1, s.len() as int) =~= d.push(c as u8));
        lemma_digits_in_front(d, c as u8, 16, d.len() as int);
    } else {
        lemma_digits_in_front(r, c as u8, 16, r.len() as int);
    }
}

/// A plus sign in front of a plain number makes no difference; alone it is no number, and
/// neither is nothing.
pub proof fn plus_sign_makes_no_difference(t: Seq<char>, u: Seq<char>)
    requires
        is_ascii_chars(t),
        t.len() > 0,
        t[0] != '+',
        !(t.len() >= 2 && t[0] == '0' && (t[1] == 'x' || t[1] == 'X')),
        u == seq!['+'] + t,
    ensures
        parsed(u) == parsed(t),
        parsed(seq!['+']) == Err::<int, NumberError>(
            NumberError { hex: false, fault: NumberFault::InvalidDigit },
        ),
        parsed(Seq::empty()) == Err::<int, NumberError>(
            NumberError { hex: false, fault: NumberFault::Empty },
        ),
{
    is_ascii_chars_encode_utf8(t);
    assert forall|i: int| 0 <= i < u.len() implies '\0' <= #[trigger] u[i] <= '\u{7f}' by {
        if i > 0 {
            assert(u[i] == t[i - 1]);
        }
    }
    is_ascii_chars_encode_utf8(u);
    let b = encode_utf8(t);
    let c = encode_utf8(u);
    assert(c.subrange(1, c.len() as int) =~= b);
    let plus = seq!['+'];
    assert(is_ascii_chars(plus));
    is_ascii_chars_encode_utf8(plus);
    let none: Seq<char> = Seq::empty();
    is_ascii_chars_encode_utf8(none);
}

/// The text of an error that is about a number ends with that number, or has it inside.
pub proof fn error_names_its_number(x: u32) -> (r: (Seq<char>, Seq<char>))
    ensures
        error_text(Error::UnsupportedVersion(x)) == "unsupported qcow2 version: "@ + r.0,
        error_text(Error::InvalidClusterBits(x)) == "invalid cluster_bits: "@ + r.1
            + " (must be 9..=21)"@,
        all_digits(r.0, 10) && worth_of(r.0, 10) == x,
        all_digits(r.1, 10) && worth_of(r.1, 10) == x,
{
    number_is_shown_as_its_digits(x as int, 10);
    (number_text(x as int, 10), number_text(x as int, 10))
}

/// The text of a range that is refused names its offset, its length and the size of the
/// disk.
pub proof fn error_names_its_range(offset: u64, len: u64, size: u64) -> (r: (
    Seq<char>,
    Seq<char>,
    Seq<char>,
))
    ensures
        error_text(Error::OutOfBounds { offset, len, size }) == "read ["@ + r.0 + ", "@ + r.0 + "+"@
            + r.1 + ") past virtual size "@ + r.2,
        worth_of(r.0, 10) == offset,
        worth_of(r.1, 10) == len,
        worth_of(r.2, 10) == size,
{
    number_is_shown_as_its_digits(offset as int, 10);
    number_is_shown_as_its_digits(len as int, 10);
    number_is_shown_as_its_digits(size as int, 10);
    (number_text(offset as int, 10), number_text(len as int, 10), number_text(size as int, 10))
}

/// Each error has its own words, with what it carries behind them.
pub proof fn each_error_has_its_words(what: &'static str, why: String, io: std::io::Error)
    ensures
        error_text(Error::Io(io)) == "io: "@,
        error_text(Error::NotQcow2) == "not a QCOW2 image (bad magic)"@,
        error_text(Error::Corrupt(what)) == "corrupt qcow2: "@ + what@,
        error_text(Error::Unsupported(what)) == "unsupported qcow2 feature: "@ + what@,
        error_text(Error::Decompress(why)) == "decompress: "@ + why@,
        error_text(Error::BadBackingPath) == "backing-file path is not valid UTF-8"@,
        error_text(Error::BackingTooDeep) == "backing chain too deep (cycle?)"@,
        error_text(Error::ReadOnly) == "image was opened read-only"@,
{
}

/// What a device answers reaches the caller with all that it says.
pub proof fn answers_are_passed_on(d: DeviceError, e: Error)
    requires
        lifts(d, e),
    ensures
        d is ReadOnly <==> e is ReadOnly,
        d is OutOfBounds <==> e is OutOfBounds,
        d is Custom <==> e is Decompress,
        d is Io || d is ShortRead <==> e is Io,
        d matches DeviceError::Io(x) ==> e == Error::Io(x),
        d matches DeviceError::Custom(x) ==> e == Error::Decompress(x),
        d matches DeviceError::OutOfBounds { offset, len, size } ==> e == (Error::OutOfBounds {
            offset,
            len,
            size,
        }),
{
}

/// The inspector reads up to 64 MiB at once.
pub proof fn inspector_reads_up_to_64_mib(len: u64)
    ensures
        len <= MAX_READ_LEN <==> len <= 64 * 1024 * 1024,
{
}

} // verus!
