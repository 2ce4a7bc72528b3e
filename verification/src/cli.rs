//! What the command-line inspector reads and shows.

use crate::laws::shown::{hex_line_is_read_back, shows_byte};
use crate::text::{digit, digit_char, hex_padded, number_text, zero_padded};
use vstd::prelude::*;
use vstd::string::*;
use vstd::utf8::encode_utf8;

verus! {

/// Why a text is not a number.
#[derive(Debug, Clone, Copy, PartialEq, Eq, Structural)]
pub enum NumberFault {
    Empty,
    InvalidDigit,
    TooLarge,
}

/// Why a text is not a number, and in which base it was read.
#[derive(Debug, Clone, Copy, PartialEq, Eq, Structural)]
pub struct NumberError {
    pub hex: bool,
    pub fault: NumberFault,
}

impl NumberFault {
    /// The reason in words.
    pub fn text(&self) -> (s: &'static str)
        ensures
            s == match self {
                NumberFault::Empty => "cannot parse integer from empty string",
                NumberFault::InvalidDigit => "invalid digit found in string",
                NumberFault::TooLarge => "number too large to fit in target type",
            },
    {
        match self {
            NumberFault::Empty => "cannot parse integer from empty string",
            NumberFault::InvalidDigit => "invalid digit found in string",
            NumberFault::TooLarge => "number too large to fit in target type",
        }
    }
}

/// How many bytes the inspector reads at most.
pub const MAX_READ_LEN: u64 = 0x400_0000;

/// The length of a buffer for `len` bytes; nothing if that is more than the
/// inspector reads.
pub fn read_len(len: u64) -> (r: Option<usize>)
    ensures
        match r {
            Some(n) => n == len && len <= MAX_READ_LEN,
            None => len > MAX_READ_LEN,
        },
{
    if len > MAX_READ_LEN {
        None
    } else {
        Some(len as usize)
    }
}

/// The value of the digit `c` in base `radix`.
pub open spec fn digit_value(c: u8, radix: int) -> Option<int> {
    let d = if 0x30 <= c <= 0x39 {
        c - 0x30
    } else if 0x61 <= c <= 0x7a {
        c - 0x61 + 10
    } else if 0x41 <= c <= 0x5a {
        c - 0x41 + 10
    } else {
        radix
    };
    if d < radix {
        Some(d)
    } else {
        None
    }
}

/// The value of the first `n` bytes of `b` as digits in base `radix`, or what is
/// wrong with the first of them that is not one or that makes it too large.
pub open spec fn digits_value(b: Seq<u8>, radix: int, n: int) -> Result<int, NumberFault>
    decreases n,
{
    if n <= 0 {
        Ok(0)
    } else {
        match digits_value(b, radix, n - 1) {
            Err(f) => Err(f),
            Ok(v) => match digit_value(b[n - 1], radix) {
                None => Err(NumberFault::InvalidDigit),
                Some(d) => if v * radix + d > u64::MAX {
                    Err(NumberFault::TooLarge)
                } else {
                    Ok(v * radix + d)
                },
            },
        }
    }
}

/// What the bytes `b` stand for as a number in base `radix`. A plus sign may come
/// before the digits.
pub open spec fn unsigned_value(b: Seq<u8>, radix: int) -> Result<int, NumberFault> {
    let digits = if b.len() > 0 && b[0] == 0x2b {
        b.subrange(1, b.len() as int)
    } else {
        b
    };
    if b.len() == 0 {
        Err(NumberFault::Empty)
    } else if digits.len() == 0 {
        Err(NumberFault::InvalidDigit)
    } else {
        digits_value(digits, radix, digits.len() as int)
    }
}

/// Whether the bytes `b` start with `0x` or `0X`.
pub open spec fn has_hex_prefix(b: Seq<u8>) -> bool {
    b.len() >= 2 && b[0] == 0x30 && (b[1] == 0x78 || b[1] == 0x58)
}

/// What `text` stands for as a number: in base 16 after `0x` or `0X`, else in base 10.
pub open spec fn parsed(text: Seq<char>) -> Result<int, NumberError> {
    let b = encode_utf8(text);
    let hex = has_hex_prefix(b);
    let value = if hex {
        unsigned_value(b.subrange(2, b.len() as int), 16)
    } else {
        unsigned_value(b, 10)
    };
    match value {
        Ok(x) => Ok(x),
        Err(fault) => Err(NumberError { hex, fault }),
    }
}

/// `b` spells the digits `t`, letters in either case.
pub open spec fn spells(b: Seq<u8>, t: Seq<char>) -> bool {
    &&& b.len() == t.len()
    &&& forall|i: int|
        0 <= i < t.len() ==> #[trigger] b[i] == t[i] as u8 || (0x61 <= t[i] as u8 <= 0x66 && b[i]
            == t[i] as u8 - 0x20)
}

/// The digits of a number have its value.
pub(crate) proof fn lemma_digits_spelled(b: Seq<u8>, n: int, radix: int, m: int)
    requires
        0 <= n,
        radix == 10 || radix == 16,
        m == number_text(n, radix).len(),
        m <= b.len(),
        spells(b.subrange(0, m), number_text(n, radix)),
    ensures
        m > 0,
        digits_value(b, radix, m) == (if n <= u64::MAX {
            Ok::<int, NumberFault>(n)
        } else {
            Err::<int, NumberFault>(NumberFault::TooLarge)
        }),
        forall|i: int| 0 <= i < m ==> digit_value(#[trigger] b[i], radix) is Some,
    decreases n,
{
    let t = number_text(n, radix);
    let p = b.subrange(0, m);
    assert(p[m - 1] == b[m - 1]);
    if n < radix {
        assert(digits_value(b, radix, 0) == Ok::<int, NumberFault>(0));
        assert(t[0] == digit_char(n));
        assert(digit_value(b[0], radix) == Some(n));
    } else {
        let q = n / radix;
        let d = n % radix;
        assert(0 <= q < n && n == q * radix + d && 0 <= d < radix) by (nonlinear_arith)
            requires
                q == n / radix,
                d == n % radix,
                n >= radix,
                radix >= 2,
        ;
        let u = number_text(q, radix);
        assert(t == u.push(digit_char(d)));
        assert forall|i: int| 0 <= i < u.len() implies #[trigger] b.subrange(0, m - 1)[i]
            == u[i] as u8 || (0x61 <= u[i] as u8 <= 0x66 && b.subrange(0, m - 1)[i] == u[i] as u8
            - 0x20) by {
            assert(p[i] == b[i]);
            assert(t[i] == u[i]);
        }
        lemma_digits_spelled(b, q, radix, m - 1);
        assert(t[m - 1] == digit_char(d));
        assert(digit_value(b[m - 1], radix) == Some(d));
    }
}

/// What is wrong with the first bytes is wrong with all.
pub(crate) proof fn lemma_digits_stop(b: Seq<u8>, radix: int, n: int, m: int)
    requires
        0 <= n <= m,
        digits_value(b, radix, n) is Err,
    ensures
        digits_value(b, radix, m) == digits_value(b, radix, n),
    decreases m - n,
{
    if n < m {
        lemma_digits_stop(b, radix, n, m - 1);
    }
}

/// Reads the digits of `b` from `from` on.
fn read_digits(b: &[u8], from: usize, radix: u64) -> (r: Result<u64, NumberFault>)
    requires
        from <= b@.len(),
        2 <= radix <= 16,
    ensures
        ({
            let d = b@.subrange(from as int, b@.len() as int);
            match r {
                Ok(x) => digits_value(d, radix as int, d.len() as int) == Ok::<int, NumberFault>(
                    x as int,
                ),
                Err(f) => digits_value(d, radix as int, d.len() as int) == Err::<
                    int,
                    NumberFault,
                >(f),
            }
        }),
{
    let ghost d = b@.subrange(from as int, b@.len() as int);
    let mut value: u64 = 0;
    let mut i: usize = from;
    while i < b.len()
        invariant
            from <= i <= b@.len(),
            2 <= radix <= 16,
            d == b@.subrange(from as int, b@.len() as int),
            digits_value(d, radix as int, i - from) == Ok::<int, NumberFault>(value as int),
        decreases b@.len() - i,
    {
        let c: u8 = b[i];
        assert(c == d[i - from]);
        let digit: u64 = if 0x30 <= c && c <= 0x39 {
            (c - 0x30) as u64
        } else if 0x61 <= c && c <= 0x7a {
            (c - 0x61) as u64 + 10
        } else if 0x41 <= c && c <= 0x5a {
            (c - 0x41) as u64 + 10
        } else {
            radix
        };
        let ghost n = i - from + 1;
        if digit >= radix {
            proof {
                lemma_digits_stop(d, radix as int, n, d.len() as int);
            }
            return Err(NumberFault::InvalidDigit);
        }
        assert(0 <= value * radix <= u64::MAX * 16) by (nonlinear_arith)
            requires
                0 <= value <= u64::MAX,
                0 <= radix <= 16,
        ;
        let wide: u128 = value as u128 * radix as u128 + digit as u128;
        if wide > u64::MAX as u128 {
            proof {
                lemma_digits_stop(d, radix as int, n, d.len() as int);
            }
            return Err(NumberFault::TooLarge);
        }
        value = wide as u64;
        i = i + 1;
    }
    Ok(value)
}

/// Reads a number: in base 16 after `0x` or `0X`, else in base 10.
pub fn parse_u64(s: &str) -> (r: Result<u64, NumberError>)
    ensures
        parsed(s@) == match r {
            Ok(x) => Ok::<int, NumberError>(x as int),
            Err(e) => Err::<int, NumberError>(e),
        },
{
    let b: &[u8] = s.as_bytes();
    let hex: bool = b.len() >= 2 && b[0] == 0x30 && (b[1] == 0x78 || b[1] == 0x58);
    let start: usize = if hex {
        2
    } else {
        0
    };
    let radix: u64 = if hex {
        16
    } else {
        10
    };
    let ghost body = b@.subrange(start as int, b@.len() as int);
    assert(!hex ==> body =~= b@);
    if b.len() == start {
        return Err(NumberError { hex, fault: NumberFault::Empty });
    }
    let from: usize = if b[start] == 0x2b {
        start + 1
    } else {
        start
    };
    assert(b@.subrange(from as int, b@.len() as int) =~= (if body[0] == 0x2b {
        body.subrange(1, body.len() as int)
    } else {
        body
    }));
    if b.len() == from {
        return Err(NumberError { hex, fault: NumberFault::InvalidDigit });
    }
    match read_digits(b, from, radix) {
        Ok(x) => Ok(x),
        Err(fault) => Err(NumberError { hex, fault }),
    }
}

/// The two digits of a byte.
pub open spec fn byte_text(b: u8) -> Seq<char> {
    seq![digit_char(b as int / 16), digit_char(b as int % 16)]
}

/// The first `n` bytes of a line of a hex dump: two digits and a space for each, and
/// one more space after the eighth.
pub open spec fn hex_cells(line: Seq<u8>, n: int) -> Seq<char>
    decreases n,
{
    if n <= 0 {
        Seq::empty()
    } else if n == 8 {
        (hex_cells(line, n - 1) + byte_text(line[n - 1])).push(' ').push(' ')
    } else {
        (hex_cells(line, n - 1) + byte_text(line[n - 1])).push(' ')
    }
}

/// `n` spaces.
pub open spec fn spaces(n: int) -> Seq<char> {
    Seq::new(n as nat, |i: int| ' ')
}

/// The bytes of a line as characters, with a dot for what cannot be printed.
pub open spec fn printable(line: Seq<u8>) -> Seq<char> {
    Seq::new(
        line.len(),
        |i: int|
            if 0x20 <= line[i] < 0x7f {
                line[i] as char
            } else {
                '.'
            },
    )
}

/// One line of a hex dump: the offset, up to sixteen bytes, and the same bytes as
/// characters.
pub open spec fn hex_line_text(off: int, line: Seq<u8>) -> Seq<char> {
    (zero_padded(number_text(off, 16), 8) + spaces(2) + hex_cells(line, line.len() as int) + spaces(
        3 * (16 - line.len()),
    )).push(' ').push('|') + printable(line).push('|')
}

/// Writes one line of a hex dump.
pub fn hex_line(off: u64, line: &[u8]) -> (s: String)
    requires
        line@.len() <= 16,
    ensures
        s@ == hex_line_text(off as int, line@),
        forall|i: int|
            0 <= i < line@.len() ==> shows_byte(
                s@,
                off as int,
                line@.len() as int,
                i,
                #[trigger] line@[i],
            ),
{
    let mut s: String = hex_padded(off, 8);
    let ghost head = s@ + spaces(2);
    s.push(' ');
    s.push(' ');
    assert(s@ =~= head + hex_cells(line@, 0));
    let n: usize = line.len();
    let mut i: usize = 0;
    while i < n
        invariant
            i <= n,
            n == line@.len(),
            s@ == head + hex_cells(line@, i as int),
        decreases n - i,
    {
        let ghost before = s@;
        s.push(digit(line[i] / 16));
        s.push(digit(line[i] % 16));
        if i == 7 {
            s.push(' ');
        }
        s.push(' ');
        i = i + 1;
        assert(s@ =~= head + hex_cells(line@, i as int));
    }
    let ghost cells = s@;
    let mut gap: usize = 3 * (16 - n);
    let ghost all = gap as int;
    assert(cells + spaces(0) =~= cells);
    while gap > 0
        invariant
            gap <= all,
            s@ == cells + spaces(all - gap),
        decreases gap,
    {
        s.push(' ');
        gap = gap - 1;
        assert(s@ =~= cells + spaces(all - gap));
    }
    s.push(' ');
    s.push('|');
    let ghost left = s@;
    assert(left =~= left + printable(line@).subrange(0, 0));
    let mut j: usize = 0;
    while j < n
        invariant
            j <= n,
            n == line@.len(),
            s@ == left + printable(line@).subrange(0, j as int),
        decreases n - j,
    {
        let c: u8 = line[j];
        s.push(
            if 0x20 <= c && c < 0x7f {
                c as char
            } else {
                '.'
            },
        );
        j = j + 1;
        assert(s@ =~= left + printable(line@).subrange(0, j as int));
    }
    s.push('|');
    assert(s@ =~= hex_line_text(off as int, line@));
    proof {
        assert forall|i: int| 0 <= i < line@.len() implies shows_byte(
            s@,
            off as int,
            line@.len() as int,
            i,
            #[trigger] line@[i],
        ) by {
            hex_line_is_read_back(off, line@, i);
        }
    }
    s
}

/// Byte `x` of `bytes`, which start at `start`, is shown in the line that it belongs to:
/// each has sixteen of them, but for the last one.
pub open spec fn dump_shows(lines: Seq<String>, start: int, bytes: Seq<u8>, x: int) -> bool {
    let first = x - x % 16;
    let n = if bytes.len() - first < 16 {
        bytes.len() - first
    } else {
        16
    };
    &&& 0 <= x / 16 < lines.len()
    &&& shows_byte(lines[x / 16]@, start + first, n, x % 16, bytes[x])
}

/// A hex dump of `bytes`, which start at `start`: one text for each line of sixteen
/// bytes.
pub fn hex_dump(start: u64, bytes: &[u8]) -> (lines: Vec<String>)
    requires
        start + bytes@.len() <= u64::MAX,
    ensures
        lines@.len() == (bytes@.len() + 15) / 16,
        forall|i: int|
            0 <= i < lines@.len() ==> (#[trigger] lines@[i])@ == hex_line_text(
                start + 16 * i,
                bytes@.subrange(
                    16 * i,
                    if 16 * i + 16 < bytes@.len() {
                        16 * i + 16
                    } else {
                        bytes@.len() as int
                    },
                ),
            ),
        forall|x: int|
            0 <= x < bytes@.len() ==> dump_shows(lines@, start as int, bytes@, x),
{
    let n: usize = bytes.len();
    let mut lines: Vec<String> = Vec::new();
    let mut done: usize = 0;
    while done < n
        invariant
            n == bytes@.len(),
            start + n <= u64::MAX,
            done <= n,
            done == 16 * lines@.len() || (done == n && lines@.len() == (n + 15) / 16),
            forall|i: int|
                0 <= i < lines@.len() ==> (#[trigger] lines@[i])@ == hex_line_text(
                    start + 16 * i,
                    bytes@.subrange(
                        16 * i,
                        if 16 * i + 16 < bytes@.len() {
                            16 * i + 16
                        } else {
                            bytes@.len() as int
                        },
                    ),
                ),
        decreases n - done,
    {
        let end: usize = if n - done > 16 {
            done + 16
        } else {
            n
        };
        let line: String = hex_line(
            start + done as u64,
            vstd::slice::slice_subrange(bytes, done, end),
        );
        lines.push(line);
        done = end;
    }
    proof {
        assert forall|x: int| 0 <= x < bytes@.len() implies dump_shows(
            lines@,
            start as int,
            bytes@,
            x,
        ) by {
            let i = x / 16;
            let last = if 16 * i + 16 < bytes@.len() {
                16 * i + 16
            } else {
                bytes@.len() as int
            };
            let line = bytes@.subrange(16 * i, last);
            assert(lines@[i]@ == hex_line_text(start + 16 * i, line));
            assert(line[x % 16] == bytes@[x]);
            hex_line_is_read_back((start + 16 * i) as u64, line, x % 16);
        }
    }
    lines
}

} // verus!
