//! Decimal integers as text: rendering and parsing, with the exact
//! acceptance rules and error kinds of Rust's standard `str::parse` for the
//! integer types (`i64`, `usize`).

use vstd::prelude::*;

verus! {

/// The character of a decimal digit `d` (0..=9).
pub open spec fn digit_char(d: int) -> char {
    (d + 48) as char
}

/// Decimal representation of a natural number, most significant digit
/// first, without leading zeros ("0" for zero).
pub open spec fn decimal_text(n: nat) -> Seq<char>
    decreases n,
{
    if n < 10 {
        seq![digit_char(n as int)]
    } else {
        decimal_text(n / 10).push(digit_char((n % 10) as int))
    }
}

/// Decimal representation of a signed integer: a leading '-' for negative
/// values, followed by the digits of its magnitude.
pub open spec fn int_text(v: int) -> Seq<char> {
    if v < 0 {
        seq!['-'] + decimal_text((-v) as nat)
    } else {
        decimal_text(v as nat)
    }
}

fn digit_for(d: u64) -> (c: char)
    requires
        d < 10,
    ensures
        c == digit_char(d as int),
{
    let b: u8 = (d as u8) + 48;
    b as char
}

/// Appends the decimal representation of `n`.
pub fn push_decimal(out: &mut String, n: u64)
    ensures
        final(out)@ == old(out)@ + decimal_text(n as nat),
    decreases n,
{
    if n >= 10 {
        push_decimal(out, n / 10);
    }
    let c = digit_for(n % 10);
    out.push(c);
    proof {
        if n >= 10 {
            assert(decimal_text(n as nat) == decimal_text((n / 10) as nat).push(c));
        } else {
            assert(decimal_text(n as nat) == seq![c]);
        }
    }
}

/// Appends the decimal representation of the signed integer `v`.
pub fn push_i64(out: &mut String, v: i64)
    ensures
        final(out)@ == old(out)@ + int_text(v as int),
{
    if v < 0 {
        out.push('-');
        let m: u64 = (0i128 - (v as i128)) as u64;
        push_decimal(out, m);
        assert(final(out)@ =~= old(out)@ + int_text(v as int));
    } else {
        push_decimal(out, v as u64);
    }
}

/// Appends the decimal representation of `n`.
pub fn push_usize(out: &mut String, n: usize)
    ensures
        final(out)@ == old(out)@ + decimal_text(n as nat),
{
    push_decimal(out, n as u64);
}

/// Why a piece of text is not an integer of the requested type; the same
/// four kinds, in the same circumstances, as std's `IntErrorKind`.
#[derive(Debug, Clone, Copy, PartialEq, Eq, Structural)]
pub enum IntErrorKind {
    /// The text is empty.
    Empty,
    /// A character that is not a decimal digit (a lone sign counts as one).
    InvalidDigit,
    /// The value is above the type's maximum.
    PosOverflow,
    /// The value is below the type's minimum.
    NegOverflow,
}

pub open spec fn is_digit(c: char) -> bool {
    '0' <= c <= '9'
}

pub open spec fn digit_value(c: char) -> int {
    c as int - 48
}

/// Reads the digits `ds` left to right onto the accumulated value `acc`
/// (towards negative values when `negative`). The first character that is not
/// a digit, or the first digit that takes the value out of `lo..=hi`, decides
/// the error.
pub open spec fn scan_digits(ds: Seq<char>, acc: int, negative: bool, lo: int, hi: int) -> Result<
    int,
    IntErrorKind,
>
    decreases ds.len(),
{
    if ds.len() == 0 {
        Ok(acc)
    } else if !is_digit(ds[0]) {
        Err(IntErrorKind::InvalidDigit)
    } else {
        let next = if negative {
            acc * 10 - digit_value(ds[0])
        } else {
            acc * 10 + digit_value(ds[0])
        };
        if next > hi {
            Err(IntErrorKind::PosOverflow)
        } else if next < lo {
            Err(IntErrorKind::NegOverflow)
        } else {
            scan_digits(ds.drop_first(), next, negative, lo, hi)
        }
    }
}

/// Parsing `s` as a decimal integer of a type whose range is `lo..=hi`: an
/// optional '+' (or '-', for a signed type, that is one with `lo < 0`), then
/// one or more decimal digits.
pub open spec fn parse_integer(s: Seq<char>, lo: int, hi: int) -> Result<int, IntErrorKind> {
    if s.len() == 0 {
        Err(IntErrorKind::Empty)
    } else if (s[0] == '+' || s[0] == '-') && s.len() == 1 {
        Err(IntErrorKind::InvalidDigit)
    } else if s[0] == '+' {
        scan_digits(s.drop_first(), 0, false, lo, hi)
    } else if s[0] == '-' && lo < 0 {
        scan_digits(s.drop_first(), 0, true, lo, hi)
    } else {
        scan_digits(s, 0, false, lo, hi)
    }
}

/// The text std's `ParseIntError` displays for each kind.
pub open spec fn int_error_text(k: IntErrorKind) -> Seq<char> {
    match k {
        IntErrorKind::Empty => "cannot parse integer from empty string"@,
        IntErrorKind::InvalidDigit => "invalid digit found in string"@,
        IntErrorKind::PosOverflow => "number too large to fit in target type"@,
        IntErrorKind::NegOverflow => "number too small to fit in target type"@,
    }
}

impl IntErrorKind {
    /// The human-readable description of this error kind.
    pub fn message(&self) -> (s: String)
        ensures
            s@ == int_error_text(*self),
    {
        match self {
            IntErrorKind::Empty => String::from_str("cannot parse integer from empty string"),
            IntErrorKind::InvalidDigit => String::from_str("invalid digit found in string"),
            IntErrorKind::PosOverflow => String::from_str("number too large to fit in target type"),
            IntErrorKind::NegOverflow => String::from_str("number too small to fit in target type"),
        }
    }
}

fn scan(s: &[char], start: usize, negative: bool, lo: i128, hi: i128) -> (r: Result<
    i128,
    IntErrorKind,
>)
    requires
        start <= s@.len(),
        lo <= 0 <= hi,
        -0x1_0000_0000_0000_0000 <= lo,
        hi <= 0x1_0000_0000_0000_0000,
    ensures
        match r {
            Ok(v) => scan_digits(s@.skip(start as int), 0, negative, lo as int, hi as int) == Ok::<
                int,
                IntErrorKind,
            >(v as int),
            Err(e) => scan_digits(s@.skip(start as int), 0, negative, lo as int, hi as int) == Err::<
                int,
                IntErrorKind,
            >(e),
        },
{
    let ghost ds = s@.skip(start as int);
    let mut acc: i128 = 0;
    let mut i: usize = start;
    while i < s.len()
        invariant
            start <= i <= s@.len(),
            ds == s@.skip(start as int),
            lo <= acc <= hi,
            lo <= 0 <= hi,
            -0x1_0000_0000_0000_0000 <= lo,
            hi <= 0x1_0000_0000_0000_0000,
            scan_digits(ds, 0, negative, lo as int, hi as int) == scan_digits(
                s@.skip(i as int),
                acc as int,
                negative,
                lo as int,
                hi as int,
            ),
        decreases s@.len() - i,
    {
        let c = s[i];
        let ghost rest = s@.skip(i as int);
        assert(rest[0] == c);
        assert(rest.drop_first() =~= s@.skip(i + 1));
        if !('0' <= c && c <= '9') {
            return Err(IntErrorKind::InvalidDigit);
        }
        let d: i128 = (c as u32 as i128) - 48;
        let next: i128 = if negative {
            acc * 10 - d
        } else {
            acc * 10 + d
        };
        if next > hi {
            return Err(IntErrorKind::PosOverflow);
        }
        if next < lo {
            return Err(IntErrorKind::NegOverflow);
        }
        acc = next;
        i = i + 1;
    }
    assert(s@.skip(i as int).len() == 0);
    Ok(acc)
}

fn parse_in_range(s: &[char], lo: i128, hi: i128) -> (r: Result<i128, IntErrorKind>)
    requires
        lo <= 0 <= hi,
        -0x1_0000_0000_0000_0000 <= lo,
        hi <= 0x1_0000_0000_0000_0000,
    ensures
        match r {
            Ok(v) => parse_integer(s@, lo as int, hi as int) == Ok::<int, IntErrorKind>(v as int)
                && lo <= v <= hi,
            Err(e) => parse_integer(s@, lo as int, hi as int) == Err::<int, IntErrorKind>(e),
        },
{
    if s.len() == 0 {
        return Err(IntErrorKind::Empty);
    }
    let c0 = s[0];
    if (c0 == '+' || c0 == '-') && s.len() == 1 {
        return Err(IntErrorKind::InvalidDigit);
    }
    let r = if c0 == '+' {
        assert(s@.drop_first() =~= s@.skip(1));
        scan(s, 1, false, lo, hi)
    } else if c0 == '-' && lo < 0 {
        assert(s@.drop_first() =~= s@.skip(1));
        scan(s, 1, true, lo, hi)
    } else {
        assert(s@ =~= s@.skip(0));
        scan(s, 0, false, lo, hi)
    };
    proof {
        if let Ok(v) = r {
            lemma_scan_in_range(
                s@.skip(if c0 == '+' || (c0 == '-' && lo < 0) { 1int } else { 0 }),
                0,
                c0 == '-' && lo < 0,
                lo as int,
                hi as int,
            );
        }
    }
    r
}

/// A successful scan ends inside the range it was given.
proof fn lemma_scan_in_range(ds: Seq<char>, acc: int, negative: bool, lo: int, hi: int)
    requires
        lo <= acc <= hi,
    ensures
        scan_digits(ds, acc, negative, lo, hi) matches Ok(v) ==> lo <= v <= hi,
    decreases ds.len(),
{
    if ds.len() > 0 && is_digit(ds[0]) {
        let next = if negative {
            acc * 10 - digit_value(ds[0])
        } else {
            acc * 10 + digit_value(ds[0])
        };
        if lo <= next <= hi {
            lemma_scan_in_range(ds.drop_first(), next, negative, lo, hi);
        }
    }
}

/// A successful parse gives a value of the type's range.
pub proof fn lemma_parse_in_range(s: Seq<char>, lo: int, hi: int)
    requires
        lo <= 0 <= hi,
    ensures
        parse_integer(s, lo, hi) matches Ok(v) ==> lo <= v <= hi,
{
    if s.len() > 0 {
        lemma_scan_in_range(s.drop_first(), 0, s[0] == '-', lo, hi);
        lemma_scan_in_range(s, 0, false, lo, hi);
    }
}

/// Parses `s` as an `i64`, with the rules of std's `str::parse::<i64>`.
pub fn parse_i64(s: &[char]) -> (r: Result<i64, IntErrorKind>)
    ensures
        match r {
            Ok(v) => parse_integer(s@, i64::MIN as int, i64::MAX as int) == Ok::<int, IntErrorKind>(
                v as int,
            ),
            Err(e) => parse_integer(s@, i64::MIN as int, i64::MAX as int) == Err::<
                int,
                IntErrorKind,
            >(e),
        },
{
    match parse_in_range(s, i64::MIN as i128, i64::MAX as i128) {
        Ok(v) => Ok(v as i64),
        Err(e) => Err(e),
    }
}

/// Parses `s` as a `usize`, with the rules of std's `str::parse::<usize>`.
pub fn parse_usize(s: &[char]) -> (r: Result<usize, IntErrorKind>)
    ensures
        match r {
            Ok(v) => parse_integer(s@, 0, usize::MAX as int) == Ok::<int, IntErrorKind>(v as int),
            Err(e) => parse_integer(s@, 0, usize::MAX as int) == Err::<int, IntErrorKind>(e),
        },
{
    match parse_in_range(s, 0, usize::MAX as i128) {
        Ok(v) => Ok(v as usize),
        Err(e) => Err(e),
    }
}

} // verus!

verus! {

proof fn lemma_digit(d: int)
    requires
        0 <= d < 10,
    ensures
        is_digit(digit_char(d)),
        digit_value(digit_char(d)) == d,
{
}

/// Every character of a decimal text is a digit, and there is at least one.
pub proof fn lemma_decimal_digits(n: nat)
    ensures
        decimal_text(n).len() >= 1,
        forall|i: int| 0 <= i < decimal_text(n).len() ==> is_digit(#[trigger] decimal_text(n)[i]),
    decreases n,
{
    lemma_digit((n % 10) as int);
    if n >= 10 {
        lemma_decimal_digits(n / 10);
    }
}

proof fn lemma_scan_concat(a: Seq<char>, b: Seq<char>, acc: int, negative: bool, lo: int, hi: int)
    ensures
        scan_digits(a + b, acc, negative, lo, hi) == match scan_digits(a, acc, negative, lo, hi) {
            Ok(m) => scan_digits(b, m, negative, lo, hi),
            Err(e) => Err(e),
        },
    decreases a.len(),
{
    if a.len() == 0 {
        assert(a + b =~= b);
    } else {
        assert((a + b)[0] == a[0]);
        assert((a + b).drop_first() =~= a.drop_first() + b);
        if is_digit(a[0]) {
            let next = if negative {
                acc * 10 - digit_value(a[0])
            } else {
                acc * 10 + digit_value(a[0])
            };
            lemma_scan_concat(a.drop_first(), b, next, negative, lo, hi);
        }
    }
}

proof fn lemma_scan_decimal(n: nat, negative: bool, lo: int, hi: int)
    requires
        lo <= 0 <= hi,
        negative ==> lo <= -n,
        !negative ==> n <= hi,
    ensures
        scan_digits(decimal_text(n), 0, negative, lo, hi) == Ok::<int, IntErrorKind>(
            if negative {
                -n
            } else {
                n as int
            },
        ),
    decreases n,
{
    let d = (n % 10) as int;
    lemma_digit(d);
    let last = seq![digit_char(d)];
    assert(last.drop_first().len() == 0);
    assert(n == (n / 10) * 10 + d);
    let start: int = if negative {
        -(n / 10)
    } else {
        (n / 10) as int
    };
    assert(scan_digits(last.drop_first(), if negative { -n } else { n as int }, negative, lo, hi)
        == Ok::<int, IntErrorKind>(if negative { -n } else { n as int }));
    assert(scan_digits(last, start, negative, lo, hi) == Ok::<int, IntErrorKind>(
        if negative { -n } else { n as int },
    ));
    if n < 10 {
        assert(decimal_text(n) == last);
    } else {
        let m = n / 10;
        lemma_scan_decimal(m, negative, lo, hi);
        assert(decimal_text(n) =~= decimal_text(m) + last);
        lemma_scan_concat(decimal_text(m), last, 0, negative, lo, hi);
    }
}

/// Rendering an integer in decimal and parsing the text back gives the same
/// integer, for every value in the range of the target type.
pub proof fn law_int_text_round_trip(v: int, lo: int, hi: int)
    requires
        lo <= 0 <= hi,
        lo <= v <= hi,
    ensures
        parse_integer(int_text(v), lo, hi) == Ok::<int, IntErrorKind>(v),
{
    if v < 0 {
        let n = (-v) as nat;
        lemma_decimal_digits(n);
        lemma_scan_decimal(n, true, lo, hi);
        let t = int_text(v);
        assert(t[0] == '-');
        assert(t.drop_first() =~= decimal_text(n));
    } else {
        let n = v as nat;
        lemma_decimal_digits(n);
        lemma_scan_decimal(n, false, lo, hi);
        assert(is_digit(decimal_text(n)[0]));
    }
}

} // verus!
