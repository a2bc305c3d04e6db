use vstd::prelude::*;

use crate::text::push_char;

verus! {

/// The ASCII character of the decimal digit `d` (0..=9).
pub open spec fn digit_char(d: int) -> char {
    (d + 48) as char
}

/// The decimal notation of `n`, without leading zeros (what `Display` prints).
pub open spec fn decimal_spec(n: nat) -> Seq<char>
    decreases n,
{
    if n < 10 {
        seq![digit_char(n as int)]
    } else {
        decimal_spec(n / 10).push(digit_char((n % 10) as int))
    }
}

/// The decimal notation of the signed integer `n`.
pub open spec fn signed_decimal_spec(n: int) -> Seq<char> {
    if n < 0 {
        seq!['-'] + decimal_spec((-n) as nat)
    } else {
        decimal_spec(n as nat)
    }
}

fn digit(d: u64) -> (c: char)
    requires
        d < 10,
    ensures
        c == digit_char(d as int),
{
    let b: u8 = 48u8 + d as u8;
    b as char
}

/// Appends the decimal notation of `n` to `out`.
pub fn push_decimal(out: &mut String, n: u64)
    ensures
        final(out)@ == old(out)@ + decimal_spec(n as nat),
    decreases n,
{
    if n >= 10 {
        push_decimal(out, n / 10);
    }
    push_char(out, digit(n % 10));
    proof {
        if n >= 10 {
            assert(old(out)@ + decimal_spec(n as nat) =~= old(out)@ + decimal_spec((n / 10) as nat)
                + seq![digit_char((n % 10) as int)]);
        } else {
            assert(old(out)@ + decimal_spec(n as nat) =~= old(out)@.push(digit_char(n as int)));
        }
    }
}

/// The decimal notation of an unsigned integer (`u64::to_string`).
pub fn u64_to_string(n: u64) -> (r: String)
    ensures
        r@ == decimal_spec(n as nat),
{
    let mut out = String::new();
    push_decimal(&mut out, n);
    assert(out@ =~= decimal_spec(n as nat));
    out
}

/// The decimal notation of a signed integer (`i64::to_string`).
pub fn i64_to_string(n: i64) -> (r: String)
    ensures
        r@ == signed_decimal_spec(n as int),
{
    let mut out = String::new();
    if n < 0 {
        push_char(&mut out, '-');
        let m: u64 = (0i128 - n as i128) as u64;
        push_decimal(&mut out, m);
    } else {
        push_decimal(&mut out, n as u64);
        assert(out@ =~= decimal_spec(n as nat));
    }
    out
}

/// Why a string is not the decimal notation of a `u32`, in the three kinds
/// that `str::parse::<u32>` reports.
#[derive(Debug, Clone, Copy, PartialEq, Eq)]
pub enum IntParseError {
    Empty,
    InvalidDigit,
    PosOverflow,
}

pub open spec fn is_digit(c: char) -> bool {
    '0' <= c && c <= '9'
}

pub open spec fn digit_value(c: char) -> int {
    c as int - 48
}

/// Reads decimal digits left to right onto `acc`, stopping at the first
/// character that is no digit or that would take the value past `u32::MAX`.
pub open spec fn scan_u32(s: Seq<char>, acc: int) -> Result<u32, IntParseError>
    decreases s.len(),
{
    if s.len() == 0 {
        Ok(acc as u32)
    } else if !is_digit(s[0]) {
        Err(IntParseError::InvalidDigit)
    } else if acc * 10 + digit_value(s[0]) > u32::MAX {
        Err(IntParseError::PosOverflow)
    } else {
        scan_u32(s.drop_first(), acc * 10 + digit_value(s[0]))
    }
}

/// What `str::parse::<u32>` gives for `s`: an optional leading `+`, then
/// at least one ASCII digit and nothing else, with a value that fits.
pub open spec fn parse_u32_spec(s: Seq<char>) -> Result<u32, IntParseError> {
    if s.len() == 0 {
        Err(IntParseError::Empty)
    } else if s[0] == '+' {
        if s.len() == 1 {
            Err(IntParseError::InvalidDigit)
        } else {
            scan_u32(s.drop_first(), 0)
        }
    } else {
        scan_u32(s, 0)
    }
}

/// The text that `ParseIntError`'s `Display` shows for each kind.
pub open spec fn int_parse_message(e: IntParseError) -> Seq<char> {
    match e {
        IntParseError::Empty => "cannot parse integer from empty string"@,
        IntParseError::InvalidDigit => "invalid digit found in string"@,
        IntParseError::PosOverflow => "number too large to fit in target type"@,
    }
}

/// The message of a failed integer parse.
pub fn int_parse_error_message(e: IntParseError) -> (r: String)
    ensures
        r@ == int_parse_message(e),
{
    match e {
        IntParseError::Empty => String::from_str("cannot parse integer from empty string"),
        IntParseError::InvalidDigit => String::from_str("invalid digit found in string"),
        IntParseError::PosOverflow => String::from_str("number too large to fit in target type"),
    }
}

/// Parses the decimal notation of a `u32`, as `str::parse::<u32>` does.
pub fn parse_u32(s: &str) -> (r: Result<u32, IntParseError>)
    ensures
        r == parse_u32_spec(s@),
{
    let cs = crate::text::chars_of(s);
    let n = cs.len();
    if n == 0 {
        return Err(IntParseError::Empty);
    }
    let mut i: usize = 0;
    if cs[0] == '+' {
        if n == 1 {
            return Err(IntParseError::InvalidDigit);
        }
        i = 1;
    }
    let ghost start = i as int;
    proof {
        if start == 1 {
            assert(cs@.drop_first() =~= cs@.skip(1));
        } else {
            assert(cs@.skip(0) =~= cs@);
        }
    }
    let mut acc: u64 = 0;
    while i < n
        invariant
            n == cs@.len(),
            cs@ == s@,
            start <= i <= n,
            acc <= u32::MAX,
            parse_u32_spec(cs@) == scan_u32(cs@.skip(i as int), acc as int),
        decreases n - i,
    {
        let c = cs[i];
        proof {
            assert(cs@.skip(i as int).len() > 0);
            assert(cs@.skip(i as int)[0] == c);
            assert(cs@.skip(i as int).drop_first() =~= cs@.skip(i + 1));
        }
        if !('0' <= c && c <= '9') {
            assert(!is_digit(c));
            return Err(IntParseError::InvalidDigit);
        }
        let d: u64 = (c as u32 - 48) as u64;
        if acc * 10 + d > 4294967295u64 {
            return Err(IntParseError::PosOverflow);
        }
        acc = acc * 10 + d;
        i = i + 1;
    }
    assert(cs@.skip(n as int) =~= Seq::<char>::empty());
    Ok(acc as u32)
}

proof fn lemma_scan_push(s: Seq<char>, acc: int, c: char)
    requires
        0 <= acc <= u32::MAX,
        is_digit(c),
    ensures
        scan_u32(s.push(c), acc) == match scan_u32(s, acc) {
            Ok(v) => if v * 10 + digit_value(c) > u32::MAX {
                Err(IntParseError::PosOverflow)
            } else {
                Ok((v * 10 + digit_value(c)) as u32)
            },
            Err(e) => Err(e),
        },
    decreases s.len(),
{
    if s.len() == 0 {
        assert(s.push(c).drop_first() =~= Seq::<char>::empty());
        assert(s.push(c)[0] == c);
        assert((acc as u32) as int == acc);
        if acc * 10 + digit_value(c) <= u32::MAX {
            assert(scan_u32(Seq::<char>::empty(), acc * 10 + digit_value(c)) == Ok::<u32, IntParseError>((acc * 10 + digit_value(c)) as u32));
        }
    } else {
        assert(s.push(c)[0] == s[0]);
        assert(s.push(c).drop_first() =~= s.drop_first().push(c));
        if is_digit(s[0]) && acc * 10 + digit_value(s[0]) <= u32::MAX {
            lemma_scan_push(s.drop_first(), acc * 10 + digit_value(s[0]), c);
        }
    }
}

/// Reading back the decimal notation of a `u32` gives the number.
pub proof fn lemma_parse_decimal(n: u32)
    ensures
        parse_u32_spec(decimal_spec(n as nat)) == Ok::<u32, IntParseError>(n),
    decreases n,
{
    lemma_decimal_digits(n as nat);
    lemma_scan_decimal(n as nat);
}

proof fn lemma_decimal_digits(n: nat)
    ensures
        decimal_spec(n).len() > 0,
        forall|k: int| 0 <= k < decimal_spec(n).len() ==> is_digit(#[trigger] decimal_spec(n)[k]),
    decreases n,
{
    if n >= 10 {
        lemma_decimal_digits(n / 10);
    }
}

proof fn lemma_scan_decimal(n: nat)
    requires
        n <= u32::MAX,
    ensures
        scan_u32(decimal_spec(n), 0) == Ok::<u32, IntParseError>(n as u32),
    decreases n,
{
    if n < 10 {
        let c = digit_char(n as int);
        assert(c as int == n + 48);
        assert(decimal_spec(n) == seq![c]);
        assert(decimal_spec(n).drop_first() =~= Seq::<char>::empty());
        assert(scan_u32(Seq::<char>::empty(), n as int) == Ok::<u32, IntParseError>(n as u32));
    } else {
        let c = digit_char((n % 10) as int);
        assert(c as int == (n % 10) + 48);
        lemma_scan_decimal(n / 10);
        lemma_scan_push(decimal_spec(n / 10), 0, digit_char((n % 10) as int));
    }
}

/// The lower-case hexadecimal digit of `d` (0..=15).
pub open spec fn hex_digit(d: int) -> char {
    if d < 10 {
        (d + 48) as char
    } else {
        (d + 87) as char
    }
}

/// Two lower-case hexadecimal digits per byte, high nibble first
/// (`format!("{byte:02x}")` for each byte in turn).
pub open spec fn hex_spec(bytes: Seq<u8>) -> Seq<char>
    decreases bytes.len(),
{
    if bytes.len() == 0 {
        Seq::empty()
    } else {
        hex_spec(bytes.drop_last()) + seq![
            hex_digit(bytes.last() as int / 16),
            hex_digit(bytes.last() as int % 16),
        ]
    }
}

fn hex_char(d: u8) -> (c: char)
    requires
        d < 16,
    ensures
        c == hex_digit(d as int),
{
    if d < 10 {
        (48u8 + d) as char
    } else {
        (87u8 + d) as char
    }
}

/// The lower-case hexadecimal notation of `bytes`.
pub fn to_hex(bytes: &[u8]) -> (r: String)
    ensures
        r@ == hex_spec(bytes@),
        r@.len() == 2 * bytes@.len(),
{
    let mut out = String::new();
    let n = bytes.len();
    let mut i: usize = 0;
    while i < n
        invariant
            n == bytes@.len(),
            i <= n,
            out@ == hex_spec(bytes@.take(i as int)),
            out@.len() == 2 * i,
        decreases n - i,
    {
        let b = bytes[i];
        push_char(&mut out, hex_char(b / 16));
        push_char(&mut out, hex_char(b % 16));
        proof {
            assert(bytes@.take(i + 1).drop_last() =~= bytes@.take(i as int));
            assert(bytes@.take(i + 1).last() == b);
            assert(out@ =~= hex_spec(bytes@.take(i + 1)));
        }
        i = i + 1;
    }
    assert(bytes@.take(n as int) =~= bytes@);
    out
}

} // verus!
