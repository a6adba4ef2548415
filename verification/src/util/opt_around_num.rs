//! The number of context lines printed around a match (`--around <num>`).
use vstd::prelude::*;
use vstd::string::StringSliceAdditionalSpecFns;
use crate::util::text::{decimal_chars, digit_char, digit_str};
use vstd::utf8::*;

verus! {

/// How `u8` parsing of a decimal string fails, as std's `ParseIntError` reports it.
#[derive(Debug, Clone, Copy, PartialEq, Eq)]
pub enum U8ParseErrorKind {
    /// The string is empty.
    Empty,
    /// A character other than a decimal digit was found.
    InvalidDigit,
    /// The value does not fit in a `u8`.
    PosOverflow,
}

/// Whether `b` is the ASCII code of a decimal digit.
pub open spec fn is_digit_byte(b: u8) -> bool {
    48 <= b <= 57
}

/// Scans the decimal digits `d[i..]` on top of the value `acc` of `d[..i]`,
/// reporting the first position that is not a digit or that overflows.
pub open spec fn scan_u8_digits(d: Seq<u8>, i: int, acc: int) -> Result<u8, U8ParseErrorKind>
    decreases d.len() - i,
{
    if i < 0 || i >= d.len() {
        Ok(acc as u8)
    } else if !is_digit_byte(d[i]) {
        Err(U8ParseErrorKind::InvalidDigit)
    } else if acc * 10 + (d[i] - 48) > 255 {
        Err(U8ParseErrorKind::PosOverflow)
    } else {
        scan_u8_digits(d, i + 1, acc * 10 + (d[i] - 48))
    }
}

/// The result of parsing the bytes `s` as a `u8` in base ten, as std's
/// `u8::from_str` does: an optional leading `+`, then at least one digit.
pub open spec fn parse_u8_spec(s: Seq<u8>) -> Result<u8, U8ParseErrorKind> {
    if s.len() == 0 {
        Err(U8ParseErrorKind::Empty)
    } else if s[0] == 43 {
        if s.len() == 1 {
            Err(U8ParseErrorKind::InvalidDigit)
        } else {
            scan_u8_digits(s.drop_first(), 0, 0)
        }
    } else {
        scan_u8_digits(s, 0, 0)
    }
}

/// The message std's `ParseIntError` displays for each kind of failure.
pub open spec fn u8_parse_error_text(k: U8ParseErrorKind) -> Seq<char> {
    match k {
        U8ParseErrorKind::Empty => "cannot parse integer from empty string"@,
        U8ParseErrorKind::InvalidDigit => "invalid digit found in string"@,
        U8ParseErrorKind::PosOverflow => "number too large to fit in target type"@,
    }
}

/// The number of lines printed before and after each matching line.
#[derive(Debug, PartialEq, Eq, Clone, Copy)]
pub struct OptAroundNum(pub u8);

impl Default for OptAroundNum {
    fn default() -> (r: Self)
        ensures
            r.0 == 0,
    {
        OptAroundNum(0)
    }
}

impl OptAroundNum {
    /// True when no context lines are asked for.
    pub fn is_empty(&self) -> (r: bool)
        ensures
            r == (self.0 == 0),
    {
        self.0 == 0
    }

    /// The number of context lines.
    pub fn num(&self) -> (r: usize)
        ensures
            r == self.0 as usize,
    {
        self.0 as usize
    }

    /// The decimal text of the number (what `Display` prints).
    pub fn to_string(&self) -> (r: String)
        ensures
            r@ == decimal_chars(self.0 as nat),
    {
        let n = self.0;
        let mut s = String::new();
        if n >= 100 {
            s.append(digit_str(n / 100));
        }
        if n >= 10 {
            s.append(digit_str((n / 10) % 10));
        }
        s.append(digit_str(n % 10));
        proof {
            let v = n as nat;
            if v >= 100 {
                assert(decimal_chars(v / 100) == seq![digit_char((v / 100) as int)]);
                assert(decimal_chars(v / 10) == decimal_chars(v / 100).push(digit_char(((v / 10) % 10) as int)));
            } else if v >= 10 {
                assert(decimal_chars(v / 10) == seq![digit_char((v / 10) as int)]);
            }
        }
        s
    }
}


/// Parses the bytes of `s` as a `u8` the way std's `u8::from_str` does.
pub fn parse_u8(s: &str) -> (r: Result<u8, U8ParseErrorKind>)
    ensures
        r == parse_u8_spec(s.spec_bytes()),
{
    let b = s.as_bytes();
    let n = b.len();
    if n == 0 {
        return Err(U8ParseErrorKind::Empty);
    }
    let start: usize = if b[0] == 43 {
        if n == 1 {
            return Err(U8ParseErrorKind::InvalidDigit);
        }
        1
    } else {
        0
    };
    let ghost d: Seq<u8> = if start == 1 { b@.drop_first() } else { b@ };
    let mut acc: u8 = 0;
    let mut i: usize = start;
    while i < n
        invariant
            b@ == s.spec_bytes(),
            n == b@.len(),
            start <= i <= n,
            start == 0 || start == 1,
            d == b@.subrange(start as int, n as int),
            parse_u8_spec(b@) == scan_u8_digits(d, 0, 0),
            scan_u8_digits(d, (i - start) as int, acc as int) == scan_u8_digits(d, 0, 0),
        decreases n - i,
    {
        let c = b[i];
        assert(d[(i - start) as int] == c);
        if c < 48 || c > 57 {
            return Err(U8ParseErrorKind::InvalidDigit);
        }
        let next: u32 = acc as u32 * 10 + (c - 48) as u32;
        if next > 255 {
            return Err(U8ParseErrorKind::PosOverflow);
        }
        acc = next as u8;
        i = i + 1;
    }
    Ok(acc)
}

/// The message std's `ParseIntError` displays for `k`.
pub fn u8_parse_error_message(k: U8ParseErrorKind) -> (r: &'static str)
    ensures
        r@ == u8_parse_error_text(k),
{
    match k {
        U8ParseErrorKind::Empty => "cannot parse integer from empty string",
        U8ParseErrorKind::InvalidDigit => "invalid digit found in string",
        U8ParseErrorKind::PosOverflow => "number too large to fit in target type",
    }
}

/// The message of a failed `--around` argument: the text and the reason.
pub open spec fn around_error_text(s: Seq<char>, k: U8ParseErrorKind) -> Seq<char> {
    "can not parse '"@ + s + "': "@ + u8_parse_error_text(k)
}

/// The error of parsing an `OptAroundNum`, with its description.
#[derive(Debug)]
pub struct OptAroundNumParseError {
    desc: String,
}

impl OptAroundNumParseError {
    /// Builds the error with the description `s`.
    pub fn new(s: String) -> (r: OptAroundNumParseError)
        ensures
            r.desc()@ == s@,
    {
        OptAroundNumParseError { desc: s }
    }

    /// The description of the error.
    pub closed spec fn desc(&self) -> String {
        self.desc
    }

    /// The text that the error displays.
    pub fn to_string(&self) -> (r: String)
        ensures
            r@ == self.desc()@,
    {
        self.desc.clone()
    }

    /// The description of the error.
    pub fn description(&self) -> (r: &str)
        ensures
            r@ == self.desc()@,
    {
        self.desc.as_str()
    }
}

impl OptAroundNum {
    /// Parses the argument of `--around`: a decimal `u8`, as std parses it.
    pub fn parse(s: &str) -> (r: Result<OptAroundNum, OptAroundNumParseError>)
        ensures
            match parse_u8_spec(s.spec_bytes()) {
                Ok(v) => r == Ok::<OptAroundNum, OptAroundNumParseError>(OptAroundNum(v)),
                Err(k) => r matches Err(e) && e.desc()@ == around_error_text(s@, k),
            },
    {
        match parse_u8(s) {
            Ok(v) => Ok(OptAroundNum(v)),
            Err(k) => {
                let mut d = String::new();
                d.append("can not parse '");
                d.append(s);
                d.append("': ");
                d.append(u8_parse_error_message(k));
                Err(OptAroundNumParseError::new(d))
            },
        }
    }
}

impl std::str::FromStr for OptAroundNum {
    type Err = OptAroundNumParseError;

    fn from_str(s: &str) -> (r: Result<Self, Self::Err>)
        ensures
            match parse_u8_spec(s.spec_bytes()) {
                Ok(v) => r == Ok::<OptAroundNum, OptAroundNumParseError>(OptAroundNum(v)),
                Err(k) => r matches Err(e) && e.desc()@ == around_error_text(s@, k),
            },
    {
        OptAroundNum::parse(s)
    }
}

/// The characters of a decimal number are ASCII digits, at most three for a `u8`.
proof fn lemma_decimal_digits(n: nat)
    requires
        n < 256,
    ensures
        decimal_chars(n).len() == (if n < 10 { 1int } else if n < 100 { 2int } else { 3int }),
        encode_utf8(decimal_chars(n)) == decimal_chars(n).map_values(|c: char| c as u8),
        forall|k: int| 0 <= k < decimal_chars(n).len() ==> is_digit_byte(#[trigger] decimal_chars(n)[k] as u8),
{
    let d = decimal_chars(n);
    if n >= 100 {
        assert(decimal_chars(n / 100) == seq![digit_char((n / 100) as int)]);
        assert(decimal_chars(n / 10) == decimal_chars(n / 100).push(digit_char(((n / 10) % 10) as int)));
    } else if n >= 10 {
        assert(decimal_chars(n / 10) == seq![digit_char((n / 10) as int)]);
    }
    assert(is_ascii_chars(d));
    is_ascii_chars_encode_utf8(d);
    assert(encode_utf8(d) =~= d.map_values(|c: char| c as u8));
}

/// Printing a number and parsing the text back gives the number.
pub proof fn law_around_num_round_trip(n: u8)
    ensures
        parse_u8_spec(encode_utf8(decimal_chars(n as nat))) == Ok::<u8, U8ParseErrorKind>(n),
{
    let v = n as nat;
    lemma_decimal_digits(v);
    let b = encode_utf8(decimal_chars(v));
    let d0 = (v / 100) as int;
    let d1 = ((v / 10) % 10) as int;
    let d2 = (v % 10) as int;
    if v >= 100 {
        assert(decimal_chars(v / 100) == seq![digit_char(d0)]);
        assert(decimal_chars(v / 10) == decimal_chars(v / 100).push(digit_char(d1)));
        assert(b =~= seq![digit_char(d0) as u8, digit_char(d1) as u8, digit_char(d2) as u8]);
        assert(scan_u8_digits(b, 3, v as int) == Ok::<u8, U8ParseErrorKind>(n));
        assert(scan_u8_digits(b, 2, (v / 10) as int) == scan_u8_digits(b, 3, v as int));
        assert(scan_u8_digits(b, 1, (v / 100) as int) == scan_u8_digits(b, 2, (v / 10) as int));
    } else if v >= 10 {
        assert(decimal_chars(v / 10) == seq![digit_char((v / 10) as int)]);
        assert(b =~= seq![digit_char((v / 10) as int) as u8, digit_char(d2) as u8]);
        assert(scan_u8_digits(b, 2, v as int) == Ok::<u8, U8ParseErrorKind>(n));
        assert(scan_u8_digits(b, 1, (v / 10) as int) == scan_u8_digits(b, 2, v as int));
    } else {
        assert(b =~= seq![digit_char(d2) as u8]);
        assert(scan_u8_digits(b, 1, v as int) == Ok::<u8, U8ParseErrorKind>(n));
    }
}

} // verus!
