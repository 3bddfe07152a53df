//! Primitive values read from text.
use vstd::prelude::*;

verus! {

/// An ASCII decimal digit.
pub open spec fn is_digit(c: char) -> bool {
    '0' <= c <= '9'
}

/// The value of a run of decimal digits.
pub open spec fn digits_value(s: Seq<char>) -> int
    decreases s.len(),
{
    if s.len() == 0 {
        0
    } else {
        digits_value(s.drop_last()) * 10 + (s.last() as int - '0' as int)
    }
}

/// One or more decimal digits.
pub open spec fn all_digits(s: Seq<char>) -> bool {
    s.len() > 0 && forall|i: int| 0 <= i < s.len() ==> is_digit(#[trigger] s[i])
}

/// The integer that `s` writes in decimal: an optional `+` (or `-`, where `signed`) before one
/// or more digits, and nothing else.
pub open spec fn decimal_of(s: Seq<char>, signed: bool) -> Option<int> {
    if s.len() > 0 && s[0] == '+' && all_digits(s.drop_first()) {
        Some(digits_value(s.drop_first()))
    } else if signed && s.len() > 0 && s[0] == '-' && all_digits(s.drop_first()) {
        Some(-digits_value(s.drop_first()))
    } else if all_digits(s) {
        Some(digits_value(s))
    } else {
        None
    }
}

/// `s` writes in decimal an integer between `lo` and `hi`.
pub open spec fn decimal_in(s: Seq<char>, signed: bool, lo: int, hi: int) -> bool {
    match decimal_of(s, signed) {
        Some(n) => lo <= n <= hi,
        None => false,
    }
}

/// The text of the error that `str::parse::<bool>` gives for `s`.
pub uninterp spec fn bool_parse_error(s: Seq<char>) -> Seq<char>;

/// Relies on `str::parse::<bool>`: exactly `true` and `false` are accepted; otherwise the text
/// of its error.
#[verifier::external_body]
pub(crate) fn parse_bool(s: &str) -> (r: Result<bool, String>)
    ensures
        match r {
            Ok(b) => (s@ == "true"@ && b) || (s@ == "false"@ && !b),
            Err(m) => s@ != "true"@ && s@ != "false"@ && m@ == bool_parse_error(s@),
        },
{
    match s.parse::<bool>() {
        Ok(b) => Ok(b),
        Err(e) => Err(e.to_string()),
    }
}

/// The text of the error that `str::parse::<u8>` gives for `s`.
pub uninterp spec fn u8_parse_error(s: Seq<char>) -> Seq<char>;

/// Relies on `str::parse::<u8>`: an optional `+` before decimal digits, whose value must
/// fit; otherwise the text of its error.
#[verifier::external_body]
pub(crate) fn parse_u8(s: &str) -> (r: Result<u8, String>)
    ensures
        match r {
            Ok(n) => decimal_of(s@, false) == Some(n as int),
            Err(m) => !decimal_in(s@, false, 0 as int, u8::MAX as int) && m@ == u8_parse_error(s@),
        },
{
    match s.parse::<u8>() {
        Ok(n) => Ok(n),
        Err(e) => Err(e.to_string()),
    }
}

/// The text of the error that `str::parse::<u16>` gives for `s`.
pub uninterp spec fn u16_parse_error(s: Seq<char>) -> Seq<char>;

/// Relies on `str::parse::<u16>`: an optional `+` before decimal digits, whose value must
/// fit; otherwise the text of its error.
#[verifier::external_body]
pub(crate) fn parse_u16(s: &str) -> (r: Result<u16, String>)
    ensures
        match r {
            Ok(n) => decimal_of(s@, false) == Some(n as int),
            Err(m) => !decimal_in(s@, false, 0 as int, u16::MAX as int) && m@ == u16_parse_error(s@),
        },
{
    match s.parse::<u16>() {
        Ok(n) => Ok(n),
        Err(e) => Err(e.to_string()),
    }
}

/// The text of the error that `str::parse::<u32>` gives for `s`.
pub uninterp spec fn u32_parse_error(s: Seq<char>) -> Seq<char>;

/// Relies on `str::parse::<u32>`: an optional `+` before decimal digits, whose value must
/// fit; otherwise the text of its error.
#[verifier::external_body]
pub(crate) fn parse_u32(s: &str) -> (r: Result<u32, String>)
    ensures
        match r {
            Ok(n) => decimal_of(s@, false) == Some(n as int),
            Err(m) => !decimal_in(s@, false, 0 as int, u32::MAX as int) && m@ == u32_parse_error(s@),
        },
{
    match s.parse::<u32>() {
        Ok(n) => Ok(n),
        Err(e) => Err(e.to_string()),
    }
}

/// The text of the error that `str::parse::<u64>` gives for `s`.
pub uninterp spec fn u64_parse_error(s: Seq<char>) -> Seq<char>;

/// Relies on `str::parse::<u64>`: an optional `+` before decimal digits, whose value must
/// fit; otherwise the text of its error.
#[verifier::external_body]
pub(crate) fn parse_u64(s: &str) -> (r: Result<u64, String>)
    ensures
        match r {
            Ok(n) => decimal_of(s@, false) == Some(n as int),
            Err(m) => !decimal_in(s@, false, 0 as int, u64::MAX as int) && m@ == u64_parse_error(s@),
        },
{
    match s.parse::<u64>() {
        Ok(n) => Ok(n),
        Err(e) => Err(e.to_string()),
    }
}

/// The text of the error that `str::parse::<i8>` gives for `s`.
pub uninterp spec fn i8_parse_error(s: Seq<char>) -> Seq<char>;

/// Relies on `str::parse::<i8>`: an optional `+` or `-` before decimal digits, whose value must
/// fit; otherwise the text of its error.
#[verifier::external_body]
pub(crate) fn parse_i8(s: &str) -> (r: Result<i8, String>)
    ensures
        match r {
            Ok(n) => decimal_of(s@, true) == Some(n as int),
            Err(m) => !decimal_in(s@, true, i8::MIN as int, i8::MAX as int) && m@ == i8_parse_error(s@),
        },
{
    match s.parse::<i8>() {
        Ok(n) => Ok(n),
        Err(e) => Err(e.to_string()),
    }
}

/// The text of the error that `str::parse::<i16>` gives for `s`.
pub uninterp spec fn i16_parse_error(s: Seq<char>) -> Seq<char>;

/// Relies on `str::parse::<i16>`: an optional `+` or `-` before decimal digits, whose value must
/// fit; otherwise the text of its error.
#[verifier::external_body]
pub(crate) fn parse_i16(s: &str) -> (r: Result<i16, String>)
    ensures
        match r {
            Ok(n) => decimal_of(s@, true) == Some(n as int),
            Err(m) => !decimal_in(s@, true, i16::MIN as int, i16::MAX as int) && m@ == i16_parse_error(s@),
        },
{
    match s.parse::<i16>() {
        Ok(n) => Ok(n),
        Err(e) => Err(e.to_string()),
    }
}

/// The text of the error that `str::parse::<i32>` gives for `s`.
pub uninterp spec fn i32_parse_error(s: Seq<char>) -> Seq<char>;

/// Relies on `str::parse::<i32>`: an optional `+` or `-` before decimal digits, whose value must
/// fit; otherwise the text of its error.
#[verifier::external_body]
pub(crate) fn parse_i32(s: &str) -> (r: Result<i32, String>)
    ensures
        match r {
            Ok(n) => decimal_of(s@, true) == Some(n as int),
            Err(m) => !decimal_in(s@, true, i32::MIN as int, i32::MAX as int) && m@ == i32_parse_error(s@),
        },
{
    match s.parse::<i32>() {
        Ok(n) => Ok(n),
        Err(e) => Err(e.to_string()),
    }
}

/// The text of the error that `str::parse::<i64>` gives for `s`.
pub uninterp spec fn i64_parse_error(s: Seq<char>) -> Seq<char>;

/// Relies on `str::parse::<i64>`: an optional `+` or `-` before decimal digits, whose value must
/// fit; otherwise the text of its error.
#[verifier::external_body]
pub(crate) fn parse_i64(s: &str) -> (r: Result<i64, String>)
    ensures
        match r {
            Ok(n) => decimal_of(s@, true) == Some(n as int),
            Err(m) => !decimal_in(s@, true, i64::MIN as int, i64::MAX as int) && m@ == i64_parse_error(s@),
        },
{
    match s.parse::<i64>() {
        Ok(n) => Ok(n),
        Err(e) => Err(e.to_string()),
    }
}

} // verus!
