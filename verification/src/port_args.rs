//! Command-line arguments of the port tools: single ports (`:3000` or
//! `3000`) and port ranges (`3000-3010`).
use vstd::prelude::*;

use crate::text::{
    append_chars, append_str, chars_of, decimal, digit_char, digit_value, is_digit,
    parse_unsigned, parse_unsigned_exec, read_digits, slice_chars, split_on, split_on_char,
    string_of, views, IntErrorKind,
};

verus! {

/// Why a port argument of `pw` was refused.
#[derive(Debug, Clone, PartialEq, Eq)]
pub enum PortArgError {
    /// The text (without its `:`) is not a port number.
    InvalidPort(String),
    /// The range does not have exactly one `-`.
    InvalidRangeFormat,
    /// The start of the range is not a port number.
    InvalidStartPort(String),
    /// The end of the range is not a port number.
    InvalidEndPort(String),
    /// The start of the range is after its end.
    StartAfterEnd,
}

impl PortArgError {
    /// The message shown for the error.
    pub fn message(&self) -> (r: String)
        ensures
            r@ == port_arg_message(*self),
    {
        let mut out: Vec<char> = Vec::new();
        match self {
            PortArgError::InvalidPort(s) => {
                append_str(&mut out, "Invalid port: ");
                append_chars(&mut out, &chars_of(s.as_str()));
            },
            PortArgError::InvalidRangeFormat => {
                append_str(&mut out, "Invalid range format. Use START-END, e.g. 3000-3010");
            },
            PortArgError::InvalidStartPort(s) => {
                append_str(&mut out, "Invalid start port: ");
                append_chars(&mut out, &chars_of(s.as_str()));
            },
            PortArgError::InvalidEndPort(s) => {
                append_str(&mut out, "Invalid end port: ");
                append_chars(&mut out, &chars_of(s.as_str()));
            },
            PortArgError::StartAfterEnd => {
                append_str(&mut out, "Start port must be <= end port");
            },
        }
        string_of(&out)
    }
}

/// The message of each port argument error.
pub open spec fn port_arg_message(e: PortArgError) -> Seq<char> {
    match e {
        PortArgError::InvalidPort(s) => "Invalid port: "@ + s@,
        PortArgError::InvalidRangeFormat => "Invalid range format. Use START-END, e.g. 3000-3010"@,
        PortArgError::InvalidStartPort(s) => "Invalid start port: "@ + s@,
        PortArgError::InvalidEndPort(s) => "Invalid end port: "@ + s@,
        PortArgError::StartAfterEnd => "Start port must be <= end port"@,
    }
}

/// The text of a port argument without one leading `:`.
pub open spec fn port_text(s: Seq<char>) -> Seq<char> {
    if s.len() > 0 && s[0] == ':' {
        s.drop_first()
    } else {
        s
    }
}

/// A port number in text form, as `str::parse::<u16>` reads it.
pub open spec fn parse_port_spec(t: Seq<char>) -> Result<nat, IntErrorKind> {
    parse_unsigned(t, 65535)
}

/// Parses a port such as `:3000` or `3000`.
pub fn parse_port(s: &str) -> (r: Result<u16, PortArgError>)
    ensures
        match r {
            Ok(p) => parse_port_spec(port_text(s@)) == Ok::<nat, IntErrorKind>(p as nat),
            Err(e) => parse_port_spec(port_text(s@)) is Err && (e matches PortArgError::InvalidPort(
                t,
            ) && t@ == port_text(s@)),
        },
{
    let v = chars_of(s);
    let t = if v.len() > 0 && v[0] == ':' {
        let t = slice_chars(&v, 1, v.len());
        assert(t@ =~= v@.drop_first());
        t
    } else {
        v
    };
    match parse_unsigned_exec(&t, 65535) {
        Ok(n) => Ok(n as u16),
        Err(_) => Err(PortArgError::InvalidPort(string_of(&t))),
    }
}

/// Parses a port range such as `3000-3010`.
pub fn parse_range(s: &str) -> (r: Result<(u16, u16), PortArgError>)
    ensures
        ({
            let parts = split_on(s@, '-');
            match r {
                Ok((a, b)) => parts.len() == 2 && parse_port_spec(parts[0]) == Ok::<
                    nat,
                    IntErrorKind,
                >(a as nat) && parse_port_spec(parts[1]) == Ok::<nat, IntErrorKind>(b as nat)
                    && a <= b,
                Err(PortArgError::InvalidRangeFormat) => parts.len() != 2,
                Err(PortArgError::InvalidStartPort(t)) => parts.len() == 2 && parse_port_spec(
                    parts[0],
                ) is Err && t@ == parts[0],
                Err(PortArgError::InvalidEndPort(t)) => parts.len() == 2 && parse_port_spec(
                    parts[0],
                ) is Ok && parse_port_spec(parts[1]) is Err && t@ == parts[1],
                Err(PortArgError::StartAfterEnd) => parts.len() == 2 && ((parse_port_spec(parts[0]),
                parse_port_spec(parts[1])) matches (Ok(a), Ok(b)) && a > b),
                Err(PortArgError::InvalidPort(_)) => false,
            }
        }),
{
    let v = chars_of(s);
    let parts = split_on_char(&v, '-');
    let ghost ps = split_on(s@, '-');
    assert(views(parts@) == ps);
    if parts.len() != 2 {
        return Err(PortArgError::InvalidRangeFormat);
    }
    assert(parts@[0]@ == ps[0] && parts@[1]@ == ps[1]);
    let start = match parse_unsigned_exec(&parts[0], 65535) {
        Ok(n) => n as u16,
        Err(_) => {
            return Err(PortArgError::InvalidStartPort(string_of(&parts[0])));
        },
    };
    let end = match parse_unsigned_exec(&parts[1], 65535) {
        Ok(n) => n as u16,
        Err(_) => {
            return Err(PortArgError::InvalidEndPort(string_of(&parts[1])));
        },
    };
    if start > end {
        return Err(PortArgError::StartAfterEnd);
    }
    Ok((start, end))
}

// ---------------------------------------------------------------------
// Decimal round trip
// ---------------------------------------------------------------------

pub proof fn lemma_decimal_digits(n: nat)
    ensures
        decimal(n).len() > 0,
        forall|i: int| 0 <= i < decimal(n).len() ==> is_digit(#[trigger] decimal(n)[i]),
    decreases n,
{
    if n >= 10 {
        lemma_decimal_digits(n / 10);
        assert forall|i: int| 0 <= i < decimal(n).len() implies is_digit(#[trigger] decimal(n)[i]) by {
            if i < decimal(n / 10).len() {
                assert(decimal(n)[i] == decimal(n / 10)[i]);
            }
        }
    }
}

proof fn lemma_read_push(s: Seq<char>, c: char, i: int, acc: nat, max: nat)
    requires
        0 <= i <= s.len(),
    ensures
        read_digits(s.push(c), i, acc, max) == match read_digits(s, i, acc, max) {
            Ok(a) => if !is_digit(c) {
                Err(IntErrorKind::InvalidDigit)
            } else if a * 10 + digit_value(c) > max {
                Err(IntErrorKind::PosOverflow)
            } else {
                Ok(a * 10 + digit_value(c))
            },
            Err(e) => Err(e),
        },
    decreases s.len() - i,
{
    let t = s.push(c);
    if i < s.len() {
        assert(t[i] == s[i]);
        if is_digit(s[i]) && acc * 10 + digit_value(s[i]) <= max {
            lemma_read_push(s, c, i + 1, acc * 10 + digit_value(s[i]), max);
        }
    } else {
        assert(t[i] == c);
        if is_digit(c) && acc * 10 + digit_value(c) <= max {
            assert(read_digits(t, i + 1, acc * 10 + digit_value(c), max) == Ok::<nat, IntErrorKind>(
                acc * 10 + digit_value(c),
            ));
        }
    }
}

proof fn lemma_digit_char(d: nat)
    requires
        d < 10,
    ensures
        is_digit(digit_char(d)),
        digit_value(digit_char(d)) == d,
{
}

proof fn lemma_read_decimal(n: nat, max: nat)
    requires
        n <= max,
    ensures
        read_digits(decimal(n), 0, 0, max) == Ok::<nat, IntErrorKind>(n),
    decreases n,
{
    if n < 10 {
        lemma_digit_char(n);
        let s = decimal(n);
        assert(s[0] == digit_char(n));
        assert(read_digits(s, 1, n, max) == Ok::<nat, IntErrorKind>(n));
    } else {
        lemma_read_decimal(n / 10, max);
        lemma_digit_char(n % 10);
        lemma_read_push(decimal(n / 10), digit_char(n % 10), 0, 0, max);
        assert((n / 10) * 10 + n % 10 == n);
    }
}

/// Parsing the decimal form of a number no larger than the type's maximum
/// gives the number back.
pub proof fn law_parse_decimal_round_trip(n: nat, max: nat)
    requires
        n <= max,
    ensures
        parse_unsigned(decimal(n), max) == Ok::<nat, IntErrorKind>(n),
{
    lemma_decimal_digits(n);
    lemma_read_decimal(n, max);
    let s = decimal(n);
    assert(is_digit(s[0]));
}

/// A port written as `:` followed by its decimal form reads back as that
/// port.
pub proof fn law_port_round_trip(p: u16)
    ensures
        parse_port_spec(port_text(seq![':'] + decimal(p as nat))) == Ok::<nat, IntErrorKind>(p as nat),
{
    let s = seq![':'] + decimal(p as nat);
    assert(port_text(s) =~= decimal(p as nat));
    law_parse_decimal_round_trip(p as nat, 65535);
}

/// Why a `--ports START-END` filter of `procmap` was refused.
#[derive(Debug, Clone, Copy, PartialEq, Eq, Structural)]
pub enum PortRangeError {
    /// The text does not have exactly one `-`.
    BadForm,
    /// One side is not a port number.
    BadPort(IntErrorKind),
    /// The start is after the end.
    StartAfterEnd,
}

impl PortRangeError {
    /// The message shown for the error.
    pub fn message(&self) -> (r: String)
        ensures
            r@ == range_error_message(*self),
    {
        match self {
            PortRangeError::BadForm => String::from_str(
                "port range must be in the form START-END, e.g. 3000-9000",
            ),
            PortRangeError::BadPort(k) => k.message(),
            PortRangeError::StartAfterEnd => String::from_str("start port must be <= end port"),
        }
    }
}

/// The message of each range error.
pub open spec fn range_error_message(e: PortRangeError) -> Seq<char> {
    match e {
        PortRangeError::BadForm => "port range must be in the form START-END, e.g. 3000-9000"@,
        PortRangeError::BadPort(k) => crate::text::int_error_message(k),
        PortRangeError::StartAfterEnd => "start port must be <= end port"@,
    }
}

/// What `parse_port_range` gives for a text.
pub open spec fn port_range_spec(s: Seq<char>) -> Result<(u16, u16), PortRangeError> {
    let parts = split_on(s, '-');
    if parts.len() != 2 {
        Err(PortRangeError::BadForm)
    } else {
        match parse_port_spec(parts[0]) {
            Err(k) => Err(PortRangeError::BadPort(k)),
            Ok(a) => match parse_port_spec(parts[1]) {
                Err(k) => Err(PortRangeError::BadPort(k)),
                Ok(b) => if a > b {
                    Err(PortRangeError::StartAfterEnd)
                } else {
                    Ok((a as u16, b as u16))
                },
            },
        }
    }
}

/// Parses a port range filter such as `3000-9000`.
pub fn parse_port_range(s: &str) -> (r: Result<(u16, u16), PortRangeError>)
    ensures
        r == port_range_spec(s@),
{
    let v = chars_of(s);
    let parts = split_on_char(&v, '-');
    let ghost ps = split_on(s@, '-');
    assert(views(parts@) == ps);
    if parts.len() != 2 {
        return Err(PortRangeError::BadForm);
    }
    assert(parts@[0]@ == ps[0] && parts@[1]@ == ps[1]);
    let start = match parse_unsigned_exec(&parts[0], 65535) {
        Ok(n) => n as u16,
        Err(k) => {
            return Err(PortRangeError::BadPort(k));
        },
    };
    let end = match parse_unsigned_exec(&parts[1], 65535) {
        Ok(n) => n as u16,
        Err(k) => {
            return Err(PortRangeError::BadPort(k));
        },
    };
    if start > end {
        return Err(PortRangeError::StartAfterEnd);
    }
    Ok((start, end))
}

/// An accepted range never starts after it ends.
pub proof fn law_range_ordered(s: Seq<char>)
    ensures
        port_range_spec(s) matches Ok((a, b)) ==> a <= b,
{
    let parts = split_on(s, '-');
    if parts.len() == 2 {
        crate::text::lemma_parse_unsigned_bound(parts[0], 65535);
        crate::text::lemma_parse_unsigned_bound(parts[1], 65535);
    }
}

} // verus!
