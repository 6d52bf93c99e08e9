//! A point in time within one day: an hour and a minute.

use vstd::prelude::*;

verus! {

/// Why a textual time failed to parse.
#[derive(Copy, Clone, Debug, PartialEq, Eq, Structural)]
pub enum TimeError {
    /// The text is neither four characters (`HHMM`) nor five with a colon (`HH:MM`).
    BadLength,
    /// The hour field is not two decimal digits.
    BadHour,
    /// The minute field is not two decimal digits.
    BadMinute,
    /// The hour parsed but is not below 24.
    HourOutOfRange,
    /// The minute parsed but is not below 60.
    MinuteOutOfRange,
}

/// An hour-and-minute clock time. A well-formed value has `hour < 24` and
/// `min < 60`; see [`Time::valid`]. The fields are public and constructors do
/// not enforce the bounds, so code that depends on them states `valid` itself.
#[derive(Copy, Clone, Debug, PartialEq, Eq, PartialOrd, Ord, Hash, Structural)]
pub struct Time {
    pub hour: u8,
    pub min: u8,
}

impl Time {
    /// True when the fields denote a real clock time.
    pub open spec fn valid(self) -> bool {
        self.hour < 24 && self.min < 60
    }

    /// The time as minutes past midnight.
    pub open spec fn spec_minutes(self) -> int {
        self.hour * 60 + self.min
    }

    /// Strict order: by hour, then by minute.
    pub open spec fn spec_lt(self, other: Time) -> bool {
        self.hour < other.hour || (self.hour == other.hour && self.min < other.min)
    }

    pub open spec fn spec_le(self, other: Time) -> bool {
        self.spec_lt(other) || self == other
    }

    pub fn new(hour: u8, min: u8) -> (t: Time)
        ensures
            t == (Time { hour, min }),
    {
        Time { hour, min }
    }

    /// Minutes past midnight, computed without overflow.
    pub fn minutes(&self) -> (m: u16)
        ensures
            m == self.spec_minutes(),
    {
        self.hour as u16 * 60 + self.min as u16
    }

    pub fn lt(&self, other: &Time) -> (r: bool)
        ensures
            r == self.spec_lt(*other),
    {
        self.hour < other.hour || (self.hour == other.hour && self.min < other.min)
    }

    pub fn le(&self, other: &Time) -> (r: bool)
        ensures
            r == self.spec_le(*other),
    {
        self.hour < other.hour || (self.hour == other.hour && self.min <= other.min)
    }

    /// Parses `HHMM` or `HH:MM`, rejecting out-of-range fields.
    pub fn from_str(s: &str) -> (r: Result<Time, TimeError>)
        ensures
            r == spec_parse_time(s@),
            r matches Ok(t) ==> t.valid(),
    {
        let n = s.unicode_len();
        if n == 4 {
            let h0 = s.get_char(0);
            let h1 = s.get_char(1);
            let m0 = s.get_char(2);
            let m1 = s.get_char(3);
            parse_fields(h0, h1, m0, m1)
        } else if n == 5 && s.get_char(2) == ':' {
            let h0 = s.get_char(0);
            let h1 = s.get_char(1);
            let m0 = s.get_char(3);
            let m1 = s.get_char(4);
            parse_fields(h0, h1, m0, m1)
        } else {
            Err(TimeError::BadLength)
        }
    }
}

/// True when `c` is a decimal digit.
pub open spec fn is_digit(c: char) -> bool {
    48 <= c as u32 <= 57
}

/// The numeric value of a decimal digit.
pub open spec fn digit_val(c: char) -> int {
    c as u32 - 48
}

/// The meaning of [`Time::from_str`]: four digit characters, either packed
/// (`HHMM`) or colon-separated (`HH:MM`), with the hour below 24 and the
/// minute below 60.
pub open spec fn spec_parse_time(s: Seq<char>) -> Result<Time, TimeError> {
    if s.len() == 4 {
        spec_parse_fields(s[0], s[1], s[2], s[3])
    } else if s.len() == 5 && s[2] == ':' {
        spec_parse_fields(s[0], s[1], s[3], s[4])
    } else {
        Err(TimeError::BadLength)
    }
}

pub open spec fn spec_parse_fields(h0: char, h1: char, m0: char, m1: char) -> Result<
    Time,
    TimeError,
> {
    if !(is_digit(h0) && is_digit(h1)) {
        Err(TimeError::BadHour)
    } else if !(is_digit(m0) && is_digit(m1)) {
        Err(TimeError::BadMinute)
    } else {
        let h = digit_val(h0) * 10 + digit_val(h1);
        let m = digit_val(m0) * 10 + digit_val(m1);
        if h >= 24 {
            Err(TimeError::HourOutOfRange)
        } else if m >= 60 {
            Err(TimeError::MinuteOutOfRange)
        } else {
            Ok(Time { hour: h as u8, min: m as u8 })
        }
    }
}

fn digit(c: char) -> (r: Option<u8>)
    ensures
        is_digit(c) ==> r == Some((digit_val(c)) as u8),
        !is_digit(c) ==> r is None,
{
    let v = c as u32;
    if 48 <= v && v <= 57 {
        Some((v - 48) as u8)
    } else {
        None
    }
}

fn parse_fields(h0: char, h1: char, m0: char, m1: char) -> (r: Result<Time, TimeError>)
    ensures
        r == spec_parse_fields(h0, h1, m0, m1),
        r matches Ok(t) ==> t.valid(),
{
    let hd0 = digit(h0);
    let hd1 = digit(h1);
    let (hd0, hd1) = match (hd0, hd1) {
        (Some(a), Some(b)) => (a, b),
        _ => {
            return Err(TimeError::BadHour);
        },
    };
    let md0 = digit(m0);
    let md1 = digit(m1);
    let (md0, md1) = match (md0, md1) {
        (Some(a), Some(b)) => (a, b),
        _ => {
            return Err(TimeError::BadMinute);
        },
    };
    let h = hd0 * 10 + hd1;
    let m = md0 * 10 + md1;
    if h >= 24 {
        Err(TimeError::HourOutOfRange)
    } else if m >= 60 {
        Err(TimeError::MinuteOutOfRange)
    } else {
        Ok(Time { hour: h, min: m })
    }
}

} // verus!
