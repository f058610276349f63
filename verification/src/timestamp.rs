//! Moments in time as the PDF format writes them (`D:YYYYMMDDHHmmSS+HH'mm'`), and the Unix
//! epoch read from the `time` crate.
use vstd::prelude::*;
use crate::strings::{
    chars_to_string, decimal, decimal_chars, pad_with_zeros, push_chars, push_str, signed_padded_chars, signed_zero_padded,
    zero_padded,
};

verus! {

/// A moment as a date, a time of day and an offset from UTC.
#[derive(Clone, Copy, Debug, PartialEq, Eq, Structural)]
pub struct Timestamp {
    /// The year.
    pub year: i32,
    /// The month, from 1 to 12.
    pub month: u8,
    /// The day of the month.
    pub day: u8,
    /// The hour of the day.
    pub hour: u8,
    /// The minute of the hour.
    pub minute: u8,
    /// The second of the minute.
    pub second: u8,
    /// The whole hours of the offset from UTC (negative west of UTC).
    pub offset_hours: i8,
    /// The minutes past the hour of the offset from UTC (negative west of UTC).
    pub offset_minutes: i8,
    /// Whether the offset is west of UTC.
    pub offset_negative: bool,
}

/// Midnight, 1 January 1970, UTC.
pub open spec fn unix_epoch_timestamp() -> Timestamp {
    Timestamp {
        year: 1970,
        month: 1,
        day: 1,
        hour: 0,
        minute: 0,
        second: 0,
        offset_hours: 0,
        offset_minutes: 0,
        offset_negative: false,
    }
}

/// Reads `time::OffsetDateTime::UNIX_EPOCH` into its parts (`year`, `month`, `day`, `hour`,
/// `minute`, `second`, and `whole_hours`, `minutes_past_hour` and `is_negative` of its
/// `offset`). The crate documents that constant as midnight, 1 January 1970, UTC.
#[verifier::external_body]
pub(crate) fn unix_epoch() -> (t: Timestamp)
    ensures
        t == unix_epoch_timestamp(),
{
    let date = time::OffsetDateTime::UNIX_EPOCH;
    let offset = date.offset();
    Timestamp {
        year: date.year(),
        month: u8::from(date.month()),
        day: date.day(),
        hour: date.hour(),
        minute: date.minute(),
        second: date.second(),
        offset_hours: offset.whole_hours(),
        offset_minutes: offset.minutes_past_hour(),
        offset_negative: offset.is_negative(),
    }
}

/// A number written with at least two digits.
pub open spec fn two_digits(n: nat) -> Seq<char> {
    zero_padded(decimal(n), 2)
}

/// The absolute value of an integer.
pub open spec fn magnitude(v: int) -> nat {
    if v < 0 {
        (-v) as nat
    } else {
        v as nat
    }
}

/// A moment as the PDF format writes it: `D:`, the year on four digits, the month, day,
/// hour, minute and second on two digits each, the sign of the offset, the hours of the
/// offset, an apostrophe, the minutes of the offset and an apostrophe.
pub open spec fn pdf_timestamp(t: Timestamp) -> Seq<char> {
    "D:"@ + signed_zero_padded(t.year as int, 4) + two_digits(t.month as nat) + two_digits(t.day as nat)
        + two_digits(t.hour as nat) + two_digits(t.minute as nat) + two_digits(t.second as nat) + (if t.offset_negative {
        "-"@
    } else {
        "+"@
    }) + two_digits(magnitude(t.offset_hours as int)) + "'"@ + two_digits(magnitude(t.offset_minutes as int)) + "'"@
}

/// Appends a number with at least two digits.
fn push_two_digits(text: &mut Vec<char>, n: u64)
    ensures
        final(text)@ == old(text)@ + two_digits(n as nat),
{
    let digits = pad_with_zeros(decimal_chars(n), 2);
    push_chars(text, &digits);
}

/// Formats the given moment as the PDF format expects it, for instance
/// `D:20170505150224+02'00'`.
pub fn to_pdf_timestamp_format(date: &Timestamp) -> (s: String)
    requires
        date.offset_hours > i8::MIN,
        date.offset_minutes > i8::MIN,
    ensures
        s@ == pdf_timestamp(*date),
{
    let mut text = str_to_chars("D:");
    let year = signed_padded_chars(date.year as i64, 4);
    push_chars(&mut text, &year);
    push_two_digits(&mut text, date.month as u64);
    push_two_digits(&mut text, date.day as u64);
    push_two_digits(&mut text, date.hour as u64);
    push_two_digits(&mut text, date.minute as u64);
    push_two_digits(&mut text, date.second as u64);
    if date.offset_negative {
        push_str(&mut text, "-");
    } else {
        push_str(&mut text, "+");
    }
    push_two_digits(&mut text, absolute(date.offset_hours));
    push_str(&mut text, "'");
    push_two_digits(&mut text, absolute(date.offset_minutes));
    push_str(&mut text, "'");
    assert(text@ =~= pdf_timestamp(*date));
    chars_to_string(&text)
}

/// The absolute value of a number above `i8::MIN`, as `i8::abs` computes it.
fn absolute(v: i8) -> (r: u64)
    requires
        v > i8::MIN,
    ensures
        r == magnitude(v as int),
{
    if v < 0 {
        (-(v as i16)) as u64
    } else {
        v as u64
    }
}

/// The characters of a text.
fn str_to_chars(s: &str) -> (v: Vec<char>)
    ensures
        v@ == s@,
{
    crate::strings::str_chars(s)
}

} // verus!
