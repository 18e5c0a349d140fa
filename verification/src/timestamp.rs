//! Capture timestamps: a calendar date and time of day without a zone, read
//! from a metadata tag and written into file names.

use chrono::Datelike;
use chrono::Timelike;
use std::fmt::Write;
use vstd::prelude::*;

verus! {

/// A capture timestamp, held as its calendar fields. The fraction of the
/// second is counted in nanoseconds; it is a thousand million or more
/// within a leap second, which is written as second 60.
#[derive(Debug, Clone, Copy, PartialEq, Eq, Hash, Structural)]
pub struct CaptureTime {
    pub year: i32,
    pub month: u32,
    pub day: u32,
    pub hour: u32,
    pub minute: u32,
    pub second: u32,
    pub nanosecond: u32,
}

impl CaptureTime {
    /// Whether `self` is strictly earlier than `other`: the fields compared
    /// from the year down to the nanosecond.
    pub open spec fn precedes(self, other: CaptureTime) -> bool {
        if self.year != other.year {
            self.year < other.year
        } else if self.month != other.month {
            self.month < other.month
        } else if self.day != other.day {
            self.day < other.day
        } else if self.hour != other.hour {
            self.hour < other.hour
        } else if self.minute != other.minute {
            self.minute < other.minute
        } else if self.second != other.second {
            self.second < other.second
        } else {
            self.nanosecond < other.nanosecond
        }
    }

    /// Decides `precedes`.
    pub fn is_before(&self, other: &CaptureTime) -> (r: bool)
        ensures
            r == self.precedes(*other),
    {
        if self.year != other.year {
            self.year < other.year
        } else if self.month != other.month {
            self.month < other.month
        } else if self.day != other.day {
            self.day < other.day
        } else if self.hour != other.hour {
            self.hour < other.hour
        } else if self.minute != other.minute {
            self.minute < other.minute
        } else if self.second != other.second {
            self.second < other.second
        } else {
            self.nanosecond < other.nanosecond
        }
    }
}

/// The format in which a metadata tag carries the capture time.
pub open spec fn tag_time_format() -> Seq<char> {
    "%Y:%m:%d  %H:%M:%S"@
}

/// The format in which a file name carries the capture time.
pub open spec fn name_time_format() -> Seq<char> {
    "%Y-%m-%d %H-%M-%S"@
}

/// What `chrono::NaiveDateTime::parse_from_str` reads out of `text` under
/// `format`: the fields of the timestamp, or `None` where it reports an error.
pub uninterp spec fn parsed_time(text: Seq<char>, format: Seq<char>) -> Option<CaptureTime>;

/// What `chrono::NaiveDateTime::format` writes for the timestamp with the
/// fields of `time` under `format`, or `None` where the fields name no
/// timestamp or the format cannot be written.
pub uninterp spec fn formatted_time(time: CaptureTime, format: Seq<char>) -> Option<Seq<char>>;

/// Calls `chrono::NaiveDateTime::parse_from_str` and hands out the calendar
/// fields of the timestamp it returns. Nothing is claimed of the result but
/// that it is the one that `parsed_time` names.
#[verifier::external_body]
pub(crate) fn parse_time(text: &str, format: &str) -> (r: Option<CaptureTime>)
    ensures
        r == parsed_time(text@, format@),
{
    match chrono::NaiveDateTime::parse_from_str(text, format) {
        Ok(t) => Some(
            CaptureTime {
                year: t.year(),
                month: t.month(),
                day: t.day(),
                hour: t.hour(),
                minute: t.minute(),
                second: t.second(),
                nanosecond: t.nanosecond(),
            },
        ),
        Err(_) => None,
    }
}

/// Builds the `chrono::NaiveDateTime` with the fields of `time` and calls its
/// `format`. Nothing is claimed of the text but that it is the one that
/// `formatted_time` names; `None` comes back where chrono refuses the fields
/// or the format.
#[verifier::external_body]
pub(crate) fn format_time(time: &CaptureTime, format: &str) -> (r: Option<String>)
    ensures
        match r {
            Some(s) => formatted_time(*time, format@) == Some(s@),
            None => formatted_time(*time, format@).is_none(),
        },
{
    let date = chrono::NaiveDate::from_ymd_opt(time.year, time.month, time.day)?;
    let stamp = date.and_hms_nano_opt(time.hour, time.minute, time.second, time.nanosecond)?;
    let mut out = String::new();
    write!(out, "{}", stamp.format(format)).ok()?;
    Some(out)
}

/// Reads a capture time from the text of a metadata tag.
pub fn parse_capture_time(text: &str) -> (r: Option<CaptureTime>)
    ensures
        r == parsed_time(text@, tag_time_format()),
{
    parse_time(text, "%Y:%m:%d  %H:%M:%S")
}

/// Writes a capture time the way file names carry it.
pub fn capture_time_stamp(time: &CaptureTime) -> (r: Option<String>)
    ensures
        match r {
            Some(s) => formatted_time(*time, name_time_format()) == Some(s@),
            None => formatted_time(*time, name_time_format()).is_none(),
        },
{
    format_time(time, "%Y-%m-%d %H-%M-%S")
}

} // verus!
