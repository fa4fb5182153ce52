//! Video clips: the time window of a clip, from its file name and duration.
//!
//! A clip is named `NO{YYYYMMDD}-{HHMMSS}-...F.MP4` after the civil date and
//! time at which its recording began.

use vstd::prelude::*;
use substring::Substring;
use crate::text::{chars_of, copy_range, i32_field, parse_i32_field, parse_u32_field, split_on,
    split_ranges, text_of, u32_field,
};
use crate::timeline::VideoWindow;

verus! {

/// The year is a leap year of the Gregorian calendar.
pub open spec fn is_leap_year(y: int) -> bool {
    (y % 4 == 0 && y % 100 != 0) || y % 400 == 0
}

/// The number of days of month `m` (1 to 12) of year `y`.
pub open spec fn days_in_month(y: int, m: int) -> int {
    if m == 2 {
        if is_leap_year(y) {
            29
        } else {
            28
        }
    } else if m == 4 || m == 6 || m == 9 || m == 11 {
        30
    } else {
        31
    }
}

/// The days of year `y` before the first of month `m`.
pub open spec fn days_before_month(y: int, m: int) -> int
    decreases m,
{
    if m <= 1 {
        0
    } else {
        days_before_month(y, m - 1) + days_in_month(y, m - 1)
    }
}

/// The number of leap years from year 1 up to, not including, year `y`
/// (negative below year 1).
pub open spec fn leap_years_before(y: int) -> int {
    (y - 1) / 4 - (y - 1) / 100 + (y - 1) / 400
}

/// Days from 1970-01-01 to the given date.
pub open spec fn days_from_epoch(y: int, m: int, d: int) -> int {
    365 * (y - 1970) + (leap_years_before(y) - leap_years_before(1970)) + days_before_month(y, m) + d
        - 1
}

/// Seconds from 1970-01-01T00:00:00 to the given civil date and time.
pub open spec fn civil_seconds(y: int, m: int, d: int, hour: int, minute: int, second: int) -> int {
    days_from_epoch(y, m, d) * 86400 + hour * 3600 + minute * 60 + second
}

/// A date and time that exists, in the span of years that the calendar
/// library represents (-262143 to 262142).
pub open spec fn civil_valid(y: int, m: int, d: int, hour: int, minute: int, second: int) -> bool {
    &&& -262_143 <= y <= 262_142
    &&& 1 <= m <= 12
    &&& 1 <= d <= days_in_month(y, m)
    &&& 0 <= hour < 24
    &&& 0 <= minute < 60
    &&& 0 <= second < 60
}

/// Relies on chrono's `NaiveDate::from_ymd_opt`, `NaiveDate::and_hms_opt`
/// and `NaiveDateTime::and_utc().timestamp()`: the seconds from the epoch to
/// a civil date and time of the proleptic Gregorian calendar, or `None` where
/// that date or time does not exist or the year is out of chrono's range.
#[verifier::external_body]
fn civil_timestamp(year: i32, month: u32, day: u32, hour: u32, minute: u32, second: u32) -> (r:
    Option<i64>)
    ensures
        r is Some <==> civil_valid(
            year as int,
            month as int,
            day as int,
            hour as int,
            minute as int,
            second as int,
        ),
        r matches Some(t) ==> t == civil_seconds(
            year as int,
            month as int,
            day as int,
            hour as int,
            minute as int,
            second as int,
        ),
{
    let date = chrono::NaiveDate::from_ymd_opt(year, month, day)?;
    let time = date.and_hms_opt(hour, minute, second)?;
    Some(time.and_utc().timestamp())
}

/// What `substring::Substring::substring` takes: the characters from index
/// `start` up to `end`, both clamped to the length, and none unless
/// `start < end`.
pub open spec fn char_slice(s: Seq<char>, start: int, end: int) -> Seq<char> {
    if start < end {
        s.subrange(
            if start < s.len() {
                start
            } else {
                s.len() as int
            },
            if end < s.len() {
                end
            } else {
                s.len() as int
            },
        )
    } else {
        Seq::empty()
    }
}

/// Relies on `substring::Substring::substring`: the characters of `s` from
/// index `start` up to `end`, both clamped to its length, and none unless
/// `start < end`.
#[verifier::external_body]
fn char_range<'a>(s: &'a str, start: usize, end: usize) -> (r: &'a str)
    ensures
        r@ == char_slice(s@, start as int, end as int),
{
    s.substring(start, end)
}

/// The civil date and time at which a clip began.
#[derive(Clone, Copy, Debug, PartialEq, Eq, Structural)]
pub struct ClipStamp {
    pub year: i32,
    pub month: u32,
    pub day: u32,
    pub hour: u32,
    pub minute: u32,
    pub second: u32,
}

/// The part of a clip's name between `NO` and `F.MP4`, if it has both.
pub open spec fn name_core(name: Seq<char>) -> Option<Seq<char>> {
    if name.len() >= 7 && name.take(2) == seq!['N', 'O'] && name.skip(name.len() - 5) == seq![
        'F',
        '.',
        'M',
        'P',
        '4',
    ] {
        Some(name.subrange(2, name.len() - 5))
    } else {
        None
    }
}

/// The date and time written in a clip's name: after `NO`, eight characters
/// of date (`YYYYMMDD`), a `-`, six of time (`HHMMSS`), and anything up to
/// `F.MP4`; each number read as the calendar library's integer type.
pub open spec fn clip_stamp_of(name: Seq<char>) -> Option<ClipStamp> {
    match name_core(name) {
        None => None,
        Some(core) => {
            let parts = split_on(core, '-');
            if parts.len() < 2 {
                None
            } else {
                let date = parts[0];
                let time = parts[1];
                let year = i32_field(char_slice(date, 0, 4));
                let month = u32_field(char_slice(date, 4, 6));
                let day = u32_field(char_slice(date, 6, 8));
                let hour = u32_field(char_slice(time, 0, 2));
                let minute = u32_field(char_slice(time, 2, 4));
                let second = u32_field(char_slice(time, 4, 6));
                if year is Some && month is Some && day is Some && hour is Some && minute is Some
                    && second is Some {
                    Some(
                        ClipStamp {
                            year: year.unwrap(),
                            month: month.unwrap(),
                            day: day.unwrap(),
                            hour: hour.unwrap(),
                            minute: minute.unwrap(),
                            second: second.unwrap(),
                        },
                    )
                } else {
                    None
                }
            }
        },
    }
}

fn read_u32_slice(s: &str, start: usize, end: usize) -> (r: Option<u32>)
    ensures
        r == u32_field(char_slice(s@, start as int, end as int)),
{
    let part = chars_of(char_range(s, start, end));
    assert(part@.subrange(0, part@.len() as int) =~= part@);
    parse_u32_field(&part, 0, part.len())
}

fn read_i32_slice(s: &str, start: usize, end: usize) -> (r: Option<i32>)
    ensures
        r == i32_field(char_slice(s@, start as int, end as int)),
{
    let part = chars_of(char_range(s, start, end));
    assert(part@.subrange(0, part@.len() as int) =~= part@);
    parse_i32_field(&part, 0, part.len())
}

/// Reads the date and time at which a clip began from its file name.
pub fn parse_clip_name(file_name: &str) -> (r: Option<ClipStamp>)
    ensures
        r == clip_stamp_of(file_name@),
{
    let s = chars_of(file_name);
    let n = s.len();
    if n < 7 || s[0] != 'N' || s[1] != 'O' || s[n - 5] != 'F' || s[n - 4] != '.' || s[n - 3] != 'M'
        || s[n - 2] != 'P' || s[n - 1] != '4' {
        proof {
            if n >= 7 {
                if s@.take(2) == seq!['N', 'O'] {
                    assert(s@[0] == s@.take(2)[0] && s@[1] == s@.take(2)[1]);
                }
                if s@.skip(n - 5) == seq!['F', '.', 'M', 'P', '4'] {
                    assert(s@[n - 5] == s@.skip(n - 5)[0]);
                    assert(s@[n - 4] == s@.skip(n - 5)[1]);
                    assert(s@[n - 3] == s@.skip(n - 5)[2]);
                    assert(s@[n - 2] == s@.skip(n - 5)[3]);
                    assert(s@[n - 1] == s@.skip(n - 5)[4]);
                }
            }
        }
        return None;
    }
    assert(s@.take(2) =~= seq!['N', 'O']);
    assert(s@.skip(n - 5) =~= seq!['F', '.', 'M', 'P', '4']);
    let parts = split_ranges(&s, 2, n - 5, '-');
    if parts.len() < 2 {
        return None;
    }
    let date = text_of(&copy_range(&s, parts[0].0, parts[0].1));
    let time = text_of(&copy_range(&s, parts[1].0, parts[1].1));
    let year = read_i32_slice(date.as_str(), 0, 4);
    let month = read_u32_slice(date.as_str(), 4, 6);
    let day = read_u32_slice(date.as_str(), 6, 8);
    let hour = read_u32_slice(time.as_str(), 0, 2);
    let minute = read_u32_slice(time.as_str(), 2, 4);
    let second = read_u32_slice(time.as_str(), 4, 6);
    match (year, month, day, hour, minute, second) {
        (Some(year), Some(month), Some(day), Some(hour), Some(minute), Some(second)) => Some(
            ClipStamp { year, month, day, hour, minute, second },
        ),
        _ => None,
    }
}

/// Why a clip's window could not be made.
#[derive(Clone, Copy, Debug, PartialEq, Eq, Structural)]
pub enum ClipError {
    /// The file name is not that of a clip.
    NotAClipName,
    /// The name's date or time does not exist.
    InvalidDateTime,
    /// The window does not fit in the trace's timestamps.
    OutOfRange,
}

/// The seconds from the epoch at which a clip that began at `st` began.
pub open spec fn stamp_seconds(st: ClipStamp) -> int {
    civil_seconds(
        st.year as int,
        st.month as int,
        st.day as int,
        st.hour as int,
        st.minute as int,
        st.second as int,
    )
}

/// The stamp is a date and time that exists.
pub open spec fn stamp_valid(st: ClipStamp) -> bool {
    civil_valid(
        st.year as int,
        st.month as int,
        st.day as int,
        st.hour as int,
        st.minute as int,
        st.second as int,
    )
}

/// The window `(start, start + duration]` of the clip named `name`, `start`
/// being its stamp shifted by `clock_offset` seconds onto the trace's clock.
pub open spec fn clip_window_of(name: Seq<char>, clock_offset: i64, duration: u64) -> Result<
    (u32, u32),
    ClipError,
> {
    match clip_stamp_of(name) {
        None => Err(ClipError::NotAClipName),
        Some(st) => if !stamp_valid(st) {
            Err(ClipError::InvalidDateTime)
        } else {
            let start = stamp_seconds(st) + clock_offset;
            let end = start + duration;
            if 0 <= start && end <= u32::MAX {
                Ok((start as u32, end as u32))
            } else {
                Err(ClipError::OutOfRange)
            }
        },
    }
}

/// The window of the clip named `file_name`, which lasts `duration` whole
/// seconds, on the trace's clock (`clock_offset` seconds from the camera's);
/// the name is its label.
pub fn clip_window(file_name: &str, clock_offset: i64, duration: u64) -> (r: Result<
    VideoWindow,
    ClipError,
>)
    ensures
        match clip_window_of(file_name@, clock_offset, duration) {
            Ok((start, end)) => r is Ok && r.unwrap().start_timestamp == start
                && r.unwrap().end_timestamp == end && r.unwrap().label@ == file_name@
                && r.unwrap().wf(),
            Err(e) => r is Err && r->Err_0 == e,
        },
{
    let st = match parse_clip_name(file_name) {
        Some(st) => st,
        None => {
            return Err(ClipError::NotAClipName);
        },
    };
    let t = match civil_timestamp(st.year, st.month, st.day, st.hour, st.minute, st.second) {
        Some(t) => t,
        None => {
            return Err(ClipError::InvalidDateTime);
        },
    };
    let start = t as i128 + clock_offset as i128;
    let end = start + duration as i128;
    if 0 <= start && end <= u32::MAX as i128 {
        let label = text_of(&chars_of(file_name));
        Ok(VideoWindow { start_timestamp: start as u32, end_timestamp: end as u32, label })
    } else {
        Err(ClipError::OutOfRange)
    }
}

/// The ASCII lower case of `c`.
pub open spec fn ascii_lower(c: char) -> char {
    if 'A' <= c && c <= 'Z' {
        ((c as u32) + 32) as char
    } else {
        c
    }
}

/// A file name whose extension, in ASCII lower case, is `mp4`: something,
/// then `.mp4` in any case.
pub open spec fn is_video_name(name: Seq<char>) -> bool {
    &&& name.len() >= 5
    &&& name[name.len() - 4] == '.'
    &&& ascii_lower(name[name.len() - 3]) == 'm'
    &&& ascii_lower(name[name.len() - 2]) == 'p'
    &&& name[name.len() - 1] == '4'
}

/// Whether `file_name` names a video clip by its extension.
pub fn is_video_file(file_name: &str) -> (r: bool)
    ensures
        r == is_video_name(file_name@),
{
    let s = chars_of(file_name);
    let n = s.len();
    n >= 5 && s[n - 4] == '.' && (s[n - 3] == 'm' || s[n - 3] == 'M') && (s[n - 2] == 'p' || s[n
        - 2] == 'P') && s[n - 1] == '4'
}

} // verus!
