//! Moments and durations, and how they are written.
use vstd::prelude::*;
use vstd::string::*;
use crate::text::{padded, to_padded};

verus! {

/// A second, in nanoseconds.
pub const SECOND: u64 = 1_000_000_000;

/// A moment in UTC: the seconds since 1970 and the nanoseconds since the last of
/// them. In a leap second, which is counted with the second before it, there are
/// more than a billion nanoseconds.
#[derive(Debug, Clone, Copy, PartialEq, Eq, Structural)]
pub struct Timestamp {
    pub seconds: i64,
    pub nanos: u32,
}

impl Timestamp {
    /// Whether there is such a moment within the years that the calendar covers.
    pub open spec fn valid(self) -> bool {
        &&& -8_334_601_228_800 <= self.seconds <= 8_210_266_876_799
        &&& self.nanos < 2_000_000_000
        &&& self.nanos >= 1_000_000_000 ==> self.seconds % 60 == 59
    }

    /// Whether there is such a moment within the years that the calendar covers.
    pub fn is_valid(&self) -> (r: bool)
        ensures
            r == self.valid(),
    {
        if self.seconds < -8_334_601_228_800 || self.seconds > 8_210_266_876_799 || self.nanos
            >= 2_000_000_000 {
            return false;
        }
        // The number that is added is a multiple of sixty.
        let shifted = (self.seconds + 8_334_601_228_800) as u64;
        proof {
            assert((self.seconds + 8_334_601_228_800) % 60 == self.seconds % 60);
        }
        self.nanos < 1_000_000_000 || shifted % 60 == 59
    }

    /// The second of the day.
    pub open spec fn second_of_day(self) -> nat {
        (self.seconds % 86_400) as nat
    }
}

/// Hours, minutes and seconds as two digits each, or more for the hours.
pub open spec fn hms(hours: nat, minutes: nat, seconds: nat) -> Seq<char> {
    padded(hours, 2) + seq![':'] + padded(minutes, 2) + seq![':'] + padded(seconds, 2)
}

/// The time of day of a moment.
pub open spec fn clock_text(t: Timestamp) -> Seq<char> {
    let second = t.second_of_day();
    hms(second / 3600, second / 60 % 60, (second % 60 + t.nanos / 1_000_000_000) as nat)
}

/// Whether the year of a moment has four digits and no sign.
pub open spec fn four_digit_year(t: Timestamp) -> bool {
    -62_167_219_200 <= t.seconds <= 253_402_300_799
}

/// Whether a character is a decimal digit.
pub open spec fn is_digit(c: char) -> bool {
    '0' <= c <= '9'
}

/// The time of day of a moment as six digits.
pub open spec fn clock_digits(t: Timestamp) -> Seq<char> {
    let second = t.second_of_day();
    padded(second / 3600, 2) + padded(second / 60 % 60, 2) + padded(
        (second % 60 + t.nanos / 1_000_000_000) as nat,
        2,
    )
}

/// Whether `stamp` is a date of eight digits, a hyphen and the time of day of the
/// moment as six digits.
pub open spec fn is_stamp(stamp: Seq<char>, t: Timestamp) -> bool {
    &&& stamp.len() == 15
    &&& forall|i: int| 0 <= i < 8 ==> is_digit(#[trigger] stamp[i])
    &&& stamp[8] == '-'
    &&& stamp.skip(9) == clock_digits(t)
}

/// A moment as `DateTime::format` writes it in a pattern.
pub uninterp spec fn formatted_time(seconds: i64, nanos: u32, pattern: Seq<char>) -> Seq<char>;

/// A moment as `DateTime::to_rfc3339` writes it.
pub uninterp spec fn rfc3339(seconds: i64, nanos: u32) -> Seq<char>;

/// `chrono::DateTime::format` writes a moment in a pattern, here the time of day
/// or the date and the time of day. What it writes is a function of the moment
/// and the pattern. The time of day is hours, minutes and seconds as two digits
/// each, the leap second as 60. The date and the time of day are made of digits,
/// a hyphen and, where the year has not four digits, its sign; where it has four,
/// they are eight digits, a hyphen and the six digits of the time of day.
#[verifier::external_body]
fn format_time(t: Timestamp, pattern: &str) -> (out: String)
    requires
        t.valid(),
        pattern@ == "%H:%M:%S"@ || pattern@ == "%Y%m%d-%H%M%S"@,
    ensures
        out@ == formatted_time(t.seconds, t.nanos, pattern@),
        pattern@ == "%H:%M:%S"@ ==> out@ == clock_text(t),
        pattern@ == "%Y%m%d-%H%M%S"@ && four_digit_year(t) ==> is_stamp(out@, t),
        pattern@ == "%Y%m%d-%H%M%S"@ ==> forall|i: int|
            0 <= i < out@.len() ==> '0' <= #[trigger] out@[i] <= '9' || out@[i] == '-' || out@[i]
                == '+',
{
    let moment = chrono::DateTime::<chrono::Utc>::from_timestamp(t.seconds, t.nanos).unwrap();
    moment.format(pattern).to_string()
}

/// `chrono::DateTime::to_rfc3339` writes a moment by RFC 3339. What it writes is
/// a function of the moment.
#[verifier::external_body]
fn format_rfc3339(t: Timestamp) -> (out: String)
    requires
        t.valid(),
    ensures
        out@ == rfc3339(t.seconds, t.nanos),
{
    let moment = chrono::DateTime::<chrono::Utc>::from_timestamp(t.seconds, t.nanos).unwrap();
    moment.to_rfc3339()
}

/// Writes the time of day.
pub fn format_clock(t: Timestamp) -> (out: String)
    requires
        t.valid(),
    ensures
        out@ == clock_text(t),
{
    format_time(t, "%H:%M:%S")
}

/// The date and the time of day as they stand in the name of a file.
pub open spec fn stamp_text(t: Timestamp) -> Seq<char> {
    formatted_time(t.seconds, t.nanos, "%Y%m%d-%H%M%S"@)
}

/// Writes the date and the time of day for the name of a file; the characters
/// are digits and signs, in a year of four digits YYYYMMDD-HHMMSS.
pub fn format_stamp(t: Timestamp) -> (out: String)
    requires
        t.valid(),
    ensures
        out@ == stamp_text(t),
        four_digit_year(t) ==> is_stamp(out@, t),
        forall|i: int|
            0 <= i < out@.len() ==> '0' <= #[trigger] out@[i] <= '9' || out@[i] == '-' || out@[i]
                == '+',
{
    format_time(t, "%Y%m%d-%H%M%S")
}

/// The heading above the transcript of a session.
pub open spec fn header_text(start: Seq<char>) -> Seq<char> {
    "\n\n## Session "@ + start + "\n\n"@
}

/// Writes the heading of a session that starts at the time given.
pub fn session_heading(start: &str) -> (out: String)
    ensures
        out@ == header_text(start@),
{
    let mut out = "\n\n## Session ".to_owned();
    out.append(start);
    out.append("\n\n");
    out
}

/// Writes the heading of a session that starts now.
pub fn session_header(now: Timestamp) -> (out: String)
    requires
        now.valid(),
    ensures
        out@ == header_text(rfc3339(now.seconds, now.nanos)),
{
    session_heading(format_rfc3339(now).as_str())
}

/// A number of seconds as hours, minutes and seconds.
pub open spec fn duration_text(seconds: nat) -> Seq<char> {
    hms(seconds / 3600, seconds % 3600 / 60, seconds % 60)
}

fn write_hms(hours: u64, minutes: u64, seconds: u64) -> (out: String)
    ensures
        out@ == hms(hours as nat, minutes as nat, seconds as nat),
{
    let mut out = to_padded(hours, 2);
    out.push(':');
    out.append(to_padded(minutes, 2).as_str());
    out.push(':');
    out.append(to_padded(seconds, 2).as_str());
    proof {
        assert(out@ =~= hms(hours as nat, minutes as nat, seconds as nat));
    }
    out
}

/// Writes a duration, given in whole seconds.
pub fn format_duration(seconds: u64) -> (out: String)
    ensures
        out@ == duration_text(seconds as nat),
{
    write_hms(seconds / 3600, seconds % 3600 / 60, seconds % 60)
}

/// Writes an offset into a recording, given in milliseconds.
pub fn format_ms(ms: u64) -> (out: String)
    ensures
        out@ == duration_text(ms as nat / 1000),
{
    let total_seconds = ms / 1000;
    write_hms(total_seconds / 3600, total_seconds % 3600 / 60, total_seconds % 60)
}

// ---------------------------------------------------------------------------
// Laws
// ---------------------------------------------------------------------------

/// A duration is written as its hours, its minutes and its seconds, two digits
/// each or more for the hours.
pub proof fn law_duration(hours: nat, minutes: nat, seconds: nat)
    requires
        minutes < 60,
        seconds < 60,
    ensures
        duration_text(3600 * hours + 60 * minutes + seconds) == padded(hours, 2) + seq![':']
            + padded(minutes, 2) + seq![':'] + padded(seconds, 2),
{
    let total = 3600 * hours + 60 * minutes + seconds;
    assert(total / 3600 == hours);
    assert(total % 3600 == 60 * minutes + seconds);
    assert((60 * minutes + seconds) / 60 == minutes);
    assert(total % 60 == seconds);
}

/// The time of day is written as the hours, the minutes and the seconds since
/// midnight, two digits each.
pub proof fn law_clock(t: Timestamp, day: int, hours: nat, minutes: nat, seconds: nat)
    requires
        t.nanos < 1_000_000_000,
        hours < 24,
        minutes < 60,
        seconds < 60,
        t.seconds == 86_400 * day + 3600 * hours + 60 * minutes + seconds,
    ensures
        clock_text(t) == padded(hours, 2) + seq![':'] + padded(minutes, 2) + seq![':'] + padded(
            seconds,
            2,
        ),
{
    let second = 3600 * hours + 60 * minutes + seconds;
    assert(t.seconds as int % 86_400 == second);
    assert(second / 3600 == hours);
    assert(second / 60 == 60 * hours + minutes);
    assert((60 * hours + minutes) % 60 == minutes);
    assert(second % 60 == seconds);
}

} // verus!
