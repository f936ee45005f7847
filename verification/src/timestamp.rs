//! Timestamps in UTC.
use chrono::{Datelike, Timelike};
use vstd::prelude::*;

verus! {

/// Why a transaction could not be turned into a vector: the field that holds an
/// invalid timestamp, and what it holds.
#[derive(Debug)]
pub struct VectorizeError {
    pub field: &'static str,
    pub value: String,
}

impl VectorizeError {
    /// The error for a field and what it holds.
    pub fn invalid_timestamp(field: &'static str, value: &str) -> (error: Self)
        ensures
            error.field@ == field@,
            error.value@ == value@,
    {
        Self { field, value: value.to_owned() }
    }

    /// The error in words.
    pub fn message(&self) -> (text: String)
        ensures
            text@ == "invalid timestamp in "@ + self.field@ + ": "@ + self.value@,
    {
        let mut text: String = "invalid timestamp in ".to_owned();
        text.append(self.field);
        text.append(": ");
        text.append(self.value.as_str());
        text
    }
}

/// An instant in UTC: the seconds since the start of 1970, and the nanoseconds
/// since then. In a leap second the nanoseconds go on past a full second.
#[derive(Clone, Copy, PartialEq, Eq, Debug, Structural)]
pub struct UtcTimestamp {
    pub seconds: i64,
    pub nanos: u32,
}

/// Whether seconds and nanoseconds make an instant of the years from 0 to 9999
/// in some time zone. Only the last second of a minute can be a leap second.
pub open spec fn valid_instant(seconds: i64, nanos: u32) -> bool {
    &&& -62_167_305_600 <= seconds < 253_402_387_200
    &&& nanos < 2_000_000_000
    &&& nanos >= 1_000_000_000 ==> seconds as int % 60 == 59
}

/// The outcome of reading a text as RFC 3339: the seconds and nanoseconds of
/// the instant in UTC, if it is one.
pub uninterp spec fn rfc3339_instant(text: Seq<char>) -> Option<(i64, u32)>;

/// Declares `chrono::ParseError`, of which nothing is known.
#[verifier::external_type_specification]
#[verifier::external_body]
pub struct ExParseError(chrono::ParseError);

/// Calls `chrono::DateTime::parse_from_rfc3339`. What it accepts and the
/// instant that it reads depend on the text alone. The year has four digits and
/// an offset is less than a day, which bounds the instant; a second given as 60
/// becomes a leap second in the last second of the minute.
#[verifier::external_body]
fn parse_rfc3339(text: &str) -> (parsed: Result<(i64, u32), chrono::ParseError>)
    ensures
        rfc3339_instant(text@) == (match parsed {
            Ok(instant) => Some(instant),
            Err(_) => None,
        }),
        parsed matches Ok(instant) ==> valid_instant(instant.0, instant.1),
{
    chrono::DateTime::parse_from_rfc3339(text)
        .map(|datetime| datetime.with_timezone(&chrono::Utc))
        .map(|datetime| (datetime.timestamp(), datetime.timestamp_subsec_nanos()))
}

/// Calls `hour` on the `chrono::DateTime` of an instant: the whole hours since
/// midnight.
#[verifier::external_body]
fn hour_of(seconds: i64, nanos: u32) -> (hour: u32)
    requires
        valid_instant(seconds, nanos),
    ensures
        hour == seconds as int % 86_400 / 3_600,
{
    chrono::DateTime::from_timestamp(seconds, nanos).unwrap().hour()
}

/// Calls `weekday` on the `chrono::DateTime` of an instant, and counts the days
/// from Monday. The first day of 1970 was a Thursday.
#[verifier::external_body]
fn weekday_of(seconds: i64, nanos: u32) -> (days: u32)
    requires
        valid_instant(seconds, nanos),
    ensures
        days == (seconds as int / 86_400 + 3) % 7,
{
    chrono::DateTime::from_timestamp(seconds, nanos).unwrap().weekday().num_days_from_monday()
}

/// The nanoseconds from one instant to another. A leap second counts where the
/// time of day of the other instant is on the far side of it.
pub open spec fn elapsed_nanos(later: UtcTimestamp, earlier: UtcTimestamp) -> int {
    let later_time = later.seconds as int % 86_400;
    let earlier_time = earlier.seconds as int % 86_400;
    let leap: int = if later_time > earlier_time && earlier.nanos >= 1_000_000_000 {
        1
    } else if later_time < earlier_time && later.nanos >= 1_000_000_000 {
        -1
    } else {
        0
    };
    (later.seconds - earlier.seconds + leap) * 1_000_000_000 + (later.nanos - earlier.nanos)
}

/// The whole seconds in so many nanoseconds; what is left over is dropped.
pub open spec fn whole_seconds(nanos: int) -> int {
    if nanos >= 0 {
        nanos / 1_000_000_000
    } else {
        -(-nanos / 1_000_000_000)
    }
}

/// Calls `signed_duration_since` on the `chrono::DateTime` of one instant with
/// that of another, and takes the whole seconds of the difference.
#[verifier::external_body]
fn seconds_between(later: UtcTimestamp, earlier: UtcTimestamp) -> (seconds: i64)
    requires
        valid_instant(later.seconds, later.nanos),
        valid_instant(earlier.seconds, earlier.nanos),
    ensures
        seconds == whole_seconds(elapsed_nanos(later, earlier)),
{
    let to = chrono::DateTime::from_timestamp(later.seconds, later.nanos).unwrap();
    let from = chrono::DateTime::from_timestamp(earlier.seconds, earlier.nanos).unwrap();
    to.signed_duration_since(from).num_seconds()
}

impl UtcTimestamp {
    /// Whether this is an instant that a timestamp can stand for.
    pub open spec fn valid(self) -> bool {
        valid_instant(self.seconds, self.nanos)
    }

    /// The hour of the day.
    pub fn hour(&self) -> (hour: u32)
        requires
            self.valid(),
        ensures
            hour == self.seconds as int % 86_400 / 3_600,
            hour < 24,
    {
        hour_of(self.seconds, self.nanos)
    }

    /// The day of the week, with Monday as zero.
    pub fn day_of_week(&self) -> (days: u32)
        requires
            self.valid(),
        ensures
            days == (self.seconds as int / 86_400 + 3) % 7,
            days < 7,
    {
        weekday_of(self.seconds, self.nanos)
    }

    /// The whole seconds since another instant; negative where that one is later.
    pub fn seconds_since(&self, earlier: &UtcTimestamp) -> (seconds: i64)
        requires
            self.valid(),
            earlier.valid(),
        ensures
            seconds == whole_seconds(elapsed_nanos(*self, *earlier)),
    {
        seconds_between(*self, *earlier)
    }
}

/// The instant that a text reads as, if it is one.
pub open spec fn instant(text: Seq<char>) -> Option<UtcTimestamp> {
    match rfc3339_instant(text) {
        Some((seconds, nanos)) => Some(UtcTimestamp { seconds, nanos }),
        None => None,
    }
}

/// Reads a timestamp, where it is one.
pub fn read_timestamp(text: &str) -> (read: Option<UtcTimestamp>)
    ensures
        read == instant(text@),
        read matches Some(at) ==> at.valid(),
{
    match parse_rfc3339(text) {
        Ok((seconds, nanos)) => Some(UtcTimestamp { seconds, nanos }),
        Err(_) => None,
    }
}

/// Reads a timestamp.
pub fn parse_utc_timestamp(value: &str) -> (outcome: Result<UtcTimestamp, VectorizeError>)
    ensures
        match outcome {
            Ok(at) => instant(value@) == Some(at) && at.valid(),
            Err(error) => instant(value@) is None && error.field@ == "timestamp"@
                && error.value@ == value@,
        },
{
    match read_timestamp(value) {
        Some(at) => Ok(at),
        None => Err(VectorizeError::invalid_timestamp("timestamp", value)),
    }
}

/// The hour of the day of a timestamp, in UTC.
pub fn hour_utc(value: &str) -> (outcome: Result<u32, VectorizeError>)
    ensures
        match outcome {
            Ok(hour) => instant(value@) matches Some(at) && hour == at.seconds as int % 86_400
                / 3_600,
            Err(error) => instant(value@) is None && error.field@ == "timestamp"@
                && error.value@ == value@,
        },
{
    match parse_utc_timestamp(value) {
        Ok(at) => Ok(at.hour()),
        Err(error) => Err(error),
    }
}

/// The day of the week of a timestamp in UTC, with Monday as zero.
pub fn day_of_week_monday0(value: &str) -> (outcome: Result<u32, VectorizeError>)
    ensures
        match outcome {
            Ok(days) => instant(value@) matches Some(at) && days == (at.seconds as int / 86_400 + 3)
                % 7,
            Err(error) => instant(value@) is None && error.field@ == "timestamp"@
                && error.value@ == value@,
        },
{
    match parse_utc_timestamp(value) {
        Ok(at) => Ok(at.day_of_week()),
        Err(error) => Err(error),
    }
}

/// The time from one instant to another is the reverse of that back, and no
/// time passes from an instant to itself.
pub proof fn lemma_elapsed_time_reverses(a: UtcTimestamp, b: UtcTimestamp)
    ensures
        elapsed_nanos(a, b) == -elapsed_nanos(b, a),
        whole_seconds(elapsed_nanos(a, b)) == -whole_seconds(elapsed_nanos(b, a)),
        elapsed_nanos(a, a) == 0,
{
}

/// The whole seconds of a time are as many as it holds, in its direction.
pub proof fn lemma_whole_seconds_truncate(nanos: int)
    ensures
        nanos >= 0 ==> 0 <= 1_000_000_000 * whole_seconds(nanos) <= nanos < 1_000_000_000 * (
        whole_seconds(nanos) + 1),
        nanos <= 0 ==> 1_000_000_000 * (whole_seconds(nanos) - 1) < nanos <= 1_000_000_000
            * whole_seconds(nanos) <= 0,
{
}

/// Away from leap seconds the elapsed time is the difference of the instants. From
/// a leap second to a later time of day one second more has passed.
pub proof fn lemma_elapsed_time_is_the_difference(later: UtcTimestamp, earlier: UtcTimestamp)
    ensures
        ({
            let difference = 1_000_000_000 * later.seconds + later.nanos - (1_000_000_000
                * earlier.seconds + earlier.nanos);
            &&& later.nanos < 1_000_000_000 && earlier.nanos < 1_000_000_000 ==> elapsed_nanos(
                later,
                earlier,
            ) == difference
            &&& earlier.nanos >= 1_000_000_000 && later.seconds as int % 86_400
                > earlier.seconds as int % 86_400 ==> elapsed_nanos(later, earlier) == difference
                + 1_000_000_000
            &&& later.nanos >= 1_000_000_000 && later.seconds as int % 86_400
                < earlier.seconds as int % 86_400 ==> elapsed_nanos(later, earlier) == difference
                - 1_000_000_000
            &&& earlier.nanos >= 1_000_000_000 && later.nanos < 1_000_000_000
                && later.seconds as int % 86_400 <= earlier.seconds as int % 86_400
                ==> elapsed_nanos(later, earlier) == difference
            &&& later.seconds as int % 86_400 == earlier.seconds as int % 86_400 ==> elapsed_nanos(
                later,
                earlier,
            ) == difference
        }),
{
}

/// The instant of a text is what was read of it.
pub proof fn lemma_instant_is_what_was_read(text: Seq<char>)
    ensures
        instant(text) is Some <==> rfc3339_instant(text) is Some,
        instant(text) matches Some(at) ==> rfc3339_instant(text) == Some((at.seconds, at.nanos)),
{
}

} // verus!
