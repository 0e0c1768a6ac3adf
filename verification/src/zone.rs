//! The times that a calendar states, and the days and instants that they mean.
#[allow(unused_imports)]
use crate::time::{is_day, is_second, SECONDS_PER_DAY};
use crate::time::{EventDate, Instant, TimeError};
use vstd::prelude::*;

verus! {

/// A date, or a date and time, as a calendar states it.
#[derive(Debug)]
pub enum CalendarTime {
    /// A whole day, by its number.
    Date(i32),
    /// A date and time in UTC.
    Utc(Instant),
    /// A date and time on the clocks of a time zone.
    WithTimezone {
        /// The seconds from the start of 1970 on those clocks.
        date_time: i64,
        /// The name of the time zone.
        tzid: String,
    },
    /// A date and time on the clocks of whoever reads it, in seconds from the start of 1970.
    Floating(i64),
}

/// What a [`CalendarTime`] holds.
pub enum CalendarTimeView {
    /// A whole day, by its number.
    Date(int),
    /// A date and time in UTC.
    Utc(Instant),
    /// A date and time on the clocks of a time zone.
    WithTimezone {
        /// The seconds from the start of 1970 on those clocks.
        date_time: int,
        /// The name of the time zone.
        tzid: Seq<char>,
    },
    /// A date and time on the clocks of whoever reads it, in seconds from the start of 1970.
    Floating(int),
}

impl View for CalendarTime {
    type V = CalendarTimeView;

    open spec fn view(&self) -> CalendarTimeView {
        match *self {
            CalendarTime::Date(day) => CalendarTimeView::Date(day as int),
            CalendarTime::Utc(instant) => CalendarTimeView::Utc(instant),
            CalendarTime::WithTimezone { date_time, tzid } => CalendarTimeView::WithTimezone {
                date_time: date_time as int,
                tzid: tzid@,
            },
            CalendarTime::Floating(date_time) => CalendarTimeView::Floating(date_time as int),
        }
    }
}

impl CalendarTimeView {
    /// Whether the date and time can be named.
    pub open spec fn well_formed(self) -> bool {
        match self {
            CalendarTimeView::Date(day) => is_day(day),
            CalendarTimeView::Utc(instant) => instant.well_formed(),
            CalendarTimeView::WithTimezone { date_time, .. } => is_second(date_time),
            CalendarTimeView::Floating(date_time) => is_second(date_time),
        }
    }
}

impl CalendarTime {
    /// A copy of this time.
    pub fn duplicate(&self) -> (r: CalendarTime)
        ensures
            r@ == self@,
    {
        match self {
            CalendarTime::Date(day) => CalendarTime::Date(*day),
            CalendarTime::Utc(instant) => CalendarTime::Utc(*instant),
            CalendarTime::WithTimezone { date_time, tzid } => CalendarTime::WithTimezone {
                date_time: *date_time,
                tzid: tzid.clone(),
            },
            CalendarTime::Floating(date_time) => CalendarTime::Floating(*date_time),
        }
    }
}

/// The instants at which the clocks of a time zone show a given date and time.
#[derive(Clone, Copy, Debug, PartialEq, Eq, Structural)]
pub enum LocalReading {
    /// The clocks skip it.
    Skipped,
    /// They show it once, at this second.
    Once(i64),
    /// They show it twice.
    Twice,
}

/// `chrono_tz::Tz`, a time zone.
#[verifier::external_type_specification]
#[verifier::external_body]
pub struct ExTz(chrono_tz::Tz);

/// The time zone of a name, as the tables of `chrono_tz` have it.
pub uninterp spec fn zone_named(tzid: Seq<char>) -> Option<chrono_tz::Tz>;

/// When the clocks of a time zone show a date and time, as `chrono_tz` knows it.
pub uninterp spec fn local_reading(zone: chrono_tz::Tz, date_time: int) -> LocalReading;

/// Calls `str::parse` for `chrono_tz::Tz`, which looks the name up in the tables of that crate.
#[verifier::external_body]
fn find_zone(tzid: &str) -> (r: Option<chrono_tz::Tz>)
    ensures
        r == zone_named(tzid@),
{
    tzid.parse::<chrono_tz::Tz>().ok()
}

/// Calls `chrono::TimeZone::from_local_datetime` of `chrono_tz::Tz`. A single instant is one that can be
/// named and lies less than a day from the reading of the clock.
#[verifier::external_body]
fn read_clock(zone: chrono_tz::Tz, date_time: i64) -> (r: LocalReading)
    requires
        is_second(date_time as int),
    ensures
        r == local_reading(zone, date_time as int),
        r matches LocalReading::Once(seconds) ==> is_second(seconds as int) && date_time
            - SECONDS_PER_DAY < seconds < date_time + SECONDS_PER_DAY,
{
    let local = chrono::DateTime::from_timestamp(date_time, 0).unwrap().naive_utc();
    match chrono::TimeZone::from_local_datetime(&zone, &local) {
        chrono::LocalResult::None => LocalReading::Skipped,
        chrono::LocalResult::Single(time) => LocalReading::Once(time.timestamp()),
        chrono::LocalResult::Ambiguous(_, _) => LocalReading::Twice,
    }
}

/// What a reading of a zone's clocks means.
pub open spec fn event_date_at(reading: LocalReading) -> Result<Option<EventDate>, TimeError> {
    match reading {
        LocalReading::Once(seconds) => Ok(
            Some(EventDate::DateTimeUtc(Instant { seconds, nanos: 0 })),
        ),
        _ => Err(TimeError::NoUniqueInstant),
    }
}

/// The day or instant that a stated time means. A time zone without an entry in the tables and a time
/// without a zone mean none; a local time that its zone skips or has twice cannot be worked out.
pub open spec fn event_date(time: CalendarTimeView) -> Result<Option<EventDate>, TimeError> {
    match time {
        CalendarTimeView::Date(day) => Ok(Some(EventDate::Date(day as i32))),
        CalendarTimeView::Utc(instant) => Ok(Some(EventDate::DateTimeUtc(instant))),
        CalendarTimeView::WithTimezone { date_time, tzid } => match zone_named(tzid) {
            None => Ok(None),
            Some(zone) => event_date_at(local_reading(zone, date_time)),
        },
        CalendarTimeView::Floating(_) => Ok(None),
    }
}

/// What a reading of a zone's clocks means.
pub fn event_date_of_reading(reading: LocalReading) -> (r: Result<Option<EventDate>, TimeError>)
    ensures
        r == event_date_at(reading),
{
    match reading {
        LocalReading::Once(seconds) => Ok(
            Some(EventDate::DateTimeUtc(Instant { seconds, nanos: 0 })),
        ),
        LocalReading::Skipped => Err(TimeError::NoUniqueInstant),
        LocalReading::Twice => Err(TimeError::NoUniqueInstant),
    }
}

/// The day or instant that a stated time means. The time must not be one that its zone skips or has
/// twice; [`checked_event_date`] tells.
pub fn to_event_date(datetime: CalendarTime) -> (r: Option<EventDate>)
    requires
        datetime@.well_formed(),
        event_date(datetime@) is Ok,
    ensures
        event_date(datetime@) == Ok::<Option<EventDate>, TimeError>(r),
        r matches Some(date) ==> date.well_formed(),
{
    match datetime {
        CalendarTime::Date(day) => Some(EventDate::Date(day)),
        CalendarTime::Utc(instant) => Some(EventDate::DateTimeUtc(instant)),
        CalendarTime::WithTimezone { date_time, tzid } => match find_zone(tzid.as_str()) {
            // Skip if the time zone is not found
            None => None,
            Some(zone) => match event_date_of_reading(read_clock(zone, date_time)) {
                Ok(date) => date,
                Err(_) => None,
            },
        },
        CalendarTime::Floating(_) => None,
    }
}

/// The day or instant that a stated time means, or why it cannot be worked out.
pub fn checked_event_date(datetime: &CalendarTime) -> (r: Result<Option<EventDate>, TimeError>)
    requires
        datetime@.well_formed(),
    ensures
        r == event_date(datetime@),
        r matches Ok(Some(date)) ==> date.well_formed(),
{
    if let CalendarTime::WithTimezone { date_time, tzid } = datetime {
        if let Some(zone) = find_zone(tzid.as_str()) {
            if let Err(error) = event_date_of_reading(read_clock(zone, *date_time)) {
                return Err(error);
            }
        }
    }
    Ok(to_event_date(datetime.duplicate()))
}

/// The day or instant that a time means where one is stated at all.
pub open spec fn optional_event_date(time: Option<CalendarTimeView>) -> Result<
    Option<EventDate>,
    TimeError,
> {
    match time {
        None => Ok(None),
        Some(time) => event_date(time),
    }
}

/// What an optional [`CalendarTime`] holds.
pub open spec fn optional_time_view(time: Option<CalendarTime>) -> Option<CalendarTimeView> {
    match time {
        None => None,
        Some(time) => Some(time@),
    }
}

/// The day or instant that a time means where one is stated at all, or why it cannot be worked out.
pub fn checked_optional_event_date(time: &Option<CalendarTime>) -> (r: Result<
    Option<EventDate>,
    TimeError,
>)
    requires
        time matches Some(time) ==> time@.well_formed(),
    ensures
        r == optional_event_date(optional_time_view(*time)),
        r matches Ok(Some(date)) ==> date.well_formed(),
{
    match time {
        None => Ok(None),
        Some(time) => checked_event_date(time),
    }
}

/// A local time means the instant at which the clocks of its zone show it, to the second, also where that
/// instant falls on another day in UTC: it means what that second means in UTC.
pub proof fn law_local_time_means_its_instant(
    date_time: int,
    tzid: Seq<char>,
    zone: chrono_tz::Tz,
    seconds: i64,
)
    requires
        zone_named(tzid) == Some(zone),
        local_reading(zone, date_time) == LocalReading::Once(seconds),
    ensures
        event_date(CalendarTimeView::WithTimezone { date_time, tzid }) == Ok::<
            Option<EventDate>,
            TimeError,
        >(Some(EventDate::DateTimeUtc(Instant { seconds, nanos: 0 }))),
        event_date(CalendarTimeView::WithTimezone { date_time, tzid }) == event_date(
            CalendarTimeView::Utc(Instant { seconds, nanos: 0 }),
        ),
{
}

/// A local time cannot be worked out exactly where its zone is known and its clocks skip it or show it
/// twice.
pub proof fn law_local_time_without_a_unique_instant_is_refused(date_time: int, tzid: Seq<char>)
    ensures
        match event_date(CalendarTimeView::WithTimezone { date_time, tzid }) {
            Err(error) => error == TimeError::NoUniqueInstant && zone_named(tzid) is Some && (
            local_reading(zone_named(tzid)->0, date_time) == LocalReading::Skipped || local_reading(
                zone_named(tzid)->0,
                date_time,
            ) == LocalReading::Twice),
            Ok(None) => zone_named(tzid) is None,
            Ok(Some(EventDate::DateTimeUtc(instant))) => zone_named(tzid) is Some && instant.nanos == 0
                && local_reading(zone_named(tzid)->0, date_time) == LocalReading::Once(
                instant.seconds,
            ),
            Ok(Some(EventDate::Date(_))) => false,
        },
{
}

/// A day means itself and an instant in UTC means itself, down to the nanosecond; a time without a zone
/// means nothing.
pub proof fn law_days_and_instants_mean_themselves(day: i32, instant: Instant, floating: int)
    ensures
        event_date(CalendarTimeView::Date(day as int)) == Ok::<Option<EventDate>, TimeError>(
            Some(EventDate::Date(day)),
        ),
        event_date(CalendarTimeView::Utc(instant)) == Ok::<Option<EventDate>, TimeError>(
            Some(EventDate::DateTimeUtc(instant)),
        ),
        event_date(CalendarTimeView::Floating(floating)) == Ok::<Option<EventDate>, TimeError>(None),
{
}

/// A time that is stated means what it means; one that is not stated means nothing.
pub proof fn law_missing_time_means_nothing(time: CalendarTimeView)
    ensures
        optional_event_date(Some(time)) == event_date(time),
        optional_event_date(None) == Ok::<Option<EventDate>, TimeError>(None),
{
}

/// The view of a stated time holds all of it.
pub proof fn law_time_view_holds_the_time(day: i32, instant: Instant, date_time: i64, tzid: String)
    ensures
        CalendarTime::Date(day)@ == CalendarTimeView::Date(day as int),
        CalendarTime::Utc(instant)@ == CalendarTimeView::Utc(instant),
        (CalendarTime::WithTimezone { date_time, tzid })@ == (CalendarTimeView::WithTimezone {
            date_time: date_time as int,
            tzid: tzid@,
        }),
        CalendarTime::Floating(date_time)@ == CalendarTimeView::Floating(date_time as int),
{
}

/// A reading of a zone's clocks means the second that it gives, and cannot be worked out where it gives
/// none or two.
pub proof fn law_single_reading_means_its_second(seconds: i64)
    ensures
        event_date_at(LocalReading::Once(seconds)) == Ok::<Option<EventDate>, TimeError>(
            Some(EventDate::DateTimeUtc(Instant { seconds, nanos: 0 })),
        ),
        event_date_at(LocalReading::Skipped) == Err::<Option<EventDate>, TimeError>(
            TimeError::NoUniqueInstant,
        ),
        event_date_at(LocalReading::Twice) == Err::<Option<EventDate>, TimeError>(
            TimeError::NoUniqueInstant,
        ),
{
}

/// A stated time can be named where its day or its second can, on whichever clocks.
pub proof fn law_which_stated_times_can_be_named(time: CalendarTimeView)
    ensures
        match time {
            CalendarTimeView::Date(day) => time.well_formed() <==> -95_746_129 <= day <= 95_745_399,
            CalendarTimeView::Utc(instant) => time.well_formed() <==> EventDate::DateTimeUtc(
                instant,
            ).well_formed(),
            CalendarTimeView::WithTimezone { date_time, .. } => time.well_formed()
                <==> -8_334_601_228_800 <= date_time <= 8_210_266_876_799,
            CalendarTimeView::Floating(date_time) => time.well_formed() <==> -8_334_601_228_800
                <= date_time <= 8_210_266_876_799,
        },
{
}

/// The view of an optional time holds the time where there is one.
pub proof fn law_optional_time_view_holds_the_time(time: CalendarTime)
    ensures
        optional_time_view(Some(time)) == Some(time@),
        optional_time_view(None) is None,
{
}

} // verus!
