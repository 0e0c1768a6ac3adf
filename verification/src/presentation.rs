//! Events as the web page shows them.
use crate::calendar::{copy_text, CalendarEvent};
#[allow(unused_imports)]
use crate::calendar::{optional_text, CalendarEventView};
use crate::clock::{elapsed, format_rfc3339, format_time, local_offset};
#[allow(unused_imports)]
use crate::clock::{
    day_and_month, decimal, elapsed_nanos, field_text, hour_and_minute, is_date_of, is_plain_pattern,
    law_date_and_time_are_written_one_after_the_other, law_date_is_written_as_day_month_year,
    law_date_is_written_as_year_month_day, law_different_seconds_are_written_differently,
    law_time_is_written_as_hour_and_minute, offset_on, rendered, rfc3339_text, year_month_day, year_text,
};
#[allow(unused_imports)]
use crate::links::location_url;
use crate::links::url_for_location;
use crate::spaces::Space;
#[allow(unused_imports)]
use crate::spaces::{space_views, SpaceView};
#[allow(unused_imports)]
use crate::time::{
    civil, day_number, first_second, is_date, is_day, law_civil_undoes_day_number,
    law_every_day_has_a_date, law_first_second_falls_on_its_day, law_years_of_days, Civil,
    NANOS_PER_SECOND,
};
use crate::time::{seconds_from_day, EventDate, Instant, TimeError, MIN_DAY, SECONDS_PER_DAY};
use crate::zone::checked_optional_event_date;
#[allow(unused_imports)]
use crate::zone::optional_event_date;
use vstd::prelude::*;

verus! {

/// Where an event is held.
#[derive(Clone, Debug)]
pub struct Location {
    /// The location as the calendar states it.
    pub string: String,
    /// A link to it.
    pub url: String,
}

/// What a [`Location`] holds.
pub struct LocationView {
    /// The location as the calendar states it.
    pub string: Seq<char>,
    /// A link to it.
    pub url: Seq<char>,
}

/// An event as the web page shows it.
#[derive(Clone, Debug)]
pub struct Event {
    /// What the event is called.
    pub summary: String,
    /// When it is held, for people.
    pub date: String,
    /// When it begins, for programs.
    pub start_iso8601: String,
    /// When it ends, for programs; for whole days, the day after the last one.
    pub end_iso8601: String,
    /// Where it is held.
    pub location: Option<Location>,
    /// What it is about.
    pub description: Option<String>,
}

/// What an [`Event`] holds.
pub struct EventView {
    /// What the event is called.
    pub summary: Seq<char>,
    /// When it is held, for people.
    pub date: Seq<char>,
    /// When it begins, for programs.
    pub start_iso8601: Seq<char>,
    /// When it ends, for programs; for whole days, the day after the last one.
    pub end_iso8601: Seq<char>,
    /// Where it is held.
    pub location: Option<LocationView>,
    /// What it is about.
    pub description: Option<Seq<char>>,
}

impl View for Location {
    type V = LocationView;

    open spec fn view(&self) -> LocationView {
        LocationView { string: self.string@, url: self.url@ }
    }
}

/// What an optional location holds.
pub open spec fn optional_location(location: Option<Location>) -> Option<LocationView> {
    match location {
        None => None,
        Some(location) => Some(location@),
    }
}

impl View for Event {
    type V = EventView;

    open spec fn view(&self) -> EventView {
        EventView {
            summary: self.summary@,
            date: self.date@,
            start_iso8601: self.start_iso8601@,
            end_iso8601: self.end_iso8601@,
            location: optional_location(self.location),
            description: optional_text(self.description),
        }
    }
}

/// How many seconds the reader's clocks are ahead of UTC when an event begins and when it ends.
#[derive(Clone, Copy, Debug, PartialEq, Eq, Structural)]
pub struct LocalOffsets {
    /// When the event begins.
    pub start: i32,
    /// When it ends.
    pub end: i32,
}

impl LocalOffsets {
    /// Whether clocks can be that far from UTC: less than a day.
    pub open spec fn well_formed(self) -> bool {
        &&& -SECONDS_PER_DAY < self.start < SECONDS_PER_DAY
        &&& -SECONDS_PER_DAY < self.end < SECONDS_PER_DAY
    }
}

/// The text of a day.
pub open spec fn day_text(pattern: Seq<char>, day: int) -> Seq<char> {
    rendered(pattern, first_second(day))
}

/// The days of an event, for people: the day, or the first and the last one. The end is the day after
/// the last one.
pub open spec fn days_text(start: int, end: int) -> Seq<char> {
    if end - start == 1 {
        day_text("%d/%m/%Y"@, start)
    } else {
        day_text("%d/%m/%Y"@, start) + " - "@ + day_text("%d/%m/%Y"@, end - 1)
    }
}

/// The time of an event on the reader's clocks, for people: the day and the times where it lasts less
/// than a day, else the days with the times.
pub open spec fn times_text(start: Instant, end: Instant, offsets: LocalOffsets) -> Seq<char> {
    let from = start.seconds + offsets.start;
    let to = end.seconds + offsets.end;
    if elapsed_nanos(start, end) < SECONDS_PER_DAY * NANOS_PER_SECOND {
        rendered("%d/%m/%Y"@, from) + " "@ + rendered("%H:%M"@, from) + " - "@ + rendered("%H:%M"@, to)
    } else {
        rendered("%d/%m/%Y %H:%M"@, from) + " - "@ + rendered("%d/%m %H:%M"@, to)
    }
}

/// The location of an event with a link to it.
pub open spec fn linked_location(location: Option<Seq<char>>, spaces: Seq<SpaceView>) -> Option<
    LocationView,
> {
    match location {
        None => None,
        Some(location) => Some(
            LocationView { string: location, url: location_url(location, spaces) },
        ),
    }
}

/// An event as the web page shows it. There is nothing to show where it has no summary, does not state
/// both times, or states one as a day and one as an instant.
pub open spec fn shown(
    event: CalendarEventView,
    spaces: Seq<SpaceView>,
    offsets: LocalOffsets,
) -> Result<Option<EventView>, TimeError> {
    match (optional_event_date(event.start), optional_event_date(event.end)) {
        (Err(error), _) => Err(error),
        (_, Err(error)) => Err(error),
        (Ok(start), Ok(end)) => match (event.summary, start, end) {
            (Some(summary), Some(EventDate::Date(start)), Some(EventDate::Date(end))) => if end
                == MIN_DAY {
                Err(TimeError::OutOfRange)
            } else {
                Ok(
                    Some(
                        EventView {
                            summary,
                            date: days_text(start as int, end as int),
                            start_iso8601: day_text("%Y-%m-%d"@, start as int),
                            end_iso8601: day_text("%Y-%m-%d"@, end as int),
                            location: linked_location(event.location, spaces),
                            description: event.description,
                        },
                    ),
                )
            },
            (
                Some(summary),
                Some(EventDate::DateTimeUtc(start)),
                Some(EventDate::DateTimeUtc(end)),
            ) => Ok(
                Some(
                    EventView {
                        summary,
                        date: times_text(start, end, offsets),
                        start_iso8601: rfc3339_text(start),
                        end_iso8601: rfc3339_text(end),
                        location: linked_location(event.location, spaces),
                        description: event.description,
                    },
                ),
            ),
            _ => Ok(None),
        },
    }
}

proof fn lemma_patterns_are_plain()
    ensures
        is_plain_pattern("%Y-%m-%d"@),
        is_plain_pattern("%d/%m/%Y"@),
        is_plain_pattern("%H:%M"@),
        is_plain_pattern("%d/%m/%Y %H:%M"@),
        is_plain_pattern("%d/%m %H:%M"@),
{
    reveal_with_fuel(is_plain_pattern, 11);
    reveal_strlit("%Y-%m-%d");
    reveal_strlit("%d/%m/%Y");
    reveal_strlit("%H:%M");
    reveal_strlit("%d/%m/%Y %H:%M");
    reveal_strlit("%d/%m %H:%M");
}

/// The text of a day.
fn format_day(day: i32, pattern: &str) -> (r: String)
    requires
        is_day(day as int),
        is_plain_pattern(pattern@),
    ensures
        r@ == day_text(pattern@, day as int),
{
    format_time(seconds_from_day(day), 0, pattern)
}

/// The days of an event, for people.
fn format_days(start: i32, end: i32) -> (r: String)
    requires
        is_day(start as int),
        is_day(end as int),
        end > MIN_DAY,
    ensures
        r@ == days_text(start as int, end as int),
{
    proof {
        lemma_patterns_are_plain();
    }
    let mut text = format_day(start, "%d/%m/%Y");
    if end as i64 - start as i64 != 1 {
        let real_end: i32 = end - 1;
        text.append(" - ");
        text.append(format_day(real_end, "%d/%m/%Y").as_str());
    }
    text
}

/// The time of an event on the reader's clocks, for people.
fn format_times(start: Instant, end: Instant, offsets: LocalOffsets) -> (r: String)
    requires
        start.well_formed(),
        end.well_formed(),
        offsets.well_formed(),
    ensures
        r@ == times_text(start, end, offsets),
{
    proof {
        lemma_patterns_are_plain();
    }
    let (seconds, _nanos): (i64, i32) = elapsed(start, end);
    if seconds < SECONDS_PER_DAY {
        let mut text = format_time(start.seconds, offsets.start, "%d/%m/%Y");
        text.append(" ");
        text.append(format_time(start.seconds, offsets.start, "%H:%M").as_str());
        text.append(" - ");
        text.append(format_time(end.seconds, offsets.end, "%H:%M").as_str());
        text
    } else {
        let mut text = format_time(start.seconds, offsets.start, "%d/%m/%Y %H:%M");
        text.append(" - ");
        text.append(format_time(end.seconds, offsets.end, "%d/%m %H:%M").as_str());
        text
    }
}

/// The location of an event with a link to it.
fn link_location(location: &Option<String>, spaces: &Vec<Space>) -> (r: Option<Location>)
    ensures
        optional_location(r) == linked_location(optional_text(*location), space_views(spaces@)),
{
    match location {
        None => None,
        Some(location) => Some(
            Location {
                string: location.clone(),
                url: url_for_location(location.as_str(), spaces),
            },
        ),
    }
}

/// What an optional shown event holds.
pub open spec fn optional_shown(event: Option<Event>) -> Option<EventView> {
    match event {
        None => None,
        Some(event) => Some(event@),
    }
}

/// Shows an event to a reader whose clocks have the given offsets.
pub fn show_event(event: &CalendarEvent, spaces: &Vec<Space>, offsets: LocalOffsets) -> (r: Result<
    Option<Event>,
    TimeError,
>)
    requires
        event@.well_formed(),
        offsets.well_formed(),
    ensures
        match r {
            Ok(entry) => shown(event@, space_views(spaces@), offsets) == Ok::<
                Option<EventView>,
                TimeError,
            >(optional_shown(entry)),
            Err(error) => shown(event@, space_views(spaces@), offsets) == Err::<
                Option<EventView>,
                TimeError,
            >(error),
        },
{
    let start = match checked_optional_event_date(&event.start) {
        Ok(start) => start,
        Err(error) => {
            return Err(error);
        },
    };
    let end = match checked_optional_event_date(&event.end) {
        Ok(end) => end,
        Err(error) => {
            return Err(error);
        },
    };
    let summary = match &event.summary {
        Some(summary) => summary.clone(),
        // Skip event if required values are missing
        None => {
            return Ok(None);
        },
    };
    proof {
        lemma_patterns_are_plain();
    }
    let (date, start_iso8601, end_iso8601): (String, String, String) = match (start, end) {
        (Some(EventDate::Date(start)), Some(EventDate::Date(end))) => {
            if end == MIN_DAY {
                return Err(TimeError::OutOfRange);
            }
            (format_days(start, end), format_day(start, "%Y-%m-%d"), format_day(end, "%Y-%m-%d"))
        },
        (Some(EventDate::DateTimeUtc(start)), Some(EventDate::DateTimeUtc(end))) => {
            (format_times(start, end, offsets), format_rfc3339(start), format_rfc3339(end))
        },
        // Skip if event start and end are expressed in differing formats, or when parsing fails
        _ => {
            return Ok(None);
        },
    };
    Ok(
        Some(
            Event {
                summary,
                date,
                start_iso8601,
                end_iso8601,
                location: link_location(&event.location, spaces),
                description: copy_text(&event.description),
            },
        ),
    )
}

/// Whether an offset is one that this machine's clocks can have at a time; it is zero where the time is no
/// instant.
pub open spec fn is_offset_at(date: Result<Option<EventDate>, TimeError>, offset: int) -> bool {
    match date {
        Ok(Some(EventDate::DateTimeUtc(instant))) => exists|machine: int|
            offset == #[trigger] offset_on(machine, instant.seconds as int),
        _ => offset == 0,
    }
}

/// Whether offsets are such as this machine's clocks can have when an event begins and when it ends.
pub open spec fn possible_offsets(event: CalendarEventView, offsets: LocalOffsets) -> bool {
    &&& offsets.well_formed()
    &&& is_offset_at(optional_event_date(event.start), offsets.start as int)
    &&& is_offset_at(optional_event_date(event.end), offsets.end as int)
}

/// The offset of this machine's clocks at a time; zero where the time is no instant.
fn offset_at(date: Result<Option<EventDate>, TimeError>) -> (r: i32)
    requires
        date matches Ok(Some(date)) ==> date.well_formed(),
    ensures
        is_offset_at(date, r as int),
        -SECONDS_PER_DAY < r < SECONDS_PER_DAY,
{
    match date {
        Ok(Some(EventDate::DateTimeUtc(instant))) => local_offset(instant.seconds),
        _ => 0,
    }
}

/// The offsets of this machine's clocks when an event begins and when it ends.
pub fn local_offsets(event: &CalendarEvent) -> (r: LocalOffsets)
    requires
        event@.well_formed(),
    ensures
        possible_offsets(event@, r),
{
    LocalOffsets {
        start: offset_at(checked_optional_event_date(&event.start)),
        end: offset_at(checked_optional_event_date(&event.end)),
    }
}

/// What an event is called, what it is about and where it is held is shown as the calendar states it.
pub proof fn law_shown_event_is_the_event(
    event: CalendarEventView,
    spaces: Seq<SpaceView>,
    offsets: LocalOffsets,
)
    requires
        shown(event, spaces, offsets) matches Ok(Some(_)),
    ensures
        shown(event, spaces, offsets) matches Ok(Some(entry)) && event.summary == Some(entry.summary)
            && event.description == entry.description && (match entry.location {
            Some(location) => event.location == Some(location.string),
            None => event.location is None,
        }),
{
}

/// An event of whole days is shown alike to readers anywhere.
pub proof fn law_whole_days_are_shown_alike(
    event: CalendarEventView,
    spaces: Seq<SpaceView>,
    here: LocalOffsets,
    there: LocalOffsets,
)
    requires
        optional_event_date(event.end) matches Ok(Some(EventDate::Date(_))),
    ensures
        shown(event, spaces, here) == shown(event, spaces, there),
{
}

/// A day is shown to people as the day and the month with two digits each and the year.
pub proof fn law_day_is_shown_as_day_month_year(date: Civil)
    requires
        is_date(date.year, date.month, date.day),
    ensures
        day_text("%d/%m/%Y"@, day_number(date.year, date.month, date.day)) == decimal(
            date.day as nat,
            2,
        ) + seq!['/'] + decimal(date.month as nat, 2) + seq!['/'] + year_text(date.year),
{
    let day = day_number(date.year, date.month, date.day);
    law_civil_undoes_day_number(date);
    law_first_second_falls_on_its_day(day);
    reveal_strlit("%d/%m/%Y");
    let p = "%d/%m/%Y"@;
    let t = first_second(day);
    lemma_field_then(p, t);
    lemma_sign_then(p.skip(2), t);
    lemma_field_then(p.skip(2).skip(1), t);
    lemma_sign_then(p.skip(2).skip(1).skip(2), t);
    lemma_field_then(p.skip(2).skip(1).skip(2).skip(1), t);
    assert(p.skip(2).skip(1).skip(2).skip(1).skip(2) =~= Seq::<char>::empty());
    assert(day_text(p, day) =~= decimal(date.day as nat, 2) + seq!['/'] + decimal(
        date.month as nat,
        2,
    ) + seq!['/'] + year_text(date.year));
}

proof fn lemma_field_then(pattern: Seq<char>, seconds: int)
    requires
        pattern.len() >= 2,
        pattern[0] == '%',
    ensures
        rendered(pattern, seconds) == field_text(pattern[1], seconds) + rendered(
            pattern.skip(2),
            seconds,
        ),
{
}

proof fn lemma_sign_then(pattern: Seq<char>, seconds: int)
    requires
        pattern.len() >= 1,
        pattern[0] != '%',
    ensures
        rendered(pattern, seconds) == seq![pattern[0]] + rendered(pattern.skip(1), seconds),
{
}

/// A date for people: day, month and year.
pub open spec fn day_month_year(date: Civil) -> Seq<char> {
    day_and_month(date) + seq!['/'] + year_text(date.year)
}

proof fn lemma_date_of_first_second(date: Civil, day: int)
    requires
        is_date(date.year, date.month, date.day),
        day_number(date.year, date.month, date.day) == day,
    ensures
        is_date_of(date, first_second(day)),
        day_text("%d/%m/%Y"@, day) == day_month_year(date),
        day_text("%Y-%m-%d"@, day) == year_month_day(date),
{
    law_first_second_falls_on_its_day(day);
    law_date_is_written_as_day_month_year(date, first_second(day));
    law_date_is_written_as_year_month_day(date, first_second(day));
}

/// An event with a summary whose start and end mean days is shown: programs read the first day and the day
/// after the last one, people the first day and, where there are more, the last one.
pub proof fn law_event_of_days_is_shown(
    event: CalendarEventView,
    spaces: Seq<SpaceView>,
    offsets: LocalOffsets,
    summary: Seq<char>,
    start: i32,
    end: i32,
    first: Civil,
    last: Civil,
    after: Civil,
)
    requires
        event.summary == Some(summary),
        optional_event_date(event.start) == Ok::<Option<EventDate>, TimeError>(
            Some(EventDate::Date(start)),
        ),
        optional_event_date(event.end) == Ok::<Option<EventDate>, TimeError>(
            Some(EventDate::Date(end)),
        ),
        end > -95_746_129,
        is_date(first.year, first.month, first.day),
        is_date(last.year, last.month, last.day),
        is_date(after.year, after.month, after.day),
        day_number(first.year, first.month, first.day) == start,
        day_number(last.year, last.month, last.day) == end - 1,
        day_number(after.year, after.month, after.day) == end,
    ensures
        shown(event, spaces, offsets) matches Ok(Some(entry)) && {
            &&& entry.summary == summary
            &&& entry.description == event.description
            &&& entry.start_iso8601 == year_month_day(first)
            &&& entry.end_iso8601 == year_month_day(after)
            &&& end == start + 1 ==> entry.date == day_month_year(first)
            &&& end != start + 1 ==> entry.date == day_month_year(first) + seq![' ', '-', ' ']
                + day_month_year(last)
        },
{
    reveal_strlit(" - ");
    assert(" - "@ =~= seq![' ', '-', ' ']);
    lemma_date_of_first_second(first, start as int);
    lemma_date_of_first_second(last, end - 1);
    lemma_date_of_first_second(after, end as int);
}

/// An event with a summary whose start and end mean instants is shown: programs read both instants in UTC,
/// people the times on the reader's clocks, with the second date where the event lasts a day or more.
pub proof fn law_event_of_instants_is_shown(
    event: CalendarEventView,
    spaces: Seq<SpaceView>,
    offsets: LocalOffsets,
    summary: Seq<char>,
    start: Instant,
    end: Instant,
    from: Civil,
    to: Civil,
)
    requires
        event.summary == Some(summary),
        optional_event_date(event.start) == Ok::<Option<EventDate>, TimeError>(
            Some(EventDate::DateTimeUtc(start)),
        ),
        optional_event_date(event.end) == Ok::<Option<EventDate>, TimeError>(
            Some(EventDate::DateTimeUtc(end)),
        ),
        is_date_of(from, start.seconds + offsets.start),
        is_date_of(to, end.seconds + offsets.end),
    ensures
        shown(event, spaces, offsets) matches Ok(Some(entry)) && {
            &&& entry.summary == summary
            &&& entry.description == event.description
            &&& entry.start_iso8601 == rfc3339_text(start)
            &&& entry.end_iso8601 == rfc3339_text(end)
            &&& elapsed_nanos(start, end) < 86_400_000_000_000 ==> entry.date == day_month_year(from)
                + seq![' '] + hour_and_minute(start.seconds + offsets.start) + seq![' ', '-', ' ']
                + hour_and_minute(end.seconds + offsets.end)
            &&& elapsed_nanos(start, end) >= 86_400_000_000_000 ==> entry.date == day_month_year(from)
                + seq![' '] + hour_and_minute(start.seconds + offsets.start) + seq![' ', '-', ' ']
                + day_and_month(to) + seq![' '] + hour_and_minute(end.seconds + offsets.end)
        },
{
    reveal_strlit(" - ");
    reveal_strlit(" ");
    assert(" - "@ =~= seq![' ', '-', ' ']);
    assert(" "@ =~= seq![' ']);
    let a = start.seconds + offsets.start;
    let b = end.seconds + offsets.end;
    law_date_is_written_as_day_month_year(from, a);
    law_time_is_written_as_hour_and_minute(a);
    law_time_is_written_as_hour_and_minute(b);
    law_date_and_time_are_written_one_after_the_other(from, a);
    law_date_and_time_are_written_one_after_the_other(to, b);
    let short = day_month_year(from) + seq![' '] + hour_and_minute(a) + seq![' ', '-', ' ']
        + hour_and_minute(b);
    let long = day_month_year(from) + seq![' '] + hour_and_minute(a) + seq![' ', '-', ' ']
        + day_and_month(to) + seq![' '] + hour_and_minute(b);
    assert(rendered("%d/%m/%Y"@, a) + " "@ + rendered("%H:%M"@, a) + " - "@ + rendered("%H:%M"@, b)
        =~= short);
    assert(rendered("%d/%m/%Y %H:%M"@, a) + " - "@ + rendered("%d/%m %H:%M"@, b) =~= long);
}

/// Two shown events that end at different seconds, of years with four digits, end differently for
/// programs, and likewise for their starts.
pub proof fn law_shown_times_tell_events_apart(
    a: CalendarEventView,
    b: CalendarEventView,
    spaces: Seq<SpaceView>,
    offsets_a: LocalOffsets,
    offsets_b: LocalOffsets,
    start_a: Instant,
    start_b: Instant,
    end_a: Instant,
    end_b: Instant,
)
    requires
        optional_event_date(a.start) == Ok::<Option<EventDate>, TimeError>(
            Some(EventDate::DateTimeUtc(start_a)),
        ),
        optional_event_date(b.start) == Ok::<Option<EventDate>, TimeError>(
            Some(EventDate::DateTimeUtc(start_b)),
        ),
        optional_event_date(a.end) == Ok::<Option<EventDate>, TimeError>(
            Some(EventDate::DateTimeUtc(end_a)),
        ),
        optional_event_date(b.end) == Ok::<Option<EventDate>, TimeError>(
            Some(EventDate::DateTimeUtc(end_b)),
        ),
        shown(a, spaces, offsets_a) matches Ok(Some(_)),
        shown(b, spaces, offsets_b) matches Ok(Some(_)),
        start_a.nanos == 0 && start_b.nanos == 0 && end_a.nanos == 0 && end_b.nanos == 0,
        -62_167_219_200 <= start_a.seconds <= 253_402_300_799,
        -62_167_219_200 <= start_b.seconds <= 253_402_300_799,
        -62_167_219_200 <= end_a.seconds <= 253_402_300_799,
        -62_167_219_200 <= end_b.seconds <= 253_402_300_799,
    ensures
        ({
            let x = shown(a, spaces, offsets_a)->Ok_0->0;
            let y = shown(b, spaces, offsets_b)->Ok_0->0;
            &&& x.end_iso8601 == y.end_iso8601 <==> end_a.seconds == end_b.seconds
            &&& x.start_iso8601 == y.start_iso8601 <==> start_a.seconds == start_b.seconds
        }),
{
    let x = shown(a, spaces, offsets_a)->Ok_0->0;
    let y = shown(b, spaces, offsets_b)->Ok_0->0;
    assert(x.start_iso8601 == rfc3339_text(start_a) && x.end_iso8601 == rfc3339_text(end_a));
    assert(y.start_iso8601 == rfc3339_text(start_b) && y.end_iso8601 == rfc3339_text(end_b));
    lemma_seconds_read_back(start_a, start_b);
    lemma_seconds_read_back(end_a, end_b);
}

proof fn lemma_plain_year(seconds: int) -> (date: Civil)
    requires
        -62_167_219_200 <= seconds <= 253_402_300_799,
    ensures
        is_date_of(date, seconds),
        0 <= date.year <= 9999,
{
    let day = 719_163 + seconds / 86_400;
    law_every_day_has_a_date(day);
    let date = civil(day);
    law_years_of_days(date);
    date
}

proof fn lemma_seconds_read_back(a: Instant, b: Instant)
    requires
        a.nanos == 0,
        b.nanos == 0,
        -62_167_219_200 <= a.seconds <= 253_402_300_799,
        -62_167_219_200 <= b.seconds <= 253_402_300_799,
    ensures
        rfc3339_text(a) == rfc3339_text(b) <==> a.seconds == b.seconds,
{
    let date_a = lemma_plain_year(a.seconds as int);
    let date_b = lemma_plain_year(b.seconds as int);
    if rfc3339_text(a) == rfc3339_text(b) {
        law_different_seconds_are_written_differently(a, b, date_a, date_b);
    }
    if a.seconds == b.seconds {
        assert(a == b);
    }
}

/// What cannot be worked out cannot be shown; of the rest, an event is shown exactly where it has a summary
/// and its start and end mean two days or two instants. Only the first day of all cannot be an end.
pub proof fn law_what_is_shown(
    event: CalendarEventView,
    spaces: Seq<SpaceView>,
    offsets: LocalOffsets,
)
    ensures
        match (optional_event_date(event.start), optional_event_date(event.end)) {
            (Err(error), _) => shown(event, spaces, offsets) == Err::<Option<EventView>, TimeError>(
                error,
            ),
            (Ok(_), Err(error)) => shown(event, spaces, offsets) == Err::<Option<EventView>, TimeError>(
                error,
            ),
            (Ok(Some(EventDate::Date(_))), Ok(Some(EventDate::Date(end)))) => {
                &&& event.summary is None ==> shown(event, spaces, offsets) == Ok::<
                    Option<EventView>,
                    TimeError,
                >(None)
                &&& event.summary is Some && end == -95_746_129 ==> shown(event, spaces, offsets) == Err::<
                    Option<EventView>,
                    TimeError,
                >(TimeError::OutOfRange)
                &&& event.summary is Some && end != -95_746_129 ==> (shown(
                    event,
                    spaces,
                    offsets,
                ) matches Ok(Some(_)))
            },
            (Ok(Some(EventDate::DateTimeUtc(_))), Ok(Some(EventDate::DateTimeUtc(_)))) => {
                &&& event.summary is None ==> shown(event, spaces, offsets) == Ok::<
                    Option<EventView>,
                    TimeError,
                >(None)
                &&& event.summary is Some ==> (shown(event, spaces, offsets) matches Ok(Some(_)))
            },
            _ => shown(event, spaces, offsets) == Ok::<Option<EventView>, TimeError>(None),
        },
{
}

/// The location of a shown event is stated as in the calendar, with the link of the location; without a
/// location there is none.
pub proof fn law_shown_location_is_linked(
    event: CalendarEventView,
    spaces: Seq<SpaceView>,
    offsets: LocalOffsets,
)
    requires
        shown(event, spaces, offsets) matches Ok(Some(_)),
    ensures
        shown(event, spaces, offsets) matches Ok(Some(entry)) && match event.location {
            Some(location) => entry.location == Some(
                LocationView { string: location, url: location_url(location, spaces) },
            ),
            None => entry.location is None,
        },
{
}

/// Offsets that this machine can have for an event are those of its clocks at the second at which the event
/// begins and at the second at which it ends; days have none.
pub proof fn law_offsets_belong_to_the_times(event: CalendarEventView, offsets: LocalOffsets)
    requires
        possible_offsets(event, offsets),
    ensures
        optional_event_date(event.start) matches Ok(Some(EventDate::DateTimeUtc(start)))
            ==> exists|machine: int| offsets.start == #[trigger] offset_on(machine, start.seconds as int),
        optional_event_date(event.end) matches Ok(Some(EventDate::DateTimeUtc(end)))
            ==> exists|machine: int| offsets.end == #[trigger] offset_on(machine, end.seconds as int),
        optional_event_date(event.start) matches Ok(Some(EventDate::Date(_))) ==> offsets.start == 0,
        optional_event_date(event.end) matches Ok(Some(EventDate::Date(_))) ==> offsets.end == 0,
        -86_400 < offsets.start < 86_400,
        -86_400 < offsets.end < 86_400,
{
}

/// The view of a shown event holds all that is shown.
pub proof fn law_event_view_holds_the_event(event: Event)
    ensures
        event@.summary == event.summary@,
        event@.date == event.date@,
        event@.start_iso8601 == event.start_iso8601@,
        event@.end_iso8601 == event.end_iso8601@,
        match (event.location, event@.location) {
            (Some(location), Some(view)) => view.string == location.string@ && view.url
                == location.url@,
            (None, None) => true,
            _ => false,
        },
        match (event.description, event@.description) {
            (Some(description), Some(view)) => view == description@,
            (None, None) => true,
            _ => false,
        },
{
}

/// Programs read of a shown event when it begins and when it ends: the two instants, each in full, or the
/// two days, each as year, month and day.
pub proof fn law_programs_read_both_times(
    event: CalendarEventView,
    spaces: Seq<SpaceView>,
    offsets: LocalOffsets,
)
    requires
        shown(event, spaces, offsets) matches Ok(Some(_)),
    ensures
        shown(event, spaces, offsets) matches Ok(Some(entry)) && {
            &&& optional_event_date(event.start) matches Ok(Some(EventDate::DateTimeUtc(start)))
                ==> entry.start_iso8601 == rfc3339_text(start)
            &&& optional_event_date(event.end) matches Ok(Some(EventDate::DateTimeUtc(end)))
                ==> entry.end_iso8601 == rfc3339_text(end)
            &&& optional_event_date(event.start) matches Ok(Some(EventDate::Date(start)))
                ==> entry.start_iso8601 == rendered("%Y-%m-%d"@, (start - 719_163) * 86_400)
            &&& optional_event_date(event.end) matches Ok(Some(EventDate::Date(end)))
                ==> entry.end_iso8601 == rendered("%Y-%m-%d"@, (end - 719_163) * 86_400)
        },
{
}

/// The view of an optional shown event holds the event where there is one.
pub proof fn law_optional_shown_holds_the_event(event: Event)
    ensures
        optional_shown(Some(event)) == Some(event@),
        optional_shown(None) is None,
{
}

/// Clocks can be less than a day ahead of UTC or behind it.
pub proof fn law_which_offsets_can_be_used(offsets: LocalOffsets)
    ensures
        offsets.well_formed() <==> -86_400 < offsets.start < 86_400 && -86_400 < offsets.end < 86_400,
{
}

} // verus!
