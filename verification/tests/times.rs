use chrono::{Datelike, TimeZone};
use events::calendar::CalendarEvent;
use events::order::{second_of_date, sort_by_end, Ending};
use events::presentation::{local_offsets, show_event, LocalOffsets};
use events::time::{
    day_from_seconds, seconds_from_day, EventDate, Instant, TimeError, EPOCH_DAY, MAX_DAY, MAX_SECONDS,
    MIN_DAY, MIN_SECONDS,
};
use events::zone::{
    checked_event_date, checked_optional_event_date, event_date_of_reading, to_event_date, CalendarTime,
    LocalReading,
};

fn second(year: i32, month: u32, day: u32, hour: u32, minute: u32, second: u32) -> i64 {
    chrono::Utc.with_ymd_and_hms(year, month, day, hour, minute, second).unwrap().timestamp()
}

fn day(year: i32, month: u32, day: u32) -> i32 {
    chrono::NaiveDate::from_ymd_opt(year, month, day).unwrap().num_days_from_ce()
}

fn utc(seconds: i64) -> Option<CalendarTime> {
    Some(CalendarTime::Utc(Instant { seconds, nanos: 0 }))
}

fn event(start: Option<CalendarTime>, end: Option<CalendarTime>) -> CalendarEvent {
    CalendarEvent {
        summary: Some("Talk".to_string()),
        description: None,
        location: None,
        start,
        end,
    }
}

const UTC: LocalOffsets = LocalOffsets { start: 0, end: 0 };

#[test]
fn range_of_days_and_seconds() {
    assert_eq!(MIN_DAY, chrono::NaiveDate::MIN.num_days_from_ce());
    assert_eq!(MAX_DAY, chrono::NaiveDate::MAX.num_days_from_ce());
    assert_eq!(EPOCH_DAY, day(1970, 1, 1));
    assert_eq!(MIN_SECONDS, chrono::DateTime::<chrono::Utc>::MIN_UTC.timestamp());
    assert_eq!(MAX_SECONDS, chrono::DateTime::<chrono::Utc>::MAX_UTC.timestamp());
    assert!(chrono::DateTime::from_timestamp(MIN_SECONDS - 1, 0).is_none());
    assert!(chrono::DateTime::from_timestamp(MAX_SECONDS + 1, 0).is_none());
}

#[test]
fn days_of_seconds() {
    assert_eq!(day_from_seconds(0), EPOCH_DAY);
    assert_eq!(day_from_seconds(-1), EPOCH_DAY - 1);
    assert_eq!(day_from_seconds(86_399), EPOCH_DAY);
    assert_eq!(day_from_seconds(86_400), EPOCH_DAY + 1);
    assert_eq!(day_from_seconds(MIN_SECONDS), MIN_DAY);
    assert_eq!(day_from_seconds(MAX_SECONDS), MAX_DAY);
    assert_eq!(day_from_seconds(second(2026, 2, 2, 16, 32, 11)), day(2026, 2, 2));
    for number in [MIN_DAY, EPOCH_DAY - 400, EPOCH_DAY, EPOCH_DAY + 1, MAX_DAY] {
        assert_eq!(day_from_seconds(seconds_from_day(number)), number);
        assert_eq!(second_of_date(EventDate::Date(number)), seconds_from_day(number));
    }
}

#[test]
fn days_and_instants_mean_themselves() {
    assert_eq!(
        checked_event_date(&CalendarTime::Date(day(2026, 2, 2))),
        Ok(Some(EventDate::Date(day(2026, 2, 2))))
    );
    let instant = Instant { seconds: 12, nanos: 34 };
    assert_eq!(
        checked_event_date(&CalendarTime::Utc(instant)),
        Ok(Some(EventDate::DateTimeUtc(instant)))
    );
    assert_eq!(checked_event_date(&CalendarTime::Floating(12)), Ok(None));
    assert_eq!(checked_optional_event_date(&None), Ok(None));
    assert_eq!(to_event_date(CalendarTime::Floating(12)), None);
    assert_eq!(
        to_event_date(CalendarTime::Date(day(2026, 2, 2))),
        Some(EventDate::Date(day(2026, 2, 2)))
    );
}

#[test]
fn local_times_are_taken_on_the_clocks_of_their_zone() {
    let local = |date_time: i64, tzid: &str| CalendarTime::WithTimezone {
        date_time,
        tzid: tzid.to_string(),
    };
    let noon = second(2026, 2, 2, 12, 0, 0);
    let helsinki = Instant { seconds: noon - 7200, nanos: 0 };
    assert_eq!(
        checked_event_date(&local(noon, "Europe/Helsinki")),
        Ok(Some(EventDate::DateTimeUtc(helsinki)))
    );
    assert_eq!(
        to_event_date(local(noon, "Europe/Helsinki")),
        Some(EventDate::DateTimeUtc(helsinki))
    );
    let summer = second(2026, 7, 2, 12, 0, 0);
    assert_eq!(
        checked_event_date(&local(summer, "Europe/Helsinki")),
        Ok(Some(EventDate::DateTimeUtc(Instant { seconds: summer - 10_800, nanos: 0 })))
    );
    assert_eq!(checked_event_date(&local(noon, "Europe/Nowhere")), Ok(None));
    assert_eq!(to_event_date(local(noon, "Europe/Nowhere")), None);
}

#[test]
fn local_times_without_a_unique_instant_are_errors() {
    let skipped = CalendarTime::WithTimezone {
        date_time: second(2026, 3, 29, 3, 30, 0),
        tzid: "Europe/Helsinki".to_string(),
    };
    let twice = CalendarTime::WithTimezone {
        date_time: second(2026, 10, 25, 3, 30, 0),
        tzid: "Europe/Helsinki".to_string(),
    };
    assert_eq!(checked_event_date(&skipped), Err(TimeError::NoUniqueInstant));
    assert_eq!(checked_event_date(&twice), Err(TimeError::NoUniqueInstant));
    assert_eq!(checked_optional_event_date(&Some(twice)), Err(TimeError::NoUniqueInstant));
}

#[test]
fn readings_of_a_zone_mean_an_instant_or_none() {
    assert_eq!(
        event_date_of_reading(LocalReading::Once(5)),
        Ok(Some(EventDate::DateTimeUtc(Instant { seconds: 5, nanos: 0 })))
    );
    assert_eq!(event_date_of_reading(LocalReading::Skipped), Err(TimeError::NoUniqueInstant));
    assert_eq!(event_date_of_reading(LocalReading::Twice), Err(TimeError::NoUniqueInstant));
}

#[test]
fn one_day_is_shown_as_a_date() {
    let one = event(
        Some(CalendarTime::Date(day(2026, 2, 3))),
        Some(CalendarTime::Date(day(2026, 2, 4))),
    );
    let shown = show_event(&one, &Vec::new(), UTC).unwrap().unwrap();
    assert_eq!(shown.summary, "Talk");
    assert_eq!(shown.date, "03/02/2026");
    assert_eq!(shown.start_iso8601, "2026-02-03");
    assert_eq!(shown.end_iso8601, "2026-02-04");
    assert!(shown.location.is_none());
    assert!(shown.description.is_none());
}

#[test]
fn many_days_are_shown_as_two_dates() {
    let many = event(
        Some(CalendarTime::Date(day(2027, 12, 31))),
        Some(CalendarTime::Date(day(2028, 3, 1))),
    );
    let shown = show_event(&many, &Vec::new(), UTC).unwrap().unwrap();
    assert_eq!(shown.date, "31/12/2027 - 29/02/2028");
    assert_eq!(shown.start_iso8601, "2027-12-31");
    assert_eq!(shown.end_iso8601, "2028-03-01");
    let none = event(
        Some(CalendarTime::Date(day(2026, 2, 3))),
        Some(CalendarTime::Date(day(2026, 2, 3))),
    );
    assert_eq!(show_event(&none, &Vec::new(), UTC).unwrap().unwrap().date, "03/02/2026 - 02/02/2026");
}

#[test]
fn years_beyond_four_digits_have_a_sign() {
    let far = event(
        Some(CalendarTime::Date(day(12026, 2, 3))),
        Some(CalendarTime::Date(day(12026, 2, 4))),
    );
    assert_eq!(show_event(&far, &Vec::new(), UTC).unwrap().unwrap().date, "03/02/+12026");
    let past = event(
        Some(CalendarTime::Date(day(-44, 3, 15))),
        Some(CalendarTime::Date(day(-44, 3, 16))),
    );
    let shown = show_event(&past, &Vec::new(), UTC).unwrap().unwrap();
    assert_eq!(shown.date, "15/03/-0044");
    assert_eq!(shown.start_iso8601, "-0044-03-15");
    let early = event(
        Some(CalendarTime::Date(day(987, 6, 5))),
        Some(CalendarTime::Date(day(987, 6, 6))),
    );
    assert_eq!(show_event(&early, &Vec::new(), UTC).unwrap().unwrap().date, "05/06/0987");
}

#[test]
fn the_day_before_the_first_day_cannot_be_shown() {
    let first = event(Some(CalendarTime::Date(MIN_DAY)), Some(CalendarTime::Date(MIN_DAY)));
    assert_eq!(show_event(&first, &Vec::new(), UTC).unwrap_err(), TimeError::OutOfRange);
    let second = event(Some(CalendarTime::Date(MIN_DAY)), Some(CalendarTime::Date(MIN_DAY + 1)));
    assert_eq!(show_event(&second, &Vec::new(), UTC).unwrap().unwrap().date, "01/01/-262143");
    let last = event(Some(CalendarTime::Date(MAX_DAY - 1)), Some(CalendarTime::Date(MAX_DAY)));
    assert_eq!(show_event(&last, &Vec::new(), UTC).unwrap().unwrap().date, "30/12/+262142");
}

#[test]
fn times_are_shown_on_the_readers_clocks() {
    let talk = event(utc(second(2026, 2, 3, 22, 15, 59)), utc(second(2026, 2, 4, 0, 5, 0)));
    let here = LocalOffsets { start: 7200, end: 7200 };
    let shown = show_event(&talk, &Vec::new(), here).unwrap().unwrap();
    assert_eq!(shown.date, "04/02/2026 00:15 - 02:05");
    assert_eq!(shown.start_iso8601, "2026-02-03T22:15:59Z");
    assert_eq!(shown.end_iso8601, "2026-02-04T00:05:00Z");
    assert_eq!(
        show_event(&talk, &Vec::new(), UTC).unwrap().unwrap().date,
        "03/02/2026 22:15 - 00:05"
    );
    let west = LocalOffsets { start: -18_000, end: -14_400 };
    assert_eq!(
        show_event(&talk, &Vec::new(), west).unwrap().unwrap().date,
        "03/02/2026 17:15 - 20:05"
    );
}

#[test]
fn a_full_day_of_time_is_shown_with_two_dates() {
    let start = second(2026, 2, 3, 10, 0, 0);
    let short = event(utc(start), utc(start + 86_399));
    assert_eq!(
        show_event(&short, &Vec::new(), UTC).unwrap().unwrap().date,
        "03/02/2026 10:00 - 09:59"
    );
    let full = event(utc(start), utc(start + 86_400));
    assert_eq!(
        show_event(&full, &Vec::new(), UTC).unwrap().unwrap().date,
        "03/02/2026 10:00 - 04/02 10:00"
    );
}

#[test]
fn fractions_and_leap_seconds_are_written_out() {
    let at = |seconds: i64, nanos: u32| Some(CalendarTime::Utc(Instant { seconds, nanos }));
    let start = second(2016, 12, 31, 23, 59, 59);
    let shown = show_event(&event(at(start, 1_000_000_000), at(start + 1, 5_000)), &Vec::new(), UTC)
        .unwrap()
        .unwrap();
    assert_eq!(shown.start_iso8601, "2016-12-31T23:59:60Z");
    assert_eq!(shown.end_iso8601, "2017-01-01T00:00:00.000005Z");
    let shown = show_event(&event(at(start, 500_000_000), at(start, 7)), &Vec::new(), UTC).unwrap().unwrap();
    assert_eq!(shown.start_iso8601, "2016-12-31T23:59:59.500Z");
    assert_eq!(shown.end_iso8601, "2016-12-31T23:59:59.000000007Z");
}

#[test]
fn spans_across_leap_seconds() {
    let at = |seconds: i64, nanos: u32| Some(CalendarTime::Utc(Instant { seconds, nanos }));
    let leap = second(2016, 12, 31, 23, 59, 59);
    let from_leap = event(at(leap, 1_000_000_000), at(leap + 86_400, 0));
    assert_eq!(
        show_event(&from_leap, &Vec::new(), UTC).unwrap().unwrap().date,
        "31/12/2016 23:59 - 23:59"
    );
    let into_leap = event(at(leap - 86_400, 0), at(leap, 1_000_000_000));
    assert_eq!(
        show_event(&into_leap, &Vec::new(), UTC).unwrap().unwrap().date,
        "30/12/2016 23:59 - 31/12 23:59"
    );
}

#[test]
fn events_without_what_is_needed_are_not_shown() {
    let date = || Some(CalendarTime::Date(day(2026, 2, 3)));
    let time = || utc(second(2026, 2, 3, 10, 0, 0));
    for (start, end) in [
        (None, None),
        (date(), None),
        (None, date()),
        (date(), time()),
        (time(), date()),
        (Some(CalendarTime::Floating(0)), time()),
        (time(), Some(CalendarTime::WithTimezone { date_time: 0, tzid: "Mars".to_string() })),
    ] {
        assert!(show_event(&event(start, end), &Vec::new(), UTC).unwrap().is_none());
    }
    let mut nameless = event(time(), time());
    nameless.summary = None;
    assert!(show_event(&nameless, &Vec::new(), UTC).unwrap().is_none());
}

#[test]
fn times_that_cannot_be_worked_out_cannot_be_shown() {
    let twice = || {
        Some(CalendarTime::WithTimezone {
            date_time: second(2026, 10, 25, 3, 30, 0),
            tzid: "Europe/Helsinki".to_string(),
        })
    };
    let mut nameless = event(twice(), None);
    nameless.summary = None;
    assert_eq!(show_event(&nameless, &Vec::new(), UTC).unwrap_err(), TimeError::NoUniqueInstant);
    assert_eq!(
        show_event(&event(utc(0), twice()), &Vec::new(), UTC).unwrap_err(),
        TimeError::NoUniqueInstant
    );
}

#[test]
fn texts_are_shown_as_the_calendar_states_them() {
    let mut talk = event(utc(0), utc(60));
    talk.summary = Some(" A & B ".to_string());
    talk.description = Some("".to_string());
    talk.location = Some("Agora".to_string());
    let shown = show_event(&talk, &Vec::new(), UTC).unwrap().unwrap();
    assert_eq!(shown.summary, " A & B ");
    assert_eq!(shown.description, Some("".to_string()));
    let location = shown.location.unwrap();
    assert_eq!(location.string, "Agora");
    assert_eq!(location.url, "https://www.google.com/maps/search/?api=1&query=Agora");
}

#[test]
fn whole_days_are_shown_alike_everywhere() {
    let one = event(
        Some(CalendarTime::Date(day(2026, 2, 3))),
        Some(CalendarTime::Date(day(2026, 2, 5))),
    );
    let here = show_event(&one, &Vec::new(), LocalOffsets { start: 43_200, end: 43_200 }).unwrap().unwrap();
    let there = show_event(&one, &Vec::new(), LocalOffsets { start: -43_200, end: 0 }).unwrap().unwrap();
    assert_eq!(here.date, "03/02/2026 - 04/02/2026");
    assert_eq!(here.date, there.date);
    assert_eq!(here.start_iso8601, there.start_iso8601);
}

#[test]
fn local_offsets_are_those_of_this_machine() {
    let start = second(2026, 2, 3, 10, 0, 0);
    let end = second(2026, 7, 3, 10, 0, 0);
    let offset = |seconds: i64| {
        let time = chrono::DateTime::from_timestamp(seconds, 0).unwrap();
        time.with_timezone(&chrono::Local).offset().local_minus_utc()
    };
    let offsets = local_offsets(&event(utc(start), utc(end)));
    assert_eq!(offsets, LocalOffsets { start: offset(start), end: offset(end) });
    let days = event(Some(CalendarTime::Date(day(2026, 2, 3))), Some(CalendarTime::Floating(0)));
    assert_eq!(local_offsets(&days), LocalOffsets { start: 0, end: 0 });
}

#[test]
fn events_are_sorted_by_their_end() {
    let ending = |name: &str, second: i64| {
        let mut one = event(None, utc(second));
        one.summary = Some(name.to_string());
        Ending { event: one, second }
    };
    let sorted = sort_by_end(vec![
        ending("c", 30),
        ending("a", 10),
        ending("d", 30),
        ending("b", -20),
        ending("e", 10),
    ]);
    let names: Vec<String> = sorted.into_iter().map(|one| one.summary.unwrap()).collect();
    assert_eq!(names, ["b", "a", "e", "c", "d"]);
    assert!(sort_by_end(Vec::new()).is_empty());
}

#[test]
fn clocks_may_run_past_the_range_of_dates() {
    let first = event(utc(MIN_SECONDS), utc(MIN_SECONDS));
    let west = LocalOffsets { start: -3600, end: 0 };
    let shown = show_event(&first, &Vec::new(), west).unwrap().unwrap();
    assert_eq!(shown.date, "31/12/-262144 23:00 - 00:00");
    assert_eq!(shown.start_iso8601, "-262143-01-01T00:00:00Z");
    let last = event(utc(MAX_SECONDS), utc(MAX_SECONDS));
    let east = LocalOffsets { start: 3600, end: 86_399 };
    let shown = show_event(&last, &Vec::new(), east).unwrap().unwrap();
    assert_eq!(shown.date, "01/01/+262143 00:59 - 23:59");
    assert_eq!(shown.end_iso8601, "+262142-12-31T23:59:59Z");
    let whole = event(utc(MIN_SECONDS), utc(MAX_SECONDS));
    let shown = show_event(&whole, &Vec::new(), UTC).unwrap().unwrap();
    assert_eq!(shown.date, "01/01/-262143 00:00 - 31/12 23:59");
    let offsets = local_offsets(&whole);
    assert!(offsets.start.abs() < 86_400 && offsets.end.abs() < 86_400);
}

#[test]
fn zones_may_run_past_the_range_of_dates() {
    let local = |date_time: i64| CalendarTime::WithTimezone {
        date_time,
        tzid: "Europe/Helsinki".to_string(),
    };
    assert_eq!(checked_event_date(&local(MIN_SECONDS)), Err(TimeError::NoUniqueInstant));
    assert!(matches!(
        checked_event_date(&local(MAX_SECONDS)),
        Ok(Some(EventDate::DateTimeUtc(instant)))
            if MAX_SECONDS - 86_400 < instant.seconds && instant.seconds < MAX_SECONDS
    ));
}
