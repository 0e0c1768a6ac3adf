use chrono::{Datelike, TimeZone};
use events::calendar::{
    process_calendar, Calendar, CalendarEvent, Component, RecurrenceRules, RuleProperty,
};
use events::listing::{
    data_to_events, expand_calendar, get_events, list_upcoming, select_upcoming, show_events, EventsError,
    HORIZON_SECONDS,
};
use events::presentation::LocalOffsets;
use events::recurrence::Occurrence;
use events::spaces::Space;
use events::time::{Instant, TimeError, MAX_SECONDS, MIN_SECONDS};
use events::zone::CalendarTime;

fn now() -> i64 {
    chrono::Utc.with_ymd_and_hms(2026, 2, 2, 16, 32, 11).unwrap().timestamp()
}

fn day(year: i32, month: u32, day: u32) -> i32 {
    chrono::NaiveDate::from_ymd_opt(year, month, day).unwrap().num_days_from_ce()
}

fn calendar(components: &str) -> String {
    format!("BEGIN:VCALENDAR\r\nVERSION:2.0\r\n{components}END:VCALENDAR\r\n")
}

const BASIC: &str = "BEGIN:VEVENT\r\nDTSTART:20260205T150000Z\r\nDTEND:20260205T170000Z\r\n\
    DTSTAMP:20260202T162829Z\r\nUID:basic@example.org\r\nDESCRIPTION:Test description\r\n\
    LOCATION:Test Location\r\nSUMMARY:Test Event\r\nEND:VEVENT\r\n";

const RECURRENCE: &str = "BEGIN:VEVENT\r\nDTSTART;VALUE=DATE:20260202\r\nDTEND;VALUE=DATE:20260203\r\n\
    RRULE:FREQ=MONTHLY;BYDAY=1MO;COUNT=12\r\nEXDATE;VALUE=DATE:20260601\r\nDTSTAMP:20260202T162829Z\r\n\
    UID:recurrence@example.org\r\nSUMMARY:Test Event\r\nEND:VEVENT\r\n";

const MULTI_DAY: &str = "BEGIN:VEVENT\r\nDTSTART;VALUE=DATE:20260203\r\nDTEND;VALUE=DATE:20260208\r\n\
    DTSTAMP:20260202T162829Z\r\nUID:multi-day@example.org\r\nSUMMARY:Test Event\r\nEND:VEVENT\r\n";

fn no_rules() -> RecurrenceRules {
    let none = || RuleProperty { value: None, values: Vec::new() };
    RecurrenceRules { dtstart: none(), rrule: none(), exrule: none(), rdate: none(), exdate: none() }
}

fn event(name: &str, start: CalendarTime, end: CalendarTime) -> CalendarEvent {
    CalendarEvent {
        summary: Some(name.to_string()),
        description: None,
        location: None,
        start: Some(start),
        end: Some(end),
    }
}

fn until(name: &str, seconds: i64) -> CalendarEvent {
    let at = |seconds: i64| CalendarTime::Utc(Instant { seconds, nanos: 0 });
    event(name, at(seconds - 60), at(seconds))
}

fn until_day(name: &str, number: i32) -> CalendarEvent {
    event(name, CalendarTime::Date(number - 1), CalendarTime::Date(number))
}

fn names(events: &[CalendarEvent]) -> Vec<String> {
    events.iter().map(|one| one.summary.clone().unwrap()).collect()
}

#[test]
fn test_event_parsing() {
    let calendar = process_calendar(calendar(BASIC)).unwrap();
    let result = data_to_events(calendar, vec![], now()).unwrap();
    assert_eq!(result.len(), 1);
    assert_eq!(result[0].summary, "Test Event");
    assert_eq!(result[0].description.as_deref(), Some("Test description"));
    let location = result[0].location.as_ref().unwrap();
    assert_eq!(location.string, "Test Location");
}

#[test]
fn test_recurrence_parsing() {
    let calendar = process_calendar(calendar(RECURRENCE)).unwrap();
    let result = data_to_events(calendar, vec![], now()).unwrap();
    assert!(result.len() >= 6);
    assert!(result[0].location.is_none());
    assert!(result[0].description.is_none());
    assert_eq!(result[0].date, "02/02/2026"); // Each event conforms correctly to recurrence rules
    assert_eq!(result[1].date, "02/03/2026");
    assert_eq!(result[2].date, "06/04/2026");
    assert_eq!(result[3].date, "04/05/2026");
    assert_eq!(result[4].date, "06/07/2026"); // Skipped one event because of exclusion rules
    assert_eq!(result[result.len() - 1].date, "04/01/2027"); // The last returned date is not older than a year
}

#[test]
fn test_multi_day_parsing() {
    let calendar = process_calendar(calendar(MULTI_DAY)).unwrap();
    let result = data_to_events(calendar, vec![], now()).unwrap();
    assert_eq!(result.len(), 1);
    assert_eq!(result[0].date, "03/02/2026 - 07/02/2026");
}

#[test]
fn a_listing_shows_all_of_an_event() {
    let spaces = vec![Space { space_label: "Test".to_string(), id: "7".to_string() }];
    let calendar = process_calendar(calendar(BASIC)).unwrap();
    let result = data_to_events(calendar, spaces, now()).unwrap();
    let local = |hour: u32| {
        let time = chrono::Utc.with_ymd_and_hms(2026, 2, 5, hour, 0, 0).unwrap();
        time.with_timezone(&chrono::Local)
    };
    let date = format!(
        "{} - {}",
        local(15).format("%d/%m/%Y %H:%M"),
        local(17).format("%H:%M")
    );
    assert_eq!(result[0].date, date);
    assert_eq!(result[0].start_iso8601, "2026-02-05T15:00:00Z");
    assert_eq!(result[0].end_iso8601, "2026-02-05T17:00:00Z");
    assert_eq!(result[0].location.as_ref().unwrap().url, "https://navi.jyu.fi/space/7");
}

#[test]
fn a_listing_is_in_end_order() {
    let calendar = process_calendar(calendar(&format!("{RECURRENCE}{MULTI_DAY}{BASIC}"))).unwrap();
    let result = data_to_events(calendar, vec![], now()).unwrap();
    let ends: Vec<&str> = result.iter().map(|one| one.end_iso8601.as_str()).collect();
    assert_eq!(
        ends[..4],
        ["2026-02-03", "2026-02-05T17:00:00Z", "2026-02-08", "2026-03-03"]
    );
}

#[test]
fn components_other_than_events_are_passed_over() {
    let chore = "BEGIN:VTODO\r\nSUMMARY:Chore\r\nDTSTART;VALUE=DATE:20260203\r\nDTEND;VALUE=DATE:20260204\r\n\
        END:VTODO\r\n";
    let calendar = process_calendar(calendar(&format!("{chore}{BASIC}{chore}"))).unwrap();
    assert_eq!(calendar.components.len(), 3);
    assert_eq!(data_to_events(calendar, vec![], now()).unwrap().len(), 1);
}

#[test]
fn past_events_are_left_out() {
    let today = day(2026, 2, 2);
    let kept = select_upcoming(
        vec![
            until("now", now()),
            until("just past", now() - 1),
            until_day("yesterday", today),
            until_day("today", today + 1),
        ],
        now(),
    )
    .unwrap();
    assert_eq!(names(&kept), ["now", "today"]);
}

#[test]
fn events_that_start_beyond_the_horizon_are_left_out() {
    assert_eq!(HORIZON_SECONDS, 365 * 24 * 60 * 60);
    let from = |name: &str, start: i64| {
        let at = |seconds: i64| CalendarTime::Utc(Instant { seconds, nanos: 0 });
        event(name, at(start), at(start + 5 * 86_400))
    };
    let from_day = |name: &str, start: i32| {
        event(name, CalendarTime::Date(start), CalendarTime::Date(start + 5))
    };
    let limit = day(2027, 2, 2);
    let kept = select_upcoming(
        vec![
            from("beyond", now() + HORIZON_SECONDS + 1),
            from("at", now() + HORIZON_SECONDS),
            from_day("next day", limit + 1),
            from_day("last day", limit),
        ],
        now(),
    )
    .unwrap();
    assert_eq!(names(&kept), ["last day", "at"]);
}

#[test]
fn an_event_that_starts_within_a_year_may_end_later() {
    let long = "BEGIN:VEVENT\r\nSUMMARY:W\r\nDTSTART:20270131T100000Z\r\nDTEND:20270205T100000Z\r\nEND:VEVENT\r\n";
    let result = data_to_events(process_calendar(calendar(long)).unwrap(), vec![], now()).unwrap();
    assert_eq!(result.len(), 1);
    assert_eq!(result[0].start_iso8601, "2027-01-31T10:00:00Z");
}

#[test]
fn endless_rules_are_listed_up_to_a_year_ahead() {
    let monthly = "BEGIN:VEVENT\r\nSUMMARY:W\r\nDTSTART;VALUE=DATE:20260202\r\nDTEND;VALUE=DATE:20260203\r\n\
        RRULE:FREQ=MONTHLY;BYDAY=1MO\r\nEND:VEVENT\r\n";
    let result = data_to_events(process_calendar(calendar(monthly)).unwrap(), vec![], now()).unwrap();
    assert_eq!(result.len(), 13);
    assert_eq!(result[12].date, "01/02/2027");
}

#[test]
fn events_without_an_end_or_a_start_are_left_out() {
    let mut endless = until("endless", now() + 60);
    endless.end = None;
    let mut startless = until("startless", now() + 60);
    startless.start = None;
    let floating = event("floating", CalendarTime::Floating(0), CalendarTime::Floating(now() + 60));
    assert!(select_upcoming(vec![endless, startless, floating], now()).unwrap().is_empty());
}

#[test]
fn upcoming_events_are_all_kept_and_sorted() {
    let kept = select_upcoming(
        vec![
            until("c", now() + 300),
            until("a", now() + 100),
            until("d", now() + 300),
            until("b", now() + 200),
        ],
        now(),
    )
    .unwrap();
    assert_eq!(names(&kept), ["a", "b", "c", "d"]);
}

#[test]
fn the_horizon_must_be_a_time() {
    let late = MAX_SECONDS - HORIZON_SECONDS + 1;
    assert_eq!(
        select_upcoming(vec![until("late", late)], late).unwrap_err(),
        TimeError::OutOfRange
    );
    assert!(select_upcoming(vec![until("past", 0)], late).unwrap().is_empty());
    assert_eq!(select_upcoming(vec![until("in time", late - 1)], late - 1).unwrap().len(), 1);
    assert!(select_upcoming(Vec::new(), MIN_SECONDS).unwrap().is_empty());
}

#[test]
fn times_of_current_events_that_cannot_be_worked_out_are_errors() {
    let twice = CalendarTime::WithTimezone {
        date_time: chrono::Utc.with_ymd_and_hms(2026, 10, 25, 3, 30, 0).unwrap().timestamp(),
        tzid: "Europe/Helsinki".to_string(),
    };
    let events = vec![
        until("fine", now() + 60),
        event("twice", CalendarTime::Floating(0), twice.duplicate()),
    ];
    assert_eq!(select_upcoming(events, now()).unwrap_err(), TimeError::NoUniqueInstant);
    let later = |seconds: i64| CalendarTime::Utc(Instant { seconds, nanos: 0 });
    let events = vec![event("starts twice", twice.duplicate(), later(now()))];
    assert_eq!(select_upcoming(events, now()).unwrap_err(), TimeError::NoUniqueInstant);
    let events = vec![event("past", twice, later(now() - 1))];
    assert!(select_upcoming(events, now()).unwrap().is_empty());
}

#[test]
fn calendars_are_expanded_in_order() {
    let club = until("club", now() + 60);
    let camp = until("camp", now() + 120);
    let some = Calendar {
        components: vec![
            Component::Event(club, no_rules()),
            Component::Other,
            Component::Event(camp, no_rules()),
        ],
    };
    let weeks = |count: i64| Occurrence {
        day: day(2026, 2, 2) + 7 * count as i32,
        seconds: now() + 7 * 86_400 * count,
    };
    let found = vec![Some(vec![weeks(2), weeks(1)]), None, None];
    let events = expand_calendar(&some, &found).unwrap();
    assert_eq!(names(&events), ["club", "club", "camp"]);
    let listed = list_upcoming(&some, &found, now()).unwrap();
    assert_eq!(names(&listed), ["camp", "club", "club"]);
    let ends: Vec<i64> = listed
        .iter()
        .map(|one| match &one.end {
            Some(CalendarTime::Utc(instant)) => instant.seconds - now(),
            _ => panic!("no instant"),
        })
        .collect();
    assert_eq!(ends, [120, 7 * 86_400 + 60, 14 * 86_400 + 60]);
}

#[test]
fn entries_follow_the_events() {
    let mut nameless = until("x", now() + 60);
    nameless.summary = None;
    let events = vec![until("a", now() + 60), nameless, until("b", now() + 30)];
    let offsets = vec![LocalOffsets { start: 0, end: 0 }; 3];
    let entries = show_events(&events, &Vec::new(), &offsets).unwrap();
    let summaries: Vec<&str> = entries.iter().map(|entry| entry.summary.as_str()).collect();
    assert_eq!(summaries, ["a", "b"]);
}

#[test]
fn the_texts_of_both_services_give_a_listing() {
    let spaces = r#"{"items": [{"spaceLabel": "Test", "id": "7"}]}"#;
    let result = get_events(Some(spaces.to_string()), Some(calendar(BASIC)), now()).unwrap();
    assert_eq!(result.len(), 1);
    assert_eq!(result[0].location.as_ref().unwrap().url, "https://navi.jyu.fi/space/7");
}

#[test]
fn missing_or_unreadable_spaces_do_not_matter() {
    for spaces in [None, Some("no json".to_string()), Some("{}".to_string())] {
        let result = get_events(spaces, Some(calendar(BASIC)), now()).unwrap();
        assert_eq!(
            result[0].location.as_ref().unwrap().url,
            "https://www.google.com/maps/search/?api=1&query=Test%20Location"
        );
    }
}

#[test]
fn unreadable_calendars_are_rejected() {
    let text = "BEGIN:VCALENDAR\nBEGIN:VEVENT\nEND:VTODO\n".to_string();
    let details = process_calendar(text.clone()).unwrap_err();
    match get_events(None, Some(text), now()) {
        Err(EventsError::Rejected(rejection)) => {
            assert_eq!(rejection.message, "The remote calendar could not be processed.");
            assert_eq!(rejection.details, Some(details));
        }
        _ => panic!("not rejected"),
    }
}

#[test]
fn calendars_with_an_overlong_line_are_rejected_or_read() {
    let text = format!("BEGIN:VCALENDAR\n{}?\n", "A".repeat(70_000));
    match get_events(None, Some(text), now()) {
        Err(EventsError::Rejected(rejection)) => {
            assert_eq!(rejection.details.as_deref(), Some("error: a line is too long"));
        }
        _ => panic!("not rejected"),
    }
    let long = BASIC.replace("Test Event", &"A".repeat(70_000));
    let result = get_events(None, Some(calendar(&long)), now()).unwrap();
    assert_eq!(result[0].summary.len(), 70_000);
}

#[test]
fn a_missing_calendar_is_an_empty_text() {
    let missing = get_events(None, None, now());
    let empty = get_events(None, Some(String::new()), now());
    match (process_calendar(String::new()), missing, empty) {
        (Ok(_), Ok(first), Ok(second)) => {
            assert!(first.is_empty());
            assert!(second.is_empty());
        }
        (Err(message), Err(EventsError::Rejected(first)), Err(EventsError::Rejected(second))) => {
            assert_eq!(first.details, Some(message.clone()));
            assert_eq!(second.details, Some(message));
        }
        _ => panic!("the two differ"),
    }
}

#[test]
fn times_that_cannot_be_worked_out_reach_the_answer() {
    let twice = "BEGIN:VEVENT\r\nSUMMARY:Twice\r\nDTSTART:20261024T000000Z\r\n\
        DTEND;TZID=Europe/Helsinki:20261025T033000\r\nEND:VEVENT\r\n";
    assert!(matches!(
        get_events(None, Some(calendar(twice)), now()),
        Err(EventsError::Time(TimeError::NoUniqueInstant))
    ));
}

#[test]
fn skipped_components_change_nothing_wherever_they_stand() {
    let summaries = |components: &str| -> Vec<(String, String)> {
        let read = process_calendar(calendar(components)).unwrap();
        let list = data_to_events(read, vec![], now()).unwrap();
        list.into_iter().map(|entry| (entry.summary, entry.end_iso8601)).collect()
    };
    let expected = summaries(&format!("{BASIC}{MULTI_DAY}"));
    assert_eq!(expected.len(), 2);
    let start = "DTSTART:20260205T150000Z\r\n";
    let end = "DTEND:20260205T170000Z\r\n";
    let rule = "RRULE:FREQ=DAILY;COUNT=3\r\n";
    for lines in [
        format!("{start}{end}"),
        format!("{start}{end}{rule}"),
        format!("SUMMARY:X\r\n{end}"),
        format!("SUMMARY:X\r\n{start}{rule}"),
        format!("SUMMARY:X\r\n{start}DTEND:20260205T170000\r\n"),
        format!("SUMMARY:X\r\nDTSTART;TZID=Mars:20260205T150000\r\n{end}{rule}"),
        format!("SUMMARY:X\r\nDTSTART;VALUE=DATE:20260205\r\n{end}"),
        format!("SUMMARY:X\r\n{start}DTEND;VALUE=DATE:20260206\r\n{rule}"),
    ] {
        let skipped = format!("BEGIN:VEVENT\r\n{lines}END:VEVENT\r\n");
        assert_eq!(summaries(&format!("{skipped}{BASIC}{MULTI_DAY}")), expected);
        assert_eq!(summaries(&format!("{BASIC}{skipped}{MULTI_DAY}")), expected);
        assert_eq!(summaries(&format!("{BASIC}{MULTI_DAY}{skipped}")), expected);
    }
}

#[test]
fn joined_calendars_give_the_merged_list() {
    let named = |name: &str, date: u32| {
        format!(
            "BEGIN:VEVENT\r\nSUMMARY:{name}\r\nDTSTART;VALUE=DATE:202602{date:02}\r\n\
             DTEND;VALUE=DATE:202602{:02}\r\nEND:VEVENT\r\n",
            date + 1
        )
    };
    let list = |components: &str| -> Vec<String> {
        let read = process_calendar(calendar(components)).unwrap();
        data_to_events(read, vec![], now()).unwrap().into_iter().map(|entry| entry.summary).collect()
    };
    let first = format!("{}{}{}", named("c", 12), named("a", 10), named("same", 11));
    let second = format!("{}{}{}", named("d", 12), named("same", 11), named("b", 10));
    assert_eq!(list(&first), ["a", "same", "c"]);
    assert_eq!(list(&second), ["b", "same", "d"]);
    assert_eq!(list(&format!("{first}{second}")), ["a", "b", "same", "same", "c", "d"]);
}
