use chrono::{Datelike, TimeZone};
use events::calendar::{
    process_calendar, CalendarEvent, Component, RecurrenceRules, RuleProperty,
};
use events::recurrence::{
    event_at, expand_event, find_occurrences, recurrence_text, Occurrence, MAX_RECURRENCES,
};
use events::time::{Instant, TimeError, MAX_DAY, MAX_SECONDS};
use events::weekdays::check_weekdays;
use events::zone::CalendarTime;

fn second(year: i32, month: u32, day: u32, hour: u32, minute: u32, second: u32) -> i64 {
    chrono::Utc.with_ymd_and_hms(year, month, day, hour, minute, second).unwrap().timestamp()
}

fn day(year: i32, month: u32, day: u32) -> i32 {
    chrono::NaiveDate::from_ymd_opt(year, month, day).unwrap().num_days_from_ce()
}

fn no_property() -> RuleProperty {
    RuleProperty { value: None, values: Vec::new() }
}

fn single(value: &str) -> RuleProperty {
    RuleProperty { value: Some(value.to_string()), values: Vec::new() }
}

fn list(values: &[&str]) -> RuleProperty {
    RuleProperty { value: None, values: values.iter().map(|value| value.to_string()).collect() }
}

fn rules(start: &str, rule: &str) -> RecurrenceRules {
    RecurrenceRules {
        dtstart: single(start),
        rrule: single(rule),
        exrule: no_property(),
        rdate: no_property(),
        exdate: no_property(),
    }
}

fn event(start: Option<CalendarTime>, end: Option<CalendarTime>) -> CalendarEvent {
    CalendarEvent {
        summary: Some("Club".to_string()),
        description: Some("Weekly".to_string()),
        location: Some("Agora".to_string()),
        start,
        end,
    }
}

fn utc(seconds: i64) -> Option<CalendarTime> {
    Some(CalendarTime::Utc(Instant { seconds, nanos: 0 }))
}

fn date(number: i32) -> Option<CalendarTime> {
    Some(CalendarTime::Date(number))
}

#[test]
fn rules_become_lines_in_a_fixed_order() {
    let all = RecurrenceRules {
        dtstart: single("20260202"),
        rrule: single("FREQ=DAILY"),
        exrule: single("FREQ=WEEKLY"),
        rdate: list(&["20260301", "20260302"]),
        exdate: list(&["20260203"]),
    };
    assert_eq!(
        recurrence_text(&all),
        "DTSTART:20260202\nRRULE:FREQ=DAILY\nEXRULE:FREQ=WEEKLY\nRDATE:20260301\nRDATE:20260302\nEXDATE:20260203\n"
    );
    let both = RuleProperty { value: Some("1".to_string()), values: vec!["2".to_string()] };
    let shadowed = RecurrenceRules {
        dtstart: both,
        rrule: no_property(),
        exrule: no_property(),
        rdate: no_property(),
        exdate: no_property(),
    };
    assert_eq!(recurrence_text(&shadowed), "DTSTART:1\n");
}

#[test]
fn properties_of_an_event_are_read() {
    let text = "BEGIN:VCALENDAR\r\nBEGIN:VTODO\r\nSUMMARY:Chore\r\nEND:VTODO\r\nBEGIN:VEVENT\r\nSUMMARY:Club\r\n\
        DESCRIPTION:a\\, b\r\nLOCATION:Agora\r\nDTSTART;TZID=Europe/Helsinki:20260202T180000\r\n\
        DTEND:20260202T170000Z\r\nRRULE:FREQ=WEEKLY\r\nEXDATE:20260209T160000Z\r\nEXDATE:20260216T160000Z\r\n\
        END:VEVENT\r\nEND:VCALENDAR\r\n";
    let calendar = process_calendar(text.to_string()).unwrap();
    assert_eq!(calendar.components.len(), 2);
    assert!(matches!(calendar.components[0], Component::Other));
    let (read, read_rules) = match &calendar.components[1] {
        Component::Event(read, read_rules) => (read, read_rules),
        Component::Other => panic!("no event"),
    };
    assert_eq!(read.summary.as_deref(), Some("Club"));
    assert_eq!(read.description.as_deref(), Some("a, b"));
    assert_eq!(read.location.as_deref(), Some("Agora"));
    assert!(matches!(
        &read.start,
        Some(CalendarTime::WithTimezone { date_time, tzid })
            if *date_time == second(2026, 2, 2, 18, 0, 0) && tzid == "Europe/Helsinki"
    ));
    assert!(matches!(
        &read.end,
        Some(CalendarTime::Utc(instant)) if *instant == Instant { seconds: second(2026, 2, 2, 17, 0, 0), nanos: 0 }
    ));
    assert_eq!(
        recurrence_text(read_rules),
        "DTSTART:20260202T180000\nRRULE:FREQ=WEEKLY\nEXDATE:20260209T160000Z\nEXDATE:20260216T160000Z\n"
    );
}

#[test]
fn forms_of_time_are_told_apart() {
    let read = |line: &str| {
        let text = format!("BEGIN:VCALENDAR\nBEGIN:VEVENT\n{line}\nEND:VEVENT\nEND:VCALENDAR\n");
        match process_calendar(text).unwrap().components.pop() {
            Some(Component::Event(read, _)) => read.start,
            _ => panic!("no event"),
        }
    };
    assert!(matches!(
        read("DTSTART;VALUE=DATE:20260202"),
        Some(CalendarTime::Date(number)) if number == day(2026, 2, 2)
    ));
    assert!(matches!(
        read("DTSTART:20260202T180000"),
        Some(CalendarTime::Floating(time)) if time == second(2026, 2, 2, 18, 0, 0)
    ));
    assert!(read("DTSTART:soon").is_none());
    assert!(read("DTEND:20260202T180000Z").is_none());
}

#[test]
fn text_that_is_no_calendar_is_refused() {
    let message = process_calendar("BEGIN:VCALENDAR\nBEGIN:VEVENT\nEND:VTODO\n".to_string()).unwrap_err();
    assert!(message.starts_with("error:"));
}

#[test]
fn lines_are_measured_after_unfolding() {
    let faulty = |line: String| format!("BEGIN:VCALENDAR\n{line}?\n");
    let too_long = "error: a line is too long";
    let reader = |text: &str| text.parse::<icalendar::Calendar>().map(|_| ()).unwrap_err();
    for text in [
        faulty("A".repeat(65_533)),
        faulty(format!("{}\n{}", "A".repeat(50_000), "A".repeat(50_000))),
        faulty(format!("{}\r\n \u{e4}", "A".repeat(65_531))),
    ] {
        assert_eq!(process_calendar(text.clone()).unwrap_err(), reader(&text));
    }
    for text in [
        faulty("A".repeat(65_534)),
        faulty(format!("{}\r\n {}", "A".repeat(50_000), "A".repeat(50_000))),
        faulty(format!("{}\n\t{}", "A".repeat(50_000), "A".repeat(50_000))),
        faulty(format!("{}\r\n \u{e4}", "A".repeat(65_532))),
    ] {
        assert_eq!(process_calendar(text).unwrap_err(), too_long);
    }
    let folded = format!(
        "BEGIN:VCALENDAR\r\nBEGIN:VEVENT\r\nSUMMARY:{}\r\n {}\r\nEND:VEVENT\r\nEND:VCALENDAR\r\n",
        "A".repeat(50_000),
        "B".repeat(50_000)
    );
    match process_calendar(folded).unwrap().components.pop() {
        Some(Component::Event(read, _)) => assert_eq!(read.summary.unwrap().len(), 100_000),
        _ => panic!("no event"),
    }
}

#[test]
fn weekly_rules_give_weekly_occurrences() {
    let found = find_occurrences(&rules("20260202T160000Z", "FREQ=WEEKLY;COUNT=3")).unwrap();
    let expected: Vec<Occurrence> = [(2, 2), (2, 9), (2, 16)]
        .iter()
        .map(|(month, date)| Occurrence {
            day: day(2026, *month, *date),
            seconds: second(2026, *month, *date, 16, 0, 0),
        })
        .collect();
    assert_eq!(found, expected);
}

#[test]
fn excluded_and_added_dates_count() {
    let mut some = rules("20260202T160000Z", "FREQ=WEEKLY;COUNT=3");
    some.exdate = list(&["20260209T160000Z", "20260216T160000Z"]);
    some.rdate = list(&["20260203T100000Z"]);
    let found = find_occurrences(&some).unwrap();
    assert_eq!(
        found,
        vec![
            Occurrence { day: day(2026, 2, 2), seconds: second(2026, 2, 2, 16, 0, 0) },
            Occurrence { day: day(2026, 2, 3), seconds: second(2026, 2, 3, 10, 0, 0) },
        ]
    );
}

#[test]
fn occurrences_are_limited() {
    let endless = find_occurrences(&rules("20260202T160000Z", "FREQ=DAILY")).unwrap();
    assert_eq!(endless.len(), MAX_RECURRENCES as usize);
    let club = event(utc(second(2026, 2, 2, 16, 0, 0)), utc(second(2026, 2, 2, 18, 0, 0)));
    let events = expand_event(&club, &Some(endless)).unwrap();
    assert_eq!(events.len(), 100);
}

#[test]
fn rules_without_start_or_dates_are_not_read() {
    let mut nothing = rules("20260202T160000Z", "FREQ=DAILY");
    nothing.rrule = no_property();
    nothing.exdate = single("20260202T160000Z");
    assert!(find_occurrences(&nothing).is_none());
    let mut endless = rules("20260202T160000Z", "FREQ=DAILY");
    endless.dtstart = no_property();
    assert!(find_occurrences(&endless).is_none());
    assert!(find_occurrences(&rules("20260202T160000Z", "FREQ=SOMETIMES")).is_none());
    assert!(find_occurrences(&rules("soon", "FREQ=DAILY")).is_none());
}

#[test]
fn a_value_that_breaks_its_line_may_state_a_rule() {
    let mut sneaky = rules("20260202T160000Z\nRRULE:FREQ=DAILY;COUNT=2", "");
    sneaky.rrule = no_property();
    assert_eq!(find_occurrences(&sneaky).unwrap().len(), 2);
}

#[test]
fn misspelt_weekdays_are_found() {
    assert!(check_weekdays("RRULE:FREQ=WEEKLY;BYDAY=\u{20ac}\n"));
    assert!(check_weekdays("RRULE:FREQ=WEEKLY;byday=MO,\u{20ac}U\n"));
    assert!(check_weekdays("RRULE:BYWEEKDAY=1\u{e4}\r\n"));
    assert!(check_weekdays("RRULE:BYDAY=\u{20ac}x\r\n"));
    assert!(check_weekdays("RRULE:BYDAY=MO:\u{20ac}"));
    assert!(check_weekdays("BYDAY=\u{20ac}"));
    assert!(!check_weekdays("BYDAY=MO:\u{20ac}"));
    assert!(!check_weekdays("RRULE:FREQ=WEEKLY;BYDAY=\u{20ac}MO\n"));
    assert!(!check_weekdays("RRULE:FREQ=WEEKLY;BYDAY=MO,TU;WKST=\u{17f}U\n"));
    assert!(!check_weekdays("DTSTART;X=\u{20ac}:20260202\nRRULE:BYDAYS=\u{20ac}\n"));
    assert!(!check_weekdays("x;BYDAY=\u{20ac}:FREQ=DAILY\n"));
    assert!(!check_weekdays("DTSTART:BYDAY=\u{e4}\nRDATE;VALUE=DATE:BYDAY=\u{e4}\nEXDATE:BYDAY=\u{e4}\n"));
    assert!(check_weekdays("DTSTARTED:BYDAY=\u{e4}\n"));
    assert!(!check_weekdays(""));
}

#[test]
fn rules_with_misspelt_weekdays_are_not_read() {
    assert!(find_occurrences(&rules("20260202T160000Z", "FREQ=WEEKLY;BYDAY=\u{20ac}")).is_none());
    let found = find_occurrences(&rules("20260202T160000Z", "FREQ=WEEKLY;COUNT=2;BYDAY=\u{20ac}MO"));
    assert_eq!(found.unwrap().len(), 2);
}

#[test]
fn only_the_first_start_counts() {
    let second_start = "FREQ=DAILY;COUNT=2\nDTSTART:BYDAY=\u{e4}";
    assert_eq!(find_occurrences(&rules("20260202T160000Z", second_start)).unwrap().len(), 2);
    assert!(find_occurrences(&rules("BYDAY=\u{e4}", "FREQ=DAILY;COUNT=2")).is_none());
    let text = "BEGIN:VCALENDAR\r\nBEGIN:VEVENT\r\nDTSTART:20260202T160000Z\r\n\
        RRULE;VALUE=TEXT:FREQ=DAILY\\;COUNT=3\\nDTSTART:BYDAY=\u{e4}\r\nEND:VEVENT\r\nEND:VCALENDAR\r\n";
    match process_calendar(text.to_string()).unwrap().components.pop() {
        Some(Component::Event(_, read_rules)) => {
            assert_eq!(find_occurrences(&read_rules).unwrap().len(), 3);
        }
        _ => panic!("no event"),
    }
}

#[test]
fn an_event_that_cannot_recur_stands_for_itself() {
    let club = event(utc(0), utc(60));
    let events = expand_event(&club, &None).unwrap();
    assert_eq!(events.len(), 1);
    assert_eq!(events[0].summary, club.summary);
    assert!(matches!(&events[0].end, Some(CalendarTime::Utc(instant)) if instant.seconds == 60));
    assert!(expand_event(&club, &Some(Vec::new())).unwrap().is_empty());
}

#[test]
fn occurrences_of_whole_days_keep_their_length() {
    let camp = event(date(day(2026, 2, 27)), date(day(2026, 3, 2)));
    let at = Occurrence { day: day(2028, 2, 27), seconds: second(2028, 2, 26, 22, 0, 0) };
    let moved = event_at(&camp, at).unwrap().unwrap();
    assert!(matches!(moved.start, Some(CalendarTime::Date(number)) if number == day(2028, 2, 27)));
    assert!(matches!(moved.end, Some(CalendarTime::Date(number)) if number == day(2028, 3, 1)));
    assert_eq!(moved.summary, camp.summary);
    assert_eq!(moved.description, camp.description);
    assert_eq!(moved.location, camp.location);
}

#[test]
fn occurrences_with_times_keep_their_length() {
    let start = second(2026, 2, 2, 16, 0, 0);
    let club = event(utc(start), utc(start + 5400));
    let at = Occurrence { day: day(2026, 2, 9), seconds: start + 7 * 86_400 };
    let moved = event_at(&club, at).unwrap().unwrap();
    assert!(matches!(moved.start, Some(CalendarTime::Utc(instant)) if instant.seconds == start + 604_800));
    assert!(matches!(moved.end, Some(CalendarTime::Utc(instant)) if instant.seconds == start + 610_200));
    let back = event(utc(start), Some(CalendarTime::Utc(Instant { seconds: start - 10, nanos: 1 })));
    let moved = event_at(&back, at).unwrap().unwrap();
    assert!(matches!(moved.end, Some(CalendarTime::Utc(instant)) if instant.seconds == start + 604_790));
}

#[test]
fn local_times_recur_as_instants() {
    let local = |hour: u32| {
        Some(CalendarTime::WithTimezone {
            date_time: second(2026, 2, 2, hour, 0, 0),
            tzid: "Europe/Helsinki".to_string(),
        })
    };
    let at = Occurrence { day: day(2026, 2, 9), seconds: second(2026, 2, 9, 16, 0, 0) };
    let moved = event_at(&event(local(18), local(20)), at).unwrap().unwrap();
    assert!(matches!(
        moved.end,
        Some(CalendarTime::Utc(instant)) if instant.seconds == second(2026, 2, 9, 18, 0, 0)
    ));
}

#[test]
fn events_with_mixed_or_missing_times_do_not_recur() {
    let at = Occurrence { day: day(2026, 2, 9), seconds: second(2026, 2, 9, 16, 0, 0) };
    assert!(event_at(&event(date(day(2026, 2, 2)), utc(0)), at).unwrap().is_none());
    assert!(event_at(&event(utc(0), None), at).unwrap().is_none());
    assert!(event_at(&event(Some(CalendarTime::Floating(0)), utc(0)), at).unwrap().is_none());
    let events = expand_event(&event(utc(0), None), &Some(vec![at, at])).unwrap();
    assert!(events.is_empty());
}

#[test]
fn occurrences_out_of_range_are_errors() {
    let at = Occurrence { day: day(2026, 2, 9), seconds: second(2026, 2, 9, 16, 0, 0) };
    let backwards = event(date(day(2026, 2, 2)), date(day(2026, 2, 1)));
    assert_eq!(event_at(&backwards, at).unwrap_err(), TimeError::OutOfRange);
    let long = event(date(0), date(MAX_DAY));
    assert_eq!(event_at(&long, at).unwrap_err(), TimeError::OutOfRange);
    let longer = event(utc(0), utc(MAX_SECONDS));
    assert_eq!(event_at(&longer, at).unwrap_err(), TimeError::OutOfRange);
    let twice = event(
        Some(CalendarTime::WithTimezone {
            date_time: second(2026, 10, 25, 3, 30, 0),
            tzid: "Europe/Helsinki".to_string(),
        }),
        utc(0),
    );
    assert_eq!(event_at(&twice, at).unwrap_err(), TimeError::NoUniqueInstant);
    assert_eq!(expand_event(&twice, &Some(vec![at])).unwrap_err(), TimeError::NoUniqueInstant);
}

#[test]
fn years_beyond_four_digits_are_lost_at_occurrences() {
    let at = Occurrence { day: day(9999, 12, 31), seconds: second(9999, 12, 31, 12, 0, 0) };
    let moved = event_at(&event(date(1), date(2)), at).unwrap().unwrap();
    assert!(matches!(moved.start, Some(CalendarTime::Date(number)) if number == day(9999, 12, 31)));
    assert!(moved.end.is_none());
    let moved = event_at(&event(utc(0), utc(86_400)), at).unwrap().unwrap();
    assert!(matches!(moved.start, Some(CalendarTime::Utc(instant)) if instant.seconds == at.seconds));
    assert!(moved.end.is_none());
    let early = Occurrence { day: day(0, 1, 1), seconds: second(0, 1, 1, 0, 0, 0) };
    let moved = event_at(&event(utc(0), utc(60)), early).unwrap().unwrap();
    assert!(matches!(moved.start, Some(CalendarTime::Utc(instant)) if instant.seconds == early.seconds));
    let before = event_at(&event(utc(60), utc(0)), early).unwrap().unwrap();
    assert!(before.end.is_none());
}
