//! Events that recur.
use crate::calendar::{read_time, CalendarEvent, RecurrenceRules, RuleProperty};
#[allow(unused_imports)]
use crate::calendar::{
    stated_time, texts, CalendarEventView, RecurrenceRulesView, RulePropertyView,
};
#[allow(unused_imports)]
use crate::clock::elapsed_nanos;
use crate::clock::elapsed;
#[allow(unused_imports)]
use crate::time::{
    day_number, day_of_second, days_before_month, first_second, is_day, is_second, NANOS_PER_SECOND,
    SECONDS_PER_DAY,
};
use crate::time::{EventDate, Instant, TimeError, MAX_DAY, MAX_SECONDS, MIN_SECONDS};
use crate::weekdays::check_weekdays;
#[allow(unused_imports)]
use crate::weekdays::misspells_a_weekday;
use crate::zone::{checked_optional_event_date, CalendarTime};
#[allow(unused_imports)]
use crate::zone::{optional_event_date, optional_time_view, CalendarTimeView};
use vstd::prelude::*;

verus! {

/// How many occurrences of one event are looked at.
pub const MAX_RECURRENCES: u16 = 100;

/// The line that states a rule.
pub open spec fn rule_line(name: Seq<char>, value: Seq<char>) -> Seq<char> {
    name + seq![':'] + value
}

/// Lines as one text, each with its line break.
pub open spec fn joined(lines: Seq<Seq<char>>) -> Seq<char>
    decreases lines.len(),
{
    if lines.len() == 0 {
        Seq::empty()
    } else {
        joined(lines.drop_last()) + lines.last() + seq!['\n']
    }
}

/// The lines of a property: its value where it stands once, else the values of its list.
pub open spec fn property_lines(name: Seq<char>, property: RulePropertyView) -> Seq<Seq<char>> {
    match property.value {
        Some(value) => seq![rule_line(name, value)],
        None => property.values.map_values(|value: Seq<char>| rule_line(name, value)),
    }
}

/// The lines that say when an event recurs.
pub open spec fn rules_lines(rules: RecurrenceRulesView) -> Seq<Seq<char>> {
    property_lines("DTSTART"@, rules.dtstart) + property_lines("RRULE"@, rules.rrule)
        + property_lines("EXRULE"@, rules.exrule) + property_lines("RDATE"@, rules.rdate)
        + property_lines("EXDATE"@, rules.exdate)
}

/// The text that says when an event recurs.
pub open spec fn rules_text(rules: RecurrenceRulesView) -> Seq<char> {
    joined(rules_lines(rules))
}

proof fn lemma_joined_concat(first: Seq<Seq<char>>, rest: Seq<Seq<char>>)
    ensures
        joined(first + rest) == joined(first) + joined(rest),
    decreases rest.len(),
{
    if rest.len() == 0 {
        assert(first + rest =~= first);
        assert(joined(first) + joined(rest) =~= joined(first));
    } else {
        lemma_joined_concat(first, rest.drop_last());
        assert((first + rest).drop_last() =~= first + rest.drop_last());
        assert(joined(first + rest) =~= joined(first) + joined(rest));
    }
}

/// Appends the line of a rule to a text.
fn append_line(text: &mut String, name: &str, value: &String)
    ensures
        final(text)@ == old(text)@ + rule_line(name@, value@) + seq!['\n'],
{
    proof {
        reveal_strlit(":");
        reveal_strlit("\n");
    }
    text.append(name);
    text.append(":");
    text.append(value.as_str());
    text.append("\n");
    assert(text@ =~= old(text)@ + rule_line(name@, value@) + seq!['\n']);
}

/// Appends the lines of a property to a text.
fn append_property(text: &mut String, name: &str, property: &RuleProperty)
    ensures
        final(text)@ == old(text)@ + joined(property_lines(name@, property@)),
{
    let ghost lines = property_lines(name@, property@);
    match &property.value {
        Some(value) => {
            append_line(text, name, value);
            proof {
                reveal_with_fuel(joined, 2);
                assert(lines.drop_last() =~= Seq::empty());
                assert(text@ =~= old(text)@ + joined(lines));
            }
        },
        None => {
            assert(lines.take(0) =~= Seq::empty());
            assert(text@ =~= old(text)@ + joined(lines.take(0)));
            for i in 0..property.values.len()
                invariant
                    lines == texts(property.values@).map_values(
                        |value: Seq<char>| rule_line(name@, value),
                    ),
                    text@ == old(text)@ + joined(lines.take(i as int)),
            {
                append_line(text, name, &property.values[i]);
                proof {
                    assert(lines.take(i + 1).drop_last() =~= lines.take(i as int));
                    assert(lines.take(i + 1).last() == rule_line(name@, property.values@[i as int]@));
                    assert(text@ =~= old(text)@ + joined(lines.take(i + 1)));
                }
            }
            assert(lines.take(property.values@.len() as int) =~= lines);
        },
    }
}

/// The text that says when an event recurs.
pub fn recurrence_text(rules: &RecurrenceRules) -> (r: String)
    ensures
        r@ == rules_text(rules@),
{
    let mut text = String::new();
    append_property(&mut text, "DTSTART", &rules.dtstart);
    append_property(&mut text, "RRULE", &rules.rrule);
    append_property(&mut text, "EXRULE", &rules.exrule);
    append_property(&mut text, "RDATE", &rules.rdate);
    append_property(&mut text, "EXDATE", &rules.exdate);
    proof {
        let a = property_lines("DTSTART"@, rules@.dtstart);
        let b = property_lines("RRULE"@, rules@.rrule);
        let c = property_lines("EXRULE"@, rules@.exrule);
        let d = property_lines("RDATE"@, rules@.rdate);
        let e = property_lines("EXDATE"@, rules@.exdate);
        lemma_joined_concat(a, b);
        lemma_joined_concat(a + b, c);
        lemma_joined_concat(a + b + c, d);
        lemma_joined_concat(a + b + c + d, e);
        assert(text@ =~= rules_text(rules@));
    }
    text
}

/// An occurrence of a recurring event.
#[derive(Clone, Copy, Debug, PartialEq, Eq, Structural)]
pub struct Occurrence {
    /// The number of the day on which it begins, on the clocks of its time zone.
    pub day: i32,
    /// The second at which it begins, counted from the start of 1970.
    pub seconds: i64,
}

impl Occurrence {
    /// Whether the day and the second can be named and are those of one moment: the clocks of a time
    /// zone are less than a day ahead of UTC or behind it.
    pub open spec fn well_formed(self) -> bool {
        &&& is_day(self.day as int)
        &&& is_second(self.seconds as int)
        &&& first_second(self.day as int) - SECONDS_PER_DAY < self.seconds < first_second(
            self.day as int,
        ) + 2 * SECONDS_PER_DAY
    }
}

/// `rrule::RRuleSet`, rules that say when an event recurs.
#[verifier::external_type_specification]
#[verifier::external_body]
pub struct ExRRuleSet(rrule::RRuleSet);

/// Whether a line is unbroken and states a property.
pub open spec fn is_line_of(line: Seq<char>, name: Seq<char>) -> bool {
    !line.contains('\n') && (name + seq![':']).is_prefix_of(line)
}

/// Whether a line states no date on which an event is held beyond its start.
pub open spec fn is_line_without_dates(line: Seq<char>) -> bool {
    is_line_of(line, "DTSTART"@) || is_line_of(line, "EXRULE"@) || is_line_of(line, "EXDATE"@)
}

/// Whether a line states something other than the start of an event.
pub open spec fn is_line_without_start(line: Seq<char>) -> bool {
    is_line_of(line, "RRULE"@) || is_line_of(line, "EXRULE"@) || is_line_of(line, "RDATE"@)
        || is_line_of(line, "EXDATE"@)
}

/// Whether the lines of a text state no start, or no date beyond it.
pub open spec fn lacks_start_or_dates(text: Seq<char>) -> bool {
    exists|lines: Seq<Seq<char>>|
        text == #[trigger] joined(lines) && ((forall|i: int|
            0 <= i < lines.len() ==> is_line_without_dates(#[trigger] lines[i])) || (forall|i: int|
            0 <= i < lines.len() ==> is_line_without_start(#[trigger] lines[i])))
}

/// The rules that a text states, as `rrule` reads them on a machine. The number of the machine stands for
/// its time zone, on whose clocks a date without a zone is taken.
pub uninterp spec fn rules_in(text: Seq<char>, machine: int) -> Option<rrule::RRuleSet>;

/// The first dates of rules, no more than a limit, as `rrule` finds them on a machine. The number of the
/// machine stands for its time zone.
pub uninterp spec fn dates_of(rules: rrule::RRuleSet, limit: int, machine: int) -> Seq<Occurrence>;

/// Calls `str::parse` for `rrule::RRuleSet`. What it reads depends on the text and, where a date states no
/// zone, on the time zone of the machine. It reads nothing where no line of the text is a `DTSTART`, or
/// none is an `RRULE` or an `RDATE`. It takes the last two bytes of each listed weekday for its letters,
/// so these must be characters.
#[verifier::external_body]
fn parse_rules(text: &str) -> (r: Option<rrule::RRuleSet>)
    requires
        !misspells_a_weekday(text@),
    ensures
        exists|machine: int| r == #[trigger] rules_in(text@, machine),
        lacks_start_or_dates(text@) ==> r is None,
{
    text.parse::<rrule::RRuleSet>().ok()
}

/// Calls `rrule::RRuleSet::all`, which gives no more dates than the limit. Which dates these are depends
/// on the rules, the limit and, where the rules state a time without a zone, on the time zone of the
/// machine.
#[verifier::external_body]
fn rule_dates(rules: rrule::RRuleSet, limit: u16) -> (r: Vec<Occurrence>)
    ensures
        exists|machine: int| r@ == #[trigger] dates_of(rules, limit as int, machine),
        r@.len() <= limit,
        forall|i: int| 0 <= i < r@.len() ==> (#[trigger] r@[i]).well_formed(),
{
    let dates = rules.all(limit).dates;
    dates.iter().map(
        |date| Occurrence {
            day: chrono::Datelike::num_days_from_ce(&date.date_naive()),
            seconds: date.timestamp(),
        },
    ).collect()
}

/// Whether a value of a property would break its line.
pub open spec fn breaks_a_line(name: Seq<char>, property: RulePropertyView) -> bool {
    exists|i: int|
        0 <= i < property_lines(name, property).len() && (
        #[trigger] property_lines(name, property)[i]).contains('\n')
}

/// Whether an event may recur: its rules state a start and dates beyond it, or hold a value that breaks
/// its line and so may state anything.
pub open spec fn may_recur(rules: RecurrenceRulesView) -> bool {
    ||| property_lines("DTSTART"@, rules.dtstart).len() > 0 && (property_lines(
        "RRULE"@,
        rules.rrule,
    ).len() > 0 || property_lines("RDATE"@, rules.rdate).len() > 0)
    ||| breaks_a_line("DTSTART"@, rules.dtstart)
    ||| breaks_a_line("RRULE"@, rules.rrule)
    ||| breaks_a_line("EXRULE"@, rules.exrule)
    ||| breaks_a_line("RDATE"@, rules.rdate)
    ||| breaks_a_line("EXDATE"@, rules.exdate)
}

/// What holds of the occurrences that are found for rules, whatever the machine: there are none to find
/// where the event cannot recur, and never more than [`MAX_RECURRENCES`].
pub open spec fn sound_occurrences(
    rules: RecurrenceRulesView,
    found: Option<Seq<Occurrence>>,
) -> bool {
    &&& !may_recur(rules) ==> found is None
    &&& found matches Some(dates) ==> dates.len() <= MAX_RECURRENCES && forall|i: int|
        0 <= i < dates.len() ==> (#[trigger] dates[i]).well_formed()
}

/// The occurrences that a text of rules states on a machine: none that can be read where a weekday is
/// misspelt. The machine may have one time zone when the rules are read and another when the dates are
/// found.
pub open spec fn occurrences_on(text: Seq<char>, reading: int, dating: int) -> Option<
    Seq<Occurrence>,
> {
    if misspells_a_weekday(text) {
        None
    } else {
        match rules_in(text, reading) {
            None => None,
            Some(rules) => Some(dates_of(rules, MAX_RECURRENCES as int, dating)),
        }
    }
}

/// Whether occurrences are those that rules state on some machine.
pub open spec fn possible_occurrences(
    rules: RecurrenceRulesView,
    found: Option<Seq<Occurrence>>,
) -> bool {
    &&& sound_occurrences(rules, found)
    &&& exists|reading: int, dating: int|
        found == #[trigger] occurrences_on(rules_text(rules), reading, dating)
}

/// What an optional list of occurrences holds.
pub open spec fn occurrence_views(found: Option<Vec<Occurrence>>) -> Option<Seq<Occurrence>> {
    match found {
        None => None,
        Some(dates) => Some(dates@),
    }
}

proof fn lemma_lines_state_their_property(name: Seq<char>, property: RulePropertyView)
    requires
        !breaks_a_line(name, property),
    ensures
        forall|i: int|
            0 <= i < property_lines(name, property).len() ==> is_line_of(
                #[trigger] property_lines(name, property)[i],
                name,
            ),
{
    let lines = property_lines(name, property);
    assert forall|i: int| 0 <= i < lines.len() implies is_line_of(#[trigger] lines[i], name) by {
        let value = if property.value is Some {
            property.value->0
        } else {
            property.values[i]
        };
        assert(lines[i] == name + seq![':'] + value);
        assert((name + seq![':']).is_prefix_of(lines[i]));
    }
}

proof fn lemma_rules_lack_start_or_dates(rules: RecurrenceRulesView)
    requires
        !may_recur(rules),
    ensures
        lacks_start_or_dates(rules_text(rules)),
{
    lemma_lines_state_their_property("DTSTART"@, rules.dtstart);
    lemma_lines_state_their_property("RRULE"@, rules.rrule);
    lemma_lines_state_their_property("EXRULE"@, rules.exrule);
    lemma_lines_state_their_property("RDATE"@, rules.rdate);
    lemma_lines_state_their_property("EXDATE"@, rules.exdate);
    let a = property_lines("DTSTART"@, rules.dtstart);
    let b = property_lines("RRULE"@, rules.rrule);
    let c = property_lines("EXRULE"@, rules.exrule);
    let d = property_lines("RDATE"@, rules.rdate);
    let e = property_lines("EXDATE"@, rules.exdate);
    let lines = rules_lines(rules);
    assert(lines =~= a + b + c + d + e);
    assert forall|i: int| 0 <= i < lines.len() implies {
        &&& a.len() == 0 ==> is_line_without_start(#[trigger] lines[i])
        &&& b.len() == 0 && d.len() == 0 ==> is_line_without_dates(lines[i])
    } by {
        let to_b = a.len();
        let to_c = to_b + b.len();
        let to_d = to_c + c.len();
        let to_e = to_d + d.len();
        if i < to_b {
            assert(lines[i] == a[i]);
        } else if i < to_c {
            assert(lines[i] == b[i - to_b]);
        } else if i < to_d {
            assert(lines[i] == c[i - to_c]);
        } else if i < to_e {
            assert(lines[i] == d[i - to_d]);
        } else {
            assert(lines[i] == e[i - to_e]);
        }
    }
    assert(rules_text(rules) == joined(lines));
}

/// Finds the occurrences that rules state; `None` where the rules cannot be read.
pub fn find_occurrences(rules: &RecurrenceRules) -> (r: Option<Vec<Occurrence>>)
    ensures
        possible_occurrences(rules@, occurrence_views(r)),
{
    let text = recurrence_text(rules);
    if check_weekdays(text.as_str()) {
        assert(occurrences_on(text@, 0, 0) is None);
        return None;
    }
    proof {
        if !may_recur(rules@) {
            lemma_rules_lack_start_or_dates(rules@);
        }
    }
    let parsed = parse_rules(text.as_str());
    let ghost reading = choose|machine: int| parsed == #[trigger] rules_in(text@, machine);
    match parsed {
        None => {
            assert(occurrences_on(text@, reading, 0) is None);
            None
        },
        Some(set) => {
            let dates = rule_dates(set, MAX_RECURRENCES);
            proof {
                let dating = choose|machine: int|
                    dates@ == #[trigger] dates_of(set, MAX_RECURRENCES as int, machine);
                assert(occurrences_on(text@, reading, dating) == Some(dates@));
            }
            Some(dates)
        },
    }
}

/// Whether a date is written with a year of four digits, from 0 to 9999.
pub open spec fn has_plain_year(date: EventDate) -> bool {
    let day = match date {
        EventDate::Date(day) => day as int,
        EventDate::DateTimeUtc(instant) => day_of_second(instant.seconds as int),
    };
    day_number(0, 1, 1) <= day <= day_number(9999, 12, 31)
}

/// The time that a property states after a date was written into it: the date where its year has four
/// digits, else nothing.
pub open spec fn restated(date: EventDate) -> Option<CalendarTimeView> {
    if has_plain_year(date) {
        Some(
            match date {
                EventDate::Date(day) => CalendarTimeView::Date(day as int),
                EventDate::DateTimeUtc(instant) => CalendarTimeView::Utc(instant),
            },
        )
    } else {
        None
    }
}

/// Calls `icalendar::DatePerhapsTime::to_property` for the start or the end of an event. A date with a year
/// of four digits is what `icalendar::DatePerhapsTime::from_property` reads back. Any other year is written
/// with a sign, and the digits after a sign are all taken for the year, so that nothing is read back.
#[verifier::external_body]
fn write_date(date: EventDate, key: &str) -> (r: icalendar::Property)
    requires
        key@ == "DTSTART"@ || key@ == "DTEND"@,
        date.well_formed(),
        date matches EventDate::DateTimeUtc(instant) ==> instant.nanos == 0,
    ensures
        stated_time(r) == restated(date),
{
    let stated: icalendar::DatePerhapsTime = match date {
        EventDate::Date(day) => chrono::NaiveDate::from_num_days_from_ce_opt(day).unwrap().into(),
        EventDate::DateTimeUtc(at) =>
            chrono::DateTime::from_timestamp(at.seconds, at.nanos).unwrap().into(),
    };
    stated.to_property(key)
}

/// The time that an occurrence states after it was written into its event.
fn restate(date: EventDate, key: &str) -> (r: Option<CalendarTime>)
    requires
        key@ == "DTSTART"@ || key@ == "DTEND"@,
        date.well_formed(),
        date matches EventDate::DateTimeUtc(instant) ==> instant.nanos == 0,
    ensures
        optional_time_view(r) == restated(date),
{
    read_time(&write_date(date, key))
}

/// The whole seconds from one point in time to another, rounded down.
pub open spec fn span_seconds(start: Instant, end: Instant) -> int {
    elapsed_nanos(start, end) / (NANOS_PER_SECOND as int)
}

/// The whole seconds from one point in time to another, rounded down.
fn seconds_between(start: Instant, end: Instant) -> (r: i64)
    requires
        start.well_formed(),
        end.well_formed(),
    ensures
        r == span_seconds(start, end),
        -20_000_000_000_000 < r < 20_000_000_000_000,
{
    let (seconds, nanos): (i64, i32) = elapsed(start, end);
    if nanos < 0 {
        seconds - 1
    } else {
        seconds
    }
}

/// The event at one of its occurrences: it begins there and lasts as long as it does in the calendar.
/// There is none where the event does not state both times, or one as a day and one as an instant.
pub open spec fn occurrence_event(event: CalendarEventView, at: Occurrence) -> Result<
    Option<CalendarEventView>,
    TimeError,
> {
    match (optional_event_date(event.start), optional_event_date(event.end)) {
        (Err(error), _) => Err(error),
        (_, Err(error)) => Err(error),
        (Ok(Some(EventDate::Date(start))), Ok(Some(EventDate::Date(end)))) => {
            let last = at.day + (end - start);
            if end < start || last > MAX_DAY {
                Err(TimeError::OutOfRange)
            } else {
                Ok(
                    Some(
                        CalendarEventView {
                            start: restated(EventDate::Date(at.day)),
                            end: restated(EventDate::Date(last as i32)),
                            ..event
                        },
                    ),
                )
            }
        },
        (Ok(Some(EventDate::DateTimeUtc(start))), Ok(Some(EventDate::DateTimeUtc(end)))) => {
            let last = at.seconds + span_seconds(start, end);
            if !is_second(last) {
                Err(TimeError::OutOfRange)
            } else {
                Ok(
                    Some(
                        CalendarEventView {
                            start: restated(
                                EventDate::DateTimeUtc(Instant { seconds: at.seconds, nanos: 0 }),
                            ),
                            end: restated(
                                EventDate::DateTimeUtc(Instant { seconds: last as i64, nanos: 0 }),
                            ),
                            ..event
                        },
                    ),
                )
            }
        },
        _ => Ok(None),
    }
}

/// What an optional event holds.
pub open spec fn optional_event_view(event: Option<CalendarEvent>) -> Option<CalendarEventView> {
    match event {
        None => None,
        Some(event) => Some(event@),
    }
}

/// The event at one of its occurrences.
pub fn event_at(event: &CalendarEvent, at: Occurrence) -> (r: Result<
    Option<CalendarEvent>,
    TimeError,
>)
    requires
        event@.well_formed(),
        at.well_formed(),
    ensures
        match r {
            Ok(event_at) => occurrence_event(event@, at) == Ok::<
                Option<CalendarEventView>,
                TimeError,
            >(optional_event_view(event_at)) && (event_at matches Some(e) ==> e@.well_formed()),
            Err(error) => occurrence_event(event@, at) == Err::<
                Option<CalendarEventView>,
                TimeError,
            >(error),
        },
{
    let start = match checked_optional_event_date(&event.start) {
        Ok(start) => start,
        Err(error) => {
            return Err(error);
        },
    };
    let end = match checked_optional_event_date(&event.end) {
        Ok(end) => end,
        Err(error) => {
            return Err(error);
        },
    };
    match (start, end) {
        // Timestamps without time
        (Some(EventDate::Date(start)), Some(EventDate::Date(end))) => {
            let last: i64 = at.day as i64 + (end as i64 - start as i64);
            if end < start || last > MAX_DAY as i64 {
                return Err(TimeError::OutOfRange);
            }
            let starts = restate(EventDate::Date(at.day), "DTSTART");
            let ends = restate(EventDate::Date(last as i32), "DTEND");
            Ok(Some(event.at_times(starts, ends)))
        },
        // Timestamps with time
        (Some(EventDate::DateTimeUtc(start)), Some(EventDate::DateTimeUtc(end))) => {
            let last: i64 = at.seconds + seconds_between(start, end);
            if last < MIN_SECONDS || last > MAX_SECONDS {
                return Err(TimeError::OutOfRange);
            }
            let starts = restate(
                EventDate::DateTimeUtc(Instant { seconds: at.seconds, nanos: 0 }),
                "DTSTART",
            );
            let ends = restate(
                EventDate::DateTimeUtc(Instant { seconds: last, nanos: 0 }),
                "DTEND",
            );
            Ok(Some(event.at_times(starts, ends)))
        },
        // Skip if start and end are expressed in differing formats, or when parsing fails
        _ => Ok(None),
    }
}

/// What a list of events holds.
pub open spec fn event_views(events: Seq<CalendarEvent>) -> Seq<CalendarEventView> {
    events.map_values(|event: CalendarEvent| event@)
}

/// The event at each of its occurrences, in order; the first that cannot be worked out is the answer.
pub open spec fn occurrence_events(event: CalendarEventView, dates: Seq<Occurrence>) -> Result<
    Seq<CalendarEventView>,
    TimeError,
>
    decreases dates.len(),
{
    if dates.len() == 0 {
        Ok(Seq::empty())
    } else {
        match (occurrence_events(event, dates.drop_last()), occurrence_event(event, dates.last())) {
            (Err(error), _) => Err(error),
            (_, Err(error)) => Err(error),
            (Ok(before), Ok(None)) => Ok(before),
            (Ok(before), Ok(Some(at))) => Ok(before.push(at)),
        }
    }
}

/// The events that stand for an event: the event itself where it has no readable rules, else the event
/// at each of the occurrences found.
pub open spec fn expanded(event: CalendarEventView, found: Option<Seq<Occurrence>>) -> Result<
    Seq<CalendarEventView>,
    TimeError,
> {
    match found {
        None => Ok(seq![event]),
        Some(dates) => occurrence_events(event, dates),
    }
}

proof fn lemma_occurrence_error_stays(event: CalendarEventView, dates: Seq<Occurrence>, i: int)
    requires
        0 <= i <= dates.len(),
        occurrence_events(event, dates.take(i)) is Err,
    ensures
        occurrence_events(event, dates) == occurrence_events(event, dates.take(i)),
    decreases dates.len() - i,
{
    if i == dates.len() {
        assert(dates.take(i) =~= dates);
    } else {
        assert(dates.take(i + 1).drop_last() =~= dates.take(i));
        lemma_occurrence_error_stays(event, dates, i + 1);
    }
}

/// The events that stand for an event, given the occurrences found for it.
pub fn expand_event(event: &CalendarEvent, found: &Option<Vec<Occurrence>>) -> (r: Result<
    Vec<CalendarEvent>,
    TimeError,
>)
    requires
        event@.well_formed(),
        found matches Some(dates) ==> forall|i: int|
            0 <= i < dates@.len() ==> (#[trigger] dates@[i]).well_formed(),
    ensures
        match r {
            Ok(events) => expanded(event@, occurrence_views(*found)) == Ok::<
                Seq<CalendarEventView>,
                TimeError,
            >(event_views(events@)) && forall|i: int|
                0 <= i < events@.len() ==> (#[trigger] events@[i])@.well_formed(),
            Err(error) => expanded(event@, occurrence_views(*found)) == Err::<
                Seq<CalendarEventView>,
                TimeError,
            >(error),
        },
{
    let dates = match found {
        // Only the event itself if parsing recurrence fails or recurrence rules don't exist
        None => {
            let mut only: Vec<CalendarEvent> = Vec::new();
            only.push(event.duplicate());
            assert(event_views(only@) =~= seq![event@]);
            return Ok(only);
        },
        Some(dates) => dates,
    };
    let mut events: Vec<CalendarEvent> = Vec::new();
    assert(event_views(events@) =~= Seq::empty());
    for i in 0..dates.len()
        invariant
            event@.well_formed(),
            forall|j: int| 0 <= j < dates@.len() ==> (#[trigger] dates@[j]).well_formed(),
            *found == Some(*dates),
            occurrence_events(event@, dates@.take(i as int)) == Ok::<
                Seq<CalendarEventView>,
                TimeError,
            >(event_views(events@)),
            forall|j: int| 0 <= j < events@.len() ==> (#[trigger] events@[j])@.well_formed(),
    {
        proof {
            assert(dates@.take(i + 1).drop_last() =~= dates@.take(i as int));
            assert(dates@.take(i + 1).last() == dates@[i as int]);
        }
        match event_at(event, dates[i]) {
            Err(error) => {
                proof {
                    lemma_occurrence_error_stays(event@, dates@, i + 1);
                }
                return Err(error);
            },
            Ok(None) => {},
            Ok(Some(at)) => {
                let ghost before = event_views(events@);
                events.push(at);
                assert(event_views(events@) =~= before.push(at@));
            },
        }
    }
    assert(dates@.take(dates@.len() as int) =~= dates@);
    Ok(events)
}

/// An event that cannot recur stands for itself, whatever the machine finds.
pub proof fn law_single_event_stands_for_itself(
    event: CalendarEventView,
    rules: RecurrenceRulesView,
    found: Option<Seq<Occurrence>>,
)
    requires
        sound_occurrences(rules, found),
        !may_recur(rules),
    ensures
        expanded(event, found) == Ok::<Seq<CalendarEventView>, TimeError>(seq![event]),
{
}

proof fn lemma_occurrence_events_len(event: CalendarEventView, dates: Seq<Occurrence>)
    ensures
        occurrence_events(event, dates) matches Ok(events) ==> events.len() <= dates.len(),
    decreases dates.len(),
{
    if dates.len() > 0 {
        lemma_occurrence_events_len(event, dates.drop_last());
    }
}

/// No event stands in a list more than [`MAX_RECURRENCES`] times.
pub proof fn law_occurrences_are_limited(
    event: CalendarEventView,
    rules: RecurrenceRulesView,
    found: Option<Seq<Occurrence>>,
)
    requires
        sound_occurrences(rules, found),
        expanded(event, found) is Ok,
    ensures
        expanded(event, found)->Ok_0.len() <= MAX_RECURRENCES,
{
    if found is Some {
        lemma_occurrence_events_len(event, found->0);
    }
}

/// Whether an event differs from another in nothing but its times.
pub open spec fn same_but_for_times(a: CalendarEventView, b: CalendarEventView) -> bool {
    &&& a.summary == b.summary
    &&& a.description == b.description
    &&& a.location == b.location
}

proof fn lemma_occurrence_events_are_the_event(event: CalendarEventView, dates: Seq<Occurrence>)
    ensures
        occurrence_events(event, dates) matches Ok(events) ==> forall|i: int|
            0 <= i < events.len() ==> same_but_for_times(#[trigger] events[i], event),
    decreases dates.len(),
{
    if dates.len() > 0 {
        lemma_occurrence_events_are_the_event(event, dates.drop_last());
    }
}

/// The events that stand for an event differ from it in nothing but their times.
pub proof fn law_occurrences_are_the_event(
    event: CalendarEventView,
    found: Option<Seq<Occurrence>>,
    i: int,
)
    requires
        expanded(event, found) is Ok,
        0 <= i < expanded(event, found)->Ok_0.len(),
    ensures
        same_but_for_times(expanded(event, found)->Ok_0[i], event),
{
    if found is Some {
        lemma_occurrence_events_are_the_event(event, found->0);
    }
}

/// An event of whole days lasts as many days at each of its occurrences as it does in the calendar, and
/// begins on the day of the occurrence.
pub proof fn law_occurrence_keeps_its_days(
    event: CalendarEventView,
    at: Occurrence,
    start: i32,
    end: i32,
    new_start: int,
    new_end: int,
)
    requires
        optional_event_date(event.start) == Ok::<Option<EventDate>, TimeError>(
            Some(EventDate::Date(start)),
        ),
        optional_event_date(event.end) == Ok::<Option<EventDate>, TimeError>(
            Some(EventDate::Date(end)),
        ),
        at.well_formed(),
        occurrence_event(event, at) matches Ok(Some(e)) && e.start == Some(
            CalendarTimeView::Date(new_start),
        ) && e.end == Some(CalendarTimeView::Date(new_end)),
    ensures
        new_start == at.day,
        new_end - new_start == end - start,
{
}

/// An event with times, in UTC or in a zone, lasts as long at each of its occurrences as it does in the
/// calendar, to the full second, and begins at the second of the occurrence.
pub proof fn law_occurrence_keeps_its_length(
    event: CalendarEventView,
    at: Occurrence,
    start: Instant,
    end: Instant,
    new_start: Instant,
    new_end: Instant,
)
    requires
        optional_event_date(event.start) == Ok::<Option<EventDate>, TimeError>(
            Some(EventDate::DateTimeUtc(start)),
        ),
        optional_event_date(event.end) == Ok::<Option<EventDate>, TimeError>(
            Some(EventDate::DateTimeUtc(end)),
        ),
        occurrence_event(event, at) matches Ok(Some(e)) && e.start == Some(
            CalendarTimeView::Utc(new_start),
        ) && e.end == Some(CalendarTimeView::Utc(new_end)),
    ensures
        new_start.seconds == at.seconds,
        new_end.seconds - new_start.seconds == span_seconds(start, end),
{
}

/// The time that is read back of an instant at a full second: the instant where its year has four digits.
proof fn lemma_restated_second(seconds: i64)
    ensures
        ({
            let at = Instant { seconds, nanos: 0 };
            if -62_167_219_200 <= seconds <= 253_402_300_799 {
                restated(EventDate::DateTimeUtc(at)) == Some(CalendarTimeView::Utc(at))
            } else {
                restated(EventDate::DateTimeUtc(at)) is None
            }
        }),
{
    lemma_years_of_four_digits();
}

proof fn lemma_years_of_four_digits()
    ensures
        day_number(0, 1, 1) == -365,
        day_number(9999, 12, 31) == 3_652_059,
{
    reveal_with_fuel(days_before_month, 13);
}

/// An event whose start and end mean instants is held at each of its occurrences: it begins at the second
/// of the occurrence and ends as many seconds later as in the calendar. Only where that end cannot be named
/// is it out of range. A time of a year without four digits is lost.
pub proof fn law_event_of_instants_is_held_at_its_occurrences(
    event: CalendarEventView,
    at: Occurrence,
    start: Instant,
    end: Instant,
    length: int,
)
    requires
        optional_event_date(event.start) == Ok::<Option<EventDate>, TimeError>(
            Some(EventDate::DateTimeUtc(start)),
        ),
        optional_event_date(event.end) == Ok::<Option<EventDate>, TimeError>(
            Some(EventDate::DateTimeUtc(end)),
        ),
        length * 1_000_000_000 <= elapsed_nanos(start, end) < (length + 1) * 1_000_000_000,
    ensures
        -8_334_601_228_800 <= at.seconds + length <= 8_210_266_876_799 ==> (occurrence_event(
            event,
            at,
        ) matches Ok(Some(e)) && {
            &&& e.summary == event.summary
            &&& e.description == event.description
            &&& e.location == event.location
            &&& if -62_167_219_200 <= at.seconds <= 253_402_300_799 {
                e.start == Some(CalendarTimeView::Utc(Instant { seconds: at.seconds, nanos: 0 }))
            } else {
                e.start is None
            }
            &&& if -62_167_219_200 <= at.seconds + length <= 253_402_300_799 {
                e.end == Some(
                    CalendarTimeView::Utc(
                        Instant { seconds: (at.seconds + length) as i64, nanos: 0 },
                    ),
                )
            } else {
                e.end is None
            }
        }),
        !(-8_334_601_228_800 <= at.seconds + length <= 8_210_266_876_799) ==> occurrence_event(
            event,
            at,
        ) == Err::<Option<CalendarEventView>, TimeError>(TimeError::OutOfRange),
{
    assert(span_seconds(start, end) == length);
    lemma_restated_second(at.seconds);
    lemma_restated_second((at.seconds + length) as i64);
}

/// An event whose start and end mean days is held at each of its occurrences: it begins on the day of the
/// occurrence and lasts as many days as in the calendar. Only where it ends before it begins, or its last
/// day cannot be named, is it out of range. A day of a year without four digits is lost.
pub proof fn law_event_of_days_is_held_at_its_occurrences(
    event: CalendarEventView,
    at: Occurrence,
    start: i32,
    end: i32,
)
    requires
        optional_event_date(event.start) == Ok::<Option<EventDate>, TimeError>(
            Some(EventDate::Date(start)),
        ),
        optional_event_date(event.end) == Ok::<Option<EventDate>, TimeError>(
            Some(EventDate::Date(end)),
        ),
        at.well_formed(),
    ensures
        start <= end && at.day + (end - start) <= 95_745_399 ==> (occurrence_event(
            event,
            at,
        ) matches Ok(Some(e)) && {
            &&& e.summary == event.summary
            &&& e.description == event.description
            &&& e.location == event.location
            &&& if -365 <= at.day <= 3_652_059 {
                e.start == Some(CalendarTimeView::Date(at.day as int))
            } else {
                e.start is None
            }
            &&& if -365 <= at.day + (end - start) <= 3_652_059 {
                e.end == Some(CalendarTimeView::Date(at.day + (end - start)))
            } else {
                e.end is None
            }
        }),
        start > end || at.day + (end - start) > 95_745_399 ==> occurrence_event(event, at) == Err::<
            Option<CalendarEventView>,
            TimeError,
        >(TimeError::OutOfRange),
{
    lemma_years_of_four_digits();
}

/// An event is held at none of its occurrences where it lacks a time or one is a day and one an instant,
/// and what cannot be worked out of its times cannot be worked out of its occurrences.
pub proof fn law_event_without_two_like_times_is_not_held(event: CalendarEventView, at: Occurrence)
    ensures
        match (optional_event_date(event.start), optional_event_date(event.end)) {
            (Err(error), _) => occurrence_event(event, at) == Err::<
                Option<CalendarEventView>,
                TimeError,
            >(error),
            (Ok(_), Err(error)) => occurrence_event(event, at) == Err::<
                Option<CalendarEventView>,
                TimeError,
            >(error),
            (Ok(Some(EventDate::Date(_))), Ok(Some(EventDate::Date(_)))) => !(occurrence_event(
                event,
                at,
            ) matches Ok(None)),
            (
                Ok(Some(EventDate::DateTimeUtc(_))),
                Ok(Some(EventDate::DateTimeUtc(_))),
            ) => !(occurrence_event(event, at) matches Ok(None)),
            _ => occurrence_event(event, at) == Ok::<Option<CalendarEventView>, TimeError>(None),
        },
{
}

/// Two occurrences of one event with times of years of four digits are as far apart at their ends as at
/// their starts.
pub proof fn law_occurrences_move_as_a_whole(
    event: CalendarEventView,
    a: Occurrence,
    b: Occurrence,
    start_a: Instant,
    start_b: Instant,
    end_a: Instant,
    end_b: Instant,
)
    requires
        occurrence_event(event, a) matches Ok(Some(e)) && e.start == Some(
            CalendarTimeView::Utc(start_a),
        ) && e.end == Some(CalendarTimeView::Utc(end_a)),
        occurrence_event(event, b) matches Ok(Some(e)) && e.start == Some(
            CalendarTimeView::Utc(start_b),
        ) && e.end == Some(CalendarTimeView::Utc(end_b)),
    ensures
        start_b.seconds - start_a.seconds == b.seconds - a.seconds,
        end_b.seconds - end_a.seconds == b.seconds - a.seconds,
{
}

proof fn lemma_one_event_for_each_date(event: CalendarEventView, dates: Seq<Occurrence>)
    requires
        forall|i: int|
            0 <= i < dates.len() ==> (occurrence_event(event, #[trigger] dates[i]) matches Ok(Some(_))),
    ensures
        occurrence_events(event, dates) matches Ok(events) && {
            &&& events.len() == dates.len()
            &&& forall|i: int|
                0 <= i < dates.len() ==> occurrence_event(event, dates[i]) == Ok::<
                    Option<CalendarEventView>,
                    TimeError,
                >(Some(#[trigger] events[i]))
        },
    decreases dates.len(),
{
    if dates.len() > 0 {
        let before = dates.drop_last();
        assert forall|i: int| 0 <= i < before.len() implies (occurrence_event(
            event,
            #[trigger] before[i],
        ) matches Ok(Some(_))) by {
            assert(before[i] == dates[i]);
        }
        lemma_one_event_for_each_date(event, before);
        let events = occurrence_events(event, dates)->Ok_0;
        assert(occurrence_event(event, dates[dates.len() - 1]) matches Ok(Some(_)));
        assert forall|i: int| 0 <= i < dates.len() implies occurrence_event(event, dates[i]) == Ok::<
            Option<CalendarEventView>,
            TimeError,
        >(Some(#[trigger] events[i])) by {
            if i < before.len() {
                assert(before[i] == dates[i]);
            }
        }
    }
}

/// An event whose start and end mean instants stands in a list once for each date found, in the order of
/// the dates: it begins at the second of the date and ends as many seconds later as in the calendar.
pub proof fn law_each_date_has_its_event(
    event: CalendarEventView,
    dates: Seq<Occurrence>,
    start: Instant,
    end: Instant,
    length: int,
)
    requires
        optional_event_date(event.start) == Ok::<Option<EventDate>, TimeError>(
            Some(EventDate::DateTimeUtc(start)),
        ),
        optional_event_date(event.end) == Ok::<Option<EventDate>, TimeError>(
            Some(EventDate::DateTimeUtc(end)),
        ),
        length * 1_000_000_000 <= elapsed_nanos(start, end) < (length + 1) * 1_000_000_000,
        forall|i: int|
            0 <= i < dates.len() ==> -62_167_219_200 <= (#[trigger] dates[i]).seconds
                <= 253_402_300_799 && -62_167_219_200 <= dates[i].seconds + length
                <= 253_402_300_799,
    ensures
        expanded(event, Some(dates)) matches Ok(events) && {
            &&& events.len() == dates.len()
            &&& forall|i: int|
                0 <= i < dates.len() ==> {
                    &&& (#[trigger] events[i]).summary == event.summary
                    &&& events[i].description == event.description
                    &&& events[i].location == event.location
                    &&& events[i].start == Some(
                        CalendarTimeView::Utc(Instant { seconds: dates[i].seconds, nanos: 0 }),
                    )
                    &&& events[i].end == Some(
                        CalendarTimeView::Utc(
                            Instant { seconds: (dates[i].seconds + length) as i64, nanos: 0 },
                        ),
                    )
                }
        },
{
    assert forall|i: int| 0 <= i < dates.len() implies (occurrence_event(
        event,
        #[trigger] dates[i],
    ) matches Ok(Some(_))) by {
        law_event_of_instants_is_held_at_its_occurrences(event, dates[i], start, end, length);
    }
    lemma_one_event_for_each_date(event, dates);
    let events = occurrence_events(event, dates)->Ok_0;
    assert forall|i: int| 0 <= i < dates.len() implies {
        &&& (#[trigger] events[i]).summary == event.summary
        &&& events[i].description == event.description
        &&& events[i].location == event.location
        &&& events[i].start == Some(
            CalendarTimeView::Utc(Instant { seconds: dates[i].seconds, nanos: 0 }),
        )
        &&& events[i].end == Some(
            CalendarTimeView::Utc(Instant { seconds: (dates[i].seconds + length) as i64, nanos: 0 }),
        )
    } by {
        law_event_of_instants_is_held_at_its_occurrences(event, dates[i], start, end, length);
    }
}

/// An event whose start and end mean days stands in a list once for each date found, in the order of the
/// dates: it begins on the day of the date and lasts as many days as in the calendar.
pub proof fn law_each_date_has_its_event_of_days(
    event: CalendarEventView,
    dates: Seq<Occurrence>,
    start: i32,
    end: i32,
)
    requires
        optional_event_date(event.start) == Ok::<Option<EventDate>, TimeError>(
            Some(EventDate::Date(start)),
        ),
        optional_event_date(event.end) == Ok::<Option<EventDate>, TimeError>(
            Some(EventDate::Date(end)),
        ),
        start <= end,
        forall|i: int|
            0 <= i < dates.len() ==> -365 <= (#[trigger] dates[i]).day && dates[i].day + (end - start)
                <= 3_652_059,
    ensures
        expanded(event, Some(dates)) matches Ok(events) && {
            &&& events.len() == dates.len()
            &&& forall|i: int|
                0 <= i < dates.len() ==> {
                    &&& (#[trigger] events[i]).summary == event.summary
                    &&& events[i].description == event.description
                    &&& events[i].location == event.location
                    &&& events[i].start == Some(CalendarTimeView::Date(dates[i].day as int))
                    &&& events[i].end == Some(
                        CalendarTimeView::Date(dates[i].day + (end - start)),
                    )
                }
        },
{
    lemma_years_of_four_digits();
    assert forall|i: int| 0 <= i < dates.len() implies (occurrence_event(
        event,
        #[trigger] dates[i],
    ) matches Ok(Some(_))) by {}
    lemma_one_event_for_each_date(event, dates);
    let events = occurrence_events(event, dates)->Ok_0;
    assert forall|i: int| 0 <= i < dates.len() implies {
        &&& (#[trigger] events[i]).summary == event.summary
        &&& events[i].description == event.description
        &&& events[i].location == event.location
        &&& events[i].start == Some(CalendarTimeView::Date(dates[i].day as int))
        &&& events[i].end == Some(CalendarTimeView::Date(dates[i].day + (end - start)))
    } by {
        assert(occurrence_event(event, dates[i]) == Ok::<Option<CalendarEventView>, TimeError>(
            Some(events[i]),
        ));
    }
}

/// The events at dates are those at the first dates, followed by those at the other dates; the first date
/// at which something cannot be worked out decides.
pub proof fn law_events_at_joined_dates(
    event: CalendarEventView,
    first: Seq<Occurrence>,
    rest: Seq<Occurrence>,
)
    ensures
        match (expanded(event, Some(first)), expanded(event, Some(rest))) {
            (Err(error), _) => expanded(event, Some(first + rest)) == Err::<
                Seq<CalendarEventView>,
                TimeError,
            >(error),
            (Ok(_), Err(error)) => expanded(event, Some(first + rest)) == Err::<
                Seq<CalendarEventView>,
                TimeError,
            >(error),
            (Ok(a), Ok(b)) => expanded(event, Some(first + rest)) == Ok::<
                Seq<CalendarEventView>,
                TimeError,
            >(a + b),
        },
    decreases rest.len(),
{
    if rest.len() == 0 {
        assert(first + rest =~= first);
        if let Ok(a) = occurrence_events(event, first) {
            assert(a + Seq::<CalendarEventView>::empty() =~= a);
        }
    } else {
        law_events_at_joined_dates(event, first, rest.drop_last());
        assert((first + rest).drop_last() =~= first + rest.drop_last());
        assert((first + rest).last() == rest.last());
        if occurrence_events(event, first) is Ok && occurrence_events(event, rest) is Ok {
            let a = occurrence_events(event, first)->Ok_0;
            let b = occurrence_events(event, rest.drop_last())->Ok_0;
            if let Ok(Some(at)) = occurrence_event(event, rest.last()) {
                assert((a + b).push(at) =~= a + b.push(at));
            }
        }
    }
}

/// At a single date stands the event at that occurrence, where there is one.
pub proof fn law_event_at_a_single_date(event: CalendarEventView, at: Occurrence)
    ensures
        match occurrence_event(event, at) {
            Err(error) => expanded(event, Some(seq![at])) == Err::<
                Seq<CalendarEventView>,
                TimeError,
            >(error),
            Ok(None) => expanded(event, Some(seq![at])) == Ok::<Seq<CalendarEventView>, TimeError>(
                Seq::empty(),
            ),
            Ok(Some(e)) => expanded(event, Some(seq![at])) == Ok::<
                Seq<CalendarEventView>,
                TimeError,
            >(seq![e]),
        },
        expanded(event, Some(Seq::empty())) == Ok::<Seq<CalendarEventView>, TimeError>(
            Seq::empty(),
        ),
        expanded(event, None) == Ok::<Seq<CalendarEventView>, TimeError>(seq![event]),
{
    reveal_with_fuel(occurrence_events, 2);
    assert(seq![at].drop_last() =~= Seq::empty());
    if let Ok(Some(e)) = occurrence_event(event, at) {
        assert(Seq::empty().push(e) =~= seq![e]);
    }
}

/// A property with a value states it on one line, whatever its list holds; one without states each value
/// of its list on a line, in order.
pub proof fn law_lines_of_a_property(name: Seq<char>, property: RulePropertyView)
    ensures
        property.value matches Some(value) ==> property_lines(name, property) == seq![
            name + seq![':'] + value,
        ],
        property.value is None ==> property_lines(name, property).len() == property.values.len()
            && forall|i: int|
            0 <= i < property.values.len() ==> #[trigger] property_lines(name, property)[i] == name
                + seq![':'] + property.values[i],
{
}

/// A text of lines holds each line with its line break, one after the other.
pub proof fn law_lines_stand_one_after_the_other(
    first: Seq<Seq<char>>,
    line: Seq<char>,
    rest: Seq<Seq<char>>,
)
    ensures
        joined(first + seq![line] + rest) == joined(first) + line + seq!['\n'] + joined(rest),
        joined(Seq::empty()) == Seq::<char>::empty(),
{
    lemma_joined_concat(first + seq![line], rest);
    assert((first + seq![line]).drop_last() =~= first);
    assert((first + seq![line]).last() == line);
}

/// The text of the rules states the start, the rules, the rules of exception, the dates and the dates of
/// exception, in this order and under these names.
pub proof fn law_rules_are_stated_in_order(rules: RecurrenceRulesView)
    ensures
        rules_text(rules) == joined(property_lines("DTSTART"@, rules.dtstart)) + joined(
            property_lines("RRULE"@, rules.rrule),
        ) + joined(property_lines("EXRULE"@, rules.exrule)) + joined(
            property_lines("RDATE"@, rules.rdate),
        ) + joined(property_lines("EXDATE"@, rules.exdate)),
{
    let a = property_lines("DTSTART"@, rules.dtstart);
    let b = property_lines("RRULE"@, rules.rrule);
    let c = property_lines("EXRULE"@, rules.exrule);
    let d = property_lines("RDATE"@, rules.rdate);
    let e = property_lines("EXDATE"@, rules.exdate);
    lemma_joined_concat(a, b);
    lemma_joined_concat(a + b, c);
    lemma_joined_concat(a + b + c, d);
    lemma_joined_concat(a + b + c + d, e);
}

/// Whether what a property states holds no line break.
pub open spec fn is_unbroken(property: RulePropertyView) -> bool {
    match property.value {
        Some(value) => !value.contains('\n'),
        None => forall|i: int|
            0 <= i < property.values.len() ==> !(#[trigger] property.values[i]).contains('\n'),
    }
}

proof fn lemma_unbroken_lines(name: Seq<char>, property: RulePropertyView)
    requires
        is_unbroken(property),
        !name.contains('\n'),
    ensures
        !breaks_a_line(name, property),
{
    let lines = property_lines(name, property);
    assert forall|i: int| 0 <= i < lines.len() implies !(#[trigger] lines[i]).contains('\n') by {
        let value = if property.value is Some {
            property.value->0
        } else {
            property.values[i]
        };
        assert(lines[i] == name + seq![':'] + value);
        assert forall|k: int| 0 <= k < lines[i].len() implies lines[i][k] != '\n' by {
            if k < name.len() {
                assert(name.contains(name[k]));
            } else if k > name.len() {
                assert(value.contains(value[k - name.len() - 1]));
            }
        }
    }
}

/// An event with neither a rule nor a date to recur on, or without a start, stands for itself, where no
/// value breaks its line.
pub proof fn law_event_without_rules_stands_for_itself(
    event: CalendarEventView,
    rules: RecurrenceRulesView,
    found: Option<Seq<Occurrence>>,
)
    requires
        possible_occurrences(rules, found),
        is_unbroken(rules.dtstart),
        is_unbroken(rules.rrule),
        is_unbroken(rules.exrule),
        is_unbroken(rules.rdate),
        is_unbroken(rules.exdate),
        (rules.rrule.value is None && rules.rrule.values.len() == 0 && rules.rdate.value is None
            && rules.rdate.values.len() == 0) || (rules.dtstart.value is None
            && rules.dtstart.values.len() == 0),
    ensures
        expanded(event, found) == Ok::<Seq<CalendarEventView>, TimeError>(seq![event]),
{
    reveal_strlit("DTSTART");
    reveal_strlit("RRULE");
    reveal_strlit("EXRULE");
    reveal_strlit("RDATE");
    reveal_strlit("EXDATE");
    lemma_unbroken_lines("DTSTART"@, rules.dtstart);
    lemma_unbroken_lines("RRULE"@, rules.rrule);
    lemma_unbroken_lines("EXRULE"@, rules.exrule);
    lemma_unbroken_lines("RDATE"@, rules.rdate);
    lemma_unbroken_lines("EXDATE"@, rules.exdate);
    assert(!may_recur(rules));
}

/// The dates found for an event are the first hundred of the rules that the text of its rules states, and
/// none are found only where a weekday is misspelt or the rules cannot be read.
pub proof fn law_dates_found_are_those_of_the_rules(
    rules: RecurrenceRulesView,
    found: Option<Seq<Occurrence>>,
)
    requires
        possible_occurrences(rules, found),
    ensures
        found matches Some(dates) ==> {
            &&& !misspells_a_weekday(rules_text(rules))
            &&& dates.len() <= 100
            &&& exists|reading: int, dating: int|
                rules_in(rules_text(rules), reading) is Some && dates == #[trigger] dates_of(
                    rules_in(rules_text(rules), reading)->0,
                    100,
                    dating,
                )
        },
        found is None ==> misspells_a_weekday(rules_text(rules)) || exists|reading: int|
            (#[trigger] rules_in(rules_text(rules), reading)) is None,
{
    let (reading, dating) = choose|reading: int, dating: int|
        found == #[trigger] occurrences_on(rules_text(rules), reading, dating);
    assert(found == occurrences_on(rules_text(rules), reading, dating));
    let set = rules_in(rules_text(rules), reading);
    if found is Some {
        assert(found->0 == dates_of(set->0, 100, dating));
    }
}

/// The view of a list of events holds each of them, in order.
pub proof fn law_event_views_hold_the_events(events: Seq<CalendarEvent>)
    ensures
        event_views(events).len() == events.len(),
        forall|i: int| 0 <= i < events.len() ==> #[trigger] event_views(events)[i] == events[i]@,
{
}

/// The view of an optional event holds the event, and that of optional dates the dates, where there are
/// any.
pub proof fn law_optional_views_hold_their_values(event: CalendarEvent, dates: Vec<Occurrence>)
    ensures
        optional_event_view(Some(event)) == Some(event@),
        optional_event_view(None) is None,
        occurrence_views(Some(dates)) == Some(dates@),
        occurrence_views(None) is None,
{
}

/// An occurrence can be used where its day and its second can be named and the second lies less than a day
/// from that day, whichever way.
pub proof fn law_which_occurrences_can_be_used(at: Occurrence)
    ensures
        at.well_formed() <==> {
            &&& -95_746_129 <= at.day <= 95_745_399
            &&& -8_334_601_228_800 <= at.seconds <= 8_210_266_876_799
            &&& (at.day - 719_163) * 86_400 - 86_400 < at.seconds < (at.day - 719_163) * 86_400
                + 172_800
        },
{
}

} // verus!
