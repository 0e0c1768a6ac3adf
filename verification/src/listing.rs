//! The list of upcoming events.
use crate::calendar::{process_calendar, Calendar, CalendarEvent, Component};
#[allow(unused_imports)]
use crate::calendar::{
    calendar_in, optional_text, well_formed_calendar, CalendarEventView, ComponentView,
};
#[allow(unused_imports)]
use crate::json::parsed_tree;
use crate::order::{second_of_date, sort_by_end, Ending};
#[allow(unused_imports)]
use crate::order::{
    by_end, end_key, end_second, ending_views, is_in_end_order, law_sorted_events_are_in_end_order,
    true_endings,
};
use crate::presentation::{local_offsets, show_event, Event, LocalOffsets};
#[allow(unused_imports)]
use crate::presentation::{possible_offsets, shown, EventView};
use crate::recurrence::{expand_event, find_occurrences, Occurrence};
#[allow(unused_imports)]
use crate::recurrence::{
    event_views, expanded, may_recur, occurrence_views, possible_occurrences, sound_occurrences,
};
#[allow(unused_imports)]
use crate::sorting::law_sorted_items_are_the_items;
use crate::spaces::{parse_spaces, Space};
#[allow(unused_imports)]
use crate::spaces::{space_views, spaces_of, SpaceView};
use crate::time::{day_from_seconds, EventDate, TimeError, MAX_SECONDS};
#[allow(unused_imports)]
use crate::time::{day_of_second, is_second};
use crate::zone::checked_optional_event_date;
#[allow(unused_imports)]
use crate::zone::optional_event_date;
use vstd::prelude::*;

verus! {

/// How many seconds ahead an event may start to be listed: 365 days.
pub const HORIZON_SECONDS: i64 = 31_536_000;

/// The events of a calendar, recurring ones at their occurrences, in the order of the calendar. For
/// each component the occurrences found for it are given.
pub open spec fn all_events(
    components: Seq<ComponentView>,
    found: Seq<Option<Seq<Occurrence>>>,
) -> Result<Seq<CalendarEventView>, TimeError>
    decreases components.len(),
{
    if components.len() == 0 {
        Ok(Seq::empty())
    } else {
        let before = all_events(components.drop_last(), found);
        match components.last() {
            ComponentView::Other => before,
            ComponentView::Event(event, _) => match (
                before,
                expanded(event, found[components.len() - 1]),
            ) {
                (Err(error), _) => Err(error),
                (_, Err(error)) => Err(error),
                (Ok(before), Ok(events)) => Ok(before + events),
            },
        }
    }
}

/// Whether a day or instant is not past: a day, which is the one after an event's last, must be later
/// than today; an instant must not lie before now.
pub open spec fn not_past(end: EventDate, now: int) -> bool {
    match end {
        EventDate::Date(day) => day_of_second(now) < day,
        EventDate::DateTimeUtc(instant) => now <= instant.seconds,
    }
}

/// Whether a day or instant lies no later than a point in time: a day, no later than the day on which that
/// falls.
pub open spec fn lies_by(start: EventDate, limit: int) -> bool {
    match start {
        EventDate::Date(day) => day <= day_of_second(limit),
        EventDate::DateTimeUtc(instant) => instant.seconds <= limit,
    }
}

/// Whether an event is listed at a given time: it states an end that is not past and a start that is no
/// later than the horizon. The horizon of an event that is not past must be a time that can be named.
pub open spec fn is_upcoming(event: CalendarEventView, now: int) -> Result<bool, TimeError> {
    match optional_event_date(event.end) {
        Err(error) => Err(error),
        Ok(None) => Ok(false),
        Ok(Some(end)) => if !not_past(end, now) {
            Ok(false)
        } else if now + HORIZON_SECONDS > MAX_SECONDS {
            Err(TimeError::OutOfRange)
        } else {
            match optional_event_date(event.start) {
                Err(error) => Err(error),
                Ok(None) => Ok(false),
                Ok(Some(start)) => Ok(lies_by(start, now + HORIZON_SECONDS)),
            }
        },
    }
}

/// The events of a list that are upcoming, in order; the first that cannot be worked out is the answer.
pub open spec fn upcoming(events: Seq<CalendarEventView>, now: int) -> Result<
    Seq<CalendarEventView>,
    TimeError,
>
    decreases events.len(),
{
    if events.len() == 0 {
        Ok(Seq::empty())
    } else {
        match (upcoming(events.drop_last(), now), is_upcoming(events.last(), now)) {
            (Err(error), _) => Err(error),
            (_, Err(error)) => Err(error),
            (Ok(before), Ok(false)) => Ok(before),
            (Ok(before), Ok(true)) => Ok(before.push(events.last())),
        }
    }
}

/// The upcoming events of a calendar in the order in which they end.
pub open spec fn upcoming_in_order(
    components: Seq<ComponentView>,
    found: Seq<Option<Seq<Occurrence>>>,
    now: int,
) -> Result<Seq<CalendarEventView>, TimeError> {
    match all_events(components, found) {
        Err(error) => Err(error),
        Ok(events) => match upcoming(events, now) {
            Err(error) => Err(error),
            Ok(events) => Ok(by_end(events)),
        },
    }
}

/// Events as the web page shows them, in order, each with the offsets of the reader's clocks; the first
/// that cannot be worked out is the answer.
pub open spec fn all_shown(
    events: Seq<CalendarEventView>,
    spaces: Seq<SpaceView>,
    offsets: Seq<LocalOffsets>,
) -> Result<Seq<EventView>, TimeError>
    decreases events.len(),
{
    if events.len() == 0 {
        Ok(Seq::empty())
    } else {
        match (
            all_shown(events.drop_last(), spaces, offsets),
            shown(events.last(), spaces, offsets[events.len() - 1]),
        ) {
            (Err(error), _) => Err(error),
            (_, Err(error)) => Err(error),
            (Ok(before), Ok(None)) => Ok(before),
            (Ok(before), Ok(Some(entry))) => Ok(before.push(entry)),
        }
    }
}

/// The list of a calendar's upcoming events as the web page shows it.
pub open spec fn listed(
    components: Seq<ComponentView>,
    found: Seq<Option<Seq<Occurrence>>>,
    spaces: Seq<SpaceView>,
    now: int,
    offsets: Seq<LocalOffsets>,
) -> Result<Seq<EventView>, TimeError> {
    match upcoming_in_order(components, found, now) {
        Err(error) => Err(error),
        Ok(events) => all_shown(events, spaces, offsets),
    }
}

/// What a list of found occurrences holds.
pub open spec fn found_views(found: Seq<Option<Vec<Occurrence>>>) -> Seq<Option<Seq<Occurrence>>> {
    found.map_values(|dates: Option<Vec<Occurrence>>| occurrence_views(dates))
}

/// Whether there are findings for each component, all of them occurrences that can be named.
pub open spec fn well_formed_findings(
    components: Seq<ComponentView>,
    found: Seq<Option<Seq<Occurrence>>>,
) -> bool {
    &&& found.len() == components.len()
    &&& forall|i: int, j: int|
        0 <= i < found.len() && found[i] is Some && 0 <= j < found[i]->0.len() ==> (
        #[trigger] found[i]->0[j]).well_formed()
}

/// What holds of the occurrences that are found for the components of a calendar, whatever the machine.
pub open spec fn sound_findings(
    components: Seq<ComponentView>,
    found: Seq<Option<Seq<Occurrence>>>,
) -> bool {
    &&& found.len() == components.len()
    &&& forall|i: int|
        0 <= i < components.len() ==> ((#[trigger] components[i]) matches ComponentView::Event(_, rules)
            ==> sound_occurrences(rules, found[i]))
}

/// Whether occurrences are those that the rules of a calendar's events state on some machine.
pub open spec fn possible_findings(
    components: Seq<ComponentView>,
    found: Seq<Option<Seq<Occurrence>>>,
) -> bool {
    &&& well_formed_findings(components, found)
    &&& forall|i: int|
        0 <= i < components.len() ==> ((#[trigger] components[i]) matches ComponentView::Event(_, rules)
            ==> possible_occurrences(rules, found[i]))
}

/// What a list of shown events holds.
pub open spec fn shown_views(events: Seq<Event>) -> Seq<EventView> {
    events.map_values(|event: Event| event@)
}

proof fn lemma_all_events_error_stays(
    components: Seq<ComponentView>,
    found: Seq<Option<Seq<Occurrence>>>,
    i: int,
)
    requires
        0 <= i <= components.len(),
        all_events(components.take(i), found) is Err,
    ensures
        all_events(components, found) == all_events(components.take(i), found),
    decreases components.len() - i,
{
    if i == components.len() {
        assert(components.take(i) =~= components);
    } else {
        assert(components.take(i + 1).drop_last() =~= components.take(i));
        lemma_all_events_error_stays(components, found, i + 1);
    }
}

/// The events of a calendar, recurring ones at the occurrences found for them.
pub fn expand_calendar(calendar: &Calendar, found: &Vec<Option<Vec<Occurrence>>>) -> (r: Result<
    Vec<CalendarEvent>,
    TimeError,
>)
    requires
        well_formed_calendar(calendar@),
        well_formed_findings(calendar@, found_views(found@)),
    ensures
        match r {
            Ok(events) => all_events(calendar@, found_views(found@)) == Ok::<
                Seq<CalendarEventView>,
                TimeError,
            >(event_views(events@)) && forall|i: int|
                0 <= i < events@.len() ==> (#[trigger] events@[i])@.well_formed(),
            Err(error) => all_events(calendar@, found_views(found@)) == Err::<
                Seq<CalendarEventView>,
                TimeError,
            >(error),
        },
{
    let ghost components = calendar@;
    let ghost dates = found_views(found@);
    let mut events: Vec<CalendarEvent> = Vec::new();
    assert(event_views(events@) =~= Seq::empty());
    for i in 0..calendar.components.len()
        invariant
            components == calendar@,
            dates == found_views(found@),
            well_formed_calendar(components),
            well_formed_findings(components, dates),
            all_events(components.take(i as int), dates) == Ok::<
                Seq<CalendarEventView>,
                TimeError,
            >(event_views(events@)),
            forall|j: int| 0 <= j < events@.len() ==> (#[trigger] events@[j])@.well_formed(),
    {
        proof {
            assert(components.take(i + 1).drop_last() =~= components.take(i as int));
            assert(components.take(i + 1).last() == components[i as int]);
            assert(components[i as int] == calendar.components@[i as int]@);
            assert(dates[i as int] == occurrence_views(found@[i as int]));
            assert forall|j: int|
                found@[i as int] is Some && 0 <= j < found@[i as int]->0@.len() implies (
            #[trigger] found@[i as int]->0@[j]).well_formed() by {
                assert(dates[i as int]->0[j].well_formed());
            }
        }
        match &calendar.components[i] {
            // Filter out components other than of type event
            Component::Other => {},
            Component::Event(event, _) => {
                // Populate recurring events
                match expand_event(event, &found[i]) {
                    Err(error) => {
                        proof {
                            lemma_all_events_error_stays(components, dates, i + 1);
                        }
                        return Err(error);
                    },
                    Ok(mut more) => {
                        let ghost before = events@;
                        let ghost added = more@;
                        events.append(&mut more);
                        proof {
                            assert(event_views(events@) =~= event_views(before) + event_views(added));
                            assert forall|j: int| 0 <= j < events@.len() implies (
                            #[trigger] events@[j])@.well_formed() by {
                                if j < before.len() {
                                    assert(events@[j] == before[j]);
                                } else {
                                    assert(events@[j] == added[j - before.len()]);
                                }
                            }
                        }
                    },
                }
            },
        }
    }
    assert(components.take(components.len() as int) =~= components);
    Ok(events)
}

/// Whether an event is listed at a given time, and where it is, the second at which it ends.
fn check_upcoming(event: &CalendarEvent, now: i64) -> (r: Result<Option<i64>, TimeError>)
    requires
        event@.well_formed(),
        is_second(now as int),
    ensures
        match r {
            Ok(Some(second)) => is_upcoming(event@, now as int) == Ok::<bool, TimeError>(true) && second
                == end_second(event@),
            Ok(None) => is_upcoming(event@, now as int) == Ok::<bool, TimeError>(false),
            Err(error) => is_upcoming(event@, now as int) == Err::<bool, TimeError>(error),
        },
{
    let end = match checked_optional_event_date(&event.end) {
        Err(error) => {
            return Err(error);
        },
        Ok(None) => {
            return Ok(None);
        },
        Ok(Some(end)) => end,
    };
    // Filter past events out
    let current = match end {
        EventDate::Date(day) => day_from_seconds(now) < day,
        EventDate::DateTimeUtc(instant) => now <= instant.seconds,
    };
    if !current {
        return Ok(None);
    }
    // Filter out events with start timestamp more than a year in the future
    let limit: i64 = now + HORIZON_SECONDS;
    if limit > MAX_SECONDS {
        return Err(TimeError::OutOfRange);
    }
    let start = match checked_optional_event_date(&event.start) {
        Err(error) => {
            return Err(error);
        },
        Ok(None) => {
            return Ok(None);
        },
        Ok(Some(start)) => start,
    };
    let near = match start {
        EventDate::Date(day) => day <= day_from_seconds(limit),
        EventDate::DateTimeUtc(instant) => instant.seconds <= limit,
    };
    if near {
        Ok(Some(second_of_date(end)))
    } else {
        Ok(None)
    }
}

proof fn lemma_upcoming_error_stays(events: Seq<CalendarEventView>, now: int, i: int)
    requires
        0 <= i <= events.len(),
        upcoming(events.take(i), now) is Err,
    ensures
        upcoming(events, now) == upcoming(events.take(i), now),
    decreases events.len() - i,
{
    if i == events.len() {
        assert(events.take(i) =~= events);
    } else {
        assert(events.take(i + 1).drop_last() =~= events.take(i));
        lemma_upcoming_error_stays(events, now, i + 1);
    }
}

/// The upcoming events of a list in the order in which they end.
pub fn select_upcoming(events: Vec<CalendarEvent>, now: i64) -> (r: Result<
    Vec<CalendarEvent>,
    TimeError,
>)
    requires
        forall|i: int| 0 <= i < events@.len() ==> (#[trigger] events@[i])@.well_formed(),
        is_second(now as int),
    ensures
        match r {
            Ok(kept) => upcoming(event_views(events@), now as int) matches Ok(all) && event_views(
                kept@,
            ) == by_end(all) && forall|i: int|
                0 <= i < kept@.len() ==> (#[trigger] kept@[i])@.well_formed(),
            Err(error) => upcoming(event_views(events@), now as int) == Err::<
                Seq<CalendarEventView>,
                TimeError,
            >(error),
        },
{
    let ghost all = events@;
    let ghost views = event_views(all);
    let mut kept: Vec<Ending> = Vec::new();
    assert(ending_views(kept@) =~= Seq::empty());
    for event in it: events
        invariant
            it.seq() == all,
            views == event_views(all),
            forall|i: int| 0 <= i < all.len() ==> (#[trigger] all[i])@.well_formed(),
            is_second(now as int),
            upcoming(views.take(it.index()), now as int) == Ok::<Seq<CalendarEventView>, TimeError>(
                ending_views(kept@),
            ),
            true_endings(kept@),
            forall|i: int| 0 <= i < kept@.len() ==> (#[trigger] kept@[i]).event@.well_formed(),
    {
        proof {
            let i = it.index();
            assert(event == all[i]);
            assert(views.take(i + 1).drop_last() =~= views.take(i));
            assert(views.take(i + 1).last() == all[i]@);
        }
        match check_upcoming(&event, now) {
            Err(error) => {
                proof {
                    lemma_upcoming_error_stays(views, now as int, it.index() + 1);
                }
                return Err(error);
            },
            Ok(None) => {},
            Ok(Some(second)) => {
                let ghost before = kept@;
                let ghost added = event@;
                kept.push(Ending { event, second });
                assert(ending_views(kept@) =~= ending_views(before).push(added));
            },
        }
    }
    assert(views.take(all.len() as int) =~= views);
    Ok(sort_by_end(kept))
}

/// The upcoming events of a calendar in the order in which they end, given the occurrences found for its
/// events.
pub fn list_upcoming(
    calendar: &Calendar,
    found: &Vec<Option<Vec<Occurrence>>>,
    now: i64,
) -> (r: Result<Vec<CalendarEvent>, TimeError>)
    requires
        well_formed_calendar(calendar@),
        well_formed_findings(calendar@, found_views(found@)),
        is_second(now as int),
    ensures
        match r {
            Ok(events) => upcoming_in_order(calendar@, found_views(found@), now as int) == Ok::<
                Seq<CalendarEventView>,
                TimeError,
            >(event_views(events@)) && forall|i: int|
                0 <= i < events@.len() ==> (#[trigger] events@[i])@.well_formed(),
            Err(error) => upcoming_in_order(calendar@, found_views(found@), now as int) == Err::<
                Seq<CalendarEventView>,
                TimeError,
            >(error),
        },
{
    match expand_calendar(calendar, found) {
        Err(error) => Err(error),
        Ok(events) => select_upcoming(events, now),
    }
}

proof fn lemma_all_shown_error_stays(
    events: Seq<CalendarEventView>,
    spaces: Seq<SpaceView>,
    offsets: Seq<LocalOffsets>,
    i: int,
)
    requires
        0 <= i <= events.len(),
        all_shown(events.take(i), spaces, offsets) is Err,
    ensures
        all_shown(events, spaces, offsets) == all_shown(events.take(i), spaces, offsets),
    decreases events.len() - i,
{
    if i == events.len() {
        assert(events.take(i) =~= events);
    } else {
        assert(events.take(i + 1).drop_last() =~= events.take(i));
        lemma_all_shown_error_stays(events, spaces, offsets, i + 1);
    }
}

/// Shows events to a reader whose clocks have the given offsets.
pub fn show_events(
    events: &Vec<CalendarEvent>,
    spaces: &Vec<Space>,
    offsets: &Vec<LocalOffsets>,
) -> (r: Result<Vec<Event>, TimeError>)
    requires
        forall|i: int| 0 <= i < events@.len() ==> (#[trigger] events@[i])@.well_formed(),
        offsets@.len() == events@.len(),
        forall|i: int| 0 <= i < offsets@.len() ==> (#[trigger] offsets@[i]).well_formed(),
    ensures
        match r {
            Ok(entries) => all_shown(event_views(events@), space_views(spaces@), offsets@) == Ok::<
                Seq<EventView>,
                TimeError,
            >(shown_views(entries@)),
            Err(error) => all_shown(event_views(events@), space_views(spaces@), offsets@) == Err::<
                Seq<EventView>,
                TimeError,
            >(error),
        },
{
    let ghost views = event_views(events@);
    let ghost places = space_views(spaces@);
    let mut entries: Vec<Event> = Vec::new();
    assert(shown_views(entries@) =~= Seq::empty());
    for i in 0..events.len()
        invariant
            views == event_views(events@),
            places == space_views(spaces@),
            forall|j: int| 0 <= j < events@.len() ==> (#[trigger] events@[j])@.well_formed(),
            offsets@.len() == events@.len(),
            forall|j: int| 0 <= j < offsets@.len() ==> (#[trigger] offsets@[j]).well_formed(),
            all_shown(views.take(i as int), places, offsets@) == Ok::<Seq<EventView>, TimeError>(
                shown_views(entries@),
            ),
    {
        proof {
            assert(views.take(i + 1).drop_last() =~= views.take(i as int));
            assert(views.take(i + 1).last() == events@[i as int]@);
        }
        match show_event(&events[i], spaces, offsets[i]) {
            Err(error) => {
                proof {
                    lemma_all_shown_error_stays(views, places, offsets@, i + 1);
                }
                return Err(error);
            },
            Ok(None) => {},
            Ok(Some(entry)) => {
                let ghost before = entries@;
                entries.push(entry);
                assert(shown_views(entries@) =~= shown_views(before).push(entry@));
            },
        }
    }
    assert(views.take(events@.len() as int) =~= views);
    Ok(entries)
}

/// Finds the occurrences of all events of a calendar.
fn find_all_occurrences(calendar: &Calendar) -> (r: Vec<Option<Vec<Occurrence>>>)
    ensures
        possible_findings(calendar@, found_views(r@)),
{
    let ghost components = calendar@;
    let mut found: Vec<Option<Vec<Occurrence>>> = Vec::new();
    for i in 0..calendar.components.len()
        invariant
            components == calendar@,
            found@.len() == i,
            forall|j: int|
                0 <= j < i ==> ((#[trigger] components[j]) matches ComponentView::Event(_, rules)
                    ==> possible_occurrences(rules, occurrence_views(found@[j]))),
            forall|j: int|
                0 <= j < i && components[j] is Other ==> (#[trigger] found@[j]) is None,
    {
        assert(components[i as int] == calendar.components@[i as int]@);
        let dates = match &calendar.components[i] {
            Component::Other => None,
            Component::Event(_, rules) => find_occurrences(rules),
        };
        found.push(dates);
    }
    let ghost views = found_views(found@);
    proof {
        assert forall|i: int, j: int|
            0 <= i < views.len() && views[i] is Some && 0 <= j < views[i]->0.len() implies (
        #[trigger] views[i]->0[j]).well_formed() by {
            assert(views[i] == occurrence_views(found@[i]));
            assert(found@[i] is Some);
            assert(components[i] is Event);
        }
        assert forall|i: int| 0 <= i < components.len() implies ((
        #[trigger] components[i]) matches ComponentView::Event(_, rules) ==> possible_occurrences(
            rules,
            views[i],
        )) by {
            assert(views[i] == occurrence_views(found@[i]));
        }
    }
    found
}

/// Whether answers are such as this machine can give about a calendar: occurrences for its events, and
/// the offsets of its clocks at each upcoming event.
pub open spec fn possible_answers(
    components: Seq<ComponentView>,
    now: int,
    found: Seq<Option<Seq<Occurrence>>>,
    offsets: Seq<LocalOffsets>,
) -> bool {
    &&& possible_findings(components, found)
    &&& upcoming_in_order(components, found, now) matches Ok(events) ==> offsets.len() == events.len()
        && forall|i: int|
        0 <= i < events.len() ==> possible_offsets(events[i], #[trigger] offsets[i])
}

/// Whether a result is the list of a calendar's upcoming events that some answers of this machine lead
/// to.
pub open spec fn is_listing(
    r: Result<Seq<EventView>, TimeError>,
    components: Seq<ComponentView>,
    spaces: Seq<SpaceView>,
    now: int,
) -> bool {
    exists|found: Seq<Option<Seq<Occurrence>>>, offsets: Seq<LocalOffsets>|
        possible_answers(components, now, found, offsets) && r == #[trigger] listed(
            components,
            found,
            spaces,
            now,
            offsets,
        )
}

/// The list of a calendar's upcoming events as the web page shows it. It is the one that the occurrences
/// and the clock offsets that this machine gives lead to.
pub fn data_to_events(calendar: Calendar, spaces: Vec<Space>, current_time: i64) -> (r: Result<
    Vec<Event>,
    TimeError,
>)
    requires
        well_formed_calendar(calendar@),
        is_second(current_time as int),
    ensures
        match r {
            Ok(events) => is_listing(
                Ok(shown_views(events@)),
                calendar@,
                space_views(spaces@),
                current_time as int,
            ),
            Err(error) => is_listing(
                Err(error),
                calendar@,
                space_views(spaces@),
                current_time as int,
            ),
        },
{
    let found = find_all_occurrences(&calendar);
    let ghost dates = found_views(found@);
    let events = match list_upcoming(&calendar, &found, current_time) {
        Err(error) => {
            proof {
                let none = Seq::<LocalOffsets>::empty();
                assert(possible_answers(calendar@, current_time as int, dates, none));
                assert(listed(calendar@, dates, space_views(spaces@), current_time as int, none)
                    == Err::<Seq<EventView>, TimeError>(error));
            }
            return Err(error);
        },
        Ok(events) => events,
    };
    let mut offsets: Vec<LocalOffsets> = Vec::new();
    for i in 0..events.len()
        invariant
            forall|j: int| 0 <= j < events@.len() ==> (#[trigger] events@[j])@.well_formed(),
            offsets@.len() == i,
            forall|j: int| 0 <= j < i ==> possible_offsets(events@[j]@, #[trigger] offsets@[j]),
    {
        offsets.push(local_offsets(&events[i]));
    }
    let r = show_events(&events, &spaces, &offsets);
    proof {
        assert(possible_answers(calendar@, current_time as int, dates, offsets@));
        let list = listed(calendar@, dates, space_views(spaces@), current_time as int, offsets@);
        assert(list == all_shown(event_views(events@), space_views(spaces@), offsets@));
    }
    r
}

/// Why a request is turned down.
#[derive(Debug)]
pub struct Rejection {
    /// What happened.
    pub message: String,
    /// What is known about the cause.
    pub details: Option<String>,
}

/// Why there is no list of events.
#[derive(Debug)]
pub enum EventsError {
    /// The calendar cannot be read.
    Rejected(Rejection),
    /// A time cannot be worked out.
    Time(TimeError),
}

/// The spaces that a fetched text lists. Without a text that lists spaces there are none.
pub open spec fn known_spaces(spaces_data: Option<String>) -> Seq<SpaceView> {
    match spaces_data {
        None => Seq::empty(),
        Some(text) => match parsed_tree(text@) {
            Err(_) => Seq::empty(),
            Ok(document) => match spaces_of(document) {
                None => Seq::empty(),
                Some(spaces) => spaces,
            },
        },
    }
}

/// The fetched text; empty where nothing was fetched.
pub open spec fn fetched_text(data: Option<String>) -> Seq<char> {
    match data {
        None => Seq::empty(),
        Some(text) => text@,
    }
}

/// The list of upcoming events from the fetched texts of the spaces and of the calendar.
pub fn get_events(
    spaces_data: Option<String>,
    calendar_data: Option<String>,
    now: i64,
) -> (r: Result<Vec<Event>, EventsError>)
    requires
        is_second(now as int),
    ensures
        match calendar_in(fetched_text(calendar_data)) {
            Err(message) => r matches Err(EventsError::Rejected(rejection)) && rejection.message@
                == "The remote calendar could not be processed."@ && optional_text(rejection.details)
                == Some(message),
            Ok(calendar) => match r {
                Ok(events) => is_listing(
                    Ok(shown_views(events@)),
                    calendar,
                    known_spaces(spaces_data),
                    now as int,
                ),
                Err(EventsError::Time(error)) => is_listing(
                    Err(error),
                    calendar,
                    known_spaces(spaces_data),
                    now as int,
                ),
                Err(EventsError::Rejected(_)) => false,
            },
        },
{
    let spaces: Vec<Space> = match spaces_data {
        None => Vec::new(),
        Some(text) => match parse_spaces(text) {
            Ok(spaces) => spaces,
            Err(_) => Vec::new(),
        },
    };
    assert(space_views(spaces@) =~= known_spaces(spaces_data));
    let text: String = match calendar_data {
        None => String::new(),
        Some(text) => text,
    };
    let calendar = match process_calendar(text) {
        Ok(calendar) => calendar,
        Err(message) => {
            return Err(
                EventsError::Rejected(
                    Rejection {
                        message: "The remote calendar could not be processed.".to_owned(),
                        details: Some(message),
                    },
                ),
            );
        },
    };
    match data_to_events(calendar, spaces, now) {
        Ok(events) => Ok(events),
        Err(error) => Err(EventsError::Time(error)),
    }
}

/// The events that are kept of a list are those of the list that are upcoming.
pub proof fn lemma_upcoming_are_the_upcoming(events: Seq<CalendarEventView>, now: int)
    requires
        upcoming(events, now) is Ok,
    ensures
        forall|i: int|
            0 <= i < upcoming(events, now)->Ok_0.len() ==> is_upcoming(
                #[trigger] upcoming(events, now)->Ok_0[i],
                now,
            ) == Ok::<bool, TimeError>(true) && events.contains(upcoming(events, now)->Ok_0[i]),
        forall|i: int|
            0 <= i < events.len() && is_upcoming(#[trigger] events[i], now) == Ok::<bool, TimeError>(
                true,
            ) ==> upcoming(events, now)->Ok_0.contains(events[i]),
    decreases events.len(),
{
    if events.len() > 0 {
        let shorter = events.drop_last();
        lemma_upcoming_are_the_upcoming(shorter, now);
        let before = upcoming(shorter, now)->Ok_0;
        let kept = upcoming(events, now)->Ok_0;
        assert forall|i: int| 0 <= i < kept.len() implies is_upcoming(#[trigger] kept[i], now) == Ok::<
            bool,
            TimeError,
        >(true) && events.contains(kept[i]) by {
            if i < before.len() {
                assert(kept[i] == before[i]);
                let j = choose|j: int| 0 <= j < shorter.len() && shorter[j] == before[i];
                assert(events[j] == kept[i]);
            } else {
                assert(kept[i] == events[events.len() - 1]);
            }
        }
        assert forall|i: int|
            0 <= i < events.len() && is_upcoming(#[trigger] events[i], now) == Ok::<bool, TimeError>(
                true,
            ) implies kept.contains(events[i]) by {
            if i < shorter.len() {
                assert(shorter[i] == events[i]);
                let j = choose|j: int| 0 <= j < before.len() && before[j] == shorter[i];
                assert(kept[j] == events[i]);
            } else {
                assert(kept[kept.len() - 1] == events[i]);
            }
        }
    }
}

/// Every event that is listed is an event of the calendar, or an occurrence of one, that is not past and
/// starts no later than the horizon.
pub proof fn law_listed_events_are_upcoming(
    components: Seq<ComponentView>,
    found: Seq<Option<Seq<Occurrence>>>,
    now: int,
    i: int,
)
    requires
        upcoming_in_order(components, found, now) is Ok,
        0 <= i < upcoming_in_order(components, found, now)->Ok_0.len(),
    ensures
        is_upcoming(upcoming_in_order(components, found, now)->Ok_0[i], now) == Ok::<bool, TimeError>(
            true,
        ),
        all_events(components, found)->Ok_0.contains(
            upcoming_in_order(components, found, now)->Ok_0[i],
        ),
{
    let all = all_events(components, found)->Ok_0;
    let kept = upcoming(all, now)->Ok_0;
    let event = by_end(kept)[i];
    lemma_upcoming_are_the_upcoming(all, now);
    law_sorted_items_are_the_items(kept, end_key(), event);
    assert(by_end(kept).contains(event));
    let j = choose|j: int| 0 <= j < kept.len() && kept[j] == event;
    assert(is_upcoming(kept[j], now) == Ok::<bool, TimeError>(true));
}

/// Every event of the calendar, and every occurrence of one, that is not past and starts no later than the
/// horizon is listed.
pub proof fn law_upcoming_events_are_listed(
    components: Seq<ComponentView>,
    found: Seq<Option<Seq<Occurrence>>>,
    now: int,
    i: int,
)
    requires
        upcoming_in_order(components, found, now) is Ok,
        0 <= i < all_events(components, found)->Ok_0.len(),
        is_upcoming(all_events(components, found)->Ok_0[i], now) == Ok::<bool, TimeError>(true),
    ensures
        upcoming_in_order(components, found, now)->Ok_0.contains(
            all_events(components, found)->Ok_0[i],
        ),
{
    let all = all_events(components, found)->Ok_0;
    lemma_upcoming_are_the_upcoming(all, now);
    law_sorted_items_are_the_items(upcoming(all, now)->Ok_0, end_key(), all[i]);
}

/// The events that are listed are in the order in which they end.
pub proof fn law_listed_events_are_in_end_order(
    components: Seq<ComponentView>,
    found: Seq<Option<Seq<Occurrence>>>,
    now: int,
)
    requires
        upcoming_in_order(components, found, now) is Ok,
    ensures
        is_in_end_order(upcoming_in_order(components, found, now)->Ok_0),
{
    law_sorted_events_are_in_end_order(upcoming(all_events(components, found)->Ok_0, now)->Ok_0);
}

/// Which event each entry of the web page shows, by its place in the list of events.
pub open spec fn entry_sources(
    events: Seq<CalendarEventView>,
    spaces: Seq<SpaceView>,
    offsets: Seq<LocalOffsets>,
) -> Seq<int>
    decreases events.len(),
{
    if events.len() == 0 {
        Seq::empty()
    } else {
        let before = entry_sources(events.drop_last(), spaces, offsets);
        match shown(events.last(), spaces, offsets[events.len() - 1]) {
            Ok(Some(_)) => before.push(events.len() - 1),
            _ => before,
        }
    }
}

/// Each entry of the web page shows one of the events, and the entries stand in the order of the events
/// that they show. An event that no entry shows has nothing to show.
#[verifier::spinoff_prover]
pub proof fn law_entries_follow_the_events(
    events: Seq<CalendarEventView>,
    spaces: Seq<SpaceView>,
    offsets: Seq<LocalOffsets>,
)
    requires
        all_shown(events, spaces, offsets) is Ok,
    ensures
        entry_sources(events, spaces, offsets).len() == all_shown(events, spaces, offsets)->Ok_0.len(),
        forall|i: int|
            0 <= i < entry_sources(events, spaces, offsets).len() ==> {
                let source = #[trigger] entry_sources(events, spaces, offsets)[i];
                &&& 0 <= source < events.len()
                &&& shown(events[source], spaces, offsets[source]) == Ok::<
                    Option<EventView>,
                    TimeError,
                >(Some(all_shown(events, spaces, offsets)->Ok_0[i]))
            },
        forall|i: int, j: int|
            0 <= i < j < entry_sources(events, spaces, offsets).len() ==> #[trigger] entry_sources(
                events,
                spaces,
                offsets,
            )[i] < #[trigger] entry_sources(events, spaces, offsets)[j],
        forall|k: int|
            0 <= k < events.len() && !entry_sources(events, spaces, offsets).contains(k) ==> shown(
                #[trigger] events[k],
                spaces,
                offsets[k],
            ) == Ok::<Option<EventView>, TimeError>(None),
    decreases events.len(),
{
    if events.len() > 0 {
        let shorter = events.drop_last();
        law_entries_follow_the_events(shorter, spaces, offsets);
        let before = entry_sources(shorter, spaces, offsets);
        let sources = entry_sources(events, spaces, offsets);
        let last = events.len() - 1;
        let answer = shown(events.last(), spaces, offsets[last]);
        assert(answer is Ok);
        assert(forall|k: int| 0 <= k < last ==> #[trigger] events[k] == shorter[k]);
        match answer->Ok_0 {
            Some(entry) => {
                assert(sources == before.push(last));
                assert(sources[before.len() as int] == last);
                assert(forall|i: int| 0 <= i < before.len() ==> #[trigger] sources[i] == before[i]);
                assert forall|k: int| 0 <= k < last && before.contains(k) implies sources.contains(
                    k,
                ) by {
                    let i = choose|i: int| 0 <= i < before.len() && before[i] == k;
                    assert(sources[i] == k);
                }
            },
            None => {
                assert(sources == before);
            },
        }
    }
}

/// Each entry of a listing shows an upcoming event of the calendar, and the entries stand in the order in
/// which the events that they show end.
pub proof fn law_listing_shows_upcoming_events_in_end_order(
    components: Seq<ComponentView>,
    found: Seq<Option<Seq<Occurrence>>>,
    spaces: Seq<SpaceView>,
    now: int,
    offsets: Seq<LocalOffsets>,
)
    requires
        listed(components, found, spaces, now, offsets) is Ok,
    ensures
        ({
            let events = upcoming_in_order(components, found, now)->Ok_0;
            let entries = listed(components, found, spaces, now, offsets)->Ok_0;
            let sources = entry_sources(events, spaces, offsets);
            &&& sources.len() == entries.len()
            &&& forall|i: int|
                0 <= i < sources.len() ==> {
                    let source = #[trigger] sources[i];
                    &&& 0 <= source < events.len()
                    &&& all_events(components, found)->Ok_0.contains(events[source])
                    &&& is_upcoming(events[source], now) == Ok::<bool, TimeError>(true)
                    &&& shown(events[source], spaces, offsets[source]) == Ok::<
                        Option<EventView>,
                        TimeError,
                    >(Some(entries[i]))
                }
            &&& forall|i: int, j: int|
                0 <= i <= j < sources.len() ==> end_second(events[#[trigger] sources[i]]) <= end_second(
                    events[#[trigger] sources[j]],
                )
        }),
{
    let events = upcoming_in_order(components, found, now)->Ok_0;
    let sources = entry_sources(events, spaces, offsets);
    law_entries_follow_the_events(events, spaces, offsets);
    law_listed_events_are_in_end_order(components, found, now);
    assert forall|i: int| 0 <= i < sources.len() implies {
        let source = #[trigger] sources[i];
        &&& all_events(components, found)->Ok_0.contains(events[source])
        &&& is_upcoming(events[source], now) == Ok::<bool, TimeError>(true)
    } by {
        law_listed_events_are_upcoming(components, found, now, sources[i]);
    }
    assert forall|i: int, j: int| 0 <= i <= j < sources.len() implies end_second(
        events[#[trigger] sources[i]],
    ) <= end_second(events[#[trigger] sources[j]]) by {
        assert(sources[i] <= sources[j]);
    }
}

/// Whether both times of an event can be worked out, as far as they are stated.
pub open spec fn times_are_known(event: CalendarEventView) -> bool {
    &&& event.well_formed()
    &&& optional_event_date(event.start) is Ok
    &&& optional_event_date(event.end) is Ok
}

proof fn lemma_single_events_are_known(
    components: Seq<ComponentView>,
    found: Seq<Option<Seq<Occurrence>>>,
)
    requires
        components.len() <= found.len(),
        forall|i: int|
            0 <= i < components.len() ==> ((#[trigger] components[i]) matches ComponentView::Event(
                event,
                rules,
            ) ==> times_are_known(event) && !may_recur(rules) && sound_occurrences(
                rules,
                found[i],
            )),
    ensures
        all_events(components, found) matches Ok(events) && forall|i: int|
            0 <= i < events.len() ==> times_are_known(#[trigger] events[i]),
    decreases components.len(),
{
    if components.len() > 0 {
        let shorter = components.drop_last();
        assert forall|i: int| 0 <= i < shorter.len() implies ((
        #[trigger] shorter[i]) matches ComponentView::Event(event, rules) ==> times_are_known(event)
            && !may_recur(rules) && sound_occurrences(rules, found[i])) by {
            assert(shorter[i] == components[i]);
        }
        lemma_single_events_are_known(shorter, found);
        assert(components[components.len() - 1] == components.last());
    }
}

proof fn lemma_known_events_are_upcoming_or_not(events: Seq<CalendarEventView>, now: int)
    requires
        now + HORIZON_SECONDS <= MAX_SECONDS,
        forall|i: int| 0 <= i < events.len() ==> times_are_known(#[trigger] events[i]),
    ensures
        upcoming(events, now) is Ok,
    decreases events.len(),
{
    if events.len() > 0 {
        let shorter = events.drop_last();
        assert forall|i: int| 0 <= i < shorter.len() implies times_are_known(#[trigger] shorter[i]) by {
            assert(shorter[i] == events[i]);
        }
        lemma_known_events_are_upcoming_or_not(shorter, now);
        assert(times_are_known(events[events.len() - 1]));
    }
}

proof fn lemma_known_events_are_shown(
    events: Seq<CalendarEventView>,
    spaces: Seq<SpaceView>,
    offsets: Seq<LocalOffsets>,
    now: int,
)
    requires
        is_second(now),
        forall|i: int|
            0 <= i < events.len() ==> times_are_known(#[trigger] events[i]) && is_upcoming(
                events[i],
                now,
            ) == Ok::<bool, TimeError>(true),
    ensures
        all_shown(events, spaces, offsets) is Ok,
    decreases events.len(),
{
    if events.len() > 0 {
        let shorter = events.drop_last();
        assert forall|i: int| 0 <= i < shorter.len() implies times_are_known(#[trigger] shorter[i])
            && is_upcoming(shorter[i], now) == Ok::<bool, TimeError>(true) by {
            assert(shorter[i] == events[i]);
        }
        lemma_known_events_are_shown(shorter, spaces, offsets, now);
        assert(times_are_known(events[events.len() - 1]));
    }
}

/// A calendar whose events cannot recur always gives a list, whatever the machine answers, as long as the
/// times of its events can be worked out and the horizon can be named.
pub proof fn law_single_events_always_give_a_list(
    components: Seq<ComponentView>,
    found: Seq<Option<Seq<Occurrence>>>,
    spaces: Seq<SpaceView>,
    now: int,
    offsets: Seq<LocalOffsets>,
)
    requires
        is_second(now),
        now + HORIZON_SECONDS <= MAX_SECONDS,
        sound_findings(components, found),
        forall|i: int|
            0 <= i < components.len() ==> ((#[trigger] components[i]) matches ComponentView::Event(
                event,
                rules,
            ) ==> times_are_known(event) && !may_recur(rules)),
    ensures
        listed(components, found, spaces, now, offsets) is Ok,
{
    lemma_single_events_are_known(components, found);
    let all = all_events(components, found)->Ok_0;
    lemma_known_events_are_upcoming_or_not(all, now);
    let kept = upcoming(all, now)->Ok_0;
    lemma_upcoming_are_the_upcoming(all, now);
    let events = by_end(kept);
    assert forall|i: int| 0 <= i < events.len() implies times_are_known(#[trigger] events[i])
        && is_upcoming(events[i], now) == Ok::<bool, TimeError>(true) by {
        law_sorted_items_are_the_items(kept, end_key(), events[i]);
        assert(events.contains(events[i]));
        let j = choose|j: int| 0 <= j < kept.len() && kept[j] == events[i];
        assert(is_upcoming(kept[j], now) == Ok::<bool, TimeError>(true));
        let k = choose|k: int| 0 <= k < all.len() && all[k] == kept[j];
        assert(times_are_known(all[k]));
    }
    lemma_known_events_are_shown(events, spaces, offsets, now);
}

} // verus!
