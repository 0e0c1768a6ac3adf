//! Events in the order in which they end.
use crate::calendar::CalendarEvent;
#[allow(unused_imports)]
use crate::calendar::CalendarEventView;
#[allow(unused_imports)]
use crate::recurrence::event_views;
#[allow(unused_imports)]
use crate::sorting::{
    inserted_by, law_sorted_items_are_the_items, law_sorted_list_is_in_order, law_sorting_is_stable,
    law_sorting_keeps_the_items, lemma_inserted_at, sorted_by, with_key,
};
use crate::time::EventDate;
#[allow(unused_imports)]
use crate::time::{first_second, Instant, TimeError};
use crate::time::seconds_from_day;
#[allow(unused_imports)]
use crate::zone::optional_event_date;
use vstd::prelude::*;

verus! {

/// The second at which a day or instant begins.
pub open spec fn date_second(date: EventDate) -> int {
    match date {
        EventDate::Date(day) => first_second(day as int),
        EventDate::DateTimeUtc(instant) => instant.seconds as int,
    }
}

/// The second at which a day or instant begins.
pub fn second_of_date(date: EventDate) -> (r: i64)
    requires
        date.well_formed(),
    ensures
        r == date_second(date),
{
    match date {
        EventDate::Date(day) => seconds_from_day(day),
        EventDate::DateTimeUtc(instant) => instant.seconds,
    }
}

/// The second at which an event ends, where it states an end that can be worked out.
pub open spec fn end_second(event: CalendarEventView) -> int {
    match optional_event_date(event.end) {
        Ok(Some(date)) => date_second(date),
        _ => 0,
    }
}

/// The second at which an event ends, as a key to sort by.
pub open spec fn end_key() -> spec_fn(CalendarEventView) -> int {
    |event: CalendarEventView| end_second(event)
}

/// A list of events in the order in which they end; those that end together keep their order.
pub open spec fn by_end(events: Seq<CalendarEventView>) -> Seq<CalendarEventView> {
    sorted_by(events, end_key())
}

/// An event and the second at which it ends.
pub struct Ending {
    /// The event.
    pub event: CalendarEvent,
    /// The second at which it ends.
    pub second: i64,
}

/// The events of a list of endings.
pub open spec fn ending_views(endings: Seq<Ending>) -> Seq<CalendarEventView> {
    endings.map_values(|ending: Ending| ending.event@)
}

/// Whether each second of a list of endings is the one at which its event ends.
pub open spec fn true_endings(endings: Seq<Ending>) -> bool {
    forall|i: int|
        0 <= i < endings.len() ==> (#[trigger] endings[i]).second == end_second(endings[i].event@)
}

/// Puts one more event into a list.
fn insert_ending(endings: &mut Vec<Ending>, ending: Ending)
    requires
        true_endings(old(endings)@),
        ending.second == end_second(ending.event@),
    ensures
        true_endings(final(endings)@),
        ending_views(final(endings)@) == inserted_by(
            ending_views(old(endings)@),
            ending.event@,
            end_key(),
        ),
        final(endings)@.len() == old(endings)@.len() + 1,
        forall|i: int|
            0 <= i < final(endings)@.len() ==> (#[trigger] final(endings)@[i]) == ending || old(
                endings,
            )@.contains(final(endings)@[i]),
{
    let ghost before = endings@;
    let ghost views = ending_views(before);
    let mut place: usize = endings.len();
    while place > 0 && endings[place - 1].second > ending.second
        invariant
            place <= endings@.len(),
            endings@ == before,
            views == ending_views(before),
            true_endings(before),
            ending.second == end_second(ending.event@),
            forall|i: int|
                place <= i < views.len() ==> end_second(#[trigger] views[i]) > end_second(ending.event@),
        decreases place,
    {
        place = place - 1;
    }
    proof {
        lemma_inserted_at(views, ending.event@, end_key(), place as int);
    }
    let ghost added = ending;
    endings.insert(place, ending);
    proof {
        assert(ending_views(endings@) =~= views.insert(place as int, added.event@));
        assert forall|i: int| 0 <= i < endings@.len() implies (#[trigger] endings@[i]) == added
            || before.contains(endings@[i]) by {
            if i < place {
                assert(endings@[i] == before[i]);
            } else if i > place {
                assert(endings@[i] == before[i - 1]);
            }
        }
    }
}

/// Puts events into the order in which they end; those that end together keep their order.
pub fn sort_by_end(events: Vec<Ending>) -> (r: Vec<CalendarEvent>)
    requires
        true_endings(events@),
    ensures
        event_views(r@) == by_end(ending_views(events@)),
        (forall|i: int| 0 <= i < events@.len() ==> (#[trigger] events@[i]).event@.well_formed())
            ==> forall|i: int| 0 <= i < r@.len() ==> (#[trigger] r@[i])@.well_formed(),
{
    let ghost all = events@;
    let ghost views = ending_views(all);
    let mut sorted: Vec<Ending> = Vec::new();
    assert(views.take(0) =~= Seq::empty());
    assert(ending_views(sorted@) =~= by_end(views.take(0)));
    for ending in it: events
        invariant
            it.seq() == all,
            views == ending_views(all),
            true_endings(all),
            true_endings(sorted@),
            ending_views(sorted@) == by_end(views.take(it.index())),
            forall|i: int| 0 <= i < sorted@.len() ==> all.contains(#[trigger] sorted@[i]),
    {
        proof {
            let i = it.index();
            assert(ending == all[i]);
            assert(views.take(i + 1).drop_last() =~= views.take(i));
            assert(views.take(i + 1).last() == all[i].event@);
            assert(all.contains(all[i]));
        }
        insert_ending(&mut sorted, ending);
    }
    assert(views.take(all.len() as int) =~= views);
    let ghost ordered = sorted@;
    let mut r: Vec<CalendarEvent> = Vec::new();
    for ending in it: sorted
        invariant
            it.seq() == ordered,
            r@.len() == it.index(),
            forall|i: int| 0 <= i < it.index() ==> (#[trigger] r@[i]) == ordered[i].event,
    {
        r.push(ending.event);
    }
    assert(event_views(r@) =~= ending_views(ordered));
    r
}

/// Whether the events of a list end one after the other.
pub open spec fn is_in_end_order(events: Seq<CalendarEventView>) -> bool {
    forall|i: int, j: int|
        0 <= i <= j < events.len() ==> end_second(#[trigger] events[i]) <= end_second(
            #[trigger] events[j],
        )
}

/// The events of a list that end at a given second.
pub open spec fn ending_at(events: Seq<CalendarEventView>, second: int) -> Seq<CalendarEventView> {
    with_key(events, end_key(), second)
}

/// The list that sorting gives is in the order in which the events end.
pub proof fn law_sorted_events_are_in_end_order(events: Seq<CalendarEventView>)
    ensures
        is_in_end_order(by_end(events)),
{
    law_sorted_list_is_in_order(events, end_key());
    let sorted = by_end(events);
    assert forall|i: int, j: int| 0 <= i <= j < sorted.len() implies end_second(#[trigger] sorted[i])
        <= end_second(#[trigger] sorted[j]) by {
        assert(end_key()(sorted[i]) <= end_key()(sorted[j]));
    }
}

/// Sorting neither loses an event nor adds one.
pub proof fn law_sorting_keeps_the_events(events: Seq<CalendarEventView>)
    ensures
        by_end(events).to_multiset() == events.to_multiset(),
{
    law_sorting_keeps_the_items(events, end_key());
}

/// Events that end at the same second keep the order that they had before sorting.
pub proof fn law_events_that_end_together_keep_their_order(
    events: Seq<CalendarEventView>,
    second: int,
)
    ensures
        ending_at(by_end(events), second) == ending_at(events, second),
{
    law_sorting_is_stable(events, end_key(), second);
}

/// An event whose end means an instant ends at the second of that instant, one whose end means a day at
/// the first second of that day.
pub proof fn law_end_second_is_that_of_the_end(event: CalendarEventView)
    ensures
        optional_event_date(event.end) matches Ok(Some(EventDate::DateTimeUtc(end))) ==> end_second(event)
            == end.seconds,
        optional_event_date(event.end) matches Ok(Some(EventDate::Date(end))) ==> end_second(event) == (end
            - 719_163) * 86_400,
{
}

/// In a sorted list an event that ends at an earlier second than another stands before it.
pub proof fn law_earlier_end_stands_first(
    events: Seq<CalendarEventView>,
    i: int,
    j: int,
    a: EventDate,
    b: EventDate,
)
    requires
        0 <= i < by_end(events).len(),
        0 <= j < by_end(events).len(),
        optional_event_date(by_end(events)[i].end) == Ok::<Option<EventDate>, TimeError>(Some(a)),
        optional_event_date(by_end(events)[j].end) == Ok::<Option<EventDate>, TimeError>(Some(b)),
        (match a {
            EventDate::Date(day) => (day - 719_163) * 86_400,
            EventDate::DateTimeUtc(instant) => instant.seconds as int,
        }) < (match b {
            EventDate::Date(day) => (day - 719_163) * 86_400,
            EventDate::DateTimeUtc(instant) => instant.seconds as int,
        }),
    ensures
        i < j,
{
    law_sorted_events_are_in_end_order(events);
    let sorted = by_end(events);
    assert(end_second(sorted[i]) < end_second(sorted[j]));
    if j <= i {
        assert(end_second(sorted[j]) <= end_second(sorted[i]));
    }
}

/// The second of a day is its first one, that of an instant its own.
pub proof fn law_second_of_a_date(day: i32, instant: Instant)
    ensures
        date_second(EventDate::Date(day)) == (day - 719_163) * 86_400,
        date_second(EventDate::DateTimeUtc(instant)) == instant.seconds,
{
}

/// Whether the end of an event means a day or an instant that begins at a given second.
pub open spec fn means_second(event: CalendarEventView, second: int) -> bool {
    match optional_event_date(event.end) {
        Ok(Some(EventDate::Date(day))) => (day - 719_163) * 86_400 == second,
        Ok(Some(EventDate::DateTimeUtc(instant))) => instant.seconds == second,
        _ => false,
    }
}

/// Whether the ends of all events of a list mean days or instants.
pub open spec fn ends_are_known(events: Seq<CalendarEventView>) -> bool {
    forall|i: int|
        0 <= i < events.len() ==> (optional_event_date((#[trigger] events[i]).end) matches Ok(Some(_)))
}

proof fn lemma_endings_at_a_second(events: Seq<CalendarEventView>, second: int)
    requires
        ends_are_known(events),
    ensures
        ending_at(events, second) == events.filter(|e: CalendarEventView| means_second(e, second)),
    decreases events.len(),
{
    reveal(Seq::filter);
    if events.len() > 0 {
        let shorter = events.drop_last();
        assert forall|i: int| 0 <= i < shorter.len() implies (optional_event_date(
            (#[trigger] shorter[i]).end,
        ) matches Ok(Some(_))) by {
            assert(shorter[i] == events[i]);
        }
        lemma_endings_at_a_second(shorter, second);
        assert(events[events.len() - 1] == events.last());
    }
}

/// Of events whose ends mean the same second, sorting changes neither which there are nor their order.
pub proof fn law_events_with_the_same_end_keep_their_order(
    events: Seq<CalendarEventView>,
    second: int,
)
    requires
        ends_are_known(events),
    ensures
        by_end(events).filter(|e: CalendarEventView| means_second(e, second)) == events.filter(
            |e: CalendarEventView| means_second(e, second),
        ),
{
    let sorted = by_end(events);
    assert forall|i: int| 0 <= i < sorted.len() implies (optional_event_date(
        (#[trigger] sorted[i]).end,
    ) matches Ok(Some(_))) by {
        law_sorted_items_are_the_items(events, end_key(), sorted[i]);
        assert(sorted.contains(sorted[i]));
        let j = choose|j: int| 0 <= j < events.len() && events[j] == sorted[i];
        assert(optional_event_date(events[j].end) matches Ok(Some(_)));
    }
    law_events_that_end_together_keep_their_order(events, second);
    lemma_endings_at_a_second(events, second);
    lemma_endings_at_a_second(sorted, second);
}

/// A list of endings holds its events in order, and its seconds are true where each is the one that the
/// end of its event means.
pub proof fn law_endings_hold_their_events(endings: Seq<Ending>)
    ensures
        ending_views(endings).len() == endings.len(),
        forall|i: int|
            0 <= i < endings.len() ==> #[trigger] ending_views(endings)[i] == endings[i].event@,
        ends_are_known(ending_views(endings)) && (forall|i: int|
            0 <= i < endings.len() ==> means_second(
                (#[trigger] endings[i]).event@,
                endings[i].second as int,
            )) ==> true_endings(endings),
{
}

} // verus!
