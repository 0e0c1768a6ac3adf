//! Which events of a calendar are listed, and in which order.
#[allow(unused_imports)]
use crate::calendar::{CalendarEventView, ComponentView, RecurrenceRulesView};
#[allow(unused_imports)]
use crate::clock::rfc3339_text;
#[allow(unused_imports)]
use crate::composition::lemma_all_events_look_at_their_findings;
#[allow(unused_imports)]
use crate::json::{parsed_tree, JsonTree};
#[allow(unused_imports)]
use crate::listing::{
    all_events, all_shown, fetched_text, found_views, is_listing, is_upcoming, known_spaces,
    lemma_upcoming_are_the_upcoming, listed, possible_answers, shown_views, upcoming,
    upcoming_in_order, well_formed_findings,
};
#[allow(unused_imports)]
use crate::order::{
    by_end, end_key, law_earlier_end_stands_first, law_events_with_the_same_end_keep_their_order,
    means_second,
};
#[allow(unused_imports)]
use crate::presentation::{
    law_programs_read_both_times, law_what_is_shown, possible_offsets, shown, Event, EventView,
    LocalOffsets,
};
#[allow(unused_imports)]
use crate::recurrence::{
    expanded, is_unbroken, law_event_without_rules_stands_for_itself, possible_occurrences, Occurrence,
};
#[allow(unused_imports)]
use crate::sorting::{law_sorted_items_are_the_items, law_sorting_keeps_the_items};
#[allow(unused_imports)]
use crate::spaces::{spaces_of, SpaceView};
#[allow(unused_imports)]
use crate::time::{EventDate, Instant, TimeError};
#[allow(unused_imports)]
use crate::zone::optional_event_date;
use vstd::prelude::*;

verus! {

/// An event whose start and end mean a day or an instant each is listed exactly where its end is not past
/// and its start lies no more than 365 days ahead. A day is past once it has begun; an instant, once its
/// second is over. A day lies as far ahead as the day on which the 365 days are over.
pub proof fn law_which_events_are_listed(
    event: CalendarEventView,
    now: int,
    start: EventDate,
    end: EventDate,
)
    requires
        optional_event_date(event.start) == Ok::<Option<EventDate>, TimeError>(Some(start)),
        optional_event_date(event.end) == Ok::<Option<EventDate>, TimeError>(Some(end)),
        now + 31_536_000 <= 8_210_266_876_799,
    ensures
        is_upcoming(event, now) == Ok::<bool, TimeError>(
            (match end {
                EventDate::Date(day) => day > 719_163 + now / 86_400,
                EventDate::DateTimeUtc(instant) => instant.seconds >= now,
            }) && (match start {
                EventDate::Date(day) => day <= 719_163 + (now + 31_536_000) / 86_400,
                EventDate::DateTimeUtc(instant) => instant.seconds <= now + 31_536_000,
            }),
        ),
{
}

/// An event of days is listed on every day before the one on which it is over, from 365 days before it
/// begins on, however long ago it began.
pub proof fn law_event_of_days_is_listed_until_it_is_over(
    event: CalendarEventView,
    now: int,
    start: i32,
    end: i32,
)
    requires
        optional_event_date(event.start) == Ok::<Option<EventDate>, TimeError>(
            Some(EventDate::Date(start)),
        ),
        optional_event_date(event.end) == Ok::<Option<EventDate>, TimeError>(
            Some(EventDate::Date(end)),
        ),
        now + 31_536_000 <= 8_210_266_876_799,
        719_163 + now / 86_400 < end,
        start <= 719_163 + now / 86_400 + 365,
    ensures
        is_upcoming(event, now) == Ok::<bool, TimeError>(true),
{
    assert((now + 31_536_000) / 86_400 == now / 86_400 + 365);
}

/// An event with times is listed until the second at which it ends, from 365 days before it begins on,
/// however long ago it began.
pub proof fn law_event_of_instants_is_listed_until_it_is_over(
    event: CalendarEventView,
    now: int,
    start: Instant,
    end: Instant,
)
    requires
        optional_event_date(event.start) == Ok::<Option<EventDate>, TimeError>(
            Some(EventDate::DateTimeUtc(start)),
        ),
        optional_event_date(event.end) == Ok::<Option<EventDate>, TimeError>(
            Some(EventDate::DateTimeUtc(end)),
        ),
        now + 31_536_000 <= 8_210_266_876_799,
        now <= end.seconds,
        start.seconds <= now + 31_536_000,
    ensures
        is_upcoming(event, now) == Ok::<bool, TimeError>(true),
{
}

/// An event that is listed is still listed where it begins earlier and ends later.
pub proof fn law_longer_event_stays_listed(
    event: CalendarEventView,
    longer: CalendarEventView,
    now: int,
    start: EventDate,
    end: EventDate,
    earlier: EventDate,
    later: EventDate,
)
    requires
        optional_event_date(event.start) == Ok::<Option<EventDate>, TimeError>(Some(start)),
        optional_event_date(event.end) == Ok::<Option<EventDate>, TimeError>(Some(end)),
        optional_event_date(longer.start) == Ok::<Option<EventDate>, TimeError>(Some(earlier)),
        optional_event_date(longer.end) == Ok::<Option<EventDate>, TimeError>(Some(later)),
        match (earlier, start) {
            (EventDate::Date(a), EventDate::Date(b)) => a <= b,
            (EventDate::DateTimeUtc(a), EventDate::DateTimeUtc(b)) => a.seconds <= b.seconds,
            _ => false,
        },
        match (end, later) {
            (EventDate::Date(a), EventDate::Date(b)) => a <= b,
            (EventDate::DateTimeUtc(a), EventDate::DateTimeUtc(b)) => a.seconds <= b.seconds,
            _ => false,
        },
        is_upcoming(event, now) == Ok::<bool, TimeError>(true),
    ensures
        is_upcoming(longer, now) == Ok::<bool, TimeError>(true),
{
}

/// An event without an end is never listed, nor one without a start whose end is not past. What cannot be
/// worked out of the end counts first; the start counts only where the end is not past.
pub proof fn law_events_without_times_are_not_listed(event: CalendarEventView, now: int)
    ensures
        optional_event_date(event.end) matches Err(error) ==> is_upcoming(event, now) == Err::<
            bool,
            TimeError,
        >(error),
        optional_event_date(event.end) matches Ok(None) ==> is_upcoming(event, now) == Ok::<
            bool,
            TimeError,
        >(false),
        optional_event_date(event.end) matches Ok(Some(end)) ==> {
            let past = match end {
                EventDate::Date(day) => day <= 719_163 + now / 86_400,
                EventDate::DateTimeUtc(instant) => instant.seconds < now,
            };
            &&& past ==> is_upcoming(event, now) == Ok::<bool, TimeError>(false)
            &&& !past && now + 31_536_000 > 8_210_266_876_799 ==> is_upcoming(event, now) == Err::<
                bool,
                TimeError,
            >(TimeError::OutOfRange)
            &&& !past && now + 31_536_000 <= 8_210_266_876_799 ==> match optional_event_date(
                event.start,
            ) {
                Err(error) => is_upcoming(event, now) == Err::<bool, TimeError>(error),
                Ok(None) => is_upcoming(event, now) == Ok::<bool, TimeError>(false),
                Ok(Some(_)) => is_upcoming(event, now) is Ok,
            }
        },
{
}

/// The events of a calendar are those of its first components, followed by those of the others; the first
/// component of which something cannot be worked out decides.
pub proof fn law_events_of_joined_components(
    a: Seq<ComponentView>,
    b: Seq<ComponentView>,
    found: Seq<Option<Seq<Occurrence>>>,
)
    requires
        found.len() == a.len() + b.len(),
    ensures
        match (all_events(a, found.take(a.len() as int)), all_events(b, found.skip(a.len() as int))) {
            (Err(error), _) => all_events(a + b, found) == Err::<Seq<CalendarEventView>, TimeError>(
                error,
            ),
            (Ok(_), Err(error)) => all_events(a + b, found) == Err::<
                Seq<CalendarEventView>,
                TimeError,
            >(error),
            (Ok(first), Ok(rest)) => all_events(a + b, found) == Ok::<
                Seq<CalendarEventView>,
                TimeError,
            >(first + rest),
        },
    decreases b.len(),
{
    let n = a.len() as int;
    if b.len() == 0 {
        assert(a + b =~= a);
        assert(found.take(n) =~= found);
        if let Ok(first) = all_events(a, found) {
            assert(first + Seq::<CalendarEventView>::empty() =~= first);
        }
    } else {
        let shorter = b.drop_last();
        let fewer = found.drop_last();
        law_events_of_joined_components(a, shorter, fewer);
        assert(fewer.take(n) =~= found.take(n));
        assert(fewer.skip(n) =~= found.skip(n).drop_last());
        assert((a + b).drop_last() =~= a + shorter);
        assert((a + b).last() == b.last());
        lemma_all_events_look_at_their_findings(a + shorter, found, fewer);
        lemma_all_events_look_at_their_findings(shorter, found.skip(n), fewer.skip(n));
        assert(found[a.len() + b.len() - 1] == found.skip(n)[b.len() - 1]);
        if all_events(a, found.take(n)) is Ok && all_events(b, found.skip(n)) is Ok {
            if let ComponentView::Event(event, _) = b.last() {
                let first = all_events(a, found.take(n))->Ok_0;
                let middle = all_events(shorter, fewer.skip(n))->Ok_0;
                let last = expanded(event, found[a.len() + b.len() - 1])->Ok_0;
                assert(first + middle + last =~= first + (middle + last));
            }
        }
    }
}

/// A component that is no event gives no event; one that is gives the events that stand for it.
pub proof fn law_events_of_a_single_component(
    component: ComponentView,
    found: Option<Seq<Occurrence>>,
)
    ensures
        match component {
            ComponentView::Other => all_events(seq![component], seq![found]) == Ok::<
                Seq<CalendarEventView>,
                TimeError,
            >(Seq::empty()),
            ComponentView::Event(event, _) => all_events(seq![component], seq![found]) == expanded(
                event,
                found,
            ),
        },
{
    reveal_with_fuel(all_events, 2);
    assert(seq![component].drop_last() =~= Seq::empty());
    if let ComponentView::Event(event, _) = component {
        if let Ok(events) = expanded(event, found) {
            assert(Seq::<CalendarEventView>::empty() + events =~= events);
        }
    }
}

/// The upcoming events of a list are those of its first part, followed by those of its second part; the
/// first event of which something cannot be worked out decides.
pub proof fn law_upcoming_events_of_joined_lists(
    a: Seq<CalendarEventView>,
    b: Seq<CalendarEventView>,
    now: int,
)
    ensures
        match (upcoming(a, now), upcoming(b, now)) {
            (Err(error), _) => upcoming(a + b, now) == Err::<Seq<CalendarEventView>, TimeError>(error),
            (Ok(_), Err(error)) => upcoming(a + b, now) == Err::<Seq<CalendarEventView>, TimeError>(
                error,
            ),
            (Ok(first), Ok(rest)) => upcoming(a + b, now) == Ok::<Seq<CalendarEventView>, TimeError>(
                first + rest,
            ),
        },
    decreases b.len(),
{
    if b.len() == 0 {
        assert(a + b =~= a);
        if let Ok(first) = upcoming(a, now) {
            assert(first + Seq::<CalendarEventView>::empty() =~= first);
        }
    } else {
        law_upcoming_events_of_joined_lists(a, b.drop_last(), now);
        assert((a + b).drop_last() =~= a + b.drop_last());
        assert((a + b).last() == b.last());
        if upcoming(a, now) is Ok && upcoming(b, now) is Ok {
            let first = upcoming(a, now)->Ok_0;
            let middle = upcoming(b.drop_last(), now)->Ok_0;
            assert((first + middle).push(b.last()) =~= first + middle.push(b.last()));
        }
    }
}

/// Of a list of one event, that event is kept where it is listed.
pub proof fn law_upcoming_event_of_a_single_one(event: CalendarEventView, now: int)
    ensures
        match is_upcoming(event, now) {
            Err(error) => upcoming(seq![event], now) == Err::<Seq<CalendarEventView>, TimeError>(error),
            Ok(true) => upcoming(seq![event], now) == Ok::<Seq<CalendarEventView>, TimeError>(
                seq![event],
            ),
            Ok(false) => upcoming(seq![event], now) == Ok::<Seq<CalendarEventView>, TimeError>(
                Seq::empty(),
            ),
        },
        upcoming(Seq::empty(), now) == Ok::<Seq<CalendarEventView>, TimeError>(Seq::empty()),
{
    reveal_with_fuel(upcoming, 2);
    assert(seq![event].drop_last() =~= Seq::empty());
    assert(Seq::empty().push(event) =~= seq![event]);
}

proof fn lemma_upcoming_counts(events: Seq<CalendarEventView>, now: int, event: CalendarEventView)
    requires
        upcoming(events, now) is Ok,
    ensures
        is_upcoming(event, now) == Ok::<bool, TimeError>(true) ==> upcoming(
            events,
            now,
        )->Ok_0.to_multiset().count(event) == events.to_multiset().count(event),
        is_upcoming(event, now) != Ok::<bool, TimeError>(true) ==> upcoming(
            events,
            now,
        )->Ok_0.to_multiset().count(event) == 0,
    decreases events.len(),
{
    broadcast use vstd::seq_lib::group_to_multiset_ensures;

    if events.len() > 0 {
        lemma_upcoming_counts(events.drop_last(), now, event);
        assert(events =~= events.drop_last().push(events.last()));
    } else {
        assert(upcoming(events, now)->Ok_0 =~= events);
        assert(!events.contains(event));
    }
}

/// An event whose start and end mean a day or an instant each stands in the list as often as in the
/// calendar where its end is not past and its start lies no more than 365 days ahead, and else not at all.
pub proof fn law_list_holds_what_is_upcoming(
    components: Seq<ComponentView>,
    found: Seq<Option<Seq<Occurrence>>>,
    now: int,
    event: CalendarEventView,
    start: EventDate,
    end: EventDate,
)
    requires
        upcoming_in_order(components, found, now) is Ok,
        optional_event_date(event.start) == Ok::<Option<EventDate>, TimeError>(Some(start)),
        optional_event_date(event.end) == Ok::<Option<EventDate>, TimeError>(Some(end)),
        now + 31_536_000 <= 8_210_266_876_799,
    ensures
        ({
            let listed = (match end {
                EventDate::Date(day) => day > 719_163 + now / 86_400,
                EventDate::DateTimeUtc(instant) => instant.seconds >= now,
            }) && (match start {
                EventDate::Date(day) => day <= 719_163 + (now + 31_536_000) / 86_400,
                EventDate::DateTimeUtc(instant) => instant.seconds <= now + 31_536_000,
            });
            upcoming_in_order(components, found, now)->Ok_0.to_multiset().count(event) == if listed {
                all_events(components, found)->Ok_0.to_multiset().count(event)
            } else {
                0
            }
        }),
{
    let all = all_events(components, found)->Ok_0;
    lemma_upcoming_counts(all, now, event);
    law_sorting_keeps_the_items(upcoming(all, now)->Ok_0, end_key());
}

/// Of two events of the list, the one whose end means the earlier second stands first; a day counts from
/// its first second.
pub proof fn law_list_is_in_the_order_of_the_ends(
    components: Seq<ComponentView>,
    found: Seq<Option<Seq<Occurrence>>>,
    now: int,
    i: int,
    j: int,
    a: EventDate,
    b: EventDate,
)
    requires
        upcoming_in_order(components, found, now) is Ok,
        0 <= i < upcoming_in_order(components, found, now)->Ok_0.len(),
        0 <= j < upcoming_in_order(components, found, now)->Ok_0.len(),
        optional_event_date(upcoming_in_order(components, found, now)->Ok_0[i].end) == Ok::<
            Option<EventDate>,
            TimeError,
        >(Some(a)),
        optional_event_date(upcoming_in_order(components, found, now)->Ok_0[j].end) == Ok::<
            Option<EventDate>,
            TimeError,
        >(Some(b)),
        (match a {
            EventDate::Date(day) => (day - 719_163) * 86_400,
            EventDate::DateTimeUtc(instant) => instant.seconds as int,
        }) < (match b {
            EventDate::Date(day) => (day - 719_163) * 86_400,
            EventDate::DateTimeUtc(instant) => instant.seconds as int,
        }),
    ensures
        i < j,
{
    let kept = upcoming(all_events(components, found)->Ok_0, now)->Ok_0;
    law_earlier_end_stands_first(kept, i, j, a, b);
}

/// Of the events of the list whose ends mean the same second, those that are upcoming stand in the order of
/// the calendar.
pub proof fn law_list_keeps_the_order_of_the_calendar(
    components: Seq<ComponentView>,
    found: Seq<Option<Seq<Occurrence>>>,
    now: int,
    second: int,
)
    requires
        upcoming_in_order(components, found, now) is Ok,
    ensures
        upcoming_in_order(components, found, now)->Ok_0.filter(
            |e: CalendarEventView| means_second(e, second),
        ) == upcoming(all_events(components, found)->Ok_0, now)->Ok_0.filter(
            |e: CalendarEventView| means_second(e, second),
        ),
{
    let all = all_events(components, found)->Ok_0;
    let kept = upcoming(all, now)->Ok_0;
    lemma_upcoming_are_the_upcoming(all, now);
    assert forall|i: int| 0 <= i < kept.len() implies (optional_event_date(
        (#[trigger] kept[i]).end,
    ) matches Ok(Some(_))) by {
        assert(is_upcoming(kept[i], now) == Ok::<bool, TimeError>(true));
    }
    law_events_with_the_same_end_keep_their_order(kept, second);
}

/// There is a list exactly where everything about the events of the calendar can be worked out, and else
/// the same error that stopped it.
pub proof fn law_when_there_is_a_list(
    components: Seq<ComponentView>,
    found: Seq<Option<Seq<Occurrence>>>,
    now: int,
)
    ensures
        match all_events(components, found) {
            Err(error) => upcoming_in_order(components, found, now) == Err::<
                Seq<CalendarEventView>,
                TimeError,
            >(error),
            Ok(events) => match upcoming(events, now) {
                Err(error) => upcoming_in_order(components, found, now) == Err::<
                    Seq<CalendarEventView>,
                    TimeError,
                >(error),
                Ok(kept) => upcoming_in_order(components, found, now) is Ok && upcoming_in_order(
                    components,
                    found,
                    now,
                )->Ok_0.len() == kept.len(),
            },
        },
{
    if all_events(components, found) is Ok {
        let events = all_events(components, found)->Ok_0;
        if upcoming(events, now) is Ok {
            law_sorting_keeps_the_items(upcoming(events, now)->Ok_0, end_key());
        }
    }
}

/// The entries of a list of events are those of its first part, followed by those of its second part; the
/// first event that cannot be shown decides.
pub proof fn law_entries_of_joined_lists(
    a: Seq<CalendarEventView>,
    b: Seq<CalendarEventView>,
    spaces: Seq<SpaceView>,
    offsets: Seq<LocalOffsets>,
)
    requires
        offsets.len() == a.len() + b.len(),
    ensures
        match (
            all_shown(a, spaces, offsets.take(a.len() as int)),
            all_shown(b, spaces, offsets.skip(a.len() as int)),
        ) {
            (Err(error), _) => all_shown(a + b, spaces, offsets) == Err::<Seq<EventView>, TimeError>(
                error,
            ),
            (Ok(_), Err(error)) => all_shown(a + b, spaces, offsets) == Err::<
                Seq<EventView>,
                TimeError,
            >(error),
            (Ok(first), Ok(rest)) => all_shown(a + b, spaces, offsets) == Ok::<
                Seq<EventView>,
                TimeError,
            >(first + rest),
        },
    decreases b.len(),
{
    let n = a.len() as int;
    if b.len() == 0 {
        assert(a + b =~= a);
        assert(offsets.take(n) =~= offsets);
        if let Ok(first) = all_shown(a, spaces, offsets) {
            assert(first + Seq::<EventView>::empty() =~= first);
        }
    } else {
        let shorter = b.drop_last();
        let fewer = offsets.drop_last();
        law_entries_of_joined_lists(a, shorter, spaces, fewer);
        assert(fewer.take(n) =~= offsets.take(n));
        assert((a + b).drop_last() =~= a + shorter);
        assert((a + b).last() == b.last());
        lemma_entries_look_at_their_offsets(a + shorter, spaces, offsets, fewer);
        lemma_entries_look_at_their_offsets(shorter, spaces, offsets.skip(n), fewer.skip(n));
        assert(offsets[a.len() + b.len() - 1] == offsets.skip(n)[b.len() - 1]);
        if all_shown(a, spaces, offsets.take(n)) is Ok && all_shown(b, spaces, offsets.skip(n)) is Ok {
            let first = all_shown(a, spaces, offsets.take(n))->Ok_0;
            let middle = all_shown(shorter, spaces, fewer.skip(n))->Ok_0;
            if let Ok(Some(entry)) = shown(b.last(), spaces, offsets[a.len() + b.len() - 1]) {
                assert((first + middle).push(entry) =~= first + middle.push(entry));
            }
        }
    }
}

proof fn lemma_entries_look_at_their_offsets(
    events: Seq<CalendarEventView>,
    spaces: Seq<SpaceView>,
    offsets: Seq<LocalOffsets>,
    other: Seq<LocalOffsets>,
)
    requires
        forall|i: int| 0 <= i < events.len() ==> #[trigger] offsets[i] == other[i],
    ensures
        all_shown(events, spaces, offsets) == all_shown(events, spaces, other),
    decreases events.len(),
{
    if events.len() > 0 {
        lemma_entries_look_at_their_offsets(events.drop_last(), spaces, offsets, other);
        assert(offsets[events.len() - 1] == other[events.len() - 1]);
    }
}

/// A single event has its entry where it can be shown.
pub proof fn law_entry_of_a_single_event(
    event: CalendarEventView,
    spaces: Seq<SpaceView>,
    offsets: LocalOffsets,
)
    ensures
        match shown(event, spaces, offsets) {
            Err(error) => all_shown(seq![event], spaces, seq![offsets]) == Err::<
                Seq<EventView>,
                TimeError,
            >(error),
            Ok(None) => all_shown(seq![event], spaces, seq![offsets]) == Ok::<
                Seq<EventView>,
                TimeError,
            >(Seq::empty()),
            Ok(Some(entry)) => all_shown(seq![event], spaces, seq![offsets]) == Ok::<
                Seq<EventView>,
                TimeError,
            >(seq![entry]),
        },
{
    reveal_with_fuel(all_shown, 2);
    assert(seq![event].drop_last() =~= Seq::empty());
    if let Ok(Some(entry)) = shown(event, spaces, offsets) {
        assert(Seq::empty().push(entry) =~= seq![entry]);
    }
}

/// Behind every list stand occurrences that the rules of the calendar's events state on some machine, and
/// offsets of some machine's clocks for each upcoming event, and the list shows the upcoming events in
/// order.
pub proof fn law_what_stands_behind_a_list(
    r: Result<Seq<EventView>, TimeError>,
    components: Seq<ComponentView>,
    spaces: Seq<SpaceView>,
    now: int,
) -> (answers: (Seq<Option<Seq<Occurrence>>>, Seq<LocalOffsets>))
    requires
        is_listing(r, components, spaces, now),
    ensures
        answers.0.len() == components.len(),
        forall|i: int|
            0 <= i < components.len() ==> ((#[trigger] components[i]) matches ComponentView::Event(
                _,
                rules,
            ) ==> possible_occurrences(rules, answers.0[i])),
        match upcoming_in_order(components, answers.0, now) {
            Err(error) => r == Err::<Seq<EventView>, TimeError>(error),
            Ok(events) => {
                &&& answers.1.len() == events.len()
                &&& forall|i: int|
                    0 <= i < events.len() ==> possible_offsets(events[i], #[trigger] answers.1[i])
                &&& r == all_shown(events, spaces, answers.1)
            },
        },
{
    let (found, offsets) = choose|
        found: Seq<Option<Seq<Occurrence>>>,
        offsets: Seq<LocalOffsets>,
    |
        possible_answers(components, now, found, offsets) && r == #[trigger] listed(
            components,
            found,
            spaces,
            now,
            offsets,
        );
    (found, offsets)
}

/// The spaces that are known are those that the fetched document lists, in its order. There are none
/// without a text, where the text is no document, or where the document lists no spaces.
pub proof fn law_known_spaces_are_those_fetched(
    text: String,
    document: JsonTree,
    spaces: Seq<SpaceView>,
)
    ensures
        known_spaces(None) == Seq::<SpaceView>::empty(),
        parsed_tree(text@) is Err ==> known_spaces(Some(text)) == Seq::<SpaceView>::empty(),
        parsed_tree(text@) == Ok::<JsonTree, Seq<char>>(document) && spaces_of(document) is None
            ==> known_spaces(Some(text)) == Seq::<SpaceView>::empty(),
        parsed_tree(text@) == Ok::<JsonTree, Seq<char>>(document) && spaces_of(document) == Some(spaces)
            ==> known_spaces(Some(text)) == spaces,
{
}

/// What was fetched is read as it is, and nothing as an empty text.
pub proof fn law_fetched_text_is_read_as_it_is(text: String)
    ensures
        fetched_text(Some(text)) == text@,
        fetched_text(None) == Seq::<char>::empty(),
{
}

/// The view of a list of shown events holds each of them, in order.
pub proof fn law_shown_views_hold_the_events(events: Seq<Event>)
    ensures
        shown_views(events).len() == events.len(),
        forall|i: int| 0 <= i < events.len() ==> #[trigger] shown_views(events)[i] == events[i]@,
{
}

/// The view of a list of findings holds each of them, in order.
pub proof fn law_found_views_hold_the_findings(found: Seq<Option<Vec<Occurrence>>>)
    ensures
        found_views(found).len() == found.len(),
        forall|i: int|
            0 <= i < found.len() ==> match (found[i], #[trigger] found_views(found)[i]) {
                (Some(dates), Some(view)) => view == dates@,
                (None, None) => true,
                _ => false,
            },
{
}

/// Findings can be used where there is one for each component and every date of them can be named.
pub proof fn law_which_findings_can_be_used(
    components: Seq<ComponentView>,
    found: Seq<Option<Seq<Occurrence>>>,
)
    requires
        found.len() == components.len(),
        forall|i: int|
            0 <= i < found.len() ==> ((#[trigger] found[i]) matches Some(dates) ==> forall|j: int|
                0 <= j < dates.len() ==> (#[trigger] dates[j]).well_formed()),
    ensures
        well_formed_findings(components, found),
{
    assert forall|i: int, j: int|
        0 <= i < found.len() && found[i] is Some && 0 <= j < found[i]->0.len() implies (
    #[trigger] found[i]->0[j]).well_formed() by {
        assert(found[i] matches Some(dates));
    }
}

/// A calendar with one event that does not recur, has a summary and is upcoming is listed as one entry, of
/// that event and with both its times, whatever the machine.
pub proof fn law_upcoming_event_has_its_entry(
    r: Result<Seq<EventView>, TimeError>,
    event: CalendarEventView,
    rules: RecurrenceRulesView,
    spaces: Seq<SpaceView>,
    now: int,
    summary: Seq<char>,
    start: Instant,
    end: Instant,
)
    requires
        is_listing(r, seq![ComponentView::Event(event, rules)], spaces, now),
        is_unbroken(rules.dtstart) && is_unbroken(rules.rrule) && is_unbroken(rules.exrule)
            && is_unbroken(rules.rdate) && is_unbroken(rules.exdate),
        rules.rrule.value is None && rules.rrule.values.len() == 0,
        rules.rdate.value is None && rules.rdate.values.len() == 0,
        event.summary == Some(summary),
        optional_event_date(event.start) == Ok::<Option<EventDate>, TimeError>(
            Some(EventDate::DateTimeUtc(start)),
        ),
        optional_event_date(event.end) == Ok::<Option<EventDate>, TimeError>(
            Some(EventDate::DateTimeUtc(end)),
        ),
        now <= end.seconds,
        start.seconds <= now + 31_536_000 <= 8_210_266_876_799,
    ensures
        r matches Ok(entries) && entries.len() == 1 && {
            &&& entries[0].summary == summary
            &&& entries[0].description == event.description
            &&& entries[0].start_iso8601 == rfc3339_text(start)
            &&& entries[0].end_iso8601 == rfc3339_text(end)
        },
{
    let components = seq![ComponentView::Event(event, rules)];
    let (found, offsets) = law_what_stands_behind_a_list(r, components, spaces, now);
    assert(components[0] == ComponentView::Event(event, rules));
    law_event_without_rules_stands_for_itself(event, rules, found[0]);
    law_events_of_a_single_component(components[0], found[0]);
    assert(found =~= seq![found[0]]);
    let all = seq![event];
    assert(all_events(components, found) == Ok::<Seq<CalendarEventView>, TimeError>(all));
    law_event_of_instants_is_listed_until_it_is_over(event, now, start, end);
    law_upcoming_event_of_a_single_one(event, now);
    let events = upcoming_in_order(components, found, now)->Ok_0;
    law_sorting_keeps_the_items(all, end_key());
    law_sorted_items_are_the_items(all, end_key(), events[0]);
    assert(events.contains(events[0]));
    assert(events =~= seq![event]);
    assert(offsets =~= seq![offsets[0]]);
    law_entry_of_a_single_event(event, spaces, offsets[0]);
    law_what_is_shown(event, spaces, offsets[0]);
    law_programs_read_both_times(event, spaces, offsets[0]);
}

} // verus!
