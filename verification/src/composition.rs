//! What the lists of calendars that have events in common have to do with each other.
#[allow(unused_imports)]
use crate::calendar::{CalendarEventView, ComponentView};
#[allow(unused_imports)]
use crate::listing::{
    all_events, all_shown, is_listing, lemma_upcoming_are_the_upcoming, listed,
    possible_answers, possible_findings, upcoming, upcoming_in_order,
};
#[allow(unused_imports)]
use crate::order::{by_end, end_key, end_second};
#[allow(unused_imports)]
use crate::presentation::{possible_offsets, shown, EventView, LocalOffsets};
#[allow(unused_imports)]
use crate::recurrence::{
    expanded, occurrence_event, occurrence_events, possible_occurrences, Occurrence,
};
#[allow(unused_imports)]
use crate::sorting::{
    first_key, kept, law_pairs_can_be_unsorted, law_sorted_items_are_the_items,
    law_sorted_pairs_have_sorted_items, law_sorting_commutes_with_keeping,
    law_sorted_parts_sort_alike, law_sorting_commutes_with_mapping, law_sorting_keeps_the_items,
    law_sorting_keeps_what_is_read_off, lemma_kept_concat, sorted_by, zipped,
};
#[allow(unused_imports)]
use crate::spaces::SpaceView;
#[allow(unused_imports)]
use crate::time::{EventDate, TimeError};
#[allow(unused_imports)]
use crate::zone::optional_event_date;
use vstd::prelude::*;

verus! {

/// The upcoming events of a calendar in the order of the calendar.
pub open spec fn all_upcoming(
    components: Seq<ComponentView>,
    found: Seq<Option<Seq<Occurrence>>>,
    now: int,
) -> Result<Seq<CalendarEventView>, TimeError> {
    match all_events(components, found) {
        Err(error) => Err(error),
        Ok(events) => upcoming(events, now),
    }
}

/// The events of a calendar depend on the findings for its components alone.
pub proof fn lemma_all_events_look_at_their_findings(
    components: Seq<ComponentView>,
    found: Seq<Option<Seq<Occurrence>>>,
    other: Seq<Option<Seq<Occurrence>>>,
)
    requires
        forall|i: int| 0 <= i < components.len() ==> #[trigger] found[i] == other[i],
    ensures
        all_events(components, found) == all_events(components, other),
    decreases components.len(),
{
    if components.len() > 0 {
        lemma_all_events_look_at_their_findings(components.drop_last(), found, other);
        assert(found[components.len() - 1] == other[components.len() - 1]);
    }
}

proof fn lemma_all_events_joined(
    a: Seq<ComponentView>,
    b: Seq<ComponentView>,
    found_a: Seq<Option<Seq<Occurrence>>>,
    found_b: Seq<Option<Seq<Occurrence>>>,
)
    requires
        found_a.len() == a.len(),
        found_b.len() == b.len(),
    ensures
        all_events(a + b, found_a + found_b) is Ok <==> all_events(a, found_a) is Ok && all_events(
            b,
            found_b,
        ) is Ok,
        all_events(a + b, found_a + found_b) is Ok ==> all_events(a + b, found_a + found_b)->Ok_0
            == all_events(a, found_a)->Ok_0 + all_events(b, found_b)->Ok_0,
    decreases b.len(),
{
    if b.len() == 0 {
        assert(a + b =~= a);
        assert(found_a + found_b =~= found_a);
        if all_events(a, found_a) is Ok {
            assert(all_events(a, found_a)->Ok_0 + all_events(b, found_b)->Ok_0 =~= all_events(
                a,
                found_a,
            )->Ok_0);
        }
    } else {
        let shorter = b.drop_last();
        let fewer = found_b.drop_last();
        lemma_all_events_joined(a, shorter, found_a, fewer);
        assert((a + b).drop_last() =~= a + shorter);
        lemma_all_events_look_at_their_findings(a + shorter, found_a + found_b, found_a + fewer);
        lemma_all_events_look_at_their_findings(shorter, found_b, fewer);
        assert((found_a + found_b)[a.len() + b.len() - 1] == found_b[b.len() - 1]);
        if all_events(a + b, found_a + found_b) is Ok {
            assert(all_events(a + b, found_a + found_b)->Ok_0 =~= all_events(a, found_a)->Ok_0
                + all_events(b, found_b)->Ok_0);
        }
    }
}

proof fn lemma_upcoming_joined(a: Seq<CalendarEventView>, b: Seq<CalendarEventView>, now: int)
    ensures
        upcoming(a + b, now) is Ok <==> upcoming(a, now) is Ok && upcoming(b, now) is Ok,
        upcoming(a + b, now) is Ok ==> upcoming(a + b, now)->Ok_0 == upcoming(a, now)->Ok_0 + upcoming(
            b,
            now,
        )->Ok_0,
    decreases b.len(),
{
    if b.len() == 0 {
        assert(a + b =~= a);
        if upcoming(a, now) is Ok {
            assert(upcoming(a, now)->Ok_0 + upcoming(b, now)->Ok_0 =~= upcoming(a, now)->Ok_0);
        }
    } else {
        lemma_upcoming_joined(a, b.drop_last(), now);
        assert((a + b).drop_last() =~= a + b.drop_last());
        if upcoming(a + b, now) is Ok {
            assert(upcoming(a + b, now)->Ok_0 =~= upcoming(a, now)->Ok_0 + upcoming(b, now)->Ok_0);
        }
    }
}

/// The upcoming events of two calendars joined are those of the first, then those of the second.
pub proof fn law_upcoming_events_of_joined_calendars(
    a: Seq<ComponentView>,
    b: Seq<ComponentView>,
    found_a: Seq<Option<Seq<Occurrence>>>,
    found_b: Seq<Option<Seq<Occurrence>>>,
    now: int,
)
    requires
        found_a.len() == a.len(),
        found_b.len() == b.len(),
    ensures
        all_upcoming(a + b, found_a + found_b, now) is Ok <==> all_upcoming(a, found_a, now) is Ok
            && all_upcoming(b, found_b, now) is Ok,
        all_upcoming(a + b, found_a + found_b, now) is Ok ==> all_upcoming(
            a + b,
            found_a + found_b,
            now,
        )->Ok_0 == all_upcoming(a, found_a, now)->Ok_0 + all_upcoming(b, found_b, now)->Ok_0,
{
    lemma_all_events_joined(a, b, found_a, found_b);
    if all_events(a + b, found_a + found_b) is Ok {
        lemma_upcoming_joined(all_events(a, found_a)->Ok_0, all_events(b, found_b)->Ok_0, now);
    }
}

/// What the web page shows of an event with given offsets, with the second at which the event ends.
pub open spec fn timed_entry(spaces: Seq<SpaceView>) -> spec_fn((CalendarEventView, LocalOffsets)) -> Option<
    (int, EventView),
> {
    |pair: (CalendarEventView, LocalOffsets)|
        match shown(pair.0, spaces, pair.1) {
            Ok(Some(entry)) => Some((end_second(pair.0), entry)),
            _ => None,
        }
}

/// The second of a timed entry, as a key to sort by.
pub open spec fn entry_key() -> spec_fn((int, EventView)) -> int {
    |timed: (int, EventView)| timed.0
}

/// The entries of events, each with the second at which its event ends.
pub open spec fn timed_entries(
    events: Seq<CalendarEventView>,
    spaces: Seq<SpaceView>,
    offsets: Seq<LocalOffsets>,
) -> Seq<(int, EventView)> {
    kept(zipped(events, offsets), timed_entry(spaces))
}

/// Entries without their seconds.
pub open spec fn entries_of(timed: Seq<(int, EventView)>) -> Seq<EventView> {
    timed.map_values(|timed: (int, EventView)| timed.1)
}

/// Whether all events of a list can be shown, or passed over, with the offsets beside them.
pub open spec fn can_be_shown(
    events: Seq<CalendarEventView>,
    spaces: Seq<SpaceView>,
    offsets: Seq<LocalOffsets>,
) -> bool {
    forall|i: int| 0 <= i < events.len() ==> shown(#[trigger] events[i], spaces, offsets[i]) is Ok
}

proof fn lemma_all_shown_are_the_entries(
    events: Seq<CalendarEventView>,
    spaces: Seq<SpaceView>,
    offsets: Seq<LocalOffsets>,
)
    ensures
        all_shown(events, spaces, offsets) is Ok <==> can_be_shown(events, spaces, offsets),
        all_shown(events, spaces, offsets) is Ok ==> all_shown(events, spaces, offsets)->Ok_0
            == entries_of(timed_entries(events, spaces, offsets)),
    decreases events.len(),
{
    if events.len() > 0 {
        let shorter = events.drop_last();
        let last = events.len() - 1;
        lemma_all_shown_are_the_entries(shorter, spaces, offsets);
        assert(zipped(events, offsets).drop_last() =~= zipped(shorter, offsets));
        assert(zipped(events, offsets).last() == (events[last], offsets[last]));
        assert(forall|i: int| 0 <= i < last ==> #[trigger] shorter[i] == events[i]);
        let answer = shown(events[last], spaces, offsets[last]);
        if can_be_shown(events, spaces, offsets) {
            assert(can_be_shown(shorter, spaces, offsets)) by {
                assert forall|i: int| 0 <= i < shorter.len() implies shown(
                    #[trigger] shorter[i],
                    spaces,
                    offsets[i],
                ) is Ok by {
                    assert(shown(events[i], spaces, offsets[i]) is Ok);
                }
            }
            assert(answer is Ok);
        }
        if all_shown(events, spaces, offsets) is Ok {
            assert forall|i: int| 0 <= i < events.len() implies shown(
                #[trigger] events[i],
                spaces,
                offsets[i],
            ) is Ok by {
                if i < last {
                    assert(shown(shorter[i], spaces, offsets[i]) is Ok);
                }
            }
            assert(all_shown(events, spaces, offsets)->Ok_0 =~= entries_of(
                timed_entries(events, spaces, offsets),
            ));
        }
    } else {
        assert(entries_of(timed_entries(events, spaces, offsets)) =~= Seq::empty());
    }
}

proof fn lemma_timed_entries_sort(
    pairs: Seq<(CalendarEventView, LocalOffsets)>,
    spaces: Seq<SpaceView>,
)
    ensures
        kept(sorted_by(pairs, first_key(end_key())), timed_entry(spaces)) == sorted_by(
            kept(pairs, timed_entry(spaces)),
            entry_key(),
        ),
{
    law_sorting_commutes_with_keeping(
        pairs,
        timed_entry(spaces),
        first_key(end_key()),
        entry_key(),
    );
}

/// Whether the offsets beside the events of a list are such as this machine's clocks can have.
pub open spec fn all_possible(events: Seq<CalendarEventView>, offsets: Seq<LocalOffsets>) -> bool {
    forall|i: int| 0 <= i < events.len() ==> possible_offsets(#[trigger] events[i], offsets[i])
}

/// Whether an event and offsets stand beside each other in two lists.
spec fn stand_together(
    events: Seq<CalendarEventView>,
    offsets: Seq<LocalOffsets>,
    event: CalendarEventView,
    beside: LocalOffsets,
) -> bool {
    exists|i: int| 0 <= i < events.len() && #[trigger] events[i] == event && offsets[i] == beside
}

proof fn lemma_sorted_pairs_are_alike(
    events: Seq<CalendarEventView>,
    beside: Seq<LocalOffsets>,
    offsets: Seq<LocalOffsets>,
    spaces: Seq<SpaceView>,
)
    requires
        beside.len() == events.len(),
        offsets.len() == events.len(),
        sorted_by(zipped(events, beside), first_key(end_key())) == zipped(by_end(events), offsets),
    ensures
        can_be_shown(events, spaces, beside) <==> can_be_shown(by_end(events), spaces, offsets),
        all_possible(events, beside) <==> all_possible(by_end(events), offsets),
        timed_entries(by_end(events), spaces, offsets) == sorted_by(
            timed_entries(events, spaces, beside),
            entry_key(),
        ),
{
    let sorted = by_end(events);
    let before = zipped(events, beside);
    let after = zipped(sorted, offsets);
    law_sorting_keeps_the_items(events, end_key());
    lemma_timed_entries_sort(before, spaces);
    assert forall|i: int| 0 <= i < events.len() implies #[trigger] stand_together(
        sorted,
        offsets,
        events[i],
        beside[i],
    ) by {
        assert(before[i] == (events[i], beside[i]));
        law_sorted_items_are_the_items(before, first_key(end_key()), before[i]);
        assert(before.contains(before[i]));
        let j = choose|j: int| 0 <= j < after.len() && after[j] == before[i];
        assert(sorted[j] == events[i] && offsets[j] == beside[i]);
    }
    assert forall|j: int| 0 <= j < sorted.len() implies #[trigger] stand_together(
        events,
        beside,
        sorted[j],
        offsets[j],
    ) by {
        assert(after[j] == (sorted[j], offsets[j]));
        law_sorted_items_are_the_items(before, first_key(end_key()), after[j]);
        assert(after.contains(after[j]));
        let i = choose|i: int| 0 <= i < before.len() && before[i] == after[j];
        assert(events[i] == sorted[j] && beside[i] == offsets[j]);
    }
    if can_be_shown(events, spaces, beside) {
        assert forall|j: int| 0 <= j < sorted.len() implies shown(
            #[trigger] sorted[j],
            spaces,
            offsets[j],
        ) is Ok by {
            assert(stand_together(events, beside, sorted[j], offsets[j]));
            let i = choose|i: int|
                0 <= i < events.len() && #[trigger] events[i] == sorted[j] && beside[i] == offsets[j];
            assert(shown(events[i], spaces, beside[i]) is Ok);
        }
    }
    if can_be_shown(sorted, spaces, offsets) {
        assert forall|i: int| 0 <= i < events.len() implies shown(
            #[trigger] events[i],
            spaces,
            beside[i],
        ) is Ok by {
            assert(stand_together(sorted, offsets, events[i], beside[i]));
            let j = choose|j: int|
                0 <= j < sorted.len() && #[trigger] sorted[j] == events[i] && offsets[j] == beside[i];
            assert(shown(sorted[j], spaces, offsets[j]) is Ok);
        }
    }
    if all_possible(events, beside) {
        assert forall|j: int| 0 <= j < sorted.len() implies possible_offsets(
            #[trigger] sorted[j],
            offsets[j],
        ) by {
            assert(stand_together(events, beside, sorted[j], offsets[j]));
            let i = choose|i: int|
                0 <= i < events.len() && #[trigger] events[i] == sorted[j] && beside[i] == offsets[j];
            assert(possible_offsets(events[i], beside[i]));
        }
    }
    if all_possible(sorted, offsets) {
        assert forall|i: int| 0 <= i < events.len() implies possible_offsets(
            #[trigger] events[i],
            beside[i],
        ) by {
            assert(stand_together(sorted, offsets, events[i], beside[i]));
            let j = choose|j: int|
                0 <= j < sorted.len() && #[trigger] sorted[j] == events[i] && offsets[j] == beside[i];
            assert(possible_offsets(sorted[j], offsets[j]));
        }
    }
}

/// The list of a calendar's upcoming events for a reader whose clocks are, at each event, as far from UTC
/// as `clocks` says.
pub open spec fn listed_by(
    components: Seq<ComponentView>,
    found: Seq<Option<Seq<Occurrence>>>,
    spaces: Seq<SpaceView>,
    now: int,
    clocks: spec_fn(CalendarEventView) -> LocalOffsets,
) -> Result<Seq<EventView>, TimeError> {
    match upcoming_in_order(components, found, now) {
        Err(error) => Err(error),
        Ok(events) => listed(components, found, spaces, now, events.map_values(clocks)),
    }
}

/// The same list, each entry with the second at which its event ends.
pub open spec fn timed_by(
    components: Seq<ComponentView>,
    found: Seq<Option<Seq<Occurrence>>>,
    spaces: Seq<SpaceView>,
    now: int,
    clocks: spec_fn(CalendarEventView) -> LocalOffsets,
) -> Seq<(int, EventView)> {
    let events = upcoming_in_order(components, found, now)->Ok_0;
    timed_entries(events, spaces, events.map_values(clocks))
}

proof fn lemma_listed_by_is_sorted(
    components: Seq<ComponentView>,
    found: Seq<Option<Seq<Occurrence>>>,
    spaces: Seq<SpaceView>,
    now: int,
    clocks: spec_fn(CalendarEventView) -> LocalOffsets,
)
    ensures
        listed_by(components, found, spaces, now, clocks) is Ok <==> all_upcoming(
            components,
            found,
            now,
        ) is Ok && can_be_shown(
            all_upcoming(components, found, now)->Ok_0,
            spaces,
            all_upcoming(components, found, now)->Ok_0.map_values(clocks),
        ),
        listed_by(components, found, spaces, now, clocks) is Ok ==> {
            &&& listed_by(components, found, spaces, now, clocks)->Ok_0 == entries_of(
                timed_by(components, found, spaces, now, clocks),
            )
            &&& timed_by(components, found, spaces, now, clocks) == sorted_by(
                timed_entries(
                    all_upcoming(components, found, now)->Ok_0,
                    spaces,
                    all_upcoming(components, found, now)->Ok_0.map_values(clocks),
                ),
                entry_key(),
            )
        },
{
    if all_upcoming(components, found, now) is Ok {
        let events = all_upcoming(components, found, now)->Ok_0;
        let sorted = by_end(events);
        let pair = |event: CalendarEventView| (event, clocks(event));
        law_sorting_commutes_with_mapping(events, pair, end_key(), first_key(end_key()));
        law_sorting_keeps_the_items(events, end_key());
        assert(events.map_values(pair) =~= zipped(events, events.map_values(clocks)));
        assert(sorted.map_values(pair) =~= zipped(sorted, sorted.map_values(clocks)));
        lemma_sorted_pairs_are_alike(
            events,
            events.map_values(clocks),
            sorted.map_values(clocks),
            spaces,
        );
        lemma_all_shown_are_the_entries(sorted, spaces, sorted.map_values(clocks));
    }
}

proof fn lemma_timed_entries_joined(
    a: Seq<CalendarEventView>,
    b: Seq<CalendarEventView>,
    offsets_a: Seq<LocalOffsets>,
    offsets_b: Seq<LocalOffsets>,
    spaces: Seq<SpaceView>,
)
    requires
        offsets_a.len() == a.len(),
        offsets_b.len() == b.len(),
    ensures
        timed_entries(a + b, spaces, offsets_a + offsets_b) == timed_entries(a, spaces, offsets_a)
            + timed_entries(b, spaces, offsets_b),
        can_be_shown(a + b, spaces, offsets_a + offsets_b) <==> can_be_shown(a, spaces, offsets_a)
            && can_be_shown(b, spaces, offsets_b),
        all_possible(a + b, offsets_a + offsets_b) <==> all_possible(a, offsets_a) && all_possible(
            b,
            offsets_b,
        ),
{
    let both = a + b;
    let offsets = offsets_a + offsets_b;
    assert(zipped(both, offsets) =~= zipped(a, offsets_a) + zipped(b, offsets_b));
    lemma_kept_concat(zipped(a, offsets_a), zipped(b, offsets_b), timed_entry(spaces));
    assert(forall|i: int| 0 <= i < a.len() ==> #[trigger] a[i] == both[i] && offsets_a[i] == offsets[i]);
    assert(forall|i: int|
        0 <= i < b.len() ==> #[trigger] b[i] == both[a.len() + i] && offsets_b[i] == offsets[a.len()
            + i]);
    if can_be_shown(both, spaces, offsets) {
        assert forall|i: int| 0 <= i < a.len() implies shown(#[trigger] a[i], spaces, offsets_a[i]) is Ok by {
            assert(shown(both[i], spaces, offsets[i]) is Ok);
        }
        assert forall|i: int| 0 <= i < b.len() implies shown(#[trigger] b[i], spaces, offsets_b[i]) is Ok by {
            assert(shown(both[a.len() + i], spaces, offsets[a.len() + i]) is Ok);
        }
    }
    if can_be_shown(a, spaces, offsets_a) && can_be_shown(b, spaces, offsets_b) {
        assert forall|i: int| 0 <= i < both.len() implies shown(
            #[trigger] both[i],
            spaces,
            offsets[i],
        ) is Ok by {
            if i < a.len() {
                assert(shown(a[i], spaces, offsets_a[i]) is Ok);
            } else {
                assert(shown(b[i - a.len()], spaces, offsets_b[i - a.len()]) is Ok);
            }
        }
    }
    if all_possible(both, offsets) {
        assert forall|i: int| 0 <= i < a.len() implies possible_offsets(#[trigger] a[i], offsets_a[i]) by {
            assert(possible_offsets(both[i], offsets[i]));
        }
        assert forall|i: int| 0 <= i < b.len() implies possible_offsets(#[trigger] b[i], offsets_b[i]) by {
            assert(possible_offsets(both[a.len() + i], offsets[a.len() + i]));
        }
    }
    if all_possible(a, offsets_a) && all_possible(b, offsets_b) {
        assert forall|i: int| 0 <= i < both.len() implies possible_offsets(
            #[trigger] both[i],
            offsets[i],
        ) by {
            if i < a.len() {
                assert(possible_offsets(a[i], offsets_a[i]));
            } else {
                assert(possible_offsets(b[i - a.len()], offsets_b[i - a.len()]));
            }
        }
    }
}

/// The list of two calendars joined is their two lists merged by the seconds at which the events end:
/// entries of events that end together keep their order, those of the first calendar before those of the
/// second. Nothing is lost and nothing counts as a duplicate.
pub proof fn law_joined_calendars_give_the_merged_list(
    a: Seq<ComponentView>,
    b: Seq<ComponentView>,
    found_a: Seq<Option<Seq<Occurrence>>>,
    found_b: Seq<Option<Seq<Occurrence>>>,
    spaces: Seq<SpaceView>,
    now: int,
    clocks: spec_fn(CalendarEventView) -> LocalOffsets,
)
    requires
        found_a.len() == a.len(),
        found_b.len() == b.len(),
        listed_by(a, found_a, spaces, now, clocks) is Ok,
        listed_by(b, found_b, spaces, now, clocks) is Ok,
    ensures
        ({
            let list_a = listed_by(a, found_a, spaces, now, clocks)->Ok_0;
            let list_b = listed_by(b, found_b, spaces, now, clocks)->Ok_0;
            let timed_a = timed_by(a, found_a, spaces, now, clocks);
            let timed_b = timed_by(b, found_b, spaces, now, clocks);
            let both = listed_by(a + b, found_a + found_b, spaces, now, clocks);
            &&& list_a == entries_of(timed_a)
            &&& list_b == entries_of(timed_b)
            &&& both is Ok
            &&& both->Ok_0 == entries_of(sorted_by(timed_a + timed_b, entry_key()))
            &&& both->Ok_0.to_multiset() == list_a.to_multiset().add(list_b.to_multiset())
        }),
{
    let both = a + b;
    let found = found_a + found_b;
    lemma_listed_by_is_sorted(a, found_a, spaces, now, clocks);
    lemma_listed_by_is_sorted(b, found_b, spaces, now, clocks);
    lemma_listed_by_is_sorted(both, found, spaces, now, clocks);
    law_upcoming_events_of_joined_calendars(a, b, found_a, found_b, now);
    let events_a = all_upcoming(a, found_a, now)->Ok_0;
    let events_b = all_upcoming(b, found_b, now)->Ok_0;
    let offsets_a = events_a.map_values(clocks);
    let offsets_b = events_b.map_values(clocks);
    assert((events_a + events_b).map_values(clocks) =~= offsets_a + offsets_b);
    lemma_timed_entries_joined(events_a, events_b, offsets_a, offsets_b, spaces);
    let before_a = timed_entries(events_a, spaces, offsets_a);
    let before_b = timed_entries(events_b, spaces, offsets_b);
    law_sorted_parts_sort_alike(before_a, before_b, entry_key());
    let timed_a = sorted_by(before_a, entry_key());
    let timed_b = sorted_by(before_b, entry_key());
    let entry = |timed: (int, EventView)| timed.1;
    law_sorting_keeps_what_is_read_off(timed_a + timed_b, entry_key(), entry);
    assert((timed_a + timed_b).map_values(entry) =~= entries_of(timed_a) + entries_of(timed_b));
    vstd::seq_lib::lemma_multiset_commutative(entries_of(timed_a), entries_of(timed_b));
    assert(entries_of(sorted_by(timed_a + timed_b, entry_key())) =~= sorted_by(
        timed_a + timed_b,
        entry_key(),
    ).map_values(entry));
}

/// Whether there is nothing to show of an event, whatever else is known: it lacks a summary, a start or an
/// end, or a start or end that means a day or an instant, or states one as a day and one as an instant.
pub open spec fn shows_nothing(event: CalendarEventView) -> bool {
    ||| event.summary is None
    ||| optional_event_date(event.start) == Ok::<Option<EventDate>, TimeError>(None)
    ||| optional_event_date(event.end) == Ok::<Option<EventDate>, TimeError>(None)
    ||| optional_event_date(event.start) matches Ok(Some(EventDate::Date(_))) && optional_event_date(
        event.end,
    ) matches Ok(Some(EventDate::DateTimeUtc(_)))
    ||| optional_event_date(event.start) matches Ok(Some(EventDate::DateTimeUtc(_)))
        && optional_event_date(event.end) matches Ok(Some(EventDate::Date(_)))
}

/// Whether a component is passed over: it is no event, or there is nothing to show of it.
pub open spec fn is_skipped(component: ComponentView) -> bool {
    match component {
        ComponentView::Other => true,
        ComponentView::Event(event, _) => shows_nothing(event),
    }
}

proof fn lemma_occurrences_show_nothing(event: CalendarEventView, dates: Seq<Occurrence>)
    requires
        shows_nothing(event),
        occurrence_events(event, dates) is Ok,
    ensures
        forall|i: int|
            0 <= i < occurrence_events(event, dates)->Ok_0.len() ==> shows_nothing(
                #[trigger] occurrence_events(event, dates)->Ok_0[i],
            ),
    decreases dates.len(),
{
    if dates.len() > 0 {
        lemma_occurrences_show_nothing(event, dates.drop_last());
        let before = occurrence_events(event, dates.drop_last())->Ok_0;
        let after = occurrence_events(event, dates)->Ok_0;
        assert forall|i: int| 0 <= i < after.len() implies shows_nothing(#[trigger] after[i]) by {
            if i < before.len() {
                assert(after[i] == before[i]);
            } else {
                assert(occurrence_event(event, dates.last()) == Ok::<
                    Option<CalendarEventView>,
                    TimeError,
                >(Some(after[i])));
            }
        }
    }
}

proof fn lemma_skipped_component_shows_nothing(
    component: ComponentView,
    found: Option<Seq<Occurrence>>,
    now: int,
)
    requires
        is_skipped(component),
        all_upcoming(seq![component], seq![found], now) is Ok,
    ensures
        forall|i: int|
            0 <= i < all_upcoming(seq![component], seq![found], now)->Ok_0.len() ==> shows_nothing(
                #[trigger] all_upcoming(seq![component], seq![found], now)->Ok_0[i],
            ),
{
    reveal_with_fuel(all_events, 2);
    let components = seq![component];
    let all = all_events(components, seq![found])->Ok_0;
    assert(components.drop_last() =~= Seq::empty());
    assert(components.last() == component);
    assert(seq![found][0] == found);
    if let ComponentView::Event(event, _) = component {
        let events = expanded(event, found)->Ok_0;
        assert(all =~= events);
        if found is Some {
            lemma_occurrences_show_nothing(event, found->0);
        }
        assert(forall|i: int| 0 <= i < all.len() ==> shows_nothing(#[trigger] all[i]));
    }
    lemma_upcoming_are_the_upcoming(all, now);
    let kept_events = upcoming(all, now)->Ok_0;
    assert forall|i: int| 0 <= i < kept_events.len() implies shows_nothing(#[trigger] kept_events[i]) by {
        assert(all.contains(kept_events[i]));
        let j = choose|j: int| 0 <= j < all.len() && all[j] == kept_events[i];
        assert(shows_nothing(all[j]));
    }
}

proof fn lemma_nothing_gives_no_entries(
    events: Seq<CalendarEventView>,
    spaces: Seq<SpaceView>,
    offsets: Seq<LocalOffsets>,
)
    requires
        forall|i: int| 0 <= i < events.len() ==> shows_nothing(#[trigger] events[i]),
    ensures
        timed_entries(events, spaces, offsets) == Seq::<(int, EventView)>::empty(),
    decreases events.len(),
{
    if events.len() > 0 {
        let shorter = events.drop_last();
        assert(forall|i: int| 0 <= i < shorter.len() ==> #[trigger] shorter[i] == events[i]);
        lemma_nothing_gives_no_entries(shorter, spaces, offsets);
        assert(zipped(events, offsets).drop_last() =~= zipped(shorter, offsets));
        assert(shows_nothing(events[events.len() - 1]));
    }
}

proof fn lemma_inserted_is_joined<T>(list: Seq<T>, place: int, item: T)
    requires
        0 <= place <= list.len(),
    ensures
        list.insert(place, item) == list.take(place) + seq![item] + list.skip(place),
        list == list.take(place) + list.skip(place),
{
    assert(list.insert(place, item) =~= list.take(place) + seq![item] + list.skip(place));
    assert(list =~= list.take(place) + list.skip(place));
}

/// A component that is passed over may stand anywhere in a calendar without changing the list, whatever
/// occurrences are found for it.
pub proof fn law_skipped_component_changes_nothing(
    components: Seq<ComponentView>,
    found: Seq<Option<Seq<Occurrence>>>,
    place: int,
    skipped: ComponentView,
    dates: Option<Seq<Occurrence>>,
    spaces: Seq<SpaceView>,
    now: int,
    clocks: spec_fn(CalendarEventView) -> LocalOffsets,
)
    requires
        found.len() == components.len(),
        0 <= place <= components.len(),
        is_skipped(skipped),
        listed_by(
            components.insert(place, skipped),
            found.insert(place, dates),
            spaces,
            now,
            clocks,
        ) is Ok,
    ensures
        listed_by(components, found, spaces, now, clocks) == listed_by(
            components.insert(place, skipped),
            found.insert(place, dates),
            spaces,
            now,
            clocks,
        ),
{
    let more = components.insert(place, skipped);
    let more_found = found.insert(place, dates);
    let (a, b) = (components.take(place), components.skip(place));
    let (found_a, found_b) = (found.take(place), found.skip(place));
    lemma_inserted_is_joined(components, place, skipped);
    lemma_inserted_is_joined(found, place, dates);
    lemma_listed_by_is_sorted(components, found, spaces, now, clocks);
    lemma_listed_by_is_sorted(more, more_found, spaces, now, clocks);
    law_upcoming_events_of_joined_calendars(a, b, found_a, found_b, now);
    law_upcoming_events_of_joined_calendars(a, seq![skipped], found_a, seq![dates], now);
    law_upcoming_events_of_joined_calendars(
        a + seq![skipped],
        b,
        found_a + seq![dates],
        found_b,
        now,
    );
    let events_a = all_upcoming(a, found_a, now)->Ok_0;
    let events_b = all_upcoming(b, found_b, now)->Ok_0;
    let nothing = all_upcoming(seq![skipped], seq![dates], now)->Ok_0;
    let offsets_a = events_a.map_values(clocks);
    let offsets_b = events_b.map_values(clocks);
    let offsets = nothing.map_values(clocks);
    assert((events_a + events_b).map_values(clocks) =~= offsets_a + offsets_b);
    assert((events_a + nothing).map_values(clocks) =~= offsets_a + offsets);
    assert((events_a + nothing + events_b).map_values(clocks) =~= offsets_a + offsets + offsets_b);
    lemma_timed_entries_joined(events_a, events_b, offsets_a, offsets_b, spaces);
    lemma_timed_entries_joined(events_a, nothing, offsets_a, offsets, spaces);
    lemma_timed_entries_joined(
        events_a + nothing,
        events_b,
        offsets_a + offsets,
        offsets_b,
        spaces,
    );
    lemma_skipped_component_shows_nothing(skipped, dates, now);
    lemma_nothing_gives_no_entries(nothing, spaces, offsets);
    let entries_a = timed_entries(events_a, spaces, offsets_a);
    assert(entries_a + Seq::<(int, EventView)>::empty() =~= entries_a);
}

/// Whether timed entries are those of a list of a calendar's upcoming events that some answers of this
/// machine lead to.
pub open spec fn is_timed_listing(
    timed: Seq<(int, EventView)>,
    components: Seq<ComponentView>,
    spaces: Seq<SpaceView>,
    now: int,
) -> bool {
    exists|found: Seq<Option<Seq<Occurrence>>>, offsets: Seq<LocalOffsets>|
        possible_answers(components, now, found, offsets) && (#[trigger] listed(
            components,
            found,
            spaces,
            now,
            offsets,
        )) is Ok && timed == timed_entries(
            upcoming_in_order(components, found, now)->Ok_0,
            spaces,
            offsets,
        )
}

/// A list that a calendar can give is one of timed entries without their seconds.
pub proof fn law_timed_listing_is_a_listing(
    timed: Seq<(int, EventView)>,
    components: Seq<ComponentView>,
    spaces: Seq<SpaceView>,
    now: int,
)
    requires
        is_timed_listing(timed, components, spaces, now),
    ensures
        is_listing(Ok(entries_of(timed)), components, spaces, now),
{
    let (found, offsets) = choose|found: Seq<Option<Seq<Occurrence>>>, offsets: Seq<LocalOffsets>|
        possible_answers(components, now, found, offsets) && (#[trigger] listed(
            components,
            found,
            spaces,
            now,
            offsets,
        )) is Ok && timed == timed_entries(
            upcoming_in_order(components, found, now)->Ok_0,
            spaces,
            offsets,
        );
    lemma_all_shown_are_the_entries(
        upcoming_in_order(components, found, now)->Ok_0,
        spaces,
        offsets,
    );
    assert(listed(components, found, spaces, now, offsets) == Ok::<Seq<EventView>, TimeError>(
        entries_of(timed),
    ));
}

/// Every list that a calendar can give has timed entries.
pub proof fn law_listing_has_timed_entries(
    entries: Seq<EventView>,
    components: Seq<ComponentView>,
    spaces: Seq<SpaceView>,
    now: int,
)
    requires
        is_listing(Ok(entries), components, spaces, now),
    ensures
        exists|timed: Seq<(int, EventView)>| #[trigger]
            is_timed_listing(timed, components, spaces, now) && entries == entries_of(timed),
{
    let r = Ok::<Seq<EventView>, TimeError>(entries);
    let (found, offsets) = choose|found: Seq<Option<Seq<Occurrence>>>, offsets: Seq<LocalOffsets>|
        possible_answers(components, now, found, offsets) && r == #[trigger] listed(
            components,
            found,
            spaces,
            now,
            offsets,
        );
    let events = upcoming_in_order(components, found, now)->Ok_0;
    lemma_all_shown_are_the_entries(events, spaces, offsets);
    let timed = timed_entries(events, spaces, offsets);
    assert(listed(components, found, spaces, now, offsets) is Ok);
    assert(is_timed_listing(timed, components, spaces, now));
}

/// Whether offsets that stand beside the upcoming events of a calendar, in the order of the calendar, lead
/// to timed entries.
spec fn leads_to(
    timed: Seq<(int, EventView)>,
    components: Seq<ComponentView>,
    found: Seq<Option<Seq<Occurrence>>>,
    spaces: Seq<SpaceView>,
    now: int,
    beside: Seq<LocalOffsets>,
) -> bool {
    &&& possible_findings(components, found)
    &&& all_upcoming(components, found, now) matches Ok(events) && {
        &&& beside.len() == events.len()
        &&& can_be_shown(events, spaces, beside)
        &&& all_possible(events, beside)
        &&& timed == sorted_by(timed_entries(events, spaces, beside), entry_key())
    }
}

proof fn lemma_answers_lead_to_a_listing(
    timed: Seq<(int, EventView)>,
    components: Seq<ComponentView>,
    found: Seq<Option<Seq<Occurrence>>>,
    spaces: Seq<SpaceView>,
    now: int,
    beside: Seq<LocalOffsets>,
)
    requires
        leads_to(timed, components, found, spaces, now, beside),
    ensures
        is_timed_listing(timed, components, spaces, now),
{
    let events = all_upcoming(components, found, now)->Ok_0;
    let sorted = by_end(events);
    let pairs = sorted_by(zipped(events, beside), first_key(end_key()));
    let offsets = pairs.map_values(|pair: (CalendarEventView, LocalOffsets)| pair.1);
    law_sorted_pairs_have_sorted_items(events, beside, end_key());
    law_sorting_keeps_the_items(zipped(events, beside), first_key(end_key()));
    law_sorting_keeps_the_items(events, end_key());
    lemma_sorted_pairs_are_alike(events, beside, offsets, spaces);
    lemma_all_shown_are_the_entries(sorted, spaces, offsets);
    assert forall|i: int| 0 <= i < sorted.len() implies possible_offsets(
        sorted[i],
        #[trigger] offsets[i],
    ) by {
        assert(possible_offsets(sorted[i], offsets[i]));
    }
    assert(possible_answers(components, now, found, offsets));
    assert(listed(components, found, spaces, now, offsets) is Ok);
}

proof fn lemma_listing_comes_from_answers(
    timed: Seq<(int, EventView)>,
    components: Seq<ComponentView>,
    spaces: Seq<SpaceView>,
    now: int,
) -> (r: (Seq<Option<Seq<Occurrence>>>, Seq<LocalOffsets>))
    requires
        is_timed_listing(timed, components, spaces, now),
    ensures
        leads_to(timed, components, r.0, spaces, now, r.1),
{
    let (found, offsets) = choose|found: Seq<Option<Seq<Occurrence>>>, offsets: Seq<LocalOffsets>|
        possible_answers(components, now, found, offsets) && (#[trigger] listed(
            components,
            found,
            spaces,
            now,
            offsets,
        )) is Ok && timed == timed_entries(
            upcoming_in_order(components, found, now)->Ok_0,
            spaces,
            offsets,
        );
    let events = all_upcoming(components, found, now)->Ok_0;
    let sorted = by_end(events);
    law_sorting_keeps_the_items(events, end_key());
    law_pairs_can_be_unsorted(events, offsets, end_key());
    let beside = choose|beside: Seq<LocalOffsets>|
        beside.len() == events.len() && sorted_by(
            #[trigger] zipped(events, beside),
            first_key(end_key()),
        ) == zipped(sorted_by(events, end_key()), offsets);
    lemma_sorted_pairs_are_alike(events, beside, offsets, spaces);
    lemma_all_shown_are_the_entries(sorted, spaces, offsets);
    assert forall|i: int| 0 <= i < sorted.len() implies possible_offsets(
        #[trigger] sorted[i],
        offsets[i],
    ) by {
        assert(possible_offsets(sorted[i], offsets[i]));
    }
    (found, beside)
}

proof fn lemma_possible_findings_joined(
    a: Seq<ComponentView>,
    b: Seq<ComponentView>,
    found_a: Seq<Option<Seq<Occurrence>>>,
    found_b: Seq<Option<Seq<Occurrence>>>,
)
    requires
        found_a.len() == a.len(),
        found_b.len() == b.len(),
    ensures
        possible_findings(a + b, found_a + found_b) <==> possible_findings(a, found_a)
            && possible_findings(b, found_b),
{
    let both = a + b;
    let found = found_a + found_b;
    assert(forall|i: int|
        0 <= i < a.len() ==> #[trigger] a[i] == both[i] && found_a[i] == found[i]);
    assert(forall|i: int|
        0 <= i < b.len() ==> #[trigger] b[i] == both[a.len() + i] && found_b[i] == found[a.len() + i]);
    if possible_findings(both, found) {
        assert forall|i: int, j: int|
            0 <= i < found_a.len() && found_a[i] is Some && 0 <= j < found_a[i]->0.len() implies (
        #[trigger] found_a[i]->0[j]).well_formed() by {
            assert(found[i]->0[j].well_formed());
        }
        assert forall|i: int, j: int|
            0 <= i < found_b.len() && found_b[i] is Some && 0 <= j < found_b[i]->0.len() implies (
        #[trigger] found_b[i]->0[j]).well_formed() by {
            assert(found[a.len() + i]->0[j].well_formed());
        }
        assert forall|i: int| 0 <= i < a.len() implies ((#[trigger] a[i]) matches ComponentView::Event(
            _,
            rules,
        ) ==> possible_occurrences(rules, found_a[i])) by {
            assert(both[i] == a[i]);
        }
        assert forall|i: int| 0 <= i < b.len() implies ((#[trigger] b[i]) matches ComponentView::Event(
            _,
            rules,
        ) ==> possible_occurrences(rules, found_b[i])) by {
            assert(both[a.len() + i] == b[i]);
        }
    }
    if possible_findings(a, found_a) && possible_findings(b, found_b) {
        assert forall|i: int, j: int|
            0 <= i < found.len() && found[i] is Some && 0 <= j < found[i]->0.len() implies (
        #[trigger] found[i]->0[j]).well_formed() by {
            if i < a.len() {
                assert(found_a[i]->0[j].well_formed());
            } else {
                assert(found_b[i - a.len()]->0[j].well_formed());
            }
        }
        assert forall|i: int| 0 <= i < both.len() implies ((
        #[trigger] both[i]) matches ComponentView::Event(_, rules) ==> possible_occurrences(
            rules,
            found[i],
        )) by {
            if i < a.len() {
                assert(a[i] == both[i]);
            } else {
                assert(b[i - a.len()] == both[i]);
            }
        }
    }
}

proof fn lemma_answers_join(
    a: Seq<ComponentView>,
    b: Seq<ComponentView>,
    found_a: Seq<Option<Seq<Occurrence>>>,
    found_b: Seq<Option<Seq<Occurrence>>>,
    timed_a: Seq<(int, EventView)>,
    timed_b: Seq<(int, EventView)>,
    spaces: Seq<SpaceView>,
    now: int,
    beside_a: Seq<LocalOffsets>,
    beside_b: Seq<LocalOffsets>,
)
    requires
        leads_to(timed_a, a, found_a, spaces, now, beside_a),
        leads_to(timed_b, b, found_b, spaces, now, beside_b),
    ensures
        leads_to(
            sorted_by(timed_a + timed_b, entry_key()),
            a + b,
            found_a + found_b,
            spaces,
            now,
            beside_a + beside_b,
        ),
{
    let events_a = all_upcoming(a, found_a, now)->Ok_0;
    let events_b = all_upcoming(b, found_b, now)->Ok_0;
    lemma_possible_findings_joined(a, b, found_a, found_b);
    law_upcoming_events_of_joined_calendars(a, b, found_a, found_b, now);
    lemma_timed_entries_joined(events_a, events_b, beside_a, beside_b, spaces);
    law_sorted_parts_sort_alike(
        timed_entries(events_a, spaces, beside_a),
        timed_entries(events_b, spaces, beside_b),
        entry_key(),
    );
}

proof fn lemma_answers_part(
    a: Seq<ComponentView>,
    b: Seq<ComponentView>,
    found: Seq<Option<Seq<Occurrence>>>,
    timed: Seq<(int, EventView)>,
    spaces: Seq<SpaceView>,
    now: int,
    beside: Seq<LocalOffsets>,
) -> (r: ((Seq<Option<Seq<Occurrence>>>, Seq<LocalOffsets>), (Seq<Option<Seq<Occurrence>>>, Seq<LocalOffsets>)))
    requires
        leads_to(timed, a + b, found, spaces, now, beside),
    ensures
        ({
            let timed_a = sorted_by(
                timed_entries(all_upcoming(a, r.0.0, now)->Ok_0, spaces, r.0.1),
                entry_key(),
            );
            let timed_b = sorted_by(
                timed_entries(all_upcoming(b, r.1.0, now)->Ok_0, spaces, r.1.1),
                entry_key(),
            );
            &&& leads_to(timed_a, a, r.0.0, spaces, now, r.0.1)
            &&& leads_to(timed_b, b, r.1.0, spaces, now, r.1.1)
            &&& timed == sorted_by(timed_a + timed_b, entry_key())
            &&& found == r.0.0 + r.1.0
        }),
{
    let found_a = found.take(a.len() as int);
    let found_b = found.skip(a.len() as int);
    assert(found =~= found_a + found_b);
    lemma_possible_findings_joined(a, b, found_a, found_b);
    law_upcoming_events_of_joined_calendars(a, b, found_a, found_b, now);
    let events_a = all_upcoming(a, found_a, now)->Ok_0;
    let events_b = all_upcoming(b, found_b, now)->Ok_0;
    let beside_a = beside.take(events_a.len() as int);
    let beside_b = beside.skip(events_a.len() as int);
    assert(beside =~= beside_a + beside_b);
    lemma_timed_entries_joined(events_a, events_b, beside_a, beside_b, spaces);
    law_sorted_parts_sort_alike(
        timed_entries(events_a, spaces, beside_a),
        timed_entries(events_b, spaces, beside_b),
        entry_key(),
    );
    ((found_a, beside_a), (found_b, beside_b))
}

/// Where two calendars can give two lists, the calendars joined can give the lists merged by the seconds at
/// which the events end.
pub proof fn law_merged_lists_are_listings(
    timed_a: Seq<(int, EventView)>,
    timed_b: Seq<(int, EventView)>,
    a: Seq<ComponentView>,
    b: Seq<ComponentView>,
    spaces: Seq<SpaceView>,
    now: int,
)
    requires
        is_timed_listing(timed_a, a, spaces, now),
        is_timed_listing(timed_b, b, spaces, now),
    ensures
        is_timed_listing(sorted_by(timed_a + timed_b, entry_key()), a + b, spaces, now),
{
    let (found_a, beside_a) = lemma_listing_comes_from_answers(timed_a, a, spaces, now);
    let (found_b, beside_b) = lemma_listing_comes_from_answers(timed_b, b, spaces, now);
    lemma_answers_join(
        a,
        b,
        found_a,
        found_b,
        timed_a,
        timed_b,
        spaces,
        now,
        beside_a,
        beside_b,
    );
    lemma_answers_lead_to_a_listing(
        sorted_by(timed_a + timed_b, entry_key()),
        a + b,
        found_a + found_b,
        spaces,
        now,
        beside_a + beside_b,
    );
}

/// Every list that two calendars joined can give is two lists that the calendars can give, merged by the
/// seconds at which the events end.
pub proof fn law_lists_of_joined_calendars_are_merged(
    timed: Seq<(int, EventView)>,
    a: Seq<ComponentView>,
    b: Seq<ComponentView>,
    spaces: Seq<SpaceView>,
    now: int,
)
    requires
        is_timed_listing(timed, a + b, spaces, now),
    ensures
        exists|timed_a: Seq<(int, EventView)>, timed_b: Seq<(int, EventView)>|
            #![trigger is_timed_listing(timed_a, a, spaces, now), is_timed_listing(
                timed_b,
                b,
                spaces,
                now,
            )]
            is_timed_listing(timed_a, a, spaces, now) && is_timed_listing(timed_b, b, spaces, now)
                && timed == sorted_by(timed_a + timed_b, entry_key()),
{
    let (found, beside) = lemma_listing_comes_from_answers(timed, a + b, spaces, now);
    let (first, second) = lemma_answers_part(a, b, found, timed, spaces, now, beside);
    let timed_a = sorted_by(
        timed_entries(all_upcoming(a, first.0, now)->Ok_0, spaces, first.1),
        entry_key(),
    );
    let timed_b = sorted_by(
        timed_entries(all_upcoming(b, second.0, now)->Ok_0, spaces, second.1),
        entry_key(),
    );
    lemma_answers_lead_to_a_listing(timed_a, a, first.0, spaces, now, first.1);
    lemma_answers_lead_to_a_listing(timed_b, b, second.0, spaces, now, second.1);
}

/// Every list that a calendar can give it can also give without a component that is passed over, wherever
/// that stands.
pub proof fn law_skipped_component_leads_to_no_other_list(
    entries: Seq<EventView>,
    components: Seq<ComponentView>,
    place: int,
    skipped: ComponentView,
    spaces: Seq<SpaceView>,
    now: int,
)
    requires
        0 <= place <= components.len(),
        is_skipped(skipped),
        is_listing(Ok(entries), components.insert(place, skipped), spaces, now),
    ensures
        is_listing(Ok(entries), components, spaces, now),
{
    let more = components.insert(place, skipped);
    let (a, b) = (components.take(place), components.skip(place));
    lemma_inserted_is_joined(components, place, skipped);
    law_listing_has_timed_entries(entries, more, spaces, now);
    let timed = choose|timed: Seq<(int, EventView)>| #[trigger]
        is_timed_listing(timed, more, spaces, now) && entries == entries_of(timed);
    let (found, beside) = lemma_listing_comes_from_answers(timed, more, spaces, now);
    let (first, second) = lemma_answers_part(
        a + seq![skipped],
        b,
        found,
        timed,
        spaces,
        now,
        beside,
    );
    let timed_first = sorted_by(
        timed_entries(all_upcoming(a + seq![skipped], first.0, now)->Ok_0, spaces, first.1),
        entry_key(),
    );
    let timed_b = sorted_by(
        timed_entries(all_upcoming(b, second.0, now)->Ok_0, spaces, second.1),
        entry_key(),
    );
    let (start, middle) = lemma_answers_part(
        a,
        seq![skipped],
        first.0,
        timed_first,
        spaces,
        now,
        first.1,
    );
    let timed_a = sorted_by(
        timed_entries(all_upcoming(a, start.0, now)->Ok_0, spaces, start.1),
        entry_key(),
    );
    let nothing = all_upcoming(seq![skipped], middle.0, now)->Ok_0;
    assert(middle.0 =~= seq![middle.0[0]]);
    lemma_skipped_component_shows_nothing(skipped, middle.0[0], now);
    lemma_nothing_gives_no_entries(nothing, spaces, middle.1);
    let none = Seq::<(int, EventView)>::empty();
    assert(sorted_by(none, entry_key()) =~= none);
    assert(timed_a + none =~= timed_a);
    let before_a = timed_entries(all_upcoming(a, start.0, now)->Ok_0, spaces, start.1);
    law_sorted_parts_sort_alike(before_a, none, entry_key());
    assert(before_a + none =~= before_a);
    assert(timed_first == timed_a);
    lemma_answers_join(
        a,
        b,
        start.0,
        second.0,
        timed_a,
        timed_b,
        spaces,
        now,
        start.1,
        second.1,
    );
    lemma_answers_lead_to_a_listing(
        timed,
        components,
        start.0 + second.0,
        spaces,
        now,
        start.1 + second.1,
    );
    law_timed_listing_is_a_listing(timed, components, spaces, now);
}

/// Every list that a calendar can give it can also give with one more component that is passed over,
/// wherever that stands, as long as the component alone can give a list.
pub proof fn law_skipped_component_keeps_every_list(
    entries: Seq<EventView>,
    alone: Seq<EventView>,
    components: Seq<ComponentView>,
    place: int,
    skipped: ComponentView,
    spaces: Seq<SpaceView>,
    now: int,
)
    requires
        0 <= place <= components.len(),
        is_skipped(skipped),
        is_listing(Ok(alone), seq![skipped], spaces, now),
        is_listing(Ok(entries), components, spaces, now),
    ensures
        is_listing(Ok(entries), components.insert(place, skipped), spaces, now),
{
    let (a, b) = (components.take(place), components.skip(place));
    lemma_inserted_is_joined(components, place, skipped);
    law_listing_has_timed_entries(entries, components, spaces, now);
    let timed = choose|timed: Seq<(int, EventView)>| #[trigger]
        is_timed_listing(timed, components, spaces, now) && entries == entries_of(timed);
    let (found, beside) = lemma_listing_comes_from_answers(timed, components, spaces, now);
    let (first, second) = lemma_answers_part(a, b, found, timed, spaces, now, beside);
    let before_a = timed_entries(all_upcoming(a, first.0, now)->Ok_0, spaces, first.1);
    let timed_a = sorted_by(before_a, entry_key());
    let timed_b = sorted_by(
        timed_entries(all_upcoming(b, second.0, now)->Ok_0, spaces, second.1),
        entry_key(),
    );
    law_listing_has_timed_entries(alone, seq![skipped], spaces, now);
    let none = choose|timed: Seq<(int, EventView)>| #[trigger]
        is_timed_listing(timed, seq![skipped], spaces, now) && alone == entries_of(timed);
    let (dates, offsets) = lemma_listing_comes_from_answers(none, seq![skipped], spaces, now);
    assert(dates =~= seq![dates[0]]);
    lemma_skipped_component_shows_nothing(skipped, dates[0], now);
    lemma_nothing_gives_no_entries(
        all_upcoming(seq![skipped], dates, now)->Ok_0,
        spaces,
        offsets,
    );
    assert(none =~= Seq::empty());
    assert(sorted_by(none, entry_key()) =~= none);
    law_sorted_parts_sort_alike(before_a, none, entry_key());
    assert(before_a + none =~= before_a);
    lemma_answers_join(
        a,
        seq![skipped],
        first.0,
        dates,
        timed_a,
        none,
        spaces,
        now,
        first.1,
        offsets,
    );
    lemma_answers_join(
        a + seq![skipped],
        b,
        first.0 + dates,
        second.0,
        timed_a,
        timed_b,
        spaces,
        now,
        first.1 + offsets,
        second.1,
    );
    lemma_answers_lead_to_a_listing(
        timed,
        components.insert(place, skipped),
        first.0 + dates + second.0,
        spaces,
        now,
        first.1 + offsets + second.1,
    );
    law_timed_listing_is_a_listing(timed, components.insert(place, skipped), spaces, now);
}

} // verus!
