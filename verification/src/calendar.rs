//! Calendars and how they are read.
use crate::time::Instant;
use crate::zone::CalendarTime;
#[allow(unused_imports)]
use crate::zone::{optional_time_view, CalendarTimeView};
use vstd::prelude::*;
#[allow(unused_imports)]
use vstd::utf8::encode_utf8;

verus! {

/// A property that may stand in an event once or, as a list, many times.
#[derive(Debug)]
pub struct RuleProperty {
    /// The value where it stands once.
    pub value: Option<String>,
    /// The values where it is a list.
    pub values: Vec<String>,
}

/// What a [`RuleProperty`] holds.
pub struct RulePropertyView {
    /// The value where it stands once.
    pub value: Option<Seq<char>>,
    /// The values where it is a list.
    pub values: Seq<Seq<char>>,
}

/// The properties of an event that say when it recurs.
#[derive(Debug)]
pub struct RecurrenceRules {
    /// `DTSTART`
    pub dtstart: RuleProperty,
    /// `RRULE`
    pub rrule: RuleProperty,
    /// `EXRULE`
    pub exrule: RuleProperty,
    /// `RDATE`
    pub rdate: RuleProperty,
    /// `EXDATE`
    pub exdate: RuleProperty,
}

/// What [`RecurrenceRules`] hold.
pub struct RecurrenceRulesView {
    /// `DTSTART`
    pub dtstart: RulePropertyView,
    /// `RRULE`
    pub rrule: RulePropertyView,
    /// `EXRULE`
    pub exrule: RulePropertyView,
    /// `RDATE`
    pub rdate: RulePropertyView,
    /// `EXDATE`
    pub exdate: RulePropertyView,
}

/// An event of a calendar.
#[derive(Debug)]
pub struct CalendarEvent {
    /// What the event is called.
    pub summary: Option<String>,
    /// What it is about.
    pub description: Option<String>,
    /// Where it is held.
    pub location: Option<String>,
    /// When it begins.
    pub start: Option<CalendarTime>,
    /// When it ends; for whole days, the day after the last one.
    pub end: Option<CalendarTime>,
}

/// What a [`CalendarEvent`] holds.
pub struct CalendarEventView {
    /// What the event is called.
    pub summary: Option<Seq<char>>,
    /// What it is about.
    pub description: Option<Seq<char>>,
    /// Where it is held.
    pub location: Option<Seq<char>>,
    /// When it begins.
    pub start: Option<CalendarTimeView>,
    /// When it ends; for whole days, the day after the last one.
    pub end: Option<CalendarTimeView>,
}

/// A component of a calendar.
#[derive(Debug)]
pub enum Component {
    /// An event and when it recurs.
    Event(CalendarEvent, RecurrenceRules),
    /// Anything else.
    Other,
}

/// What a [`Component`] holds.
pub enum ComponentView {
    /// An event and when it recurs.
    Event(CalendarEventView, RecurrenceRulesView),
    /// Anything else.
    Other,
}

/// A calendar.
#[derive(Debug)]
pub struct Calendar {
    /// Its components, in order.
    pub components: Vec<Component>,
}

/// What an optional text holds.
pub open spec fn optional_text(text: Option<String>) -> Option<Seq<char>> {
    match text {
        None => None,
        Some(text) => Some(text@),
    }
}

/// What a list of texts holds.
pub open spec fn texts(list: Seq<String>) -> Seq<Seq<char>> {
    list.map_values(|text: String| text@)
}

impl View for RuleProperty {
    type V = RulePropertyView;

    open spec fn view(&self) -> RulePropertyView {
        RulePropertyView { value: optional_text(self.value), values: texts(self.values@) }
    }
}

impl View for RecurrenceRules {
    type V = RecurrenceRulesView;

    open spec fn view(&self) -> RecurrenceRulesView {
        RecurrenceRulesView {
            dtstart: self.dtstart@,
            rrule: self.rrule@,
            exrule: self.exrule@,
            rdate: self.rdate@,
            exdate: self.exdate@,
        }
    }
}

impl View for CalendarEvent {
    type V = CalendarEventView;

    open spec fn view(&self) -> CalendarEventView {
        CalendarEventView {
            summary: optional_text(self.summary),
            description: optional_text(self.description),
            location: optional_text(self.location),
            start: optional_time_view(self.start),
            end: optional_time_view(self.end),
        }
    }
}

impl View for Component {
    type V = ComponentView;

    open spec fn view(&self) -> ComponentView {
        match *self {
            Component::Event(event, rules) => ComponentView::Event(event@, rules@),
            Component::Other => ComponentView::Other,
        }
    }
}

impl View for Calendar {
    type V = Seq<ComponentView>;

    open spec fn view(&self) -> Seq<ComponentView> {
        self.components@.map_values(|component: Component| component@)
    }
}

impl CalendarEventView {
    /// Whether the stated times can be named.
    pub open spec fn well_formed(self) -> bool {
        &&& self.start matches Some(start) ==> start.well_formed()
        &&& self.end matches Some(end) ==> end.well_formed()
    }
}

/// Whether the stated times of all events can be named.
pub open spec fn well_formed_calendar(components: Seq<ComponentView>) -> bool {
    forall|i: int|
        0 <= i < components.len() ==> ((#[trigger] components[i]) matches ComponentView::Event(event, _)
            ==> event.well_formed())
}

/// A copy of an optional text.
pub(crate) fn copy_text(text: &Option<String>) -> (r: Option<String>)
    ensures
        optional_text(r) == optional_text(*text),
{
    match text {
        None => None,
        Some(text) => Some(text.clone()),
    }
}

impl CalendarEvent {
    /// The same event at other times.
    pub fn at_times(&self, start: Option<CalendarTime>, end: Option<CalendarTime>) -> (r: CalendarEvent)
        ensures
            r@ == (CalendarEventView {
                start: optional_time_view(start),
                end: optional_time_view(end),
                ..self@
            }),
    {
        CalendarEvent {
            summary: copy_text(&self.summary),
            description: copy_text(&self.description),
            location: copy_text(&self.location),
            start,
            end,
        }
    }

    /// A copy of the event.
    pub fn duplicate(&self) -> (r: CalendarEvent)
        ensures
            r@ == self@,
    {
        let start = match &self.start {
            None => None,
            Some(start) => Some(start.duplicate()),
        };
        let end = match &self.end {
            None => None,
            Some(end) => Some(end.duplicate()),
        };
        self.at_times(start, end)
    }
}

/// `icalendar::CalendarComponent`, a component of a calendar as that crate reads it.
#[verifier::external_type_specification]
#[verifier::external_body]
pub struct ExCalendarComponent(icalendar::CalendarComponent);

/// `icalendar::Property`, a property of a component as that crate reads it.
#[verifier::external_type_specification]
#[verifier::external_body]
pub struct ExProperty(icalendar::Property);

/// The components of the calendar that a text holds, or why it holds none, as `icalendar` reads it.
pub uninterp spec fn components_in(text: Seq<char>) -> Result<
    Seq<icalendar::CalendarComponent>,
    Seq<char>,
>;

/// Whether a component is an event.
pub uninterp spec fn is_event(component: icalendar::CalendarComponent) -> bool;

/// The value of a property that an event has once.
pub uninterp spec fn property_in(component: icalendar::CalendarComponent, key: Seq<char>) -> Option<
    Seq<char>,
>;

/// The values of a property that an event has as a list.
pub uninterp spec fn property_list_in(
    component: icalendar::CalendarComponent,
    key: Seq<char>,
) -> Option<Seq<Seq<char>>>;

/// The property that an event has once under a key.
pub uninterp spec fn property_named(component: icalendar::CalendarComponent, key: Seq<char>) -> Option<
    icalendar::Property,
>;

/// The date, or date and time, that a property states.
pub uninterp spec fn stated_time(property: icalendar::Property) -> Option<CalendarTimeView>;

/// Whether `icalendar` can read a calendar from an unfolded text.
pub uninterp spec fn is_readable(unfolded_text: Seq<char>) -> bool;

/// The most bytes of a line up to which `icalendar` can point out an error.
pub const MAX_LINE_BYTES: usize = 65_534;

/// A text without the places where a line was folded: a line break and the space or tab that follows it.
pub open spec fn unfolded(text: Seq<char>) -> Seq<char>
    decreases text.len(),
{
    if text.len() == 0 {
        Seq::empty()
    } else if text.len() >= 3 && text[0] == '\r' && text[1] == '\n' && (text[2] == ' ' || text[2] == '\t') {
        unfolded(text.skip(3))
    } else if text.len() >= 2 && text[0] == '\n' && (text[1] == ' ' || text[1] == '\t') {
        unfolded(text.skip(2))
    } else {
        seq![text[0]] + unfolded(text.skip(1))
    }
}

/// Whether so many bytes without a line feed follow each other somewhere.
pub open spec fn has_run(bytes: Seq<u8>, length: int) -> bool {
    exists|start: int| #[trigger] is_run(bytes, start, length)
}

/// Whether no byte of a part of a sequence is a line feed.
pub open spec fn is_run(bytes: Seq<u8>, start: int, length: int) -> bool {
    &&& 0 <= start <= start + length <= bytes.len()
    &&& forall|i: int| start <= i < start + length ==> #[trigger] bytes[i] != 0x0a
}

/// Whether a text has a line of more than [`MAX_LINE_BYTES`] bytes.
pub open spec fn has_long_line(text: Seq<char>) -> bool {
    has_run(encode_utf8(text), MAX_LINE_BYTES + 1)
}

/// Calls `icalendar::parser::unfold`, which takes out each line break that a space or a tab follows, and
/// that space or tab. A line break is a line feed, or a carriage return and a line feed.
#[verifier::external_body]
fn unfold(text: &str) -> (r: String)
    ensures
        r@ == unfolded(text@),
{
    icalendar::parser::unfold(text)
}

/// Calls `icalendar::parser::read_calendar_simple` on an unfolded text and tells whether it can be read,
/// which depends on the text alone.
#[verifier::external_body]
fn can_be_read(unfolded_text: &str) -> (r: bool)
    ensures
        r == is_readable(unfolded_text@),
{
    icalendar::parser::read_calendar_simple(unfolded_text).is_ok()
}

/// Calls `str::parse` for `icalendar::Calendar` and takes the calendar's components. It reads what
/// `icalendar::parser::read_calendar_simple` reads of the unfolded text. Where it cannot, it points out the
/// place of the error below the line, which only works up to a certain column, so no line may be too long
/// then.
#[verifier::external_body]
fn read_components(text: &str) -> (r: Result<Vec<icalendar::CalendarComponent>, String>)
    requires
        is_readable(unfolded(text@)) || !has_long_line(unfolded(text@)),
    ensures
        r is Ok <==> is_readable(unfolded(text@)),
        match r {
            Ok(components) => components_in(text@) == Ok::<
                Seq<icalendar::CalendarComponent>,
                Seq<char>,
            >(components@),
            Err(message) => components_in(text@) == Err::<
                Seq<icalendar::CalendarComponent>,
                Seq<char>,
            >(message@),
        },
{
    text.parse::<icalendar::Calendar>().map(|calendar| calendar.components)
}

/// Calls `icalendar::CalendarComponent::as_event` and tells whether there is one.
#[verifier::external_body]
fn holds_event(component: &icalendar::CalendarComponent) -> (r: bool)
    ensures
        r == is_event(*component),
{
    component.as_event().is_some()
}

/// Calls `icalendar::Component::property_value` of an event; a component that is no event has no
/// properties here.
#[verifier::external_body]
fn property_value(component: &icalendar::CalendarComponent, key: &str) -> (r: Option<String>)
    ensures
        optional_text(r) == property_in(*component, key@),
{
    icalendar::Component::property_value(component.as_event()?, key).map(String::from)
}

/// Calls `icalendar::Component::multi_properties` of an event and takes the values under a key; a
/// component that is no event has no properties here.
#[verifier::external_body]
fn property_values(component: &icalendar::CalendarComponent, key: &str) -> (r: Option<Vec<String>>)
    ensures
        match r {
            Some(values) => property_list_in(*component, key@) == Some(texts(values@)),
            None => property_list_in(*component, key@) is None,
        },
{
    let list = icalendar::Component::multi_properties(component.as_event()?).get(key)?;
    Some(list.iter().map(|property| property.value().to_string()).collect())
}

/// Calls `icalendar::Component::properties` of an event and takes the property under a key; a component
/// that is no event has no properties here.
#[verifier::external_body]
fn find_property<'a>(component: &'a icalendar::CalendarComponent, key: &str) -> (r: Option<
    &'a icalendar::Property,
>)
    ensures
        match r {
            Some(property) => property_named(*component, key@) == Some(*property),
            None => property_named(*component, key@) is None,
        },
{
    icalendar::Component::properties(component.as_event()?).get(key)
}

/// Calls `icalendar::DatePerhapsTime::from_property`. What it gives depends on the property alone, and the
/// dates and times that it gives can be named.
#[verifier::external_body]
pub(crate) fn read_time(property: &icalendar::Property) -> (r: Option<CalendarTime>)
    ensures
        optional_time_view(r) == stated_time(*property),
        r matches Some(time) ==> time@.well_formed(),
{
    Some(match icalendar::DatePerhapsTime::from_property(property)? {
        icalendar::DatePerhapsTime::Date(date) => CalendarTime::Date(
            chrono::Datelike::num_days_from_ce(&date),
        ),
        icalendar::DatePerhapsTime::DateTime(time) => match time {
            icalendar::CalendarDateTime::Utc(time) => CalendarTime::Utc(
                Instant { seconds: time.timestamp(), nanos: time.timestamp_subsec_nanos() },
            ),
            icalendar::CalendarDateTime::WithTimezone { date_time, tzid } =>
                CalendarTime::WithTimezone { date_time: date_time.and_utc().timestamp(), tzid },
            icalendar::CalendarDateTime::Floating(date_time) =>
                CalendarTime::Floating(date_time.and_utc().timestamp()),
        },
    })
}

/// The date, or date and time, that a property of an event states.
pub open spec fn time_in(component: icalendar::CalendarComponent, key: Seq<char>) -> Option<
    CalendarTimeView,
> {
    match property_named(component, key) {
        Some(property) => stated_time(property),
        None => None,
    }
}

/// The date, or date and time, that a property of an event states.
fn property_time(component: &icalendar::CalendarComponent, key: &str) -> (r: Option<CalendarTime>)
    ensures
        optional_time_view(r) == time_in(*component, key@),
        r matches Some(time) ==> time@.well_formed(),
{
    match find_property(component, key) {
        Some(property) => read_time(property),
        None => None,
    }
}

/// A rule property of an event.
pub open spec fn rule_property_in(
    component: icalendar::CalendarComponent,
    key: Seq<char>,
) -> RulePropertyView {
    RulePropertyView {
        value: property_in(component, key),
        values: match property_list_in(component, key) {
            Some(values) => values,
            None => Seq::empty(),
        },
    }
}

/// What this crate keeps of a component.
pub open spec fn component_view(component: icalendar::CalendarComponent) -> ComponentView {
    if is_event(component) {
        ComponentView::Event(
            CalendarEventView {
                summary: property_in(component, "SUMMARY"@),
                description: property_in(component, "DESCRIPTION"@),
                location: property_in(component, "LOCATION"@),
                start: time_in(component, "DTSTART"@),
                end: time_in(component, "DTEND"@),
            },
            RecurrenceRulesView {
                dtstart: rule_property_in(component, "DTSTART"@),
                rrule: rule_property_in(component, "RRULE"@),
                exrule: rule_property_in(component, "EXRULE"@),
                rdate: rule_property_in(component, "RDATE"@),
                exdate: rule_property_in(component, "EXDATE"@),
            },
        )
    } else {
        ComponentView::Other
    }
}

/// A rule property of an event.
fn rule_property(component: &icalendar::CalendarComponent, key: &str) -> (r: RuleProperty)
    ensures
        r@ == rule_property_in(*component, key@),
{
    let value = property_value(component, key);
    let values: Vec<String> = match property_values(component, key) {
        Some(values) => values,
        None => Vec::new(),
    };
    let r = RuleProperty { value, values };
    assert(r@.values =~= rule_property_in(*component, key@).values);
    r
}

/// What this crate keeps of a component.
fn convert(component: &icalendar::CalendarComponent) -> (r: Component)
    ensures
        r@ == component_view(*component),
        r@ matches ComponentView::Event(event, _) ==> event.well_formed(),
{
    if !holds_event(component) {
        return Component::Other;
    }
    Component::Event(
        CalendarEvent {
            summary: property_value(component, "SUMMARY"),
            description: property_value(component, "DESCRIPTION"),
            location: property_value(component, "LOCATION"),
            start: property_time(component, "DTSTART"),
            end: property_time(component, "DTEND"),
        },
        RecurrenceRules {
            dtstart: rule_property(component, "DTSTART"),
            rrule: rule_property(component, "RRULE"),
            exrule: rule_property(component, "EXRULE"),
            rdate: rule_property(component, "RDATE"),
            exdate: rule_property(component, "EXDATE"),
        },
    )
}

/// The components of the calendar that a text holds, or why it holds none. A text that cannot be read and
/// has a line that is too long is refused for that line.
pub open spec fn calendar_in(text: Seq<char>) -> Result<Seq<ComponentView>, Seq<char>> {
    if !is_readable(unfolded(text)) && has_long_line(unfolded(text)) {
        Err("error: a line is too long"@)
    } else {
        match components_in(text) {
            Ok(components) => Ok(
                components.map_values(|c: icalendar::CalendarComponent| component_view(c)),
            ),
            Err(message) => Err(message),
        }
    }
}

/// Whether a text has a line of more than [`MAX_LINE_BYTES`] bytes.
fn check_line_lengths(text: &str) -> (r: bool)
    ensures
        r == has_long_line(text@),
{
    let bytes = text.as_bytes();
    let ghost limit = MAX_LINE_BYTES + 1;
    let mut run: usize = 0;
    for i in 0..bytes.len()
        invariant
            bytes@ == encode_utf8(text@),
            limit == MAX_LINE_BYTES + 1,
            run <= i,
            run < limit,
            is_run(bytes@, i - run, run as int),
            run < i ==> bytes@[i - run - 1] == 0x0a,
            forall|start: int|
                start + limit <= i ==> !#[trigger] is_run(bytes@, start, limit),
    {
        let ghost before = run;
        if bytes[i] == 0x0a {
            run = 0;
        } else {
            run = run + 1;
        }
        if run > MAX_LINE_BYTES {
            assert(is_run(bytes@, i + 1 - run, limit));
            return true;
        }
        assert forall|start: int| start + limit <= i + 1 implies !#[trigger] is_run(
            bytes@,
            start,
            limit,
        ) by {
            if start + limit == i + 1 && is_run(bytes@, start, limit) {
                assert(bytes@[i as int] != 0x0a);
                assert(bytes@[i - before - 1] == 0x0a);
            }
        }
    }
    false
}

/// Reads the text of a calendar. The error is the reader's account of what is wrong with the text.
pub fn process_calendar(calendar_data: String) -> (r: Result<Calendar, String>)
    ensures
        match calendar_in(calendar_data@) {
            Ok(components) => r matches Ok(calendar) && calendar@ == components && well_formed_calendar(
                calendar@,
            ),
            Err(message) => r matches Err(text) && text@ == message,
        },
{
    let lines = unfold(calendar_data.as_str());
    if !can_be_read(lines.as_str()) && check_line_lengths(lines.as_str()) {
        return Err("error: a line is too long".to_owned());
    }
    let read = match read_components(calendar_data.as_str()) {
        Ok(components) => components,
        Err(message) => {
            return Err(message);
        },
    };
    let mut components: Vec<Component> = Vec::new();
    for i in 0..read.len()
        invariant
            components@.len() == i,
            forall|j: int|
                0 <= j < i ==> (#[trigger] components@[j])@ == component_view(read@[j]) && (
                components@[j]@ matches ComponentView::Event(event, _) ==> event.well_formed()),
    {
        components.push(convert(&read[i]));
    }
    let calendar = Calendar { components };
    assert(calendar@ =~= read@.map_values(|c: icalendar::CalendarComponent| component_view(c)));
    Ok(calendar)
}

/// An event keeps its summary, its description, its location, its two times and the properties that say
/// when it recurs, each as the calendar states it under its own name.
pub proof fn law_event_keeps_its_properties(component: icalendar::CalendarComponent)
    requires
        is_event(component),
    ensures
        component_view(component) matches ComponentView::Event(event, rules) && {
            &&& event.summary == property_in(component, "SUMMARY"@)
            &&& event.description == property_in(component, "DESCRIPTION"@)
            &&& event.location == property_in(component, "LOCATION"@)
            &&& match property_named(component, "DTSTART"@) {
                Some(property) => event.start == stated_time(property),
                None => event.start is None,
            }
            &&& match property_named(component, "DTEND"@) {
                Some(property) => event.end == stated_time(property),
                None => event.end is None,
            }
            &&& rules.dtstart.value == property_in(component, "DTSTART"@)
            &&& rules.rrule.value == property_in(component, "RRULE"@)
            &&& rules.exrule.value == property_in(component, "EXRULE"@)
            &&& rules.rdate.value == property_in(component, "RDATE"@)
            &&& rules.exdate.value == property_in(component, "EXDATE"@)
        },
{
}

/// A property that says when an event recurs keeps the values that it has as a list, in order, or none.
pub proof fn law_rule_property_keeps_its_list(
    component: icalendar::CalendarComponent,
    values: Seq<Seq<char>>,
)
    requires
        is_event(component),
    ensures
        component_view(component) matches ComponentView::Event(_, rules) && {
            &&& property_list_in(component, "DTSTART"@) == Some(values) ==> rules.dtstart.values == values
            &&& property_list_in(component, "RRULE"@) == Some(values) ==> rules.rrule.values == values
            &&& property_list_in(component, "EXRULE"@) == Some(values) ==> rules.exrule.values == values
            &&& property_list_in(component, "RDATE"@) == Some(values) ==> rules.rdate.values == values
            &&& property_list_in(component, "EXDATE"@) == Some(values) ==> rules.exdate.values == values
            &&& property_list_in(component, "DTSTART"@) is None ==> rules.dtstart.values.len() == 0
            &&& property_list_in(component, "RRULE"@) is None ==> rules.rrule.values.len() == 0
            &&& property_list_in(component, "EXRULE"@) is None ==> rules.exrule.values.len() == 0
            &&& property_list_in(component, "RDATE"@) is None ==> rules.rdate.values.len() == 0
            &&& property_list_in(component, "EXDATE"@) is None ==> rules.exdate.values.len() == 0
        },
{
}

/// Nothing is kept of a component that is no event.
pub proof fn law_other_components_are_not_kept(component: icalendar::CalendarComponent)
    requires
        !is_event(component),
    ensures
        component_view(component) == ComponentView::Other,
{
}

/// A calendar that can be read has each component of the text, in order.
pub proof fn law_calendar_has_every_component(
    text: Seq<char>,
    components: Seq<icalendar::CalendarComponent>,
)
    requires
        is_readable(unfolded(text)),
        components_in(text) == Ok::<Seq<icalendar::CalendarComponent>, Seq<char>>(components),
    ensures
        calendar_in(text) matches Ok(calendar) && calendar.len() == components.len() && forall|i: int|
            0 <= i < components.len() ==> #[trigger] calendar[i] == component_view(components[i]),
{
}

/// A text that cannot be read is refused: for a line that is too long where it has one, else with the
/// reader's own message.
pub proof fn law_unreadable_text_is_refused(text: Seq<char>, message: Seq<char>)
    requires
        !is_readable(unfolded(text)),
    ensures
        has_long_line(unfolded(text)) ==> calendar_in(text) == Err::<Seq<ComponentView>, Seq<char>>(
            "error: a line is too long"@,
        ),
        !has_long_line(unfolded(text)) && components_in(text) == Err::<
            Seq<icalendar::CalendarComponent>,
            Seq<char>,
        >(message) ==> calendar_in(text) == Err::<Seq<ComponentView>, Seq<char>>(message),
{
}

/// A line is too long from 65535 bytes without a line feed on.
pub proof fn law_which_lines_are_too_long(text: Seq<char>, start: int)
    ensures
        0 <= start && start + 65_535 <= encode_utf8(text).len() && (forall|i: int|
            start <= i < start + 65_535 ==> #[trigger] encode_utf8(text)[i] != 10) ==> has_long_line(
            text,
        ),
        encode_utf8(text).len() < 65_535 ==> !has_long_line(text),
{
    if 0 <= start && start + 65_535 <= encode_utf8(text).len() && (forall|i: int|
        start <= i < start + 65_535 ==> #[trigger] encode_utf8(text)[i] != 10) {
        assert(is_run(encode_utf8(text), start, 65_535));
    }
}

/// No line is too long where every stretch of 65535 bytes has a line feed.
pub proof fn law_short_lines_are_not_too_long(text: Seq<char>)
    requires
        forall|start: int, stop: int|
            0 <= start && stop == start + 65_535 && stop <= encode_utf8(text).len() ==> (
            #[trigger] encode_utf8(text).subrange(start, stop)).contains(10u8),
    ensures
        !has_long_line(text),
{
    let bytes = encode_utf8(text);
    if has_long_line(text) {
        let start = choose|start: int| #[trigger] is_run(bytes, start, 65_535);
        let part = bytes.subrange(start, start + 65_535);
        assert(part.contains(10u8));
        let i = choose|i: int| 0 <= i < part.len() && part[i] == 10u8;
        assert(bytes[start + i] != 10);
    }
}

/// The view of an event holds all that the event holds.
pub proof fn law_event_view_holds_the_event(event: CalendarEvent)
    ensures
        match (event.summary, event@.summary) {
            (Some(text), Some(view)) => view == text@,
            (None, None) => true,
            _ => false,
        },
        match (event.description, event@.description) {
            (Some(text), Some(view)) => view == text@,
            (None, None) => true,
            _ => false,
        },
        match (event.location, event@.location) {
            (Some(text), Some(view)) => view == text@,
            (None, None) => true,
            _ => false,
        },
        match (event.start, event@.start) {
            (Some(time), Some(view)) => view == time@,
            (None, None) => true,
            _ => false,
        },
        match (event.end, event@.end) {
            (Some(time), Some(view)) => view == time@,
            (None, None) => true,
            _ => false,
        },
{
}

/// The view of rules holds all that the rules hold.
pub proof fn law_rules_view_holds_the_rules(rules: RecurrenceRules, property: RuleProperty)
    ensures
        rules@.dtstart == rules.dtstart@,
        rules@.rrule == rules.rrule@,
        rules@.exrule == rules.exrule@,
        rules@.rdate == rules.rdate@,
        rules@.exdate == rules.exdate@,
        match (property.value, property@.value) {
            (Some(text), Some(view)) => view == text@,
            (None, None) => true,
            _ => false,
        },
        property@.values.len() == property.values@.len(),
        forall|i: int|
            0 <= i < property.values@.len() ==> #[trigger] property@.values[i] == property.values@[i]@,
{
}

/// The view of a calendar holds all its components, in order.
pub proof fn law_calendar_view_holds_the_calendar(calendar: Calendar)
    ensures
        calendar@.len() == calendar.components@.len(),
        forall|i: int|
            0 <= i < calendar@.len() ==> match (calendar.components@[i], #[trigger] calendar@[i]) {
                (Component::Event(event, rules), ComponentView::Event(a, b)) => a == event@ && b
                    == rules@,
                (Component::Other, ComponentView::Other) => true,
                _ => false,
            },
{
}

} // verus!
