use vstd::prelude::*;
use vstd::string::*;

use icalendar::Component;

use crate::nesting::{nesting_bound, MAX_NESTING};

verus! {

// ---------------------------------------------------------------------------
// The icalendar types the library carries, and what it reads of them.
// ---------------------------------------------------------------------------

#[verifier::external_type_specification]
#[verifier::external_body]
pub struct ExEvent(icalendar::Event);

#[verifier::external_type_specification]
#[verifier::external_body]
pub struct ExCalendarComponent(icalendar::CalendarComponent);

/// The single-valued properties an icalendar `Event` holds (the map behind
/// `Component::properties`), from property name to value.
pub uninterp spec fn event_properties(event: icalendar::Event) -> Map<Seq<char>, Seq<char>>;

/// The multi-valued properties an icalendar `Event` holds (the map behind
/// `Component::multi_properties`), from property name to its values in order.
pub uninterp spec fn event_multi_properties(event: icalendar::Event) -> Map<
    Seq<char>,
    Seq<Seq<char>>,
>;

/// The instant, as whole seconds and nanoseconds since the Unix epoch, that
/// icalendar's `get_last_modified` reads from a `LAST-MODIFIED` value (a UTC
/// date-time of the form `YYYYMMDDTHHMMSSZ`); `None` when the value is not one.
pub uninterp spec fn utc_instant(text: Seq<char>) -> Option<(i64, u32)>;

/// What a calendar component holds as an event: the event of its `VEVENT` (the
/// payload of the component's `Event` variant, with its properties, their parameters
/// and its nested components), `None` when it is another kind of component.
pub uninterp spec fn component_event_properties(
    component: icalendar::CalendarComponent,
) -> Option<icalendar::Event>;

/// What icalendar's parser makes of an iCalendar text: the single-valued properties of
/// each `VEVENT` of the calendar, in document order; or, for a text it does not accept
/// as an iCalendar document, its message.
pub uninterp spec fn parsed_ics(text: Seq<char>) -> Result<
    Seq<Map<Seq<char>, Seq<char>>>,
    Seq<char>,
>;

/// The events held by the `VEVENT`s among `components`, in order.
pub open spec fn component_held_events(components: Seq<icalendar::CalendarComponent>) -> Seq<
    icalendar::Event,
>
    decreases components.len(),
{
    if components.len() == 0 {
        Seq::empty()
    } else {
        let rest = component_held_events(components.drop_last());
        match component_event_properties(components.last()) {
            Some(event) => rest.push(event),
            None => rest,
        }
    }
}

/// The property maps of the events among `components`, in order.
pub open spec fn component_events(components: Seq<icalendar::CalendarComponent>) -> Seq<
    Map<Seq<char>, Seq<char>>,
>
    decreases components.len(),
{
    if components.len() == 0 {
        Seq::empty()
    } else {
        let rest = component_events(components.drop_last());
        match component_event_properties(components.last()) {
            Some(event) => rest.push(event_properties(event)),
            None => rest,
        }
    }
}

/// The events held by the `VEVENT` components are the events whose property maps the
/// components give: taking the events out changes none of them.
pub proof fn lemma_held_events_have_component_properties(
    components: Seq<icalendar::CalendarComponent>,
)
    ensures
        component_held_events(components).map_values(|e: icalendar::Event| event_properties(e))
            == component_events(components),
    decreases components.len(),
{
    if components.len() > 0 {
        lemma_held_events_have_component_properties(components.drop_last());
        let rest = component_held_events(components.drop_last());
        match component_event_properties(components.last()) {
            Some(event) => {
                assert(rest.push(event).map_values(|e: icalendar::Event| event_properties(e))
                    =~= rest.map_values(|e: icalendar::Event| event_properties(e)).push(
                    event_properties(event),
                ));
            },
            None => {},
        }
    }
}

/// The value of property `key` of `event`, if it has one.
pub open spec fn property_of(event: icalendar::Event, key: Seq<char>) -> Option<Seq<char>> {
    if event_properties(event).contains_key(key) {
        Some(event_properties(event)[key])
    } else {
        None
    }
}

/// The event's `UID`.
pub open spec fn uid_of(event: icalendar::Event) -> Option<Seq<char>> {
    property_of(event, "UID"@)
}

/// The event carries the `X-SYNCED` marker that this tool sets on what it uploads.
pub open spec fn is_synced(event: icalendar::Event) -> bool {
    event_properties(event).contains_key("X-SYNCED"@)
}

/// The event's `LAST-MODIFIED` instant, when it has one that icalendar can read.
pub open spec fn last_modified_of(event: icalendar::Event) -> Option<(i64, u32)> {
    match property_of(event, "LAST-MODIFIED"@) {
        Some(text) => utc_instant(text),
        None => None,
    }
}

/// Reads property `key` of `event` (icalendar's `Component::property_value`).
/// Claimed: the result is the value the event's property map holds under `key`.
#[verifier::external_body]
pub(crate) fn property_value(event: &icalendar::Event, key: &str) -> (value: Option<String>)
    ensures
        match value {
            Some(v) => event_properties(*event).contains_key(key@) && event_properties(
                *event,
            )[key@] == v@,
            None => !event_properties(*event).contains_key(key@),
        },
{
    event.property_value(key).map(|v| v.to_string())
}

/// The event that icalendar's `Component::add_property` leaves when it sets property
/// `key` of `event` to `value`; everything else of the event (multi-valued properties,
/// parameters of the other properties, nested components) is as it was.
pub uninterp spec fn with_property(
    event: icalendar::Event,
    key: Seq<char>,
    value: Seq<char>,
) -> icalendar::Event;

/// Sets property `key` of `event` to `value` (icalendar's `Component::add_property`,
/// which inserts a fresh property into the property map, replacing an earlier value).
/// Claimed: the event afterwards is `with_property` of the event before; its property
/// map is the one before with `key` mapped to `value`; the multi-valued properties are
/// untouched.
#[verifier::external_body]
pub(crate) fn add_property(event: &mut icalendar::Event, key: &str, value: &str)
    ensures
        *final(event) == with_property(*old(event), key@, value@),
        event_properties(*final(event)) == event_properties(*old(event)).insert(key@, value@),
        event_multi_properties(*final(event)) == event_multi_properties(*old(event)),
{
    event.add_property(key, value);
}

/// The event's `LAST-MODIFIED` instant (icalendar's `Component::get_last_modified`,
/// turned into seconds and nanoseconds since the epoch).
/// Claimed: `None` without the property; otherwise what icalendar reads from its value.
#[verifier::external_body]
pub(crate) fn last_modified(event: &icalendar::Event) -> (instant: Option<(i64, u32)>)
    ensures
        instant == (if event_properties(*event).contains_key("LAST-MODIFIED"@) {
            utc_instant(event_properties(*event)["LAST-MODIFIED"@])
        } else {
            None
        }),
{
    event.get_last_modified().map(|t| (t.timestamp(), t.timestamp_subsec_nanos()))
}

/// A copy of `event` (icalendar's derived `Clone` for `Event`).
/// Claimed: the copy holds the same single- and multi-valued properties.
#[verifier::external_body]
pub(crate) fn copy_event(event: &icalendar::Event) -> (copy: icalendar::Event)
    ensures
        event_properties(copy) == event_properties(*event),
        event_multi_properties(copy) == event_multi_properties(*event),
{
    event.clone()
}

/// How icalendar writes the start of a new calendar holding events: the calendar's
/// header with the properties `Calendar::new` sets, then the first event's `BEGIN`.
pub open spec fn one_event_head() -> Seq<char> {
    "BEGIN:VCALENDAR\r\nVERSION:2.0\r\nPRODID:ICALENDAR-RS\r\nCALSCALE:GREGORIAN\r\nBEGIN:VEVENT\r\n"@
}

/// How icalendar ends a calendar whose last component is an event.
pub open spec fn one_event_tail() -> Seq<char> {
    "END:VEVENT\r\nEND:VCALENDAR\r\n"@
}

/// `document` is framed as a calendar holding one event: it opens the calendar and the
/// event, and closes them, in the form above.
pub open spec fn frames_one_event(document: Seq<char>) -> bool {
    &&& document.len() >= one_event_head().len() + one_event_tail().len()
    &&& document.take(one_event_head().len() as int) == one_event_head()
    &&& document.skip(document.len() - one_event_tail().len()) == one_event_tail()
}

/// A character that icalendar writes into a property value as it is (no escaping) and
/// that unfolding never removes: an ASCII letter or digit, `-`, `.`, `_`, `~` or `%`.
pub open spec fn is_plain_value_char(c: char) -> bool {
    ||| '0' <= c <= '9'
    ||| 'A' <= c <= 'Z'
    ||| 'a' <= c <= 'z'
    ||| c == '-'
    ||| c == '.'
    ||| c == '_'
    ||| c == '~'
    ||| c == '%'
}

/// Every character of `value` is plain.
pub open spec fn is_plain_value(value: Seq<char>) -> bool {
    forall|i: int| 0 <= i < value.len() ==> is_plain_value_char(#[trigger] value[i])
}

/// `piece` occurs in `text`.
pub open spec fn holds_text(text: Seq<char>, piece: Seq<char>) -> bool {
    exists|i: int|
        0 <= i && i + piece.len() <= text.len() && #[trigger] text.subrange(i, i + piece.len())
            == piece
}

/// The event as a standalone iCalendar document, as it is uploaded
/// (icalendar's `Calendar::new().push(event).done().to_string()`).
/// Claimed: the document is framed as a calendar holding one event (the calendar
/// header, `BEGIN:VEVENT`, ..., `END:VEVENT`, `END:VCALENDAR`, each line ended by
/// `\r\n`); and each single-valued property of the event is written as a content line
/// `NAME[;PARAMS]:VALUE`, folded at 75 bytes by inserting `\r\n `, so that once the
/// document is unfolded, `:` followed by the value occurs in it whenever the value is
/// plain (plain characters are neither escaped nor touched by unfolding). The lines are
/// not stated in full: icalendar stamps a missing `DTSTAMP` with the current time and a
/// missing `UID` with a random one, and writes property parameters in the order of a
/// `HashMap`.
#[verifier::external_body]
pub(crate) fn event_document(event: &icalendar::Event) -> (document: String)
    ensures
        frames_one_event(document@),
        forall|name: Seq<char>|
            #[trigger] event_properties(*event).contains_key(name) && is_plain_value(
                event_properties(*event)[name],
            ) ==> holds_text(unfolded_ics(document@), ":"@ + event_properties(*event)[name]),
{
    icalendar::Calendar::new().push(event.clone()).done().to_string()
}

/// The text with its folded lines joined, as icalendar's parser reads it: what
/// icalendar's `parser::unfold` gives for the text.
pub uninterp spec fn unfolded_ics(text: Seq<char>) -> Seq<char>;

/// Joins the folded lines of an iCalendar text (icalendar's `parser::unfold`, which
/// `FromStr` for `Calendar` applies before it parses).
/// Claimed: the result is `unfolded_ics` of the text.
#[verifier::external_body]
pub(crate) fn unfold_ics(text: &str) -> (unfolded: String)
    ensures
        unfolded@ == unfolded_ics(text@),
{
    icalendar::parser::unfold(text)
}

/// Parses an iCalendar document (icalendar's `FromStr` for `Calendar`) and gives its
/// components (the calendar's `components` field), in document order.
/// The parser recurses once per component it opens and nothing limits that depth, so
/// the text must stay within `MAX_NESTING` levels as `nesting_bound` counts them on
/// the unfolded text (that count bounds the components the parser can have open).
/// Claimed: it fails exactly on the texts the parser rejects, with the parser's
/// message; otherwise the `VEVENT`s among the components are the ones the parser reads
/// from the text, with their properties.
#[verifier::external_body]
pub(crate) fn parse_ics(text: &str) -> (components: Result<
    Vec<icalendar::CalendarComponent>,
    String,
>)
    requires
        nesting_bound(unfolded_ics(text@)) <= MAX_NESTING as int,
    ensures
        match components {
            Ok(cs) => parsed_ics(text@) == Ok::<Seq<Map<Seq<char>, Seq<char>>>, Seq<char>>(
                component_events(cs@),
            ),
            Err(message) => parsed_ics(text@) == Err::<Seq<Map<Seq<char>, Seq<char>>>, Seq<char>>(
                message@,
            ),
        },
{
    text.parse::<icalendar::Calendar>().map(|calendar| calendar.components)
}

/// The event a calendar component holds, if it is a `VEVENT` (the component's
/// `Event` variant). Claimed: `None` exactly for the other components; otherwise the
/// event the component holds, moved out of it unchanged.
#[verifier::external_body]
pub(crate) fn component_event(component: icalendar::CalendarComponent) -> (event: Option<
    icalendar::Event,
>)
    ensures
        event == component_event_properties(component),
        match event {
            Some(e) => component_event_properties(component) == Some(e),
            None => component_event_properties(component) is None,
        },
{
    match component {
        icalendar::CalendarComponent::Event(event) => Some(event),
        _ => None,
    }
}

} // verus!
