use vstd::prelude::*;
use vstd::string::*;
use vstd::utf8::{decode_utf8, encode_utf8_decode_utf8, valid_utf8};

use crate::ical::{
    component_event, component_events, component_held_events, event_properties, parse_ics, parsed_ics, unfold_ics,
    unfolded_ics,
};
use crate::nesting::{nesting_bound, nesting_within_limit, MAX_NESTING};

verus! {

/// A calendar as this tool reads it: its events, in document order.
pub struct ParsedCalendar {
    pub events: Vec<icalendar::Event>,
}

/// Why a downloaded calendar could not be read.
pub enum FetchError {
    /// The server answered with a status outside 200..=299.
    Status { status: u16 },
    /// The body is not UTF-8.
    InvalidUtf8,
    /// The body is not an iCalendar document this tool can read; the reason.
    Parse { message: String },
}

/// The server delivered the calendar: a status in 200..=299.
pub fn download_succeeded(status: u16) -> (ok: bool)
    ensures
        ok == (200 <= status <= 299),
{
    200 <= status && status <= 299
}

/// The text that `bytes` encode in UTF-8 (std's `str::from_utf8`).
/// Claimed, as std documents: `None` exactly when the bytes are not valid UTF-8;
/// otherwise a text whose UTF-8 bytes are the given ones.
#[verifier::external_body]
fn utf8_text(bytes: &[u8]) -> (text: Option<&str>)
    ensures
        text is Some <==> valid_utf8(bytes@),
        text matches Some(t) ==> t.spec_bytes() == bytes@,
{
    std::str::from_utf8(bytes).ok()
}

/// The events of a calendar component list, in order: the very events the `VEVENT`
/// components hold.
fn events_of(components: Vec<icalendar::CalendarComponent>) -> (events: Vec<icalendar::Event>)
    ensures
        events@ == component_held_events(components@),
        events@.map_values(|e: icalendar::Event| event_properties(e)) == component_events(
            components@,
        ),
{
    let ghost all = components@;
    let mut remaining = components;
    let mut stack: Vec<icalendar::CalendarComponent> = Vec::new();
    while remaining.len() > 0
        invariant
            remaining@ + stack@.reverse() == all,
        decreases remaining@.len(),
    {
        let ghost before = remaining@;
        let component = remaining.pop().unwrap();
        stack.push(component);
        assert(before == remaining@.push(component));
        assert(remaining@ + stack@.reverse() =~= before + stack@.drop_last().reverse());
    }
    assert(stack@.reverse() =~= all);
    let mut events: Vec<icalendar::Event> = Vec::new();
    let ghost mut done: int = 0;
    while stack.len() > 0
        invariant
            0 <= done <= all.len(),
            all.take(done) + stack@.reverse() == all,
            events@.map_values(|e: icalendar::Event| event_properties(e)) == component_events(
                all.take(done),
            ),
            events@ == component_held_events(all.take(done)),
        decreases stack@.len(),
    {
        let ghost before = stack@;
        let ghost listed = events@;
        let component = stack.pop().unwrap();
        proof {
            assert(before == stack@.push(component));
            assert(before.reverse() =~= seq![component] + stack@.reverse());
            assert(all[done] == component) by {
                assert((all.take(done) + before.reverse())[done] == component);
            }
            assert(all.take(done + 1) =~= all.take(done).push(component));
            assert(all.take(done + 1).drop_last() =~= all.take(done));
            assert(all.take(done + 1) + stack@.reverse() =~= all.take(done) + before.reverse());
        }
        let ghost held = component;
        match component_event(component) {
            Some(event) => {
                events.push(event);
                assert(events@ =~= listed.push(event));
                assert(events@.map_values(|e: icalendar::Event| event_properties(e))
                    =~= listed.map_values(|e: icalendar::Event| event_properties(e)).push(
                    event_properties(event),
                ));
            },
            None => {},
        }
        proof {
            assert(all.take(done + 1).last() == held);
            done = done + 1;
        }
    }
    assert(all.take(done) =~= all);
    events
}

/// The message with which a text is refused whose components nest too deeply to parse.
pub open spec fn too_deep_message() -> Seq<char> {
    "error: calendar components nested too deeply"@
}

/// What reading an iCalendar text gives: the single-valued properties of its events in
/// document order, or the reason it was refused. A text whose components nest deeper
/// than `MAX_NESTING` (as `nesting_bound` counts them on the unfolded text) is refused
/// before it is parsed; otherwise it is what icalendar's parser makes of it.
pub open spec fn read_ics(text: Seq<char>) -> Result<Seq<Map<Seq<char>, Seq<char>>>, Seq<char>> {
    if nesting_bound(unfolded_ics(text)) <= MAX_NESTING as int {
        parsed_ics(text)
    } else {
        Err(too_deep_message())
    }
}

/// Parses an iCalendar document into its events, in document order. It fails when the
/// components nest too deeply to parse safely, and otherwise exactly when icalendar's
/// parser rejects the text, with the parser's message.
pub fn parse_calendar(text: &str) -> (calendar: Result<ParsedCalendar, String>)
    ensures
        match calendar {
            Ok(c) => read_ics(text@) == Ok::<Seq<Map<Seq<char>, Seq<char>>>, Seq<char>>(
                c.events@.map_values(|e: icalendar::Event| event_properties(e)),
            ),
            Err(message) => read_ics(text@) == Err::<Seq<Map<Seq<char>, Seq<char>>>, Seq<char>>(
                message@,
            ),
        },
{
    let unfolded = unfold_ics(text);
    if !nesting_within_limit(unfolded.as_str()) {
        return Err(String::from_str("error: calendar components nested too deeply"));
    }
    match parse_ics(text) {
        Ok(components) => Ok(ParsedCalendar { events: events_of(components) }),
        Err(message) => Err(message),
    }
}

/// Reads a downloaded calendar from the response status and body: the status must be
/// a success, the body UTF-8 and the text an iCalendar document, checked in that order.
pub fn parse_calendar_response(status: u16, body: &[u8]) -> (calendar: Result<
    ParsedCalendar,
    FetchError,
>)
    ensures
        match calendar {
            Ok(c) => 200 <= status <= 299 && valid_utf8(body@) && read_ics(decode_utf8(body@))
                == Ok::<Seq<Map<Seq<char>, Seq<char>>>, Seq<char>>(
                c.events@.map_values(|e: icalendar::Event| event_properties(e)),
            ),
            Err(FetchError::Status { status: s }) => !(200 <= status <= 299) && s == status,
            Err(FetchError::InvalidUtf8) => 200 <= status <= 299 && !valid_utf8(body@),
            Err(FetchError::Parse { message }) => 200 <= status <= 299 && valid_utf8(body@)
                && read_ics(decode_utf8(body@)) == Err::<
                Seq<Map<Seq<char>, Seq<char>>>,
                Seq<char>,
            >(message@),
        },
{
    if !download_succeeded(status) {
        return Err(FetchError::Status { status });
    }
    match utf8_text(body) {
        Some(text) => {
            proof {
                encode_utf8_decode_utf8(text@);
            }
            match parse_calendar(text) {
                Ok(calendar) => Ok(calendar),
                Err(message) => Err(FetchError::Parse { message }),
            }
        },
        None => Err(FetchError::InvalidUtf8),
    }
}

} // verus!
