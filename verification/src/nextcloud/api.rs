use vstd::prelude::*;

use crate::ical::{
    copy_event, event_document, event_multi_properties, event_properties, frames_one_event,
    holds_text, is_plain_value, is_synced, last_modified, last_modified_of, property_value,
    uid_of, unfolded_ics,
};
use crate::ics_parser::ParsedCalendar;
use crate::nextcloud::models::{Multistatus, Response};
use crate::nextcloud::utils::{
    calendar_id_after_username, encoded_uid, get_calendar_id_after_username, is_processing_of, prepared_event,
    process_event,
};
use crate::string_map::{lemma_map_of_from_pair, map_of, StringMap};
use crate::text::{concat2, concat3};

verus! {

/// An upload of `source` over `existing` can be skipped: both carry a readable
/// `LAST-MODIFIED` and the two instants are the same.
pub open spec fn unchanged(source: icalendar::Event, existing: icalendar::Event) -> bool {
    match (last_modified_of(source), last_modified_of(existing)) {
        (Some(s), Some(e)) => s == e,
        _ => false,
    }
}

/// Whether the source event needs no upload because the stored one was modified at
/// the same instant.
pub fn should_skip(source_event: &icalendar::Event, existing_event: &icalendar::Event) -> (skip:
    bool)
    ensures
        skip == unchanged(*source_event, *existing_event),
{
    match (last_modified(source_event), last_modified(existing_event)) {
        (Some(s), Some(e)) => s.0 == e.0 && s.1 == e.1,
        _ => false,
    }
}

/// The key under which an event is filed: its UID, encoded when the events are processed.
pub open spec fn event_key(event: icalendar::Event, process_events: bool) -> Option<Seq<char>> {
    match uid_of(event) {
        Some(uid) => Some(
            if process_events {
                encoded_uid(uid)
            } else {
                uid
            },
        ),
        None => None,
    }
}

/// The (key, event) pairs that the events with a UID give, in order.
pub open spec fn keyed_events(events: Seq<icalendar::Event>, process_events: bool) -> Seq<
    (Seq<char>, icalendar::Event),
>
    decreases events.len(),
{
    if events.len() == 0 {
        Seq::empty()
    } else {
        let rest = keyed_events(events.drop_last(), process_events);
        match event_key(events.last(), process_events) {
            Some(key) => rest.push((key, events.last())),
            None => rest,
        }
    }
}

/// Each pair of `keyed_events` is filed under the key its event gives.
pub proof fn lemma_keyed_events_keys(events: Seq<icalendar::Event>, process_events: bool)
    ensures
        forall|i: int|
            0 <= i < keyed_events(events, process_events).len() ==> event_key(
                #[trigger] keyed_events(events, process_events)[i].1,
                process_events,
            ) == Some(keyed_events(events, process_events)[i].0),
    decreases events.len(),
{
    if events.len() > 0 {
        lemma_keyed_events_keys(events.drop_last(), process_events);
        let rest = keyed_events(events.drop_last(), process_events);
        let all = keyed_events(events, process_events);
        assert forall|i: int| 0 <= i < all.len() implies event_key(
            #[trigger] all[i].1,
            process_events,
        ) == Some(all[i].0) by {
            if i < rest.len() {
                assert(all[i] == rest[i]);
            }
        }
    }
}

/// Every key that `keyed_events` files an event under is the key that event gives.
pub proof fn lemma_keyed_map_keys(events: Seq<icalendar::Event>, process_events: bool, key: Seq<char>)
    requires
        map_of(keyed_events(events, process_events)).contains_key(key),
    ensures
        event_key(map_of(keyed_events(events, process_events))[key], process_events) == Some(key),
{
    lemma_keyed_events_keys(events, process_events);
    lemma_map_of_from_pair(keyed_events(events, process_events), key);
}

/// What `extract_events` files under `key`: the last of the events with that key,
/// processed when `process_events` is set.
pub open spec fn filed_as(
    filed: icalendar::Event,
    event: icalendar::Event,
    process_events: bool,
) -> bool {
    if process_events {
        is_processing_of(filed, event)
    } else {
        filed == event
    }
}

/// The events `extract_events` files: the events of `events` by key (of several with
/// one key the last counts), each prepared for upload when `process_events` is set.
pub open spec fn extracted(events: Seq<icalendar::Event>, process_events: bool) -> Map<
    Seq<char>,
    icalendar::Event,
> {
    map_of(keyed_events(events, process_events)).map_values(
        |e: icalendar::Event|
            if process_events {
                prepared_event(e)
            } else {
                e
            },
    )
}

/// The events of a calendar by UID. Events without a UID are left out; of several
/// events with one UID the last counts. With `process_events`, every event is first
/// prepared for upload (`process_event`) and filed under its encoded UID.
pub fn extract_events(calendar: ParsedCalendar, process_events: bool) -> (events: StringMap<
    icalendar::Event,
>)
    ensures
        events.wf(),
        events@ == extracted(calendar.events@, process_events),
        forall|key: Seq<char>|
            #[trigger] events@.contains_key(key) == map_of(
                keyed_events(calendar.events@, process_events),
            ).contains_key(key),
        forall|key: Seq<char>|
            #[trigger] events@.contains_key(key) ==> filed_as(
                events@[key],
                map_of(keyed_events(calendar.events@, process_events))[key],
                process_events,
            ),
        forall|key: Seq<char>| #[trigger]
            events@.contains_key(key) ==> uid_of(events@[key]) == Some(key),
        process_events ==> forall|key: Seq<char>| #[trigger]
            events@.contains_key(key) ==> is_synced(events@[key]),
{
    let ghost all = calendar.events@;
    let mut remaining = calendar.events;
    let mut stack: Vec<icalendar::Event> = Vec::new();
    while remaining.len() > 0
        invariant
            remaining@ + stack@.reverse() == all,
        decreases remaining@.len(),
    {
        let ghost before = remaining@;
        let event = remaining.pop().unwrap();
        stack.push(event);
        assert(before == remaining@.push(event));
        assert(remaining@ + stack@.reverse() =~= before + stack@.drop_last().reverse());
    }
    assert(stack@.reverse() =~= all);
    let mut events: StringMap<icalendar::Event> = StringMap::new();
    let ghost mut done: int = 0;
    while stack.len() > 0
        invariant
            0 <= done <= all.len(),
            all.take(done) + stack@.reverse() == all,
            events.wf(),
            forall|key: Seq<char>|
                #[trigger] events@.contains_key(key) == map_of(
                    keyed_events(all.take(done), process_events),
                ).contains_key(key),
            forall|key: Seq<char>|
                #[trigger] events@.contains_key(key) ==> filed_as(
                    events@[key],
                    map_of(keyed_events(all.take(done), process_events))[key],
                    process_events,
                ),
            forall|key: Seq<char>| #[trigger]
                events@.contains_key(key) ==> uid_of(events@[key]) == Some(key),
            process_events ==> forall|key: Seq<char>| #[trigger]
                events@.contains_key(key) ==> is_synced(events@[key]),
        decreases stack@.len(),
    {
        let ghost before = stack@;
        let event = stack.pop().unwrap();
        proof {
            assert(before == stack@.push(event));
            assert(before.reverse() =~= seq![event] + stack@.reverse());
            assert(all[done] == event) by {
                assert((all.take(done) + before.reverse())[done] == event);
            }
            assert(all.take(done + 1) =~= all.take(done).push(event));
            assert(all.take(done + 1).drop_last() =~= all.take(done));
            assert(all.take(done + 1) + stack@.reverse() =~= all.take(done) + before.reverse());
        }
        let ghost original = event;
        let event = if process_events {
            process_event(event)
        } else {
            event
        };
        proof {
            reveal_strlit("UID");
            reveal_strlit("X-SYNCED");
            assert("UID"@ != "X-SYNCED"@) by {
                assert("UID"@.len() != "X-SYNCED"@.len());
            }
        }
        let uid = property_value(&event, "UID");
        match uid {
            Some(key) => {
                let ghost k = key@;
                proof {
                    assert(event_key(original, process_events) == Some(k));
                    assert(all.take(done + 1).last() == original);
                    let prev = keyed_events(all.take(done), process_events);
                    assert(keyed_events(all.take(done + 1), process_events) == prev.push(
                        (k, original),
                    ));
                    assert(prev.push((k, original)).drop_last() =~= prev);
                    assert(map_of(keyed_events(all.take(done + 1), process_events)) == map_of(
                        prev,
                    ).insert(k, original));
                    assert(filed_as(event, original, process_events));
                }
                events.insert(key, event);
            },
            None => {
                proof {
                    assert(event_key(original, process_events) is None);
                    assert(all.take(done + 1).last() == original);
                    assert(keyed_events(all.take(done + 1), process_events) == keyed_events(
                        all.take(done),
                        process_events,
                    ));
                }
            },
        }
        proof {
            done = done + 1;
        }
    }
    assert(all.take(done) =~= all);
    assert(events@ =~= extracted(all, process_events));
    events
}

// ---------------------------------------------------------------------------
// Uploads and deletions.
// ---------------------------------------------------------------------------

/// Why a sync step failed.
pub enum SyncError {
    /// An event to upload has no UID, so it has no place in the collection.
    MissingUid,
}

/// A `PUT` of one event into the calendar collection.
pub struct UploadRequest {
    pub uid: String,
    pub url: String,
    /// The event to store.
    pub event: icalendar::Event,
}

impl UploadRequest {
    /// The body of the `PUT`: the request's event as a standalone iCalendar document,
    /// framed as a calendar holding that one event, with each plain property value of
    /// the event (its UID among them) written after a `:`.
    pub fn document(&self) -> (document: String)
        ensures
            frames_one_event(document@),
            forall|name: Seq<char>|
                #[trigger] event_properties(self.event).contains_key(name) && is_plain_value(
                    event_properties(self.event)[name],
                ) ==> holds_text(
                    unfolded_ics(document@),
                    ":"@ + event_properties(self.event)[name],
                ),
    {
        event_document(&self.event)
    }
}

/// A `DELETE` of one event from the calendar collection.
pub struct DeleteRequest {
    pub uid: String,
    pub url: String,
}

/// The URL of the event stored under `uid` in the collection at `base_url`.
pub open spec fn event_url(base_url: Seq<char>, uid: Seq<char>) -> Seq<char> {
    base_url + uid + ".ics"@
}

/// The upload of `event` into the collection at `base_url`: a `PUT` to
/// `{base_url}{uid}.ics`; an event without a UID cannot be uploaded.
pub fn upload_request(base_url: &str, event: &icalendar::Event) -> (request: Result<
    UploadRequest,
    SyncError,
>)
    ensures
        match request {
            Ok(r) => {
                &&& uid_of(*event) == Some(r.uid@)
                &&& r.url@ == event_url(base_url@, r.uid@)
                &&& event_properties(r.event) == event_properties(*event)
                &&& event_multi_properties(r.event) == event_multi_properties(*event)
            },
            Err(e) => uid_of(*event) is None && e is MissingUid,
        },
{
    match property_value(event, "UID") {
        Some(uid) => {
            let url = concat3(base_url, uid.as_str(), ".ics");
            Ok(UploadRequest { uid, url, event: copy_event(event) })
        },
        None => Err(SyncError::MissingUid),
    }
}

/// The deletion of the event stored under `uid` in the collection at `calendar_url`.
pub fn delete_request(calendar_url: &str, uid: String) -> (request: DeleteRequest)
    ensures
        request.uid@ == uid@,
        request.url@ == event_url(calendar_url@, uid@),
{
    let url = concat3(calendar_url, uid.as_str(), ".ics");
    DeleteRequest { uid, url }
}

/// Nextcloud stored an uploaded event: it answered 200, 201 or 204.
pub fn upload_succeeded(status: u16) -> (ok: bool)
    ensures
        ok == (status == 200 || status == 201 || status == 204),
{
    status == 200 || status == 201 || status == 204
}

/// Nextcloud removed an event: it answered 200 or 204.
pub fn deletion_succeeded(status: u16) -> (ok: bool)
    ensures
        ok == (status == 200 || status == 204),
{
    status == 200 || status == 204
}

// ---------------------------------------------------------------------------
// Calendar discovery.
// ---------------------------------------------------------------------------

/// The body of the `PROPFIND` that lists a user's calendars.
pub const PROPFIND_BODY: &'static str = "<?xml version=\"1.0\" encoding=\"UTF-8\"?>
  <d:propfind xmlns:d=\"DAV:\" xmlns:cs=\"http://calendarserver.org/ns/\">
    <d:prop>
      <d:displayname/>
      <cs:getctag/>
      <d:resourcetype/>
      <d:owner/>
    </d:prop>
  </d:propfind>";

/// The URL of the collection that holds the calendars of `username`.
pub fn calendars_home_url(nextcloud_url: &str, username: &str) -> (url: String)
    ensures
        url@ == nextcloud_url@ + "/remote.php/dav/calendars/"@ + username@ + "/"@,
{
    let mut url = concat3(nextcloud_url, "/remote.php/dav/calendars/", username);
    url.append("/");
    url
}

/// The URL that exports a whole calendar as one iCalendar document.
pub fn export_url(calendar_url: &str) -> (url: String)
    ensures
        url@ == calendar_url@ + "?export"@,
{
    concat2(calendar_url, "?export")
}

/// Every `propstat` of the resource names a resource type, and none marks it as a
/// deleted calendar.
pub open spec fn is_live_calendar(response: Response) -> bool {
    forall|i: int|
        0 <= i < response.propstats@.len() ==> match (
        #[trigger] response.propstats@[i]).prop.resourcetype {
            Some(t) => t.calendar_deleted is None,
            None => false,
        }
}

/// The ids of the live calendars among `responses`, in order.
pub open spec fn calendar_ids_of(responses: Seq<Response>, username: Seq<char>) -> Seq<Seq<char>>
    decreases responses.len(),
{
    if responses.len() == 0 {
        Seq::empty()
    } else {
        let rest = calendar_ids_of(responses.drop_last(), username);
        let response = responses.last();
        if is_live_calendar(response) {
            match calendar_id_after_username(response.href@, username) {
                Some(id) => rest.push(id),
                None => rest,
            }
        } else {
            rest
        }
    }
}

fn live_calendar(response: &Response) -> (live: bool)
    ensures
        live == is_live_calendar(*response),
{
    let n = response.propstats.len();
    let mut i: usize = 0;
    while i < n
        invariant
            n == response.propstats@.len(),
            i <= n,
            forall|j: int|
                0 <= j < i ==> match (#[trigger] response.propstats@[j]).prop.resourcetype {
                    Some(t) => t.calendar_deleted is None,
                    None => false,
                },
        decreases n - i,
    {
        match &response.propstats[i].prop.resourcetype {
            Some(t) => {
                if t.calendar_deleted.is_some() {
                    return false;
                }
            },
            None => {
                return false;
            },
        }
        i = i + 1;
    }
    true
}

/// The ids of the calendars of `username` that a `PROPFIND` answer lists: the
/// resources that are live calendars and whose href names a calendar below the
/// user's own segment.
pub fn calendar_ids(multistatus: &Multistatus, username: &str) -> (ids: Vec<String>)
    ensures
        ids@.map_values(|id: String| id@) == calendar_ids_of(multistatus.responses@, username@),
{
    let mut ids: Vec<String> = Vec::new();
    let n = multistatus.responses.len();
    let mut i: usize = 0;
    while i < n
        invariant
            n == multistatus.responses@.len(),
            i <= n,
            ids@.map_values(|id: String| id@) == calendar_ids_of(
                multistatus.responses@.take(i as int),
                username@,
            ),
        decreases n - i,
    {
        let ghost before = ids@;
        let response = &multistatus.responses[i];
        proof {
            assert(multistatus.responses@.take(i + 1).drop_last() =~= multistatus.responses@.take(
                i as int,
            ));
            assert(multistatus.responses@.take(i + 1).last() == *response);
        }
        if live_calendar(response) {
            match get_calendar_id_after_username(response.href.as_str(), username) {
                Some(id) => {
                    ids.push(id);
                    assert(ids@.map_values(|id: String| id@) =~= before.map_values(
                        |id: String| id@,
                    ).push(ids@.last()@));
                },
                None => {},
            }
        }
        i = i + 1;
    }
    assert(multistatus.responses@.take(n as int) =~= multistatus.responses@);
    ids
}

} // verus!
