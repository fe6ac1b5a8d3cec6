use icalendar::{Component, Event};
use nextcloud_ics_sync::ics_parser::{
    download_succeeded, parse_calendar, parse_calendar_response, FetchError, ParsedCalendar,
};
use nextcloud_ics_sync::nextcloud::api::{
    calendars_home_url, delete_request, deletion_succeeded, export_url, extract_events,
    should_skip, upload_request, upload_succeeded, SyncError,
};
use nextcloud_ics_sync::nesting::{nesting_within_limit, MAX_NESTING};
use nextcloud_ics_sync::nextcloud::utils::{encode_uid, process_event};
use nextcloud_ics_sync::sync::{plan_delete_synced, plan_sync};
use nextcloud_ics_sync::{calculate_diff, get_synced_uids};

fn event(uid: &str, last_modified: Option<&str>, synced: bool) -> Event {
    let mut e = Event::new();
    e.uid(uid).summary(&format!("event {}", uid));
    if let Some(ts) = last_modified {
        e.add_property("LAST-MODIFIED", ts);
    }
    if synced {
        e.add_property("X-SYNCED", "TRUE");
    }
    e.done()
}

fn calendar(events: Vec<Event>) -> ParsedCalendar {
    ParsedCalendar { events }
}

fn sorted(mut v: Vec<String>) -> Vec<String> {
    v.sort();
    v
}

const ICS: &str = "BEGIN:VCALENDAR\r\nVERSION:2.0\r\nPRODID:-//test//EN\r\nBEGIN:VEVENT\r\nUID:one@example.com\r\nDTSTAMP:20240101T000000Z\r\nLAST-MODIFIED:20240102T030405Z\r\nSUMMARY:First\r\nEND:VEVENT\r\nBEGIN:VTODO\r\nUID:todo\r\nEND:VTODO\r\nBEGIN:VEVENT\r\nUID:two/with slash\r\nSUMMARY:Second\r\nEND:VEVENT\r\nEND:VCALENDAR\r\n";

#[test]
fn encode_uid_examples() {
    assert_eq!(encode_uid("abc-123_x.y~z"), "abc-123_x.y~z");
    assert_eq!(encode_uid("a/b c"), "a-b%20c");
    assert_eq!(encode_uid("x@y.com"), "x%40y.com");
    assert_eq!(encode_uid("\u{c4}"), "%C3%84");
    // A literal "%2F" in the UID is encoded as "%252F" and stays.
    assert_eq!(encode_uid("x%2Fy"), "x%252Fy");
}

#[test]
fn process_event_encodes_uid_and_marks_synced() {
    let processed = process_event(event("a/b c", None, false));
    assert_eq!(processed.get_uid(), Some("a-b%20c"));
    assert_eq!(processed.property_value("X-SYNCED"), Some("TRUE"));
    assert_eq!(processed.get_summary(), Some("event a/b c"));
}

#[test]
fn process_event_without_uid_is_unchanged() {
    let mut e = Event::new();
    e.summary("no uid");
    let e = e.done();
    let processed = process_event(e.clone());
    assert_eq!(processed, e);
    assert_eq!(processed.property_value("X-SYNCED"), None);
}

#[test]
fn extract_events_last_duplicate_wins_and_uidless_dropped() {
    let mut uidless = Event::new();
    uidless.summary("no uid");
    let first = event("same", Some("20240101T000000Z"), false);
    let second = event("same", Some("20240202T000000Z"), false);
    let map = extract_events(
        calendar(vec![first, uidless.done(), second.clone(), event("other", None, false)]),
        false,
    );
    assert_eq!(map.len(), 2);
    assert_eq!(map.get("same"), Some(&second));
    assert!(map.contains_key("other"));
    assert!(!map.contains_key(""));
}

#[test]
fn extract_events_processing_files_by_encoded_uid() {
    let map = extract_events(calendar(vec![event("a/b", None, false)]), true);
    assert_eq!(map.len(), 1);
    let filed = map.get("a-b").unwrap();
    assert_eq!(filed.get_uid(), Some("a-b"));
    assert_eq!(filed.property_value("X-SYNCED"), Some("TRUE"));
    assert!(map.get("a/b").is_none());
}

#[test]
fn should_skip_needs_equal_last_modified() {
    let a = event("x", Some("20240101T120000Z"), false);
    let b = event("x", Some("20240101T120000Z"), true);
    let c = event("x", Some("20240101T120001Z"), false);
    let none = event("x", None, false);
    let unreadable = event("x", Some("yesterday"), false);
    assert!(should_skip(&a, &b));
    assert!(!should_skip(&a, &c));
    assert!(!should_skip(&a, &none));
    assert!(!should_skip(&none, &none));
    assert!(!should_skip(&unreadable, &unreadable));
}

#[test]
fn synced_uids_are_the_marked_ones() {
    let map = extract_events(
        calendar(vec![event("a", None, true), event("b", None, false), event("c", None, true)]),
        false,
    );
    assert_eq!(sorted(get_synced_uids(&map)), vec!["a".to_string(), "c".to_string()]);
}

#[test]
fn diff_uploads_new_and_modified_deletes_stale_synced() {
    let source = extract_events(
        calendar(vec![
            event("same", Some("20240101T000000Z"), false),
            event("modified", Some("20240301T000000Z"), false),
            event("undated", None, false),
            event("new", Some("20240101T000000Z"), false),
        ]),
        true,
    );
    let nextcloud = extract_events(
        calendar(vec![
            event("same", Some("20240101T000000Z"), true),
            event("modified", Some("20240201T000000Z"), true),
            event("undated", None, true),
            event("gone", None, true),
            event("mine", None, false),
        ]),
        false,
    );
    let (uploads, deletes) = calculate_diff(&source, &nextcloud);
    let mut uploaded: Vec<String> =
        uploads.iter().map(|e| e.get_uid().unwrap().to_string()).collect();
    uploaded.sort();
    assert_eq!(uploaded, vec!["modified".to_string(), "new".to_string(), "undated".to_string()]);
    assert_eq!(deletes, vec!["gone".to_string()]);
}

#[test]
fn diff_against_itself_uploads_only_undated() {
    let events = extract_events(
        calendar(vec![event("a", Some("20240101T000000Z"), true), event("b", None, true)]),
        false,
    );
    let (uploads, deletes) = calculate_diff(&events, &events);
    assert_eq!(uploads.len(), 1);
    assert_eq!(uploads[0].get_uid(), Some("b"));
    assert!(deletes.is_empty());
}

#[test]
fn plan_sync_builds_requests() {
    let base = "https://cloud.example.com/remote.php/dav/calendars/me/work/";
    let plan = plan_sync(
        base,
        calendar(vec![event("new/one", None, false), event("kept", Some("20240101T000000Z"), false)]),
        calendar(vec![
            event("kept", Some("20240101T000000Z"), true),
            event("old", None, true),
            event("foreign", None, false),
        ]),
    );
    assert_eq!(plan.uploads.len(), 1);
    assert_eq!(plan.uploads[0].uid, "new-one");
    assert_eq!(plan.uploads[0].url, format!("{}new-one.ics", base));
    let document = plan.uploads[0].document();
    assert!(document.contains("BEGIN:VCALENDAR"));
    assert!(document.contains("UID:new-one"));
    assert!(document.contains("X-SYNCED:TRUE"));
    assert_eq!(plan.uploads[0].event.get_uid(), Some("new-one"));
    assert_eq!(plan.uploads[0].event.property_value("X-SYNCED"), Some("TRUE"));
    assert_eq!(plan.deletes.len(), 1);
    assert_eq!(plan.deletes[0].uid, "old");
    assert_eq!(plan.deletes[0].url, format!("{}old.ics", base));
}

#[test]
fn plan_delete_synced_leaves_foreign_events() {
    let base = "https://c/remote.php/dav/calendars/me/work/";
    let deletes = plan_delete_synced(
        base,
        calendar(vec![event("a", None, true), event("b", None, false), event("c", None, true)]),
    );
    let mut uids: Vec<String> = deletes.iter().map(|d| d.uid.clone()).collect();
    uids.sort();
    assert_eq!(uids, vec!["a".to_string(), "c".to_string()]);
    for d in &deletes {
        assert_eq!(d.url, format!("{}{}.ics", base, d.uid));
    }
}

#[test]
fn upload_request_needs_uid() {
    let mut e = Event::new();
    e.summary("no uid");
    match upload_request("https://c/cal/", &e.done()) {
        Err(SyncError::MissingUid) => {}
        _ => panic!("an event without UID cannot be uploaded"),
    }
    match upload_request("https://c/cal/", &event("x", None, false)) {
        Ok(r) => {
            assert_eq!(r.uid, "x");
            assert_eq!(r.url, "https://c/cal/x.ics");
        }
        Err(_) => panic!("an event with UID can be uploaded"),
    }
}

#[test]
fn delete_request_url() {
    let r = delete_request("https://c/cal/", "u1".to_string());
    assert_eq!(r.url, "https://c/cal/u1.ics");
    assert_eq!(r.uid, "u1");
}

#[test]
fn status_decisions() {
    for s in [200u16, 201, 204] {
        assert!(upload_succeeded(s));
    }
    for s in [202u16, 301, 404, 500] {
        assert!(!upload_succeeded(s));
    }
    assert!(deletion_succeeded(200));
    assert!(deletion_succeeded(204));
    assert!(!deletion_succeeded(201));
    assert!(!deletion_succeeded(404));
    assert!(download_succeeded(200));
    assert!(download_succeeded(299));
    assert!(!download_succeeded(199));
    assert!(!download_succeeded(300));
}

#[test]
fn urls() {
    assert_eq!(export_url("https://c/cal/"), "https://c/cal/?export");
    assert_eq!(
        calendars_home_url("https://cloud.example.com", "me"),
        "https://cloud.example.com/remote.php/dav/calendars/me/"
    );
}

#[test]
fn parse_calendar_keeps_events_only() {
    let parsed = parse_calendar(ICS).ok().unwrap();
    assert_eq!(parsed.events.len(), 2);
    assert_eq!(parsed.events[0].get_uid(), Some("one@example.com"));
    assert_eq!(parsed.events[1].get_uid(), Some("two/with slash"));
}

#[test]
fn parse_calendar_response_outcomes() {
    match parse_calendar_response(404, ICS.as_bytes()) {
        Err(FetchError::Status { status }) => assert_eq!(status, 404),
        _ => panic!("404 is a failed download"),
    }
    match parse_calendar_response(200, &[0x42, 0xff, 0xfe]) {
        Err(FetchError::InvalidUtf8) => {}
        _ => panic!("not UTF-8"),
    }
    match parse_calendar_response(200, ICS.as_bytes()) {
        Ok(calendar) => {
            let map = extract_events(calendar, true);
            assert!(map.contains_key("one%40example.com"));
            assert!(map.contains_key("two-with%20slash"));
        }
        Err(_) => panic!("a valid calendar"),
    }
}

#[test]
fn should_skip_is_symmetric() {
    let a = event("x", Some("20240101T120000Z"), false);
    let b = event("x", Some("20240101T120000Z"), true);
    let c = event("x", None, false);
    assert_eq!(should_skip(&a, &b), should_skip(&b, &a));
    assert_eq!(should_skip(&a, &c), should_skip(&c, &a));
}

#[test]
fn uploaded_event_read_back_is_recognized() {
    let base = "https://c/cal/";
    let source = vec![event("team/standup", Some("20240105T101010Z"), false)];
    let plan = plan_sync(base, calendar(source.clone()), calendar(vec![]));
    assert_eq!(plan.uploads.len(), 1);
    // What Nextcloud stores is the uploaded document; read it back.
    let stored = parse_calendar(&plan.uploads[0].document()).ok().unwrap();
    let plan_again = plan_sync(base, calendar(source), stored);
    assert!(plan_again.uploads.is_empty());
    assert!(plan_again.deletes.is_empty());
    // Once the source drops it, the next sync deletes it.
    let stored = parse_calendar(&plan.uploads[0].document()).ok().unwrap();
    let plan_after_removal = plan_sync(base, calendar(vec![]), stored);
    assert_eq!(plan_after_removal.deletes.len(), 1);
    assert_eq!(plan_after_removal.deletes[0].uid, "team-standup");
}

#[test]
fn encoded_uids_are_single_segments() {
    for uid in ["a/b/c", "  spaces ", "ümlaut@host", "%2F/%", "x?y#z"] {
        let encoded = encode_uid(uid);
        assert!(!encoded.contains('/'));
        assert!(encoded
            .chars()
            .all(|c| c.is_ascii_alphanumeric() || "-._~%".contains(c)));
    }
}

#[test]
fn uploads_and_deletes_never_share_a_key() {
    let source = extract_events(calendar(vec![event("k", None, false)]), true);
    let nextcloud =
        extract_events(calendar(vec![event("k", None, true), event("z", None, true)]), false);
    let (uploads, deletes) = calculate_diff(&source, &nextcloud);
    assert_eq!(uploads.len(), 1);
    assert_eq!(deletes, vec!["z".to_string()]);
    for d in &deletes {
        assert!(!source.contains_key(d));
    }
}

#[test]
fn parse_calendar_gives_the_parsed_properties() {
    let parsed = parse_calendar(ICS).ok().unwrap();
    assert_eq!(parsed.events[0].get_summary(), Some("First"));
    assert_eq!(parsed.events[0].property_value("LAST-MODIFIED"), Some("20240102T030405Z"));
    assert_eq!(parsed.events[1].get_summary(), Some("Second"));
    match parse_calendar_response(200, ICS.as_bytes()) {
        Ok(calendar) => {
            assert_eq!(calendar.events.len(), 2);
            assert_eq!(calendar.events[0].get_summary(), Some("First"));
        }
        Err(_) => panic!("a valid calendar"),
    }
}

#[test]
fn process_event_keeps_multi_valued_properties() {
    let mut e = event("multi/uid", None, false);
    e.add_multi_property("CATEGORIES", "work");
    e.add_multi_property("CATEGORIES", "team");
    let processed = process_event(e.done());
    let categories: Vec<&str> = processed.multi_properties()["CATEGORIES"]
        .iter()
        .map(|p| p.value())
        .collect();
    assert_eq!(categories, vec!["work", "team"]);
    assert_eq!(processed.get_uid(), Some("multi-uid"));
}

#[test]
fn upload_request_carries_the_event() {
    let e = process_event(event("a", None, false));
    let request = upload_request("https://nc.example.com/cal/", &e).ok().unwrap();
    assert_eq!(request.url, "https://nc.example.com/cal/a.ics");
    assert_eq!(request.event.get_uid(), Some("a"));
    let document = request.document();
    let stored = parse_calendar(&document).ok().unwrap();
    assert_eq!(stored.events.len(), 1);
    assert_eq!(stored.events[0].get_uid(), Some("a"));
    assert_eq!(stored.events[0].property_value("X-SYNCED"), Some("TRUE"));
}

fn nested_calendar(levels: usize, line_end: &str) -> String {
    let mut text = format!("BEGIN:VCALENDAR{}VERSION:2.0{}", line_end, line_end);
    for _ in 0..levels {
        text.push_str(&format!("BEGIN:X-NEST{}", line_end));
    }
    for _ in 0..levels {
        text.push_str(&format!("END:X-NEST{}", line_end));
    }
    text.push_str(&format!("BEGIN:VEVENT{}UID:inner{}END:VEVENT{}", line_end, line_end, line_end));
    text.push_str(&format!("END:VCALENDAR{}", line_end));
    text
}

#[test]
fn parse_calendar_refuses_too_deep_nesting() {
    let deep = nested_calendar(5000, "\r\n");
    match parse_calendar(&deep) {
        Err(message) => assert_eq!(message, "error: calendar components nested too deeply"),
        Ok(_) => panic!("nesting beyond the limit is refused"),
    }
    match parse_calendar_response(200, deep.as_bytes()) {
        Err(FetchError::Parse { message }) => {
            assert_eq!(message, "error: calendar components nested too deeply")
        }
        _ => panic!("nesting beyond the limit is refused"),
    }
    // Without END lines, and with a line the scan does not trust, the bound still holds.
    let mut open_only = String::from("BEGIN:VCALENDAR\r\nX;P=\"open\r\n");
    for _ in 0..300 {
        open_only.push_str("BEGIN:X\r\n");
    }
    assert!(parse_calendar(&open_only).is_err());
}

#[test]
fn parse_calendar_accepts_moderate_nesting() {
    let nested = nested_calendar(50, "\r\n");
    let parsed = parse_calendar(&nested).ok().unwrap();
    assert_eq!(parsed.events.len(), 1);
    assert_eq!(parsed.events[0].get_uid(), Some("inner"));
    let nested_lf = nested_calendar(50, "\n");
    assert_eq!(parse_calendar(&nested_lf).ok().unwrap().events.len(), 1);
}

#[test]
fn parse_calendar_accepts_large_flat_feeds() {
    let mut text = String::from("BEGIN:VCALENDAR\r\nVERSION:2.0\r\nPRODID:-//test//EN\r\n");
    for i in 0..1000 {
        text.push_str(&format!(
            "BEGIN:VEVENT\r\nUID:event-{}@example.com\r\nDTSTART;TZID=Europe/Berlin:20240101T100000\r\nATTENDEE;CN=\"Doe, Jane\";RSVP=TRUE:mailto:jane@example.com\r\nSUMMARY:Meeting {}\r\nBEGIN:VALARM\r\nACTION:DISPLAY\r\nTRIGGER:-PT15M\r\nEND:VALARM\r\nEND:VEVENT\r\n",
            i, i
        ));
    }
    text.push_str("END:VCALENDAR\r\n");
    let parsed = parse_calendar(&text).ok().unwrap();
    assert_eq!(parsed.events.len(), 1000);
    assert_eq!(parsed.events[999].get_uid(), Some("event-999@example.com"));
}

#[test]
fn nesting_limit_examples() {
    assert!(nesting_within_limit(&nested_calendar(MAX_NESTING - 3, "\r\n")));
    assert!(!nesting_within_limit(&nested_calendar(MAX_NESTING, "\r\n")));
    // Mixed line endings: every BEGIN counts.
    let mut mixed = String::from("BEGIN:VCALENDAR\r\nVERSION:2.0\n");
    for _ in 0..MAX_NESTING {
        mixed.push_str("BEGIN:VEVENT\r\nEND:VEVENT\r\n");
    }
    assert!(!nesting_within_limit(&mixed));
}

#[test]
fn upload_document_is_one_framed_event() {
    let e = process_event(event("framed", Some("20240101T000000Z"), false));
    let request = upload_request("https://c/cal/", &e).ok().unwrap();
    let document = request.document();
    assert!(document.starts_with(
        "BEGIN:VCALENDAR\r\nVERSION:2.0\r\nPRODID:ICALENDAR-RS\r\nCALSCALE:GREGORIAN\r\nBEGIN:VEVENT\r\n"
    ));
    assert!(document.ends_with("END:VEVENT\r\nEND:VCALENDAR\r\n"));
}

#[test]
fn preparing_then_filing_equals_filing_with_preparation() {
    let mut with_alarm = event("a/1", Some("20240101T000000Z"), false);
    with_alarm.add_multi_property("CATEGORIES", "work");
    let source = vec![with_alarm.done(), event("b", None, false), event("a/1", None, false)];
    let prepared: Vec<Event> = source.iter().cloned().map(process_event).collect();
    let first = extract_events(calendar(source), true);
    let second = extract_events(calendar(prepared), false);
    assert_eq!(first.len(), second.len());
    for i in 0..first.len() {
        let key = first.key_at(i);
        assert_eq!(first.get(key), second.get(key));
    }
    assert_eq!(first.get("a-1").unwrap().get_uid(), Some("a-1"));
}
