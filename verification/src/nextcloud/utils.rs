use vstd::prelude::*;
use vstd::string::*;

use vstd::utf8::encode_utf8;

use crate::ical::{
    add_property, event_multi_properties, event_properties, is_synced, last_modified_of,
    property_value, uid_of, with_property,
};
use crate::text::{
    chars_of, concat3, find, first_match, lemma_first_match_from, lemma_replace_from_keeps, lemma_replace_from_skip, lemma_trim_char,
    matches_at, replace_from,
    replace, replace_all, substring, trim_char, trim_matches_char,
};

verus! {

/// The path segment a calendar collection href carries after the user's own
/// segment: the text after the first `/{username}/`, with the slashes around it
/// removed, when that leaves anything.
pub open spec fn calendar_id_after_username(href: Seq<char>, username: Seq<char>) -> Option<
    Seq<char>,
> {
    let pattern = seq!['/'] + username + seq!['/'];
    match first_match(href, pattern) {
        Some(i) => {
            let id = trim_char(href.skip(i + pattern.len()), '/');
            if id.len() > 0 {
                Some(id)
            } else {
                None
            }
        },
        None => None,
    }
}

/// Extracts the calendar id from a collection href such as
/// `/remote.php/dav/calendars/alice/work/`, for user `alice`.
pub fn get_calendar_id_after_username(s: &str, username: &str) -> (id: Option<String>)
    ensures
        id matches Some(v) ==> calendar_id_after_username(s@, username@) == Some(v@),
        id is None ==> calendar_id_after_username(s@, username@) is None,
{
    let pattern = concat3("/", username, "/");
    proof {
        reveal_strlit("/");
        assert(pattern@ =~= seq!['/'] + username@ + seq!['/']);
    }
    let chars = chars_of(s);
    let pat = chars_of(pattern.as_str());
    match find(&chars, &pat) {
        Some(i) => {
            proof {
                lemma_first_match_from(s@, pattern@, 0);
            }
            let n = chars.len();
            assert(i + pat@.len() <= n);
            let rest = substring(s, i + pat.len(), n);
            assert(rest@ =~= s@.skip(i + pat@.len()));
            let id = trim_matches_char(rest.as_str(), '/');
            if id.as_str().is_empty() {
                None
            } else {
                Some(id)
            }
        },
        None => None,
    }
}

// ---------------------------------------------------------------------------
// UIDs as path segments.
// ---------------------------------------------------------------------------

/// Bytes that percent-encoding leaves as they are: ASCII letters, digits and `-`, `.`, `_`, `~`.
pub open spec fn is_unreserved(b: u8) -> bool {
    ||| 0x30 <= b <= 0x39
    ||| 0x41 <= b <= 0x5a
    ||| 0x61 <= b <= 0x7a
    ||| b == 0x2d
    ||| b == 0x2e
    ||| b == 0x5f
    ||| b == 0x7e
}

/// Upper-case hexadecimal digit for `d < 16`.
pub open spec fn hex_digit(d: u8) -> char {
    if d < 10 {
        (0x30 + d) as char
    } else {
        (0x41 + d - 10) as char
    }
}

/// One byte, percent-encoded.
pub open spec fn percent_encode_byte(b: u8) -> Seq<char> {
    if is_unreserved(b) {
        seq![b as char]
    } else {
        seq!['%', hex_digit(b / 16), hex_digit(b % 16)]
    }
}

/// Bytes, percent-encoded one by one.
pub open spec fn percent_encode(bytes: Seq<u8>) -> Seq<char>
    decreases bytes.len(),
{
    if bytes.len() == 0 {
        Seq::empty()
    } else {
        percent_encode_byte(bytes[0]) + percent_encode(bytes.drop_first())
    }
}

/// A UID as this tool stores it in Nextcloud: its UTF-8 bytes percent-encoded,
/// then every `%2F` (an encoded `/`) turned into `-`.
pub open spec fn encoded_uid(uid: Seq<char>) -> Seq<char> {
    replace_all(percent_encode(encode_utf8(uid)), "%2F"@, "-"@)
}

/// Characters that may stand in a URL path segment without ending it or needing escape.
pub open spec fn is_segment_char(c: char) -> bool {
    ||| '0' <= c <= '9'
    ||| 'A' <= c <= 'Z'
    ||| 'a' <= c <= 'z'
    ||| c == '-'
    ||| c == '.'
    ||| c == '_'
    ||| c == '~'
    ||| c == '%'
}

/// Percent-encodes `text` (urlencoding's `encode`, made owned).
/// Claimed, as the crate documents and its source does: every byte of the text's
/// UTF-8 encoding other than an ASCII letter, digit, `-`, `.`, `_` or `~` becomes `%`
/// followed by its two upper-case hex digits; those bytes stay as they are.
#[verifier::external_body]
fn url_encode(text: &str) -> (encoded: String)
    ensures
        encoded@ == percent_encode(encode_utf8(text@)),
{
    urlencoding::encode(text).into_owned()
}

proof fn lemma_percent_encode_segment(bytes: Seq<u8>)
    ensures
        forall|k: int|
            0 <= k < percent_encode(bytes).len() ==> is_segment_char(
                #[trigger] percent_encode(bytes)[k],
            ),
    decreases bytes.len(),
{
    if bytes.len() > 0 {
        lemma_percent_encode_segment(bytes.drop_first());
        let head = percent_encode_byte(bytes[0]);
        let rest = percent_encode(bytes.drop_first());
        let b = bytes[0];
        assert(b / 16 < 16 && b % 16 < 16);
        assert forall|k: int| 0 <= k < head.len() implies is_segment_char(#[trigger] head[k]) by {
        }
        assert forall|k: int| 0 <= k < (head + rest).len() implies is_segment_char(
            #[trigger] (head + rest)[k],
        ) by {
            if k < head.len() {
                assert(head[k] == (head + rest)[k]);
            } else {
                assert(rest[k - head.len()] == (head + rest)[k]);
            }
        }
    }
}

/// An encoded UID is made of URL path-segment characters only: in particular it holds
/// no `/`, so the event's URL under the calendar collection stays one level below it.
pub proof fn lemma_encoded_uid_is_segment(uid: Seq<char>)
    ensures
        forall|k: int|
            0 <= k < encoded_uid(uid).len() ==> is_segment_char(#[trigger] encoded_uid(uid)[k]),
        !encoded_uid(uid).contains('/'),
{
    lemma_percent_encode_segment(encode_utf8(uid));
    reveal_strlit("-");
    lemma_replace_from_keeps(
        percent_encode(encode_utf8(uid)),
        "%2F"@,
        "-"@,
        0,
        |c: char| is_segment_char(c),
    );
    if encoded_uid(uid).contains('/') {
        let k = choose|k: int| 0 <= k < encoded_uid(uid).len() && encoded_uid(uid)[k] == '/';
        assert(is_segment_char(encoded_uid(uid)[k]));
    }
}

/// One byte as it stands in a stored UID: `/` becomes `-`, every other byte is
/// percent-encoded.
pub open spec fn segment_encode_byte(b: u8) -> Seq<char> {
    if b == 0x2f {
        seq!['-']
    } else {
        percent_encode_byte(b)
    }
}

/// Bytes as they stand in a stored UID, one by one.
pub open spec fn segment_encode(bytes: Seq<u8>) -> Seq<char>
    decreases bytes.len(),
{
    if bytes.len() == 0 {
        Seq::empty()
    } else {
        segment_encode_byte(bytes[0]) + segment_encode(bytes.drop_first())
    }
}

proof fn lemma_hex_digit(d: u8)
    requires
        d < 16,
    ensures
        hex_digit(d) != '%',
        hex_digit(d) == '2' <==> d == 2,
        hex_digit(d) == 'F' <==> d == 15,
{
}

/// Turning `%2F` into `-` after percent-encoding touches exactly the encoded slashes:
/// no `%2F` ever straddles the escapes of two bytes.
pub proof fn lemma_encoded_uid_bytes(bytes: Seq<u8>)
    ensures
        replace_all(percent_encode(bytes), "%2F"@, "-"@) == segment_encode(bytes),
    decreases bytes.len(),
{
    reveal_strlit("%2F");
    reveal_strlit("-");
    let p = "%2F"@;
    let r = "-"@;
    if bytes.len() == 0 {
        assert(replace_all(Seq::<char>::empty(), p, r) == Seq::<char>::empty());
    } else {
        let b = bytes[0];
        let head = percent_encode_byte(b);
        let rest = percent_encode(bytes.drop_first());
        let s = head + rest;
        lemma_encoded_uid_bytes(bytes.drop_first());
        lemma_replace_from_skip(s, p, r, head.len() as int);
        assert(s.skip(head.len() as int) =~= rest);
        assert(b / 16 < 16 && b % 16 < 16);
        lemma_hex_digit(b / 16);
        lemma_hex_digit(b % 16);
        if is_unreserved(b) {
            assert(s[0] == b as char);
            assert(!matches_at(s, p, 0)) by {
                if matches_at(s, p, 0) {
                    assert(s.subrange(0, 3)[0] == p[0]);
                }
            }
            assert(replace_from(s, p, r, 0) == seq![s[0]] + replace_from(s, p, r, 1));
            assert(replace_all(s, p, r) =~= head + replace_all(rest, p, r));
        } else if b == 0x2f {
            assert(s.subrange(0, 3) =~= p);
            assert(replace_all(s, p, r) =~= r + replace_all(rest, p, r));
        } else {
            assert(!matches_at(s, p, 0)) by {
                if matches_at(s, p, 0) {
                    assert(s.subrange(0, 3)[1] == p[1]);
                    assert(s.subrange(0, 3)[2] == p[2]);
                }
            }
            assert(!matches_at(s, p, 1)) by {
                if matches_at(s, p, 1) {
                    assert(s.subrange(1, 4)[0] == p[0]);
                }
            }
            assert(!matches_at(s, p, 2)) by {
                if matches_at(s, p, 2) {
                    assert(s.subrange(2, 5)[0] == p[0]);
                }
            }
            assert(replace_from(s, p, r, 0) == seq![s[0]] + replace_from(s, p, r, 1));
            assert(replace_from(s, p, r, 1) == seq![s[1]] + replace_from(s, p, r, 2));
            assert(replace_from(s, p, r, 2) == seq![s[2]] + replace_from(s, p, r, 3));
            assert(replace_all(s, p, r) =~= head + replace_all(rest, p, r));
        }
    }
}

/// A stored UID is the UID's UTF-8 bytes with each `/` turned into `-` and every other
/// byte percent-encoded.
pub proof fn lemma_encoded_uid_exact(uid: Seq<char>)
    ensures
        encoded_uid(uid) == segment_encode(encode_utf8(uid)),
{
    lemma_encoded_uid_bytes(encode_utf8(uid));
}

/// The UID under which an event is stored in Nextcloud: its UTF-8 bytes
/// percent-encoded, with each `/` written as `-`.
pub fn encode_uid(uid: &str) -> (encoded: String)
    ensures
        encoded@ == encoded_uid(uid@),
        encoded@ == segment_encode(encode_utf8(uid@)),
{
    let percent = url_encode(uid);
    proof {
        reveal_strlit("%2F");
        lemma_encoded_uid_exact(uid@);
    }
    replace(percent.as_str(), "%2F", "-")
}

/// The property map of an event after `process_event`.
pub open spec fn processed_properties(event: icalendar::Event) -> Map<Seq<char>, Seq<char>> {
    match uid_of(event) {
        Some(uid) => event_properties(event).insert("UID"@, encoded_uid(uid)).insert(
            "X-SYNCED"@,
            "TRUE"@,
        ),
        None => event_properties(event),
    }
}

/// The event `process_event` makes of `event`: without a UID the event itself;
/// otherwise the event with its UID replaced by the encoded UID and then the
/// `X-SYNCED` marker set to `TRUE`, all else as it was.
pub open spec fn prepared_event(event: icalendar::Event) -> icalendar::Event {
    match uid_of(event) {
        Some(uid) => with_property(
            with_property(event, "UID"@, encoded_uid(uid)),
            "X-SYNCED"@,
            "TRUE"@,
        ),
        None => event,
    }
}

/// `processed` is what `process_event` makes of `event` (`prepared_event`), with the
/// property map that preparation gives and the multi-valued properties unchanged.
pub open spec fn is_processing_of(processed: icalendar::Event, event: icalendar::Event) -> bool {
    &&& processed == prepared_event(event)
    &&& event_properties(processed) == processed_properties(event)
    &&& event_multi_properties(processed) == event_multi_properties(event)
}

/// Prepares a source event for upload: its UID is encoded as a path segment and it is
/// marked `X-SYNCED: TRUE`, so later runs know it as one of theirs.
pub fn process_event(event: icalendar::Event) -> (processed: icalendar::Event)
    ensures
        is_processing_of(processed, event),
        uid_of(event) is None ==> processed == event,
        forall|uid: Seq<char>|
            uid_of(event) == Some(uid) ==> processed == with_property(
                with_property(event, "UID"@, encoded_uid(uid)),
                "X-SYNCED"@,
                "TRUE"@,
            ),
{
    let mut event = event;
    match property_value(&event, "UID") {
        Some(uid) => {
            let encoded = encode_uid(uid.as_str());
            add_property(&mut event, "UID", encoded.as_str());
            add_property(&mut event, "X-SYNCED", "TRUE");
        },
        None => {},
    }
    event
}

/// Preparing an event for upload changes exactly two of its properties: the `UID`,
/// which becomes the encoded UID, and the `X-SYNCED` marker, which is set to `TRUE`.
/// The prepared event is the event itself with these two set, one after the other, as
/// icalendar's `add_property` sets a property; every other property (with its
/// parameters), every multi-valued property and every nested component stays as it
/// was. An event without a UID is left as it is.
pub proof fn lemma_preparing_sets_only_uid_and_marker(
    processed: icalendar::Event,
    event: icalendar::Event,
)
    requires
        is_processing_of(processed, event),
    ensures
        uid_of(event) is None ==> processed == event,
        forall|uid: Seq<char>|
            uid_of(event) == Some(uid) ==> processed == with_property(
                with_property(event, "UID"@, encoded_uid(uid)),
                "X-SYNCED"@,
                "TRUE"@,
            ),
        uid_of(event) is Some ==> uid_of(processed) == Some(encoded_uid(uid_of(event)->0))
            && event_properties(processed).contains_key("X-SYNCED"@)
            && event_properties(processed)["X-SYNCED"@] == "TRUE"@,
{
    reveal_strlit("UID");
    reveal_strlit("X-SYNCED");
    assert("UID"@ != "X-SYNCED"@) by {
        assert("UID"@.len() != "X-SYNCED"@.len());
    }
}

/// A calendar id found in a href is never empty and neither starts nor ends with `/`.
pub proof fn lemma_calendar_id_is_trimmed(href: Seq<char>, username: Seq<char>)
    ensures
        calendar_id_after_username(href, username) matches Some(id) ==> id.len() > 0 && id[0]
            != '/' && id.last() != '/',
{
    let pattern = seq!['/'] + username + seq!['/'];
    if let Some(i) = first_match(href, pattern) {
        lemma_trim_char(href.skip(i + pattern.len()), '/');
    }
}

/// A prepared event is marked as synced, carries its encoded UID (a single path
/// segment) and keeps its `LAST-MODIFIED` instant.
pub proof fn lemma_processed_event(processed: icalendar::Event, event: icalendar::Event)
    requires
        is_processing_of(processed, event),
        uid_of(event) is Some,
    ensures
        is_synced(processed),
        uid_of(processed) == Some(encoded_uid(uid_of(event)->0)),
        !encoded_uid(uid_of(event)->0).contains('/'),
        last_modified_of(processed) == last_modified_of(event),
{
    reveal_strlit("UID");
    reveal_strlit("X-SYNCED");
    reveal_strlit("LAST-MODIFIED");
    assert("UID"@ != "X-SYNCED"@) by {
        assert("UID"@.len() != "X-SYNCED"@.len());
    }
    assert("LAST-MODIFIED"@ != "UID"@) by {
        assert("LAST-MODIFIED"@.len() != "UID"@.len());
    }
    assert("LAST-MODIFIED"@ != "X-SYNCED"@) by {
        assert("LAST-MODIFIED"@.len() != "X-SYNCED"@.len());
    }
    lemma_encoded_uid_is_segment(uid_of(event)->0);
}

} // verus!
