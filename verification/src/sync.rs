use vstd::prelude::*;

use crate::ical::{
    event_multi_properties, event_properties, is_synced, last_modified_of, property_value, uid_of,
    holds_text, is_plain_value, is_plain_value_char, unfolded_ics, with_property,
};
use crate::ics_parser::ParsedCalendar;
use crate::nextcloud::api::{
    delete_request, event_key, event_url, extract_events, extracted, filed_as, keyed_events,
    lemma_keyed_map_keys, should_skip, unchanged, upload_request, DeleteRequest, UploadRequest,
};
use crate::nextcloud::utils::{
    encoded_uid, is_processing_of, is_segment_char, lemma_encoded_uid_is_segment, prepared_event,
    processed_properties,
};
use crate::string_map::{keys_distinct, lemma_map_of, map_of, StringMap};

verus! {

/// The keys of the synced events among `pairs`, in order.
pub open spec fn synced_keys(pairs: Seq<(Seq<char>, icalendar::Event)>) -> Seq<Seq<char>>
    decreases pairs.len(),
{
    if pairs.len() == 0 {
        Seq::empty()
    } else {
        let rest = synced_keys(pairs.drop_last());
        if is_synced(pairs.last().1) {
            rest.push(pairs.last().0)
        } else {
            rest
        }
    }
}

/// Whether the source event filed under `key` has to be uploaded: Nextcloud has no
/// event under that key, or the one it has was not modified at the same instant.
pub open spec fn needs_upload(
    key: Seq<char>,
    event: icalendar::Event,
    nextcloud: Map<Seq<char>, icalendar::Event>,
) -> bool {
    !(nextcloud.contains_key(key) && unchanged(event, nextcloud[key]))
}

/// The source events to upload, in source order.
pub open spec fn upload_events(
    source: Seq<(Seq<char>, icalendar::Event)>,
    nextcloud: Map<Seq<char>, icalendar::Event>,
) -> Seq<icalendar::Event>
    decreases source.len(),
{
    if source.len() == 0 {
        Seq::empty()
    } else {
        let rest = upload_events(source.drop_last(), nextcloud);
        if needs_upload(source.last().0, source.last().1, nextcloud) {
            rest.push(source.last().1)
        } else {
            rest
        }
    }
}

/// The keys of the synced Nextcloud events that the source no longer has, in order.
pub open spec fn stale_keys(
    nextcloud: Seq<(Seq<char>, icalendar::Event)>,
    source: Map<Seq<char>, icalendar::Event>,
) -> Seq<Seq<char>>
    decreases nextcloud.len(),
{
    if nextcloud.len() == 0 {
        Seq::empty()
    } else {
        let rest = stale_keys(nextcloud.drop_last(), source);
        if is_synced(nextcloud.last().1) && !source.contains_key(nextcloud.last().0) {
            rest.push(nextcloud.last().0)
        } else {
            rest
        }
    }
}

/// The keys of the events that carry the `X-SYNCED` marker, i.e. that this tool uploaded.
pub fn get_synced_uids(events: &StringMap<icalendar::Event>) -> (uids: Vec<String>)
    ensures
        uids@.map_values(|u: String| u@) == synced_keys(events.pairs()),
{
    let mut uids: Vec<String> = Vec::new();
    let n = events.len();
    let mut i: usize = 0;
    while i < n
        invariant
            n == events.pairs().len(),
            i <= n,
            uids@.map_values(|u: String| u@) == synced_keys(events.pairs().take(i as int)),
        decreases n - i,
    {
        let ghost before = uids@;
        let key = events.key_at(i);
        let event = events.value_at(i);
        proof {
            assert(events.pairs().take(i + 1).drop_last() =~= events.pairs().take(i as int));
            assert(events.pairs().take(i + 1).last() == events.pairs()[i as int]);
            reveal_strlit("X-SYNCED");
        }
        let marker = property_value(event, "X-SYNCED");
        if marker.is_some() {
            uids.push(key.clone());
            assert(uids@.map_values(|u: String| u@) =~= before.map_values(|u: String| u@).push(
                key@,
            ));
        }
        i = i + 1;
    }
    assert(events.pairs().take(n as int) =~= events.pairs());
    uids
}

/// What a sync has to do: the source events to upload (new, or modified since the
/// stored copy) and the keys of the synced Nextcloud events to delete (those the
/// source no longer has). Events that this tool did not upload are never deleted.
pub fn calculate_diff<'a>(
    source_events: &'a StringMap<icalendar::Event>,
    nextcloud_events: &StringMap<icalendar::Event>,
) -> (diff: (Vec<&'a icalendar::Event>, Vec<String>))
    ensures
        diff.0@.map_values(|e: &icalendar::Event| *e) == upload_events(
            source_events.pairs(),
            nextcloud_events@,
        ),
        diff.1@.map_values(|u: String| u@) == stale_keys(
            nextcloud_events.pairs(),
            source_events@,
        ),
{
    proof {
        use_type_invariant(source_events);
        use_type_invariant(nextcloud_events);
    }
    let mut uploads: Vec<&'a icalendar::Event> = Vec::new();
    let n = source_events.len();
    let mut i: usize = 0;
    while i < n
        invariant
            n == source_events.pairs().len(),
            nextcloud_events.wf(),
            i <= n,
            uploads@.map_values(|e: &icalendar::Event| *e) == upload_events(
                source_events.pairs().take(i as int),
                nextcloud_events@,
            ),
        decreases n - i,
    {
        let ghost before = uploads@;
        let key = source_events.key_at(i);
        let event = source_events.value_at(i);
        proof {
            assert(source_events.pairs().take(i + 1).drop_last() =~= source_events.pairs().take(
                i as int,
            ));
            assert(source_events.pairs().take(i + 1).last() == source_events.pairs()[i as int]);
        }
        let skip = match nextcloud_events.get(key.as_str()) {
            Some(existing) => should_skip(event, existing),
            None => false,
        };
        if !skip {
            uploads.push(event);
            assert(uploads@.map_values(|e: &icalendar::Event| *e) =~= before.map_values(
                |e: &icalendar::Event| *e,
            ).push(*event));
        }
        i = i + 1;
    }
    assert(source_events.pairs().take(n as int) =~= source_events.pairs());

    let mut deletes: Vec<String> = Vec::new();
    let m = nextcloud_events.len();
    let mut j: usize = 0;
    while j < m
        invariant
            m == nextcloud_events.pairs().len(),
            source_events.wf(),
            j <= m,
            deletes@.map_values(|u: String| u@) == stale_keys(
                nextcloud_events.pairs().take(j as int),
                source_events@,
            ),
        decreases m - j,
    {
        let ghost before = deletes@;
        let key = nextcloud_events.key_at(j);
        let event = nextcloud_events.value_at(j);
        proof {
            assert(nextcloud_events.pairs().take(j + 1).drop_last()
                =~= nextcloud_events.pairs().take(j as int));
            assert(nextcloud_events.pairs().take(j + 1).last() == nextcloud_events.pairs()[j as int]);
            reveal_strlit("X-SYNCED");
        }
        let marker = property_value(event, "X-SYNCED");
        if marker.is_some() && !source_events.contains_key(key.as_str()) {
            deletes.push(key.clone());
            assert(deletes@.map_values(|u: String| u@) =~= before.map_values(|u: String| u@).push(
                key@,
            ));
        }
        j = j + 1;
    }
    assert(nextcloud_events.pairs().take(m as int) =~= nextcloud_events.pairs());
    (uploads, deletes)
}

// ---------------------------------------------------------------------------
// Laws of a sync.
// ---------------------------------------------------------------------------

proof fn lemma_upload_events_index(
    source: Seq<(Seq<char>, icalendar::Event)>,
    nextcloud: Map<Seq<char>, icalendar::Event>,
    e: icalendar::Event,
)
    ensures
        upload_events(source, nextcloud).contains(e) <==> exists|i: int|
            0 <= i < source.len() && source[i].1 == e && needs_upload(
                source[i].0,
                source[i].1,
                nextcloud,
            ),
    decreases source.len(),
{
    if source.len() > 0 {
        let init = source.drop_last();
        lemma_upload_events_index(init, nextcloud, e);
        let rest = upload_events(init, nextcloud);
        if exists|i: int|
            0 <= i < source.len() && source[i].1 == e && needs_upload(
                source[i].0,
                source[i].1,
                nextcloud,
            ) {
            let i = choose|i: int|
                0 <= i < source.len() && source[i].1 == e && needs_upload(
                    source[i].0,
                    source[i].1,
                    nextcloud,
                );
            if i < source.len() - 1 {
                assert(init[i] == source[i]);
                let j = choose|j: int| 0 <= j < rest.len() && rest[j] == e;
                if needs_upload(source.last().0, source.last().1, nextcloud) {
                    assert(rest.push(source.last().1)[j] == e);
                }
            } else {
                assert(rest.push(source.last().1).last() == e);
            }
        }
        if upload_events(source, nextcloud).contains(e) {
            if needs_upload(source.last().0, source.last().1, nextcloud) && e
                == source.last().1 {
                assert(source[source.len() - 1].1 == e);
            } else {
                let all = upload_events(source, nextcloud);
                let j = choose|j: int| 0 <= j < all.len() && all[j] == e;
                if needs_upload(source.last().0, source.last().1, nextcloud) {
                    if j == rest.len() {
                        assert(all[j] == source.last().1);
                    } else {
                        assert(rest[j] == e);
                    }
                } else {
                    assert(rest[j] == e);
                }
                let i = choose|i: int|
                    0 <= i < init.len() && init[i].1 == e && needs_upload(
                        init[i].0,
                        init[i].1,
                        nextcloud,
                    );
                assert(source[i] == init[i]);
            }
        }
    }
}

/// Uploads are exactly the source events that Nextcloud lacks or holds with another
/// (or no readable) `LAST-MODIFIED` instant.
pub proof fn lemma_uploads_are_new_or_modified(
    source_events: &StringMap<icalendar::Event>,
    nextcloud_events: &StringMap<icalendar::Event>,
    e: icalendar::Event,
)
    requires
        source_events.wf(),
    ensures
        upload_events(source_events.pairs(), nextcloud_events@).contains(e) <==> exists|
            key: Seq<char>,
        |
            #![trigger source_events@[key]]
            source_events@.contains_key(key) && source_events@[key] == e && needs_upload(
                key,
                e,
                nextcloud_events@,
            ),
{
    let pairs = source_events.pairs();
    lemma_map_of(pairs);
    lemma_upload_events_index(pairs, nextcloud_events@, e);
    if upload_events(pairs, nextcloud_events@).contains(e) {
        let i = choose|i: int|
            0 <= i < pairs.len() && pairs[i].1 == e && needs_upload(
                pairs[i].0,
                pairs[i].1,
                nextcloud_events@,
            );
        assert(source_events@[pairs[i].0] == e);
    }
    if exists|key: Seq<char>|
        #![trigger source_events@[key]]
        source_events@.contains_key(key) && source_events@[key] == e && needs_upload(
            key,
            e,
            nextcloud_events@,
        ) {
        let key = choose|key: Seq<char>|
            #![trigger source_events@[key]]
            source_events@.contains_key(key) && source_events@[key] == e && needs_upload(
                key,
                e,
                nextcloud_events@,
            );
        let i = choose|i: int| 0 <= i < pairs.len() && pairs[i].0 == key;
        assert(map_of(pairs)[pairs[i].0] == pairs[i].1);
    }
}

proof fn lemma_stale_keys_index(
    nextcloud: Seq<(Seq<char>, icalendar::Event)>,
    source: Map<Seq<char>, icalendar::Event>,
    k: Seq<char>,
)
    ensures
        stale_keys(nextcloud, source).contains(k) <==> exists|i: int|
            0 <= i < nextcloud.len() && nextcloud[i].0 == k && is_synced(nextcloud[i].1)
                && !source.contains_key(k),
    decreases nextcloud.len(),
{
    if nextcloud.len() > 0 {
        let init = nextcloud.drop_last();
        lemma_stale_keys_index(init, source, k);
        let rest = stale_keys(init, source);
        let last = nextcloud.last();
        let keep = is_synced(last.1) && !source.contains_key(last.0);
        if exists|i: int|
            0 <= i < nextcloud.len() && nextcloud[i].0 == k && is_synced(nextcloud[i].1)
                && !source.contains_key(k) {
            let i = choose|i: int|
                0 <= i < nextcloud.len() && nextcloud[i].0 == k && is_synced(nextcloud[i].1)
                    && !source.contains_key(k);
            if i < nextcloud.len() - 1 {
                assert(init[i] == nextcloud[i]);
                let j = choose|j: int| 0 <= j < rest.len() && rest[j] == k;
                if keep {
                    assert(rest.push(last.0)[j] == k);
                }
            } else {
                assert(rest.push(last.0).last() == k);
            }
        }
        if stale_keys(nextcloud, source).contains(k) {
            let all = stale_keys(nextcloud, source);
            let j = choose|j: int| 0 <= j < all.len() && all[j] == k;
            if keep && j == rest.len() {
                assert(nextcloud[nextcloud.len() - 1].0 == k);
            } else {
                assert(rest[j] == k);
                let i = choose|i: int|
                    0 <= i < init.len() && init[i].0 == k && is_synced(init[i].1)
                        && !source.contains_key(k);
                assert(nextcloud[i] == init[i]);
            }
        }
    }
}

/// A key is deleted exactly when Nextcloud holds a synced event under it that the
/// source no longer has: events that this tool did not upload are never deleted.
pub proof fn lemma_deletes_are_stale_synced(
    nextcloud_events: &StringMap<icalendar::Event>,
    source_events: &StringMap<icalendar::Event>,
    key: Seq<char>,
)
    requires
        nextcloud_events.wf(),
    ensures
        stale_keys(nextcloud_events.pairs(), source_events@).contains(key) <==> (
        nextcloud_events@.contains_key(key) && is_synced(nextcloud_events@[key])
            && !source_events@.contains_key(key)),
{
    let pairs = nextcloud_events.pairs();
    lemma_map_of(pairs);
    lemma_stale_keys_index(pairs, source_events@, key);
    if nextcloud_events@.contains_key(key) {
        let i = choose|i: int| 0 <= i < pairs.len() && pairs[i].0 == key;
        assert(map_of(pairs)[pairs[i].0] == pairs[i].1);
    }
}

/// Against a Nextcloud calendar that holds exactly the source events, a sync deletes
/// nothing and uploads only the events without a readable `LAST-MODIFIED`.
pub proof fn lemma_diff_against_itself(events: &StringMap<icalendar::Event>, e: icalendar::Event)
    requires
        events.wf(),
    ensures
        stale_keys(events.pairs(), events@) == Seq::<Seq<char>>::empty(),
        upload_events(events.pairs(), events@).contains(e) <==> exists|key: Seq<char>|
            #![trigger events@[key]]
            events@.contains_key(key) && events@[key] == e && last_modified_of(e) is None,
{
    lemma_uploads_are_new_or_modified(events, events, e);
    let stale = stale_keys(events.pairs(), events@);
    if stale.len() > 0 {
        lemma_deletes_are_stale_synced(events, events, stale[0]);
        assert(stale.contains(stale[0]));
    }
}

/// A key is never both uploaded and deleted in one sync.
pub proof fn lemma_uploads_and_deletes_disjoint(
    source_events: &StringMap<icalendar::Event>,
    nextcloud_events: &StringMap<icalendar::Event>,
    key: Seq<char>,
)
    requires
        nextcloud_events.wf(),
    ensures
        stale_keys(nextcloud_events.pairs(), source_events@).contains(key)
            ==> !source_events@.contains_key(key),
{
    lemma_deletes_are_stale_synced(nextcloud_events, source_events, key);
}

/// Whether an upload can be skipped does not depend on which side is the source.
pub proof fn lemma_unchanged_symmetric(a: icalendar::Event, b: icalendar::Event)
    ensures
        unchanged(a, b) == unchanged(b, a),
{
}

// ---------------------------------------------------------------------------
// The plan of a sync.
// ---------------------------------------------------------------------------

proof fn lemma_upload_events_distinct(
    source: Seq<(Seq<char>, icalendar::Event)>,
    nextcloud: Map<Seq<char>, icalendar::Event>,
)
    requires
        keys_distinct(source),
        forall|i: int| 0 <= i < source.len() ==> uid_of(#[trigger] source[i].1) == Some(source[i].0),
    ensures
        forall|i: int, j: int|
            0 <= i < j < upload_events(source, nextcloud).len() ==> uid_of(
                #[trigger] upload_events(source, nextcloud)[i],
            ) != uid_of(#[trigger] upload_events(source, nextcloud)[j]),
        forall|i: int|
            0 <= i < upload_events(source, nextcloud).len() ==> uid_of(
                #[trigger] upload_events(source, nextcloud)[i],
            ) is Some,
    decreases source.len(),
{
    if source.len() > 0 {
        let init = source.drop_last();
        assert(keys_distinct(init));
        assert forall|i: int| 0 <= i < init.len() implies uid_of(#[trigger] init[i].1) == Some(
            init[i].0,
        ) by {
            assert(init[i] == source[i]);
        }
        lemma_upload_events_distinct(init, nextcloud);
        let rest = upload_events(init, nextcloud);
        let all = upload_events(source, nextcloud);
        let last = source.last();
        assert(uid_of(last.1) == Some(last.0)) by {
            assert(source[source.len() - 1] == last);
        }
        if needs_upload(last.0, last.1, nextcloud) {
            assert forall|i: int, j: int| 0 <= i < j < all.len() implies uid_of(#[trigger] all[i])
                != uid_of(#[trigger] all[j]) by {
                if j == rest.len() {
                    assert(all[j] == last.1);
                    assert(all[i] == rest[i]);
                    lemma_upload_events_index(init, nextcloud, rest[i]);
                    assert(rest.contains(rest[i]));
                    let k = choose|k: int|
                        0 <= k < init.len() && init[k].1 == rest[i] && needs_upload(
                            init[k].0,
                            init[k].1,
                            nextcloud,
                        );
                    assert(init[k] == source[k]);
                    assert(uid_of(init[k].1) == Some(init[k].0));
                    assert(source[k].0 != source[source.len() - 1].0);
                } else {
                    assert(all[i] == rest[i]);
                    assert(all[j] == rest[j]);
                }
            }
            assert forall|i: int| 0 <= i < all.len() implies uid_of(#[trigger] all[i]) is Some by {
                if i < rest.len() {
                    assert(all[i] == rest[i]);
                }
            }
        }
    }
}

proof fn lemma_stale_keys_distinct(
    nextcloud: Seq<(Seq<char>, icalendar::Event)>,
    source: Map<Seq<char>, icalendar::Event>,
)
    requires
        keys_distinct(nextcloud),
    ensures
        stale_keys(nextcloud, source).no_duplicates(),
    decreases nextcloud.len(),
{
    if nextcloud.len() > 0 {
        let init = nextcloud.drop_last();
        assert(keys_distinct(init));
        lemma_stale_keys_distinct(init, source);
        let rest = stale_keys(init, source);
        let last = nextcloud.last();
        if is_synced(last.1) && !source.contains_key(last.0) {
            let all = stale_keys(nextcloud, source);
            assert forall|i: int, j: int| 0 <= i < j < all.len() implies all[i] != all[j] by {
                if j == rest.len() {
                    assert(all[i] == rest[i]);
                    lemma_stale_keys_index(init, source, rest[i]);
                    assert(rest.contains(rest[i]));
                    let k = choose|k: int|
                        0 <= k < init.len() && init[k].0 == rest[i] && is_synced(init[k].1)
                            && !source.contains_key(rest[i]);
                    assert(init[k] == nextcloud[k]);
                    assert(nextcloud[k].0 != nextcloud[nextcloud.len() - 1].0);
                } else {
                    assert(all[i] == rest[i]);
                    assert(all[j] == rest[j]);
                }
            }
        }
    }
}

/// The source events by key, as `extract_events` files them when preparing uploads
/// (before they are prepared).
pub open spec fn source_index(source_calendar: Seq<icalendar::Event>) -> Map<
    Seq<char>,
    icalendar::Event,
> {
    map_of(keyed_events(source_calendar, true))
}

/// The Nextcloud events by UID.
pub open spec fn nextcloud_index(nextcloud_calendar: Seq<icalendar::Event>) -> Map<
    Seq<char>,
    icalendar::Event,
> {
    map_of(keyed_events(nextcloud_calendar, false))
}

proof fn lemma_extracted_nextcloud(
    nextcloud_all: Seq<icalendar::Event>,
    extracted: Map<Seq<char>, icalendar::Event>,
)
    requires
        forall|key: Seq<char>|
            #[trigger] extracted.contains_key(key) == nextcloud_index(nextcloud_all).contains_key(key),
        forall|key: Seq<char>|
            #[trigger] extracted.contains_key(key) ==> filed_as(
                extracted[key],
                nextcloud_index(nextcloud_all)[key],
                false,
            ),
    ensures
        extracted == nextcloud_index(nextcloud_all),
{
    assert(extracted =~= nextcloud_index(nextcloud_all));
}

proof fn lemma_extracted_source(
    source_all: Seq<icalendar::Event>,
    extracted: Map<Seq<char>, icalendar::Event>,
)
    requires
        forall|key: Seq<char>|
            #[trigger] extracted.contains_key(key) == source_index(source_all).contains_key(key),
        forall|key: Seq<char>|
            #[trigger] extracted.contains_key(key) ==> filed_as(
                extracted[key],
                source_index(source_all)[key],
                true,
            ),
        "LAST-MODIFIED"@ != "UID"@,
        "LAST-MODIFIED"@ != "X-SYNCED"@,
    ensures
        forall|key: Seq<char>|
            #[trigger] extracted.contains_key(key) ==> last_modified_of(extracted[key])
                == last_modified_of(source_index(source_all)[key]),
{
    assert forall|key: Seq<char>| #[trigger]
        extracted.contains_key(key) implies last_modified_of(extracted[key]) == last_modified_of(
        source_index(source_all)[key],
    ) by {
        lemma_keyed_map_keys(source_all, true, key);
        let original = source_index(source_all)[key];
        assert(uid_of(original) is Some);
        assert(event_properties(extracted[key]) == processed_properties(original));
    }
}

/// The requests a sync makes.
pub struct SyncPlan {
    pub uploads: Vec<UploadRequest>,
    pub deletes: Vec<DeleteRequest>,
}

/// The uploads of `plan` are the events filed under `key` in `source` that need an
/// upload over `nextcloud`, one request per key, each to the key's URL.
pub open spec fn plans_uploads(
    uploads: Seq<UploadRequest>,
    calendar_url: Seq<char>,
    source: Map<Seq<char>, icalendar::Event>,
    nextcloud: Map<Seq<char>, icalendar::Event>,
) -> bool {
    &&& forall|key: Seq<char>|
        (exists|i: int| 0 <= i < uploads.len() && #[trigger] uploads[i].uid@ == key) <==> (
        source.contains_key(key) && needs_upload(key, source[key], nextcloud))
    &&& forall|i: int|
        0 <= i < uploads.len() ==> #[trigger] uploads[i].url@ == event_url(
            calendar_url,
            uploads[i].uid@,
        )
    &&& forall|i: int, j: int|
        0 <= i < j < uploads.len() ==> #[trigger] uploads[i].uid@ != #[trigger] uploads[j].uid@
}

/// Each upload carries the source event filed under its key, prepared for upload: its
/// UID encoded, the `X-SYNCED` marker set, every other property as in the source.
pub open spec fn uploads_carry_prepared(
    uploads: Seq<UploadRequest>,
    source: Map<Seq<char>, icalendar::Event>,
) -> bool {
    forall|i: int|
        0 <= i < uploads.len() ==> {
            &&& source.contains_key(uploads[i].uid@)
            &&& event_key(source[uploads[i].uid@], true) == Some(uploads[i].uid@)
            &&& event_properties(#[trigger] uploads[i].event) == processed_properties(
                source[uploads[i].uid@],
            )
            &&& event_multi_properties(uploads[i].event) == event_multi_properties(
                source[uploads[i].uid@],
            )
        }
}

/// The deletions are the synced events of `nextcloud` whose key `source` lacks, one
/// request per key, each to the key's URL.
pub open spec fn plans_deletes(
    deletes: Seq<DeleteRequest>,
    calendar_url: Seq<char>,
    source: Map<Seq<char>, icalendar::Event>,
    nextcloud: Map<Seq<char>, icalendar::Event>,
) -> bool {
    &&& forall|key: Seq<char>|
        (exists|i: int| 0 <= i < deletes.len() && #[trigger] deletes[i].uid@ == key) <==> (
        nextcloud.contains_key(key) && is_synced(nextcloud[key]) && !source.contains_key(key))
    &&& forall|i: int|
        0 <= i < deletes.len() ==> #[trigger] deletes[i].url@ == event_url(
            calendar_url,
            deletes[i].uid@,
        )
    &&& forall|i: int, j: int|
        0 <= i < j < deletes.len() ==> #[trigger] deletes[i].uid@ != #[trigger] deletes[j].uid@
}

fn delete_requests(calendar_url: &str, uids: &Vec<String>) -> (requests: Vec<DeleteRequest>)
    ensures
        requests@.len() == uids@.len(),
        forall|i: int|
            0 <= i < uids@.len() ==> #[trigger] requests@[i].uid@ == uids@[i]@
                && requests@[i].url@ == event_url(calendar_url@, uids@[i]@),
{
    let mut requests: Vec<DeleteRequest> = Vec::new();
    let n = uids.len();
    let mut i: usize = 0;
    while i < n
        invariant
            n == uids@.len(),
            i <= n,
            requests@.len() == i,
            forall|j: int|
                0 <= j < i ==> #[trigger] requests@[j].uid@ == uids@[j]@
                    && requests@[j].url@ == event_url(calendar_url@, uids@[j]@),
        decreases n - i,
    {
        requests.push(delete_request(calendar_url, uids[i].clone()));
        i = i + 1;
    }
    requests
}

/// Plans a sync of the source calendar into the Nextcloud calendar at `calendar_url`:
/// every source event that Nextcloud lacks, or holds with another (or no readable)
/// `LAST-MODIFIED` instant, is uploaded under its encoded UID, and every event that
/// this tool uploaded earlier and the source no longer has is deleted.
pub fn plan_sync(
    calendar_url: &str,
    source_calendar: ParsedCalendar,
    nextcloud_calendar: ParsedCalendar,
) -> (plan: SyncPlan)
    ensures
        plans_uploads(
            plan.uploads@,
            calendar_url@,
            source_index(source_calendar.events@),
            nextcloud_index(nextcloud_calendar.events@),
        ),
        plans_deletes(
            plan.deletes@,
            calendar_url@,
            source_index(source_calendar.events@),
            nextcloud_index(nextcloud_calendar.events@),
        ),
        uploads_carry_prepared(plan.uploads@, source_index(source_calendar.events@)),
        forall|i: int|
            0 <= i < plan.uploads@.len() ==> #[trigger] plan.uploads@[i].event == with_property(
                with_property(
                    source_index(source_calendar.events@)[plan.uploads@[i].uid@],
                    "UID"@,
                    plan.uploads@[i].uid@,
                ),
                "X-SYNCED"@,
                "TRUE"@,
            ),
{
    let ghost source_all = source_calendar.events@;
    let ghost nextcloud_all = nextcloud_calendar.events@;
    let mut source_events = extract_events(source_calendar, true);
    let nextcloud_events = extract_events(nextcloud_calendar, false);
    let (to_upload, to_delete) = calculate_diff(&source_events, &nextcloud_events);
    let ghost src = source_index(source_all);
    let ghost nc = nextcloud_index(nextcloud_all);
    let ghost pending = upload_events(source_events.pairs(), nextcloud_events@);
    proof {
        lemma_map_of(source_events.pairs());
        assert forall|i: int| 0 <= i < source_events.pairs().len() implies uid_of(
            #[trigger] source_events.pairs()[i].1,
        ) == Some(source_events.pairs()[i].0) by {
            assert(source_events@[source_events.pairs()[i].0] == source_events.pairs()[i].1);
        }
        lemma_upload_events_distinct(source_events.pairs(), nextcloud_events@);
        reveal_strlit("UID");
        reveal_strlit("X-SYNCED");
        reveal_strlit("LAST-MODIFIED");
        assert("LAST-MODIFIED"@ != "UID"@) by {
            assert("LAST-MODIFIED"@.len() != "UID"@.len());
        }
        assert("LAST-MODIFIED"@ != "X-SYNCED"@) by {
            assert("LAST-MODIFIED"@.len() != "X-SYNCED"@.len());
        }
    }
    let mut uploads: Vec<UploadRequest> = Vec::new();
    let n = to_upload.len();
    let mut i: usize = 0;
    while i < n
        invariant
            n == to_upload@.len(),
            to_upload@.map_values(|e: &icalendar::Event| *e) == pending,
            forall|j: int|
                0 <= j < pending.len() ==> uid_of(#[trigger] pending[j]) is Some,
            i <= n,
            uploads@.len() == i,
            forall|j: int|
                0 <= j < i ==> Some(#[trigger] uploads@[j].uid@) == uid_of(pending[j])
                    && uploads@[j].url@ == event_url(calendar_url@, uploads@[j].uid@)
                    && event_properties(uploads@[j].event) == event_properties(pending[j])
                    && event_multi_properties(uploads@[j].event) == event_multi_properties(
                    pending[j],
                ),
        decreases n - i,
    {
        let event = to_upload[i];
        assert(*event == pending[i as int]);
        match upload_request(calendar_url, event) {
            Ok(request) => {
                uploads.push(request);
            },
            Err(_) => {
                assert(false);
            },
        }
        i = i + 1;
    }
    proof {
        // The upload keys are the keys of the pending events.
        lemma_extracted_nextcloud(nextcloud_all, nextcloud_events@);
        lemma_extracted_source(source_all, source_events@);
        assert forall|key: Seq<char>|
            (exists|j: int| 0 <= j < uploads@.len() && #[trigger] uploads@[j].uid@ == key) <==> (
            src.contains_key(key) && needs_upload(key, src[key], nc)) by {
            if exists|j: int| 0 <= j < uploads@.len() && #[trigger] uploads@[j].uid@ == key {
                let j = choose|j: int| 0 <= j < uploads@.len() && #[trigger] uploads@[j].uid@ == key;
                let e = pending[j];
                assert(pending.contains(e));
                lemma_uploads_are_new_or_modified(&source_events, &nextcloud_events, e);
                let k = choose|k: Seq<char>|
                    #![trigger source_events@[k]]
                    source_events@.contains_key(k) && source_events@[k] == e && needs_upload(
                        k,
                        e,
                        nextcloud_events@,
                    );
                assert(uid_of(source_events@[k]) == Some(k));
            }
            if src.contains_key(key) && needs_upload(key, src[key], nc) {
                assert(source_events@.contains_key(key));
                let e = source_events@[key];
                lemma_uploads_are_new_or_modified(&source_events, &nextcloud_events, e);
                assert(needs_upload(key, e, nextcloud_events@));
                assert(pending.contains(e));
                let j = choose|j: int| 0 <= j < pending.len() && pending[j] == e;
                assert(uid_of(e) == Some(key));
                assert(uploads@[j].uid@ == key);
            }
        }
        assert forall|a: int, b: int| 0 <= a < b < uploads@.len() implies #[trigger] uploads@[
            a
        ].uid@ != #[trigger] uploads@[b].uid@ by {
            assert(uid_of(pending[a]) != uid_of(pending[b]));
        }
        assert forall|j: int| 0 <= j < uploads@.len() implies src.contains_key(
            uploads@[j].uid@,
        ) && event_properties(#[trigger] uploads@[j].event) == processed_properties(
            src[uploads@[j].uid@],
        ) && event_multi_properties(uploads@[j].event) == event_multi_properties(
            src[uploads@[j].uid@],
        ) by {
            let e = pending[j];
            assert(pending.contains(e));
            lemma_uploads_are_new_or_modified(&source_events, &nextcloud_events, e);
            let k = choose|k: Seq<char>|
                #![trigger source_events@[k]]
                source_events@.contains_key(k) && source_events@[k] == e && needs_upload(
                    k,
                    e,
                    nextcloud_events@,
                );
            assert(uid_of(source_events@[k]) == Some(k));
            assert(uploads@[j].uid@ == k);
            assert(src.contains_key(k));
            lemma_keyed_map_keys(source_all, true, k);
            assert(uid_of(src[k]) is Some);
            assert(event_key(src[k], true) == Some(k));
            assert(filed_as(source_events@[k], src[k], true));
        }
    }
    proof {
        assert forall|j: int| 0 <= j < uploads@.len() implies source_events@.contains_key(
            #[trigger] uploads@[j].uid@,
        ) && filed_as(source_events@[uploads@[j].uid@], src[uploads@[j].uid@], true)
            && event_key(src[uploads@[j].uid@], true) == Some(uploads@[j].uid@) by {
            let e = pending[j];
            assert(pending.contains(e));
            lemma_uploads_are_new_or_modified(&source_events, &nextcloud_events, e);
            let k = choose|k: Seq<char>|
                #![trigger source_events@[k]]
                source_events@.contains_key(k) && source_events@[k] == e && needs_upload(
                    k,
                    e,
                    nextcloud_events@,
                );
            assert(uid_of(source_events@[k]) == Some(k));
            assert(uploads@[j].uid@ == k);
            lemma_keyed_map_keys(source_all, true, k);
        }
    }
    let ghost stale = to_delete@.map_values(|u: String| u@);
    let deletes = delete_requests(calendar_url, &to_delete);
    proof {
        lemma_stale_keys_distinct(nextcloud_events.pairs(), source_events@);
        assert forall|key: Seq<char>|
            (exists|j: int| 0 <= j < deletes@.len() && #[trigger] deletes@[j].uid@ == key) <==> (
            nc.contains_key(key) && is_synced(nc[key]) && !src.contains_key(key)) by {
            lemma_deletes_are_stale_synced(&nextcloud_events, &source_events, key);
            if exists|j: int| 0 <= j < deletes@.len() && #[trigger] deletes@[j].uid@ == key {
                let j = choose|j: int| 0 <= j < deletes@.len() && #[trigger] deletes@[j].uid@ == key;
                assert(stale[j] == key);
                assert(stale.contains(key));
            }
            if nc.contains_key(key) && is_synced(nc[key]) && !src.contains_key(key) {
                assert(stale.contains(key));
                let j = choose|j: int| 0 <= j < stale.len() && stale[j] == key;
                assert(deletes@[j].uid@ == key);
            }
        }
        assert forall|a: int, b: int| 0 <= a < b < deletes@.len() implies #[trigger] deletes@[
            a
        ].uid@ != #[trigger] deletes@[b].uid@ by {
            assert(stale[a] != stale[b]);
        }
    }
    // Each upload carries the prepared source event itself, taken out of the map.
    let ghost filed = source_events@;
    let mut planned: Vec<UploadRequest> = Vec::new();
    let m = uploads.len();
    let mut j: usize = 0;
    while j < m
        invariant
            m == uploads@.len(),
            j <= m,
            planned@.len() == j,
            forall|a: int, b: int|
                0 <= a < b < uploads@.len() ==> #[trigger] uploads@[a].uid@
                    != #[trigger] uploads@[b].uid@,
            forall|a: int|
                0 <= a < j ==> #[trigger] planned@[a].uid@ == uploads@[a].uid@
                    && planned@[a].url@ == uploads@[a].url@ && planned@[a].event
                    == filed[uploads@[a].uid@],
            forall|a: int|
                j <= a < m ==> source_events@.contains_key(#[trigger] uploads@[a].uid@)
                    && source_events@[uploads@[a].uid@] == filed[uploads@[a].uid@],
        decreases m - j,
    {
        let uid = uploads[j].uid.clone();
        let url = uploads[j].url.clone();
        let ghost before = source_events@;
        assert(before.contains_key(uploads@[j as int].uid@));
        match source_events.remove(uid.as_str()) {
            Some(event) => {
                planned.push(UploadRequest { uid, url, event });
            },
            None => {
                assert(false);
            },
        }
        proof {
            assert forall|a: int| j + 1 <= a < m implies source_events@.contains_key(
                #[trigger] uploads@[a].uid@,
            ) && source_events@[uploads@[a].uid@] == filed[uploads@[a].uid@] by {
                assert(uploads@[a].uid@ != uploads@[j as int].uid@);
            }
        }
        j = j + 1;
    }
    proof {
        assert forall|key: Seq<char>|
            (exists|a: int| 0 <= a < planned@.len() && #[trigger] planned@[a].uid@ == key) <==> (
            src.contains_key(key) && needs_upload(key, src[key], nc)) by {
            if exists|a: int| 0 <= a < planned@.len() && #[trigger] planned@[a].uid@ == key {
                let a = choose|a: int| 0 <= a < planned@.len() && #[trigger] planned@[a].uid@ == key;
                assert(uploads@[a].uid@ == key);
            }
            if exists|a: int| 0 <= a < uploads@.len() && #[trigger] uploads@[a].uid@ == key {
                let a = choose|a: int| 0 <= a < uploads@.len() && #[trigger] uploads@[a].uid@ == key;
                assert(planned@[a].uid@ == key);
            }
        }
        assert forall|a: int, b: int| 0 <= a < b < planned@.len() implies #[trigger] planned@[
            a
        ].uid@ != #[trigger] planned@[b].uid@ by {
            assert(planned@[a].uid@ == uploads@[a].uid@);
            assert(planned@[b].uid@ == uploads@[b].uid@);
        }
        assert forall|a: int| 0 <= a < planned@.len() implies #[trigger] planned@[a].url@
            == event_url(calendar_url@, planned@[a].uid@) by {
            assert(planned@[a].uid@ == uploads@[a].uid@);
        }
        assert forall|a: int| 0 <= a < planned@.len() implies {
            let key = planned@[a].uid@;
            &&& src.contains_key(key)
            &&& event_key(src[key], true) == Some(key)
            &&& event_properties(#[trigger] planned@[a].event) == processed_properties(src[key])
            &&& event_multi_properties(planned@[a].event) == event_multi_properties(src[key])
            &&& planned@[a].event == with_property(
                with_property(src[key], "UID"@, key),
                "X-SYNCED"@,
                "TRUE"@,
            )
        } by {
            let key = uploads@[a].uid@;
            assert(planned@[a].uid@ == key);
            assert(filed.contains_key(key));
            assert(filed_as(filed[key], src[key], true));
            assert(is_processing_of(planned@[a].event, src[key]));
        }
    }
    SyncPlan { uploads: planned, deletes }
}

proof fn lemma_synced_keys_are_stale_against_nothing(
    nextcloud: Seq<(Seq<char>, icalendar::Event)>,
)
    ensures
        synced_keys(nextcloud) == stale_keys(nextcloud, Map::<Seq<char>, icalendar::Event>::empty()),
    decreases nextcloud.len(),
{
    if nextcloud.len() > 0 {
        lemma_synced_keys_are_stale_against_nothing(nextcloud.drop_last());
    }
}

/// Plans the removal of everything this tool uploaded to the Nextcloud calendar at
/// `calendar_url`: one deletion per synced event, and none of any other event.
pub fn plan_delete_synced(calendar_url: &str, nextcloud_calendar: ParsedCalendar) -> (deletes:
    Vec<DeleteRequest>)
    ensures
        plans_deletes(
            deletes@,
            calendar_url@,
            Map::<Seq<char>, icalendar::Event>::empty(),
            nextcloud_index(nextcloud_calendar.events@),
        ),
{
    let ghost nextcloud_all = nextcloud_calendar.events@;
    let nextcloud_events = extract_events(nextcloud_calendar, false);
    let uids = get_synced_uids(&nextcloud_events);
    let ghost stale = uids@.map_values(|u: String| u@);
    let ghost nothing = Map::<Seq<char>, icalendar::Event>::empty();
    let ghost nc = nextcloud_index(nextcloud_all);
    let deletes = delete_requests(calendar_url, &uids);
    proof {
        lemma_extracted_nextcloud(nextcloud_all, nextcloud_events@);
        lemma_synced_keys_are_stale_against_nothing(nextcloud_events.pairs());
        lemma_stale_keys_distinct(nextcloud_events.pairs(), nothing);
        assert forall|key: Seq<char>|
            (exists|j: int| 0 <= j < deletes@.len() && #[trigger] deletes@[j].uid@ == key) <==> (
            nc.contains_key(key) && is_synced(nc[key]) && !nothing.contains_key(key)) by {
            lemma_stale_keys_index(nextcloud_events.pairs(), nothing, key);
            lemma_map_of(nextcloud_events.pairs());
            if exists|j: int| 0 <= j < deletes@.len() && #[trigger] deletes@[j].uid@ == key {
                let j = choose|j: int| 0 <= j < deletes@.len() && #[trigger] deletes@[j].uid@ == key;
                assert(stale[j] == key);
                assert(stale.contains(key));
                let i = choose|i: int|
                    0 <= i < nextcloud_events.pairs().len() && nextcloud_events.pairs()[i].0 == key
                        && is_synced(nextcloud_events.pairs()[i].1) && !nothing.contains_key(key);
                assert(nextcloud_events@[nextcloud_events.pairs()[i].0]
                    == nextcloud_events.pairs()[i].1);
            }
            if nc.contains_key(key) && is_synced(nc[key]) {
                let i = choose|i: int|
                    0 <= i < nextcloud_events.pairs().len() && nextcloud_events.pairs()[i].0 == key;
                assert(nextcloud_events@[nextcloud_events.pairs()[i].0]
                    == nextcloud_events.pairs()[i].1);
                assert(stale.contains(key));
                let j = choose|j: int| 0 <= j < stale.len() && stale[j] == key;
                assert(deletes@[j].uid@ == key);
            }
        }
        assert forall|a: int, b: int| 0 <= a < b < deletes@.len() implies #[trigger] deletes@[
            a
        ].uid@ != #[trigger] deletes@[b].uid@ by {
            assert(stale[a] != stale[b]);
        }
    }
    deletes
}

/// An event that a sync uploads, read back from Nextcloud with the properties it was
/// sent with, is filed under the key it was uploaded under and known as synced; the
/// next sync skips re-uploading it exactly when the source event has a readable
/// `LAST-MODIFIED`, and deletes it once the source drops it.
pub proof fn lemma_uploaded_event_read_back(
    uploads: Seq<UploadRequest>,
    source: Map<Seq<char>, icalendar::Event>,
    i: int,
    stored: icalendar::Event,
)
    requires
        uploads_carry_prepared(uploads, source),
        0 <= i < uploads.len(),
        event_properties(stored) == event_properties(uploads[i].event),
    ensures
        event_key(stored, false) == Some(uploads[i].uid@),
        is_synced(stored),
        unchanged(uploads[i].event, stored) <==> last_modified_of(source[uploads[i].uid@]) is Some,
{
    let key = uploads[i].uid@;
    let original = source[key];
    assert(event_properties(uploads[i].event) == processed_properties(original));
    assert(uid_of(original) is Some);
    lemma_processed_properties(original);
}

/// What preparing an event does to the properties that filing and the upload decision
/// read: the UID becomes the encoded UID, the marker is set, `LAST-MODIFIED` stays.
proof fn lemma_processed_properties(event: icalendar::Event)
    requires
        uid_of(event) is Some,
    ensures
        processed_properties(event).contains_key("UID"@),
        processed_properties(event)["UID"@] == encoded_uid(uid_of(event)->0),
        processed_properties(event).contains_key("X-SYNCED"@),
        processed_properties(event).contains_key("LAST-MODIFIED"@) == event_properties(
            event,
        ).contains_key("LAST-MODIFIED"@),
        processed_properties(event)["LAST-MODIFIED"@] == event_properties(event)["LAST-MODIFIED"@],
{
    reveal_strlit("UID");
    reveal_strlit("X-SYNCED");
    reveal_strlit("LAST-MODIFIED");
    assert("UID"@ != "X-SYNCED"@) by {
        assert("UID"@.len() != "X-SYNCED"@.len());
    }
    assert("LAST-MODIFIED"@ != "UID"@) by {
        assert("LAST-MODIFIED"@.len() != "UID"@.len());
    }
    assert("LAST-MODIFIED"@ != "X-SYNCED"@) by {
        assert("LAST-MODIFIED"@.len() != "X-SYNCED"@.len());
    }
}

proof fn lemma_no_keyed_events(events: Seq<icalendar::Event>, process_events: bool)
    requires
        forall|i: int| 0 <= i < events.len() ==> uid_of(#[trigger] events[i]) is None,
    ensures
        keyed_events(events, process_events) == Seq::<(Seq<char>, icalendar::Event)>::empty(),
    decreases events.len(),
{
    if events.len() > 0 {
        assert(uid_of(events[events.len() - 1]) is None);
        lemma_no_keyed_events(events.drop_last(), process_events);
    }
}

/// A sync from a source without a single event that has a UID uploads nothing and
/// deletes exactly what a clean-up deletes: every synced event.
pub proof fn lemma_sync_from_empty_source_is_cleanup(
    source_calendar: Seq<icalendar::Event>,
    nextcloud_calendar: Seq<icalendar::Event>,
    calendar_url: Seq<char>,
    uploads: Seq<UploadRequest>,
    deletes: Seq<DeleteRequest>,
)
    requires
        forall|i: int| 0 <= i < source_calendar.len() ==> uid_of(#[trigger] source_calendar[i]) is None,
    ensures
        plans_uploads(
            uploads,
            calendar_url,
            source_index(source_calendar),
            nextcloud_index(nextcloud_calendar),
        ) ==> uploads.len() == 0,
        plans_deletes(
            deletes,
            calendar_url,
            source_index(source_calendar),
            nextcloud_index(nextcloud_calendar),
        ) == plans_deletes(
            deletes,
            calendar_url,
            Map::<Seq<char>, icalendar::Event>::empty(),
            nextcloud_index(nextcloud_calendar),
        ),
{
    lemma_no_keyed_events(source_calendar, true);
    assert(source_index(source_calendar) =~= Map::<Seq<char>, icalendar::Event>::empty());
    if plans_uploads(
        uploads,
        calendar_url,
        source_index(source_calendar),
        nextcloud_index(nextcloud_calendar),
    ) && uploads.len() > 0 {
        let key = uploads[0].uid@;
        assert(exists|j: int| 0 <= j < uploads.len() && #[trigger] uploads[j].uid@ == key);
        assert(!source_index(source_calendar).contains_key(key));
    }
}

/// Preparing the events and then filing them by UID files, under each key, exactly the
/// prepared copy of what filing the original events with preparation files there: the
/// two ways of extracting give the same map of events.
pub proof fn lemma_prepare_then_file(
    events: Seq<icalendar::Event>,
    prepared: Seq<icalendar::Event>,
)
    requires
        prepared.len() == events.len(),
        forall|i: int| 0 <= i < events.len() ==> is_processing_of(#[trigger] prepared[i], events[i]),
    ensures
        forall|key: Seq<char>|
            #[trigger] map_of(keyed_events(prepared, false)).contains_key(key) == map_of(
                keyed_events(events, true),
            ).contains_key(key),
        forall|key: Seq<char>|
            #[trigger] map_of(keyed_events(prepared, false)).contains_key(key) ==> is_processing_of(
                map_of(keyed_events(prepared, false))[key],
                map_of(keyed_events(events, true))[key],
            ),
        extracted(prepared, false) == extracted(events, true),
    decreases events.len(),
{
    if events.len() > 0 {
        let n = events.len() - 1;
        assert forall|i: int| 0 <= i < events.drop_last().len() implies is_processing_of(
            #[trigger] prepared.drop_last()[i],
            events.drop_last()[i],
        ) by {
            assert(is_processing_of(prepared[i], events[i]));
        }
        lemma_prepare_then_file(events.drop_last(), prepared.drop_last());
        let e = events[n];
        let p = prepared[n];
        assert(is_processing_of(p, e));
        if uid_of(e) is Some {
            lemma_processed_properties(e);
        }
        assert(event_key(p, false) == event_key(e, true));
        let k1 = keyed_events(events.drop_last(), true);
        let k2 = keyed_events(prepared.drop_last(), false);
        assert(events.last() == e && prepared.last() == p);
        match event_key(e, true) {
            Some(k) => {
                assert(keyed_events(events, true) == k1.push((k, e)));
                assert(keyed_events(prepared, false) == k2.push((k, p)));
                assert(k1.push((k, e)).drop_last() =~= k1);
                assert(k2.push((k, p)).drop_last() =~= k2);
                assert(map_of(keyed_events(events, true)) == map_of(k1).insert(k, e));
                assert(map_of(keyed_events(prepared, false)) == map_of(k2).insert(k, p));
            },
            None => {
                assert(keyed_events(events, true) == k1);
                assert(keyed_events(prepared, false) == k2);
            },
        }
    }
    assert(extracted(prepared, false) =~= extracted(events, true));
}

/// The document of a planned upload names the upload's own UID: once unfolded, it
/// holds `:` followed by the uid that is the name of the request's URL, so the stored
/// event is found under the key the next sync looks it up by.
pub proof fn lemma_upload_document_holds_its_uid(
    uploads: Seq<UploadRequest>,
    source: Map<Seq<char>, icalendar::Event>,
    i: int,
    document: Seq<char>,
)
    requires
        uploads_carry_prepared(uploads, source),
        0 <= i < uploads.len(),
        forall|name: Seq<char>|
            #[trigger] event_properties(uploads[i].event).contains_key(name) && is_plain_value(
                event_properties(uploads[i].event)[name],
            ) ==> holds_text(unfolded_ics(document), ":"@ + event_properties(uploads[i].event)[name]),
    ensures
        holds_text(unfolded_ics(document), ":"@ + uploads[i].uid@),
        is_plain_value(uploads[i].uid@),
{
    let key = uploads[i].uid@;
    let original = source[key];
    assert(event_properties(uploads[i].event) == processed_properties(original));
    assert(uid_of(original) is Some);
    lemma_processed_properties(original);
    assert(encoded_uid(uid_of(original)->0) == key);
    lemma_encoded_uid_is_segment(uid_of(original)->0);
    assert forall|k: int| 0 <= k < key.len() implies is_plain_value_char(#[trigger] key[k]) by {
        assert(is_segment_char(key[k]));
    }
    assert(event_properties(uploads[i].event).contains_key("UID"@));
    assert(event_properties(uploads[i].event)["UID"@] == key);
}

} // verus!
