# nextcloud_ics_sync

One-way sync of a remote iCalendar feed into a Nextcloud calendar (WebDAV/CalDAV).
The library in `src/` takes the decisions of a sync (what to upload and delete, where,
and how events are prepared), states them in contracts and proves them; the program in
`app/` reads the environment, talks HTTP and reports. What icalendar itself computes
(parsing, reading dates, rendering a document) is called through small wrappers whose
documentation says what is relied on.

Layout of `src/`:

- `config.rs`: the environment as a value, and the settings read from it.
- `ical.rs`: the icalendar types the library carries and what it reads of them.
- `ics_parser.rs`: reading a downloaded calendar (status, UTF-8, iCalendar).
- `nesting.rs`: a bound on how deeply a calendar's components nest, checked before
  a text is handed to the parser.
- `nextcloud/utils.rs`: calendar ids in collection hrefs; UIDs as path segments;
  preparing an event for upload.
- `nextcloud/api.rs`: events by UID, the "unchanged" test, upload and delete
  requests, calendar discovery.
- `nextcloud/models.rs`: WebDAV multistatus answers.
- `sync.rs`: what a sync uploads and deletes, the plan of a sync or a clean-up,
  and the laws they obey.
- `string_map.rs`, `text.rs`: a text-keyed map and the string operations used.
