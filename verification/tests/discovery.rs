use nextcloud_ics_sync::nextcloud::api::calendar_ids;
use nextcloud_ics_sync::nextcloud::{
    first_href, report_body, Empty, Multistatus, Prop, Propstat, ResourceType, Response,
};

fn response(href: &str, types: Vec<Option<bool>>) -> Response {
    Response {
        href: href.to_string(),
        propstats: types
            .into_iter()
            .map(|t| Propstat {
                prop: Prop {
                    resourcetype: t.map(|deleted| ResourceType {
                        calendar_deleted: if deleted { Some(Empty) } else { None },
                    }),
                    owner: None,
                    displayname: None,
                },
                status: "HTTP/1.1 200 OK".to_string(),
            })
            .collect(),
    }
}

#[test]
fn calendar_ids_keep_live_calendars_of_user() {
    let ms = Multistatus {
        responses: vec![
            response("/remote.php/dav/calendars/me/", vec![Some(false)]),
            response("/remote.php/dav/calendars/me/personal/", vec![Some(false)]),
            response("/remote.php/dav/calendars/me/trashbin/", vec![None]),
            response("/remote.php/dav/calendars/me/old/", vec![Some(true)]),
            response("/remote.php/dav/calendars/me/work/", vec![Some(false), Some(false)]),
            response("/remote.php/dav/calendars/me/mixed/", vec![Some(false), None]),
            response("/remote.php/dav/calendars/me/empty/", vec![]),
        ],
    };
    assert_eq!(
        calendar_ids(&ms, "me"),
        vec!["personal".to_string(), "work".to_string(), "empty".to_string()]
    );
}

#[test]
fn report_body_names_uid() {
    let body = report_body("abc-1");
    assert!(body.starts_with("<?xml version=\"1.0\" encoding=\"UTF-8\"?>"));
    assert!(body.contains("match-type=\"equals\">abc-1</c:text-match>"));
    assert!(body.ends_with("</c:calendar-query>"));
}

#[test]
fn first_href_of_answer() {
    let ms = Multistatus {
        responses: vec![response("/a.ics", vec![]), response("/b.ics", vec![])],
    };
    assert_eq!(first_href(&ms), Some("/a.ics".to_string()));
    assert_eq!(first_href(&Multistatus { responses: vec![] }), None);
}
