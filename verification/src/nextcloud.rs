pub mod api;
pub mod models;
pub mod utils;

use vstd::prelude::*;

pub use models::{Empty, Multistatus, Owner, Prop, Propstat, ResourceType, Response};

use crate::text::concat3;

verus! {

/// The opening of the CalDAV `REPORT` query for the event with a given UID.
pub const REPORT_QUERY_HEAD: &'static str = "<?xml version=\"1.0\" encoding=\"UTF-8\"?>
         <c:calendar-query xmlns:d=\"DAV:\" xmlns:c=\"urn:ietf:params:xml:ns:caldav\">
           <d:prop>
             <d:getetag/>
             <c:calendar-data/>
           </d:prop>
           <c:filter>
             <c:comp-filter name=\"VCALENDAR\">
               <c:comp-filter name=\"VEVENT\">
                 <c:prop-filter name=\"UID\">
                   <c:text-match collation=\"i;unicode-casemap\" match-type=\"equals\">";

/// The close of the CalDAV `REPORT` query for the event with a given UID.
pub const REPORT_QUERY_TAIL: &'static str = "</c:text-match>
                 </c:prop-filter>
               </c:comp-filter>
             </c:comp-filter>
           </c:filter>
         </c:calendar-query>";

/// The body of the `REPORT` that asks Nextcloud for the event with `uid`.
pub fn report_body(uid: &str) -> (body: String)
    ensures
        body@ == REPORT_QUERY_HEAD@ + uid@ + REPORT_QUERY_TAIL@,
{
    concat3(REPORT_QUERY_HEAD, uid, REPORT_QUERY_TAIL)
}

/// The href of the first resource of a `REPORT` answer; `None` when it names none.
pub fn first_href(multistatus: &Multistatus) -> (href: Option<String>)
    ensures
        match href {
            Some(h) => multistatus.responses@.len() > 0 && h@ == multistatus.responses@[0].href@,
            None => multistatus.responses@.len() == 0,
        },
{
    if multistatus.responses.len() > 0 {
        Some(multistatus.responses[0].href.clone())
    } else {
        None
    }
}

} // verus!
