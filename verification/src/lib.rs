pub mod config;
pub mod ical;
pub mod ics_parser;
pub mod nesting;
pub mod nextcloud;
pub mod string_map;
pub mod sync;
pub mod text;

pub use sync::{calculate_diff, get_synced_uids, plan_delete_synced, plan_sync};
