//! A personal time-tracking log: work sessions with start/stop timestamps,
//! a goal, a result and notes, kept in an always-sorted collection,
//! persisted as structured text and summarized by calendar period.
pub mod calendar;
pub mod codec;
pub mod durfmt;
pub mod entry;
pub mod log;
pub mod num;
pub mod render;
pub mod summary;
pub mod text;

pub use codec::read_entries;
pub use codec::write_entries;
pub use durfmt::format_dur;
pub use entry::Entry;
pub use log::Log;
pub use log::OpError;
pub use entry::Timestamp;
pub use render::fmt_option_title_pad;
pub use render::fmt_str_title_pad;
pub use render::render_entry;
pub use summary::sort_hash_map;
pub use summary::summarize;
