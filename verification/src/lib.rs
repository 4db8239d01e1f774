//! Calendar events gathered from several sources, normalised into one record,
//! grouped by local calendar day and cached for a bounded time.
//!
//! Everything here is plain computation with machine-checked contracts:
//! fetching, waiting and serialising are left to the program built around it.

pub mod time;
pub mod config;
pub mod days;
pub mod event;
pub mod lists;
pub mod manager;
pub mod server;
pub mod text;

pub use days::{DayList, Days};
pub use event::Event;
pub use time::Timestamp;
