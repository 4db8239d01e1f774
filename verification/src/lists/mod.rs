//! The sources that events come from.

pub mod google;
pub mod remoteical;
