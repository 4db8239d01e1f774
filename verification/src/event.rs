//! The record that every source produces.

use crate::time::{Timestamp, TimestampView};
use vstd::prelude::*;

verus! {

/// The mathematical value of an [`Event`].
pub struct EventView {
    pub title: Seq<char>,
    pub desc: Seq<char>,
    pub end: Option<TimestampView>,
    pub start: Option<TimestampView>,
    pub class: Option<Seq<char>>,
}

/// One calendar entry, whichever source it came from.
#[derive(Debug, PartialEq, Eq)]
pub struct Event {
    /// What the entry is called.
    pub title: String,
    /// The longer text that goes with it.
    pub desc: String,
    /// When it ends, if the source said so.
    pub end: Option<Timestamp>,
    /// When it starts, if the source said so.
    pub start: Option<Timestamp>,
    /// A classification such as the place, if the source carries one.
    pub class: Option<String>,
}

impl View for Event {
    type V = EventView;

    open spec fn view(&self) -> EventView {
        EventView {
            title: self.title@,
            desc: self.desc@,
            end: self.end.deep_view(),
            start: self.start.deep_view(),
            class: self.class.deep_view(),
        }
    }
}

impl DeepView for Event {
    type V = EventView;

    open spec fn deep_view(&self) -> EventView {
        self@
    }
}

/// The event that nothing is known about yet.
pub open spec fn unknown_event() -> EventView {
    EventView { title: "Unknown"@, desc: "Unknown"@, end: None, start: None, class: None }
}

impl Clone for Event {
    fn clone(&self) -> (copy: Event)
        ensures
            copy@ == self@,
    {
        let class = match &self.class {
            Some(text) => Some(text.clone()),
            None => None,
        };
        Event {
            title: self.title.clone(),
            desc: self.desc.clone(),
            end: self.end,
            start: self.start,
            class,
        }
    }
}

impl Default for Event {
    fn default() -> (made: Event)
        ensures
            made@ == unknown_event(),
    {
        Event {
            title: "Unknown".to_owned(),
            desc: "Unknown".to_owned(),
            end: None,
            start: None,
            class: None,
        }
    }
}

} // verus!
