//! What the front end serves under which path.

use crate::text::same_text;
use vstd::prelude::*;

verus! {

/// What a request is answered with.
#[derive(Clone, Copy, Debug, PartialEq, Eq)]
pub enum Route {
    /// The grouped events, as the manager serves them.
    Events,
    /// The log lines gathered so far.
    Log,
    /// The page that shows the events.
    Viewer,
    /// Nothing: the path is not known.
    NotFound,
}

/// What a request for `path` is answered with.
pub open spec fn route_of(path: Seq<char>) -> Route {
    if path == "/"@ {
        Route::Events
    } else if path == "/log"@ {
        Route::Log
    } else if path == "/viewer"@ {
        Route::Viewer
    } else {
        Route::NotFound
    }
}

/// What a request for `path` is answered with.
pub fn route(path: &str) -> (found: Route)
    ensures
        found == route_of(path@),
{
    if same_text(path, "/") {
        Route::Events
    } else if same_text(path, "/log") {
        Route::Log
    } else if same_text(path, "/viewer") {
        Route::Viewer
    } else {
        Route::NotFound
    }
}

} // verus!
