//! What the manager is told at start-up.

use vstd::prelude::*;

verus! {

/// The mathematical value of a [`CalendarConfig`].
pub struct CalendarConfigView {
    pub auth: bool,
    pub enabled: bool,
    pub token_file: Seq<char>,
}

/// How the calendar behind the login is to be used.
#[derive(Debug, PartialEq, Eq)]
pub struct CalendarConfig {
    /// Go through the consent step before anything else.
    pub auth: bool,
    /// Use the calendar, on the tokens that were stored.
    pub enabled: bool,
    /// Where the tokens are kept.
    pub token_file: String,
}

impl View for CalendarConfig {
    type V = CalendarConfigView;

    open spec fn view(&self) -> CalendarConfigView {
        CalendarConfigView { auth: self.auth, enabled: self.enabled, token_file: self.token_file@ }
    }
}

impl Clone for CalendarConfig {
    fn clone(&self) -> (copy: CalendarConfig)
        ensures
            copy@ == self@,
    {
        CalendarConfig {
            auth: self.auth,
            enabled: self.enabled,
            token_file: self.token_file.clone(),
        }
    }
}

/// The mathematical value of a [`ManagerConfig`].
pub struct ManagerConfigView {
    pub remotes: Seq<Seq<char>>,
    pub google_calendar: CalendarConfigView,
}

/// The sources that the manager is to draw on.
#[derive(Debug, PartialEq, Eq)]
pub struct ManagerConfig {
    /// The addresses of the feeds.
    pub remotes: Vec<String>,
    /// The calendar behind the login.
    pub google_calendar: CalendarConfig,
}

impl View for ManagerConfig {
    type V = ManagerConfigView;

    open spec fn view(&self) -> ManagerConfigView {
        ManagerConfigView {
            remotes: self.remotes.deep_view(),
            google_calendar: self.google_calendar@,
        }
    }
}

impl Clone for ManagerConfig {
    fn clone(&self) -> (copy: ManagerConfig)
        ensures
            copy@ == self@,
    {
        let mut remotes: Vec<String> = Vec::new();
        let mut i: usize = 0;
        while i < self.remotes.len()
            invariant
                i <= self.remotes.len(),
                remotes.deep_view() == self.remotes.deep_view().take(i as int),
            decreases self.remotes.len() - i,
        {
            let ghost before = remotes.deep_view();
            remotes.push(self.remotes[i].clone());
            assert(remotes.deep_view() == before.push(self.remotes[i as int]@));
            i += 1;
        }
        assert(self.remotes.deep_view().take(i as int) == self.remotes.deep_view());
        ManagerConfig { remotes, google_calendar: self.google_calendar.clone() }
    }
}

} // verus!
