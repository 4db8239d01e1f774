//! The manager: the sources it draws on and the one answer it keeps.

use crate::config::{ManagerConfig, ManagerConfigView};
use crate::event::{Event, EventView};
use crate::lists::remoteical::RemoteList;
use crate::time::{nanos_between, stamp, Timestamp, TimestampView, MIN_SECONDS, NANOS_PER_SECOND};
use vstd::prelude::*;

verus! {

/// For how many seconds a stored answer is served again.
pub const CACHE_SECONDS: u32 = 3_600;

/// How the session with the calendar behind the login is to be had.
#[derive(Clone, Copy, Debug, PartialEq, Eq)]
pub enum Login {
    /// Through the consent step.
    Consent,
    /// On the tokens that were stored.
    Stored,
}

/// The mathematical value of a [`Source`].
pub enum SourceView {
    Remote(Seq<char>),
    Google { token_file: Seq<char>, login: Login },
}

/// One origin of events.
#[derive(Debug, PartialEq, Eq)]
pub enum Source {
    /// A feed, fetched from its address.
    Remote(RemoteList),
    /// The calendar behind the login, with the file that its tokens are kept
    /// in.
    Google { token_file: String, login: Login },
}

impl View for Source {
    type V = SourceView;

    open spec fn view(&self) -> SourceView {
        match self {
            Source::Remote(list) => SourceView::Remote(list@),
            Source::Google { token_file, login } => SourceView::Google {
                token_file: token_file@,
                login: *login,
            },
        }
    }
}

impl DeepView for Source {
    type V = SourceView;

    open spec fn deep_view(&self) -> SourceView {
        self@
    }
}

/// The mathematical value of an [`EventManager`].
pub struct ManagerView {
    pub streams: Seq<SourceView>,
    pub cached: Option<Seq<char>>,
    pub cached_time: TimestampView,
}

/// The sources in the order they were added, and the answer that was stored
/// last together with the instant it was stored at.
#[derive(Debug)]
pub struct EventManager {
    streams: Vec<Source>,
    cached: Option<String>,
    cached_time: Timestamp,
}

impl View for EventManager {
    type V = ManagerView;

    closed spec fn view(&self) -> ManagerView {
        ManagerView {
            streams: self.streams.deep_view(),
            cached: self.cached.deep_view(),
            cached_time: self.cached_time@,
        }
    }
}

/// The manager with no source and nothing stored.
pub open spec fn empty_manager() -> ManagerView {
    ManagerView { streams: Seq::empty(), cached: None, cached_time: stamp(MIN_SECONDS as int, 0, 0) }
}

/// The feeds at the given addresses, in order.
pub open spec fn remote_sources(remotes: Seq<Seq<char>>) -> Seq<SourceView> {
    remotes.map_values(|url: Seq<char>| SourceView::Remote(url))
}

/// The sources that a configuration asks for: its feeds in order, then the
/// calendar behind the login, through the consent step where `auth` is set,
/// else on the stored tokens where `enabled` is set, else not at all.
pub open spec fn configured_sources(config: ManagerConfigView) -> Seq<SourceView> {
    let remotes = remote_sources(config.remotes);
    let token_file = config.google_calendar.token_file;
    if config.google_calendar.auth {
        remotes.push(SourceView::Google { token_file, login: Login::Consent })
    } else if config.google_calendar.enabled {
        remotes.push(SourceView::Google { token_file, login: Login::Stored })
    } else {
        remotes
    }
}

/// Whether an answer stored at `stored_at` is still served at `now`: no more
/// than [`CACHE_SECONDS`] lie between them.
pub open spec fn within_window(stored_at: TimestampView, now: TimestampView) -> bool {
    nanos_between(stored_at, now) <= CACHE_SECONDS * NANOS_PER_SECOND
}

/// The answer that the manager serves at `now` without asking its sources:
/// the stored one while it is within the window, else none.
pub open spec fn served(manager: ManagerView, now: TimestampView) -> Option<Seq<char>> {
    if within_window(manager.cached_time, now) {
        manager.cached
    } else {
        None
    }
}

/// The manager after `json` was stored at `now`.
pub open spec fn stored(manager: ManagerView, json: Seq<char>, now: TimestampView) -> ManagerView {
    ManagerView { cached: Some(json), cached_time: now, ..manager }
}

/// The events of all the answers, one answer after the other.
pub open spec fn all_events(fetched: Seq<Seq<EventView>>) -> Seq<EventView>
    decreases fetched.len(),
{
    if fetched.len() == 0 {
        Seq::empty()
    } else {
        all_events(fetched.drop_last()) + fetched.last()
    }
}

impl EventManager {
    /// A manager with no source and nothing stored.
    pub fn new() -> (manager: EventManager)
        ensures
            manager@ == empty_manager(),
    {
        let manager = EventManager {
            streams: Vec::new(),
            cached: None,
            cached_time: Timestamp::earliest(),
        };
        assert(manager.streams.deep_view() == Seq::<SourceView>::empty());
        manager
    }

    /// Adds a source behind those that are there.
    pub fn add(&mut self, list: Source)
        ensures
            final(self)@ == (ManagerView {
                streams: old(self)@.streams.push(list@),
                ..old(self)@
            }),
    {
        let ghost before = self.streams.deep_view();
        self.streams.push(list);
        assert(self.streams.deep_view() == before.push(list@));
    }

    /// The manager that a configuration asks for, with nothing stored.
    pub fn from_config(config: &ManagerConfig) -> (manager: EventManager)
        ensures
            manager@ == (ManagerView {
                streams: configured_sources(config@),
                ..empty_manager()
            }),
    {
        let mut manager = EventManager::new();
        let ghost remotes = config.remotes.deep_view();
        let mut i: usize = 0;
        assert(remote_sources(remotes.take(0)) == Seq::<SourceView>::empty());
        while i < config.remotes.len()
            invariant
                i <= config.remotes.len(),
                remotes == config.remotes.deep_view(),
                manager@ == (ManagerView {
                    streams: remote_sources(remotes.take(i as int)),
                    ..empty_manager()
                }),
            decreases config.remotes.len() - i,
        {
            manager.add(Source::Remote(RemoteList::new(config.remotes[i].as_str())));
            assert(remote_sources(remotes.take(i + 1)) == remote_sources(
                remotes.take(i as int),
            ).push(SourceView::Remote(remotes[i as int])));
            i += 1;
        }
        assert(remotes.take(i as int) == remotes);
        if config.google_calendar.auth {
            manager.add(
                Source::Google {
                    token_file: config.google_calendar.token_file.clone(),
                    login: Login::Consent,
                },
            );
        } else if config.google_calendar.enabled {
            manager.add(
                Source::Google {
                    token_file: config.google_calendar.token_file.clone(),
                    login: Login::Stored,
                },
            );
        }
        manager
    }

    /// The sources, in the order they were added.
    pub fn streams(&self) -> (streams: &Vec<Source>)
        ensures
            streams.deep_view() == self@.streams,
    {
        &self.streams
    }

    /// The events that the sources answered with, as one list: the answers
    /// one after the other in the order given, each in its own order.
    pub fn events(fetched: &Vec<Vec<Event>>) -> (events: Vec<Event>)
        ensures
            events.deep_view() == all_events(fetched.deep_view()),
    {
        let ghost answers = fetched.deep_view();
        let mut events: Vec<Event> = Vec::new();
        let mut i: usize = 0;
        assert(answers.take(0) == Seq::<Seq<EventView>>::empty());
        assert(events.deep_view() == Seq::<EventView>::empty());
        while i < fetched.len()
            invariant
                i <= fetched.len(),
                answers == fetched.deep_view(),
                events.deep_view() == all_events(answers.take(i as int)),
            decreases fetched.len() - i,
        {
            let answer = &fetched[i];
            let ghost before = events.deep_view();
            let ghost this = answer.deep_view();
            assert(answers.take(i + 1).drop_last() == answers.take(i as int));
            assert(answers.take(i + 1).last() == this);
            let mut j: usize = 0;
            assert(before + this.take(0) == before);
            while j < answer.len()
                invariant
                    j <= answer.len(),
                    this == answer.deep_view(),
                    events.deep_view() == before + this.take(j as int),
                decreases answer.len() - j,
            {
                let ghost so_far = events.deep_view();
                events.push(answer[j].clone());
                assert(events.deep_view() == so_far.push(this[j as int]));
                assert(before + this.take(j + 1) == (before + this.take(j as int)).push(
                    this[j as int],
                ));
                j += 1;
            }
            assert(this.take(j as int) == this);
            i += 1;
        }
        assert(answers.take(i as int) == answers);
        events
    }

    /// The stored answer, while it can still be served at `now`; none where
    /// the sources have to be asked.
    pub fn cached_json(&self, now: &Timestamp) -> (answer: Option<&str>)
        ensures
            answer.deep_view() == served(self@, now@),
    {
        if now.is_more_than_after(CACHE_SECONDS, &self.cached_time) {
            return None;
        }
        match &self.cached {
            Some(json) => Some(json.as_str()),
            None => None,
        }
    }

    /// Stores `json` as the answer computed at `now`, in place of what was
    /// stored before.
    pub fn store(&mut self, json: String, now: Timestamp)
        ensures
            final(self)@ == stored(old(self)@, json@, now@),
    {
        self.cached = Some(json);
        self.cached_time = now;
    }
}

/// An answer that was stored is served unchanged at every instant within the
/// window, so two questions within the window get the same answer and the
/// sources are not asked. Past the window nothing is served, and neither is
/// anything before the first answer was stored: then the sources are asked.
pub proof fn lemma_cache_window(
    manager: ManagerView,
    json: Seq<char>,
    stored_at: TimestampView,
    first: TimestampView,
    second: TimestampView,
)
    ensures
        within_window(stored_at, first) ==> served(stored(manager, json, stored_at), first)
            == Some(json),
        within_window(stored_at, first) && within_window(stored_at, second) ==> served(
            stored(manager, json, stored_at),
            first,
        ) == served(stored(manager, json, stored_at), second),
        !within_window(stored_at, first) ==> served(stored(manager, json, stored_at), first)
            is None,
        served(empty_manager(), first) is None,
        stored(manager, json, stored_at).streams == manager.streams,
{
}

} // verus!
