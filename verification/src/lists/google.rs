//! The calendar behind an OAuth login: the redirect that ends the consent
//! step, the token file, and the steps that lead to a usable session.

use crate::event::{Event, EventView};
use crate::text::{pieces, same_text, split_on};
use crate::time::{representable, stamp, Timestamp, TimestampView};
use vstd::prelude::*;
use vstd::string::*;

verus! {

/// The mathematical value of a [`ClientInfo`].
pub struct ClientInfoView {
    pub code: Seq<char>,
    pub state: Seq<char>,
}

/// What the redirect at the end of the consent step carries.
#[derive(Debug, PartialEq, Eq)]
pub struct ClientInfo {
    pub code: String,
    pub state: String,
}

impl View for ClientInfo {
    type V = ClientInfoView;

    open spec fn view(&self) -> ClientInfoView {
        ClientInfoView { code: self.code@, state: self.state@ }
    }
}

impl DeepView for ClientInfo {
    type V = ClientInfoView;

    open spec fn deep_view(&self) -> ClientInfoView {
        self@
    }
}

impl Clone for ClientInfo {
    fn clone(&self) -> (copy: ClientInfo)
        ensures
            copy@ == self@,
    {
        ClientInfo { code: self.code.clone(), state: self.state.clone() }
    }
}

/// Why a request to the redirect address could not be used.
#[derive(Clone, Copy, Debug, PartialEq, Eq)]
pub enum RedirectError {
    /// The request has no query at all.
    MissingQuery,
    /// A part of the query is not one name and one value around one `=`.
    MalformedPair,
    /// No part of the query is named `code`.
    MissingCode,
    /// No part of the query is named `state`.
    MissingState,
}

/// Whether every part is one name and one value around one `=`.
pub open spec fn well_paired(parts: Seq<Seq<char>>) -> bool {
    forall|i: int| 0 <= i < parts.len() ==> (#[trigger] pieces(parts[i], '=')).len() == 2
}

/// The value that the parts give to `name`: that of the last part so named.
pub open spec fn value_of(parts: Seq<Seq<char>>, name: Seq<char>) -> Option<Seq<char>>
    decreases parts.len(),
{
    if parts.len() == 0 {
        None
    } else {
        let pair = pieces(parts.last(), '=');
        if pair.len() == 2 && pair[0] == name {
            Some(pair[1])
        } else {
            value_of(parts.drop_last(), name)
        }
    }
}

/// What a request to the loopback listener amounts to. Any path but `/auth/`
/// is not found, which is no failure. On that path the query is cut at each
/// `&`, and the parts named `code` and `state` are what the redirect carries.
pub open spec fn redirect(path: Seq<char>, query: Option<Seq<char>>) -> Result<
    Option<ClientInfoView>,
    RedirectError,
> {
    if path != "/auth/"@ {
        Ok(None)
    } else {
        match query {
            None => Err(RedirectError::MissingQuery),
            Some(text) => {
                let parts = pieces(text, '&');
                if !well_paired(parts) {
                    Err(RedirectError::MalformedPair)
                } else {
                    match (value_of(parts, "code"@), value_of(parts, "state"@)) {
                        (None, _) => Err(RedirectError::MissingCode),
                        (Some(_), None) => Err(RedirectError::MissingState),
                        (Some(code), Some(state)) => Ok(Some(ClientInfoView { code, state })),
                    }
                }
            },
        }
    }
}

/// The value of what [`handle`] returns.
pub open spec fn redirect_outcome(found: Result<Option<ClientInfo>, RedirectError>) -> Result<
    Option<ClientInfoView>,
    RedirectError,
> {
    match found {
        Ok(info) => Ok(info.deep_view()),
        Err(error) => Err(error),
    }
}

/// Reads a request to the loopback listener: `Ok(None)` where the path is not
/// the redirect's, else what the redirect carries, or why it carries nothing
/// usable.
pub fn handle(path: &str, query: Option<&str>) -> (found: Result<Option<ClientInfo>, RedirectError>)
    ensures
        redirect_outcome(found) == redirect(path@, query.deep_view()),
{
    if !same_text(path, "/auth/") {
        return Ok(None);
    }
    let text = match query {
        Some(text) => text,
        None => {
            return Err(RedirectError::MissingQuery);
        },
    };
    let parts = split_on(text, '&');
    let ghost all = parts.deep_view();
    let mut code: Option<String> = None;
    let mut state: Option<String> = None;
    let mut i: usize = 0;
    assert(all.take(0) == Seq::<Seq<char>>::empty());
    while i < parts.len()
        invariant
            i <= parts.len(),
            path@ == "/auth/"@,
            query.deep_view() == Some(text@),
            all == pieces(text@, '&'),
            all == parts.deep_view(),
            well_paired(all.take(i as int)),
            code.deep_view() == value_of(all.take(i as int), "code"@),
            state.deep_view() == value_of(all.take(i as int), "state"@),
        decreases parts.len() - i,
    {
        let ghost seen = all.take(i + 1);
        assert(seen.drop_last() == all.take(i as int));
        assert(seen.last() == parts[i as int]@);
        let pair = split_on(parts[i].as_str(), '=');
        if pair.len() != 2 {
            assert(pieces(all[i as int], '=').len() != 2);
            return Err(RedirectError::MalformedPair);
        }
        assert forall|j: int| 0 <= j < seen.len() implies (#[trigger] pieces(seen[j], '=')).len()
            == 2 by {
            if j < i {
                assert(seen[j] == all.take(i as int)[j]);
            }
        }
        assert(pair.deep_view()[0] == pair[0]@);
        assert(pair.deep_view()[1] == pair[1]@);
        if same_text(pair[0].as_str(), "code") {
            code = Some(pair[1].clone());
        }
        if same_text(pair[0].as_str(), "state") {
            state = Some(pair[1].clone());
        }
        i += 1;
    }
    assert(all.take(i as int) == all);
    match code {
        None => Err(RedirectError::MissingCode),
        Some(code) => match state {
            None => Err(RedirectError::MissingState),
            Some(state) => Ok(Some(ClientInfo { code, state })),
        },
    }
}

/// The mathematical value of a [`TokenState`].
pub struct TokenStateView {
    pub access_token: Seq<char>,
    pub refresh_token: Seq<char>,
}

/// The pair of tokens that a session runs on.
#[derive(Debug, PartialEq, Eq)]
pub struct TokenState {
    pub access_token: String,
    pub refresh_token: String,
}

impl View for TokenState {
    type V = TokenStateView;

    open spec fn view(&self) -> TokenStateView {
        TokenStateView { access_token: self.access_token@, refresh_token: self.refresh_token@ }
    }
}

impl DeepView for TokenState {
    type V = TokenStateView;

    open spec fn deep_view(&self) -> TokenStateView {
        self@
    }
}

/// The content of the token file for `tokens`: the access token, a line
/// feed, the refresh token.
pub open spec fn token_file(tokens: TokenStateView) -> Seq<char> {
    tokens.access_token + seq!['\n'] + tokens.refresh_token
}

/// The tokens that a token file holds: its two lines, where it has exactly
/// two.
pub open spec fn tokens_in(data: Seq<char>) -> Option<TokenStateView> {
    let lines = pieces(data, '\n');
    if lines.len() == 2 {
        Some(TokenStateView { access_token: lines[0], refresh_token: lines[1] })
    } else {
        None
    }
}

impl Clone for TokenState {
    fn clone(&self) -> (copy: TokenState)
        ensures
            copy@ == self@,
    {
        TokenState {
            access_token: self.access_token.clone(),
            refresh_token: self.refresh_token.clone(),
        }
    }
}

impl TokenState {
    /// Reads the content of a token file.
    pub fn parse(data: &str) -> (read: Option<TokenState>)
        ensures
            read.deep_view() == tokens_in(data@),
    {
        let lines = split_on(data, '\n');
        if lines.len() != 2 {
            return None;
        }
        assert(lines.deep_view()[0] == lines[0]@);
        assert(lines.deep_view()[1] == lines[1]@);
        Some(TokenState { access_token: lines[0].clone(), refresh_token: lines[1].clone() })
    }

    /// The content to write to the token file.
    pub fn render(&self) -> (data: String)
        ensures
            data@ == token_file(self@),
    {
        proof {
            reveal_strlit("\n");
            assert("\n"@ == seq!['\n']);
        }
        let mut data = self.access_token.clone();
        data.append("\n");
        data.append(self.refresh_token.as_str());
        data
    }
}

/// The mathematical value of a [`Phase`].
pub enum PhaseView {
    AwaitingRedirect,
    AwaitingTokens,
    AwaitingRefresh(TokenStateView),
    Ready(TokenStateView),
    Failed,
}

/// Where the way to a usable session stands.
#[derive(Debug, PartialEq, Eq)]
pub enum Phase {
    /// The listener is up and the consent page was opened; the redirect has
    /// not come yet.
    AwaitingRedirect,
    /// The redirect came and what it carried was handed in for exchange.
    AwaitingTokens,
    /// These stored tokens were handed in to be refreshed.
    AwaitingRefresh(TokenState),
    /// The session runs on these tokens.
    Ready(TokenState),
    /// No session will come of this.
    Failed,
}

impl View for Phase {
    type V = PhaseView;

    open spec fn view(&self) -> PhaseView {
        match self {
            Phase::AwaitingRedirect => PhaseView::AwaitingRedirect,
            Phase::AwaitingTokens => PhaseView::AwaitingTokens,
            Phase::AwaitingRefresh(stored) => PhaseView::AwaitingRefresh(stored@),
            Phase::Ready(tokens) => PhaseView::Ready(tokens@),
            Phase::Failed => PhaseView::Failed,
        }
    }
}

/// The mathematical value of an [`AuthEvent`].
pub enum AuthEventView {
    Redirected(ClientInfoView),
    ChannelClosed,
    Granted(TokenStateView),
    Refreshed(TokenStateView),
    RefreshFailed,
}

/// What the outside world reports back.
#[derive(Debug, PartialEq, Eq)]
pub enum AuthEvent {
    /// The redirect came, carrying this.
    Redirected(ClientInfo),
    /// The listener is gone and no redirect will come.
    ChannelClosed,
    /// The exchange gave these tokens.
    Granted(TokenState),
    /// The refresh gave these tokens.
    Refreshed(TokenState),
    /// The refresh was refused.
    RefreshFailed,
}

impl View for AuthEvent {
    type V = AuthEventView;

    open spec fn view(&self) -> AuthEventView {
        match self {
            AuthEvent::Redirected(info) => AuthEventView::Redirected(info@),
            AuthEvent::ChannelClosed => AuthEventView::ChannelClosed,
            AuthEvent::Granted(tokens) => AuthEventView::Granted(tokens@),
            AuthEvent::Refreshed(tokens) => AuthEventView::Refreshed(tokens@),
            AuthEvent::RefreshFailed => AuthEventView::RefreshFailed,
        }
    }
}

/// The mathematical value of an [`AuthAction`].
pub enum AuthActionView {
    AwaitConsent,
    Exchange(ClientInfoView),
    Refresh(TokenStateView),
    Persist(Seq<char>),
    Proceed,
    Ignore,
    Abort,
}

/// What to do next in the outside world.
#[derive(Debug, PartialEq, Eq)]
pub enum AuthAction {
    /// Bind the loopback listener, open the consent page in the browser and
    /// wait for the one redirect.
    AwaitConsent,
    /// Tear the listener down and exchange this for a pair of tokens.
    Exchange(ClientInfo),
    /// Ask for these tokens to be refreshed.
    Refresh(TokenState),
    /// Write this text to the token file; the session is usable.
    Persist(String),
    /// The session is usable and the token file is up to date.
    Proceed,
    /// The report does not belong to this phase; nothing is to be done.
    Ignore,
    /// Give up: no session can be had.
    Abort,
}

impl View for AuthAction {
    type V = AuthActionView;

    open spec fn view(&self) -> AuthActionView {
        match self {
            AuthAction::AwaitConsent => AuthActionView::AwaitConsent,
            AuthAction::Exchange(info) => AuthActionView::Exchange(info@),
            AuthAction::Refresh(tokens) => AuthActionView::Refresh(tokens@),
            AuthAction::Persist(data) => AuthActionView::Persist(data@),
            AuthAction::Proceed => AuthActionView::Proceed,
            AuthAction::Ignore => AuthActionView::Ignore,
            AuthAction::Abort => AuthActionView::Abort,
        }
    }
}

/// The phase that follows `phase` when `event` is reported, and what to do.
///
/// A redirect is exchanged for tokens, and tokens that were granted are
/// written down. Refreshed tokens are written down only where the access
/// token is a new one. A refused refresh starts the consent step. A report
/// that the phase does not wait for changes nothing.
pub open spec fn step(phase: PhaseView, event: AuthEventView) -> (PhaseView, AuthActionView) {
    match (phase, event) {
        (PhaseView::AwaitingRedirect, AuthEventView::Redirected(info)) => (
            PhaseView::AwaitingTokens,
            AuthActionView::Exchange(info),
        ),
        (PhaseView::AwaitingRedirect, AuthEventView::ChannelClosed) => (
            PhaseView::Failed,
            AuthActionView::Abort,
        ),
        (PhaseView::AwaitingTokens, AuthEventView::Granted(tokens)) => (
            PhaseView::Ready(tokens),
            AuthActionView::Persist(token_file(tokens)),
        ),
        (PhaseView::AwaitingRefresh(stored), AuthEventView::Refreshed(tokens)) => (
            PhaseView::Ready(tokens),
            if tokens.access_token == stored.access_token {
                AuthActionView::Proceed
            } else {
                AuthActionView::Persist(token_file(tokens))
            },
        ),
        (PhaseView::AwaitingRefresh(_), AuthEventView::RefreshFailed) => (
            PhaseView::AwaitingRedirect,
            AuthActionView::AwaitConsent,
        ),
        _ => (phase, AuthActionView::Ignore),
    }
}

/// What `chrono::DateTime::to_rfc3339` writes for the instant `secs` seconds
/// and `nanos` nanoseconds after the epoch, shown `offset` seconds ahead of
/// UTC.
pub uninterp spec fn chrono_rfc3339(secs: i64, nanos: u32, offset: i32) -> Seq<char>;

/// Builds the `chrono::DateTime` with the given parts and calls its
/// `to_rfc3339`. The contract names the result [`chrono_rfc3339`] and claims
/// nothing else of it. The parts must be representable: `chrono` makes no
/// date and time of others.
#[verifier::external_body]
fn rfc3339(secs: i64, nanos: u32, offset: i32) -> (text: String)
    requires
        representable(stamp(secs as int, nanos as int, offset as int)),
    ensures
        text@ == chrono_rfc3339(secs, nanos, offset),
{
    chrono::DateTime::from_timestamp(secs, nanos)
        .unwrap()
        .with_timezone(&chrono::FixedOffset::east_opt(offset).unwrap())
        .to_rfc3339()
}

/// The mathematical value of an [`EventsQuery`].
pub struct EventsQueryView {
    pub calendar_id: Seq<char>,
    pub time_min: Seq<char>,
    pub show_deleted: bool,
    pub show_hidden_invitations: bool,
    pub single_events: bool,
}

/// What the calendar is asked for.
#[derive(Debug, PartialEq, Eq)]
pub struct EventsQuery {
    /// Which calendar of the account.
    pub calendar_id: String,
    /// Events that end before this are left out.
    pub time_min: String,
    /// Whether deleted events are wanted.
    pub show_deleted: bool,
    /// Whether hidden invitations are wanted.
    pub show_hidden_invitations: bool,
    /// Whether recurring events are to be expanded into their instances.
    pub single_events: bool,
}

impl View for EventsQuery {
    type V = EventsQueryView;

    open spec fn view(&self) -> EventsQueryView {
        EventsQueryView {
            calendar_id: self.calendar_id@,
            time_min: self.time_min@,
            show_deleted: self.show_deleted,
            show_hidden_invitations: self.show_hidden_invitations,
            single_events: self.single_events,
        }
    }
}

/// The question for the events from `after` on: the primary calendar, hidden
/// invitations included, deleted events left out, recurring events not
/// expanded.
pub open spec fn events_query(after: TimestampView) -> EventsQueryView {
    EventsQueryView {
        calendar_id: "primary"@,
        time_min: chrono_rfc3339(after.secs as i64, after.nanos as u32, after.offset as i32),
        show_deleted: false,
        show_hidden_invitations: true,
        single_events: false,
    }
}

/// The calendar behind the login, as far as its session has come.
#[derive(Debug, PartialEq, Eq)]
pub struct GoogleList {
    phase: Phase,
}

impl View for GoogleList {
    type V = PhaseView;

    closed spec fn view(&self) -> PhaseView {
        self.phase@
    }
}

impl GoogleList {
    /// Starts from nothing: the first thing to do is the consent step.
    pub fn new() -> (started: (GoogleList, AuthAction))
        ensures
            started.0@ == PhaseView::AwaitingRedirect,
            started.1@ == AuthActionView::AwaitConsent,
    {
        (GoogleList { phase: Phase::AwaitingRedirect }, AuthAction::AwaitConsent)
    }

    /// Starts from the content of a token file: the first thing to do is to
    /// have the stored tokens refreshed. Nothing is started where the file
    /// does not hold exactly two lines.
    pub fn from_file(data: &str) -> (started: Option<(GoogleList, AuthAction)>)
        ensures
            match (tokens_in(data@), started) {
                (Some(stored), Some((list, action))) => list@ == PhaseView::AwaitingRefresh(stored)
                    && action@ == AuthActionView::Refresh(stored),
                (None, None) => true,
                _ => false,
            },
    {
        match TokenState::parse(data) {
            Some(stored) => {
                let handed = stored.clone();
                Some((GoogleList { phase: Phase::AwaitingRefresh(stored) }, AuthAction::Refresh(handed)))
            },
            None => None,
        }
    }

    /// Takes a report from the outside world and says what to do next.
    pub fn advance(self, event: AuthEvent) -> (next: (GoogleList, AuthAction))
        ensures
            (next.0@, next.1@) == step(self@, event@),
    {
        match (self.phase, event) {
            (Phase::AwaitingRedirect, AuthEvent::Redirected(info)) => (
                GoogleList { phase: Phase::AwaitingTokens },
                AuthAction::Exchange(info),
            ),
            (Phase::AwaitingRedirect, AuthEvent::ChannelClosed) => (
                GoogleList { phase: Phase::Failed },
                AuthAction::Abort,
            ),
            (Phase::AwaitingTokens, AuthEvent::Granted(tokens)) => {
                let data = tokens.render();
                (GoogleList { phase: Phase::Ready(tokens) }, AuthAction::Persist(data))
            },
            (Phase::AwaitingRefresh(stored), AuthEvent::Refreshed(tokens)) => {
                if tokens.access_token == stored.access_token {
                    (GoogleList { phase: Phase::Ready(tokens) }, AuthAction::Proceed)
                } else {
                    let data = tokens.render();
                    (GoogleList { phase: Phase::Ready(tokens) }, AuthAction::Persist(data))
                }
            },
            (Phase::AwaitingRefresh(_), AuthEvent::RefreshFailed) => (
                GoogleList { phase: Phase::AwaitingRedirect },
                AuthAction::AwaitConsent,
            ),
            (phase, _) => (GoogleList { phase }, AuthAction::Ignore),
        }
    }

    /// Where the way to a usable session stands.
    pub fn phase(&self) -> (phase: &Phase)
        ensures
            phase@ == self@,
    {
        &self.phase
    }

    /// The tokens that the session runs on, once it is usable.
    pub fn tokens(&self) -> (tokens: Option<&TokenState>)
        ensures
            match self@ {
                PhaseView::Ready(held) => tokens is Some && tokens->0@ == held,
                _ => tokens is None,
            },
    {
        match &self.phase {
            Phase::Ready(tokens) => Some(tokens),
            _ => None,
        }
    }

    /// What to ask the calendar for the events from `after` on.
    pub fn query(after: &Timestamp) -> (query: EventsQuery)
        ensures
            query@ == events_query(after@),
    {
        let time_min = rfc3339(after.seconds(), after.nanoseconds(), after.offset_seconds());
        EventsQuery {
            calendar_id: "primary".to_owned(),
            time_min,
            show_deleted: false,
            show_hidden_invitations: true,
            single_events: false,
        }
    }

    /// The event for one item of the calendar: its summary is the title, its
    /// description the description, and it has no classification.
    pub fn event(
        summary: String,
        description: String,
        start: Option<Timestamp>,
        end: Option<Timestamp>,
    ) -> (made: Event)
        ensures
            made@ == (EventView {
                title: summary@,
                desc: description@,
                end: end.deep_view(),
                start: start.deep_view(),
                class: None,
            }),
    {
        Event { title: summary, desc: description, end, start, class: None }
    }
}

/// A text without the separator is one piece.
proof fn lemma_one_piece(text: Seq<char>, separator: char)
    requires
        !text.contains(separator),
    ensures
        pieces(text, separator) == seq![text],
    decreases text.len(),
{
    if text.len() == 0 {
        assert(text == Seq::<char>::empty());
    } else {
        let head = text.drop_last();
        assert(text[text.len() - 1] != separator);
        assert forall|i: int| 0 <= i < head.len() implies head[i] != separator by {
            assert(text[i] == head[i]);
        }
        lemma_one_piece(head, separator);
        assert(head.push(text.last()) == text);
        assert(seq![head].drop_last().push(seq![head].last().push(text.last())) == seq![text]);
    }
}

/// Two texts without the separator, joined by it, are two pieces.
proof fn lemma_two_pieces(first: Seq<char>, second: Seq<char>, separator: char)
    requires
        !first.contains(separator),
        !second.contains(separator),
    ensures
        pieces(first + seq![separator] + second, separator) == seq![first, second],
    decreases second.len(),
{
    let text = first + seq![separator] + second;
    if second.len() == 0 {
        assert(text.drop_last() == first);
        assert(text.last() == separator);
        lemma_one_piece(first, separator);
        assert(second == Seq::<char>::empty());
        assert(seq![first].push(Seq::<char>::empty()) == seq![first, second]);
    } else {
        let head = second.drop_last();
        assert(second[second.len() - 1] != separator);
        assert forall|i: int| 0 <= i < head.len() implies head[i] != separator by {
            assert(second[i] == head[i]);
        }
        lemma_two_pieces(first, head, separator);
        assert(text.drop_last() == first + seq![separator] + head);
        assert(text.last() == second.last());
        assert(head.push(second.last()) == second);
        assert(seq![first, head].drop_last().push(seq![first, head].last().push(second.last()))
            == seq![first, second]);
    }
}

/// What was written to the token file is read back as it was, as long as
/// neither token holds a line feed.
pub proof fn lemma_token_file_round_trip(tokens: TokenStateView)
    requires
        !tokens.access_token.contains('\n'),
        !tokens.refresh_token.contains('\n'),
    ensures
        tokens_in(token_file(tokens)) == Some(tokens),
{
    lemma_two_pieces(tokens.access_token, tokens.refresh_token, '\n');
}

/// A text without the separator is still without it behind a name that has
/// none.
proof fn lemma_named_part(name: Seq<char>, value: Seq<char>, separator: char)
    requires
        !name.contains(separator),
        !value.contains(separator),
        separator != '=',
    ensures
        !(name + seq!['='] + value).contains(separator),
{
    let part = name + seq!['='] + value;
    assert forall|i: int| 0 <= i < part.len() implies part[i] != separator by {
        if i < name.len() {
            assert(name[i] == part[i]);
        } else if i > name.len() {
            assert(value[i - name.len() - 1] == part[i]);
        }
    }
}

/// The redirect `/auth/?code=<code>&state=<state>` carries that code and
/// that state, as long as neither holds an `&` or an `=`.
pub proof fn lemma_redirect_carries_code_and_state(code: Seq<char>, state: Seq<char>)
    requires
        !code.contains('&'),
        !code.contains('='),
        !state.contains('&'),
        !state.contains('='),
    ensures
        redirect("/auth/"@, Some("code="@ + code + "&state="@ + state)) == Ok::<_, RedirectError>(
            Some(ClientInfoView { code, state }),
        ),
{
    reveal_strlit("code");
    reveal_strlit("state");
    reveal_strlit("code=");
    reveal_strlit("&state=");
    let code_name = "code"@;
    let state_name = "state"@;
    assert(code_name == seq!['c', 'o', 'd', 'e']);
    assert(state_name == seq!['s', 't', 'a', 't', 'e']);
    assert(code_name != state_name) by {
        assert(code_name.len() != state_name.len());
    }
    let first = code_name + seq!['='] + code;
    let second = state_name + seq!['='] + state;
    let query = "code="@ + code + "&state="@ + state;
    assert("code="@ == code_name + seq!['=']);
    assert("&state="@ == seq!['&'] + state_name + seq!['=']);
    assert(query == first + seq!['&'] + second);
    assert(!code_name.contains('&') && !code_name.contains('='));
    assert(!state_name.contains('&') && !state_name.contains('='));
    lemma_named_part(code_name, code, '&');
    lemma_named_part(state_name, state, '&');
    lemma_two_pieces(first, second, '&');
    lemma_two_pieces(code_name, code, '=');
    lemma_two_pieces(state_name, state, '=');
    let parts = pieces(query, '&');
    assert(parts == seq![first, second]);
    assert(parts.last() == second);
    assert(parts.drop_last() == seq![first]);
    assert(parts.drop_last().last() == first);
    assert(parts.drop_last().drop_last() == Seq::<Seq<char>>::empty());
    assert(well_paired(parts)) by {
        assert forall|i: int| 0 <= i < parts.len() implies (#[trigger] pieces(parts[i], '=')).len()
            == 2 by {
            if i == 0 {
                assert(parts[i] == first);
            } else {
                assert(parts[i] == second);
            }
        }
    }
    assert(value_of(parts, state_name) == Some(state));
    assert(value_of(parts.drop_last(), code_name) == Some(code));
    assert(value_of(parts, code_name) == Some(code));
}

} // verus!
