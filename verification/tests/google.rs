use event_list::lists::google::{
    handle, AuthAction, AuthEvent, ClientInfo, EventsQuery, GoogleList, Phase, RedirectError,
    TokenState,
};
use event_list::time::Timestamp;

fn info(code: &str, state: &str) -> ClientInfo {
    ClientInfo { code: code.to_string(), state: state.to_string() }
}

fn tokens(access: &str, refresh: &str) -> TokenState {
    TokenState { access_token: access.to_string(), refresh_token: refresh.to_string() }
}

#[test]
fn redirect_carries_code_and_state() {
    assert_eq!(handle("/auth/", Some("code=abc&state=xyz")), Ok(Some(info("abc", "xyz"))));
    assert_eq!(handle("/auth/", Some("state=xyz&code=abc")), Ok(Some(info("abc", "xyz"))));
}

#[test]
fn redirect_other_parts_are_passed_over() {
    assert_eq!(
        handle("/auth/", Some("state=s&scope=calendar.events&code=c")),
        Ok(Some(info("c", "s")))
    );
}

#[test]
fn redirect_last_part_of_a_name_wins() {
    assert_eq!(
        handle("/auth/", Some("code=first&state=s&code=second")),
        Ok(Some(info("second", "s")))
    );
}

#[test]
fn redirect_empty_values_are_values() {
    assert_eq!(handle("/auth/", Some("code=&state=")), Ok(Some(info("", ""))));
}

#[test]
fn redirect_other_paths_are_not_found() {
    assert_eq!(handle("/", Some("code=abc&state=xyz")), Ok(None));
    assert_eq!(handle("/auth", Some("code=abc&state=xyz")), Ok(None));
    assert_eq!(handle("/auth/x", None), Ok(None));
    assert_eq!(handle("", None), Ok(None));
    assert_eq!(handle("/favicon.ico", Some("not a query")), Ok(None));
}

#[test]
fn redirect_without_query() {
    assert_eq!(handle("/auth/", None), Err(RedirectError::MissingQuery));
}

#[test]
fn redirect_malformed_pair() {
    assert_eq!(handle("/auth/", Some("")), Err(RedirectError::MalformedPair));
    assert_eq!(handle("/auth/", Some("code")), Err(RedirectError::MalformedPair));
    assert_eq!(handle("/auth/", Some("code=a=b&state=s")), Err(RedirectError::MalformedPair));
    assert_eq!(handle("/auth/", Some("code=a&state=s&")), Err(RedirectError::MalformedPair));
    assert_eq!(handle("/auth/", Some("code=a&&state=s")), Err(RedirectError::MalformedPair));
}

#[test]
fn redirect_without_code() {
    assert_eq!(handle("/auth/", Some("state=xyz")), Err(RedirectError::MissingCode));
    assert_eq!(handle("/auth/", Some("Code=abc&state=xyz")), Err(RedirectError::MissingCode));
    assert_eq!(handle("/auth/", Some("a=b")), Err(RedirectError::MissingCode));
}

#[test]
fn redirect_without_state() {
    assert_eq!(handle("/auth/", Some("code=abc")), Err(RedirectError::MissingState));
    assert_eq!(handle("/auth/", Some("code=abc&stat=e")), Err(RedirectError::MissingState));
}

#[test]
fn token_file_is_two_lines() {
    assert_eq!(TokenState::parse("access\nrefresh"), Some(tokens("access", "refresh")));
    assert_eq!(TokenState::parse("\n"), Some(tokens("", "")));
    assert_eq!(TokenState::parse("a\n"), Some(tokens("a", "")));
}

#[test]
fn token_file_of_another_shape_is_refused() {
    assert_eq!(TokenState::parse(""), None);
    assert_eq!(TokenState::parse("only one line"), None);
    assert_eq!(TokenState::parse("access\nrefresh\n"), None);
    assert_eq!(TokenState::parse("a\nb\nc"), None);
}

#[test]
fn token_file_render() {
    assert_eq!(tokens("access", "refresh").render(), "access\nrefresh");
    assert_eq!(tokens("", "").render(), "\n");
}

#[test]
fn token_file_round_trip() {
    for (access, refresh) in [("ya29.a0", "1//0g"), ("", ""), ("a", ""), ("", "r"), ("a b", "c=d&e")] {
        let written = tokens(access, refresh).render();
        assert_eq!(TokenState::parse(&written), Some(tokens(access, refresh)));
    }
}

#[test]
fn flow_from_nothing_starts_with_consent() {
    let (list, action) = GoogleList::new();
    assert_eq!(list.phase(), &Phase::AwaitingRedirect);
    assert_eq!(action, AuthAction::AwaitConsent);
    assert_eq!(list.tokens(), None);
}

#[test]
fn flow_bootstrap_to_a_session() {
    let (list, _) = GoogleList::new();
    let (list, action) = list.advance(AuthEvent::Redirected(info("c", "s")));
    assert_eq!(list.phase(), &Phase::AwaitingTokens);
    assert_eq!(action, AuthAction::Exchange(info("c", "s")));
    let (list, action) = list.advance(AuthEvent::Granted(tokens("a", "r")));
    assert_eq!(list.phase(), &Phase::Ready(tokens("a", "r")));
    assert_eq!(action, AuthAction::Persist("a\nr".to_string()));
    assert_eq!(list.tokens(), Some(&tokens("a", "r")));
}

#[test]
fn flow_without_redirect_gives_up() {
    let (list, _) = GoogleList::new();
    let (list, action) = list.advance(AuthEvent::ChannelClosed);
    assert_eq!(list.phase(), &Phase::Failed);
    assert_eq!(action, AuthAction::Abort);
    assert_eq!(list.tokens(), None);
}

#[test]
fn flow_from_file_starts_with_a_refresh() {
    let (list, action) = GoogleList::from_file("old\nkeep").unwrap();
    assert_eq!(list.phase(), &Phase::AwaitingRefresh(tokens("old", "keep")));
    assert_eq!(action, AuthAction::Refresh(tokens("old", "keep")));
}

#[test]
fn flow_from_file_of_another_shape_does_not_start() {
    assert_eq!(GoogleList::from_file(""), None);
    assert_eq!(GoogleList::from_file("old\nkeep\n"), None);
}

#[test]
fn flow_refresh_with_a_new_access_token_rewrites_the_file() {
    let (list, _) = GoogleList::from_file("old\nkeep").unwrap();
    let (list, action) = list.advance(AuthEvent::Refreshed(tokens("new", "keep")));
    assert_eq!(list.phase(), &Phase::Ready(tokens("new", "keep")));
    assert_eq!(action, AuthAction::Persist("new\nkeep".to_string()));
}

#[test]
fn flow_refresh_with_the_same_access_token_writes_nothing() {
    let (list, _) = GoogleList::from_file("old\nkeep").unwrap();
    let (list, action) = list.advance(AuthEvent::Refreshed(tokens("old", "other")));
    assert_eq!(list.phase(), &Phase::Ready(tokens("old", "other")));
    assert_eq!(action, AuthAction::Proceed);
}

#[test]
fn flow_refused_refresh_falls_back_to_consent() {
    let (list, _) = GoogleList::from_file("old\nkeep").unwrap();
    let (list, action) = list.advance(AuthEvent::RefreshFailed);
    assert_eq!(list.phase(), &Phase::AwaitingRedirect);
    assert_eq!(action, AuthAction::AwaitConsent);
    let (list, action) = list.advance(AuthEvent::Redirected(info("c", "s")));
    assert_eq!(action, AuthAction::Exchange(info("c", "s")));
    let (list, action) = list.advance(AuthEvent::Granted(tokens("a", "r")));
    assert_eq!(action, AuthAction::Persist("a\nr".to_string()));
    assert_eq!(list.tokens(), Some(&tokens("a", "r")));
}

#[test]
fn flow_reports_out_of_turn_change_nothing() {
    let (list, _) = GoogleList::new();
    let (list, action) = list.advance(AuthEvent::Granted(tokens("a", "r")));
    assert_eq!(list.phase(), &Phase::AwaitingRedirect);
    assert_eq!(action, AuthAction::Ignore);
    let (list, action) = list.advance(AuthEvent::RefreshFailed);
    assert_eq!(list.phase(), &Phase::AwaitingRedirect);
    assert_eq!(action, AuthAction::Ignore);

    let (list, _) = list.advance(AuthEvent::Redirected(info("c", "s")));
    let (list, action) = list.advance(AuthEvent::Redirected(info("c2", "s2")));
    assert_eq!(list.phase(), &Phase::AwaitingTokens);
    assert_eq!(action, AuthAction::Ignore);
    let (list, action) = list.advance(AuthEvent::ChannelClosed);
    assert_eq!(list.phase(), &Phase::AwaitingTokens);
    assert_eq!(action, AuthAction::Ignore);

    let (list, _) = list.advance(AuthEvent::Granted(tokens("a", "r")));
    let (list, action) = list.advance(AuthEvent::Redirected(info("c3", "s3")));
    assert_eq!(list.phase(), &Phase::Ready(tokens("a", "r")));
    assert_eq!(action, AuthAction::Ignore);
    let (list, action) = list.advance(AuthEvent::Refreshed(tokens("b", "r")));
    assert_eq!(list.phase(), &Phase::Ready(tokens("a", "r")));
    assert_eq!(action, AuthAction::Ignore);

    let (list, _) = GoogleList::from_file("old\nkeep").unwrap();
    let (list, action) = list.advance(AuthEvent::Granted(tokens("a", "r")));
    assert_eq!(list.phase(), &Phase::AwaitingRefresh(tokens("old", "keep")));
    assert_eq!(action, AuthAction::Ignore);

    let (list, _) = GoogleList::new();
    let (list, _) = list.advance(AuthEvent::ChannelClosed);
    let (list, action) = list.advance(AuthEvent::Redirected(info("c", "s")));
    assert_eq!(list.phase(), &Phase::Failed);
    assert_eq!(action, AuthAction::Ignore);
}

#[test]
fn query_asks_the_primary_calendar_from_the_cutoff_on() {
    let after = Timestamp::new(1_704_099_600, 0, 0).unwrap();
    assert_eq!(
        GoogleList::query(&after),
        EventsQuery {
            calendar_id: "primary".to_string(),
            time_min: "2024-01-01T09:00:00+00:00".to_string(),
            show_deleted: false,
            show_hidden_invitations: true,
            single_events: false,
        }
    );
}

#[test]
fn query_shows_the_cutoff_on_its_own_clock() {
    let after = Timestamp::new(1_704_099_600, 500_000_000, 3_600).unwrap();
    assert_eq!(GoogleList::query(&after).time_min, "2024-01-01T10:00:00.500+01:00");
    let after = Timestamp::new(-1, 0, -19_800).unwrap();
    assert_eq!(GoogleList::query(&after).time_min, "1969-12-31T18:29:59-05:30");
}

#[test]
fn calendar_item_becomes_an_event_without_classification() {
    let start = Timestamp::new(10, 0, 0);
    let end = Timestamp::new(20, 0, 0);
    let event = GoogleList::event("Standup".to_string(), "Daily".to_string(), start, end);
    assert_eq!(event.title, "Standup");
    assert_eq!(event.desc, "Daily");
    assert_eq!(event.start, start);
    assert_eq!(event.end, end);
    assert_eq!(event.class, None);
    let bare = GoogleList::event(String::new(), String::new(), None, None);
    assert_eq!(bare.start, None);
    assert_eq!(bare.end, None);
}

#[test]
fn clones_of_what_the_flow_carries_are_equal_to_it() {
    assert_eq!(info("c", "s").clone(), info("c", "s"));
    assert_eq!(tokens("a", "r").clone(), tokens("a", "r"));
}
