use chrono::{Local, TimeZone};
use event_list::time::{Timestamp, MAX_SECONDS, MIN_SECONDS, SECONDS_PER_DAY};
use event_list::{DayList, Days, Event};

const DAY: i64 = SECONDS_PER_DAY;
// 2024-01-01T00:00:00Z
const NEW_YEAR: i64 = 1_704_067_200;

fn starting(title: &str, secs: i64) -> Event {
    Event {
        title: title.to_string(),
        desc: String::new(),
        end: None,
        start: Timestamp::new(secs, 0, 0),
        class: None,
    }
}

fn titles(day: &DayList) -> Vec<&str> {
    day.events.iter().map(|e| e.title.as_str()).collect()
}

fn sample() -> Vec<Event> {
    vec![
        starting("second day, late", NEW_YEAR + DAY + 72_000),
        starting("first day, noon", NEW_YEAR + 43_200),
        starting("third day", NEW_YEAR + 2 * DAY + 1),
        starting("first day, morning", NEW_YEAR + 28_800),
        starting("second day, early", NEW_YEAR + DAY + 3_600),
    ]
}

#[test]
fn grouping_one_bucket_for_each_day() {
    let events = sample();
    let days = Days::grouped(&events, &[0; 5], 0);
    let list = days.list();
    assert_eq!(list.len(), 3);
    assert_eq!(list[0].date, Timestamp::new(NEW_YEAR, 0, 0).unwrap());
    assert_eq!(list[1].date, Timestamp::new(NEW_YEAR + DAY, 0, 0).unwrap());
    assert_eq!(list[2].date, Timestamp::new(NEW_YEAR + 2 * DAY, 0, 0).unwrap());
    assert_eq!(titles(&list[0]), vec!["first day, morning", "first day, noon"]);
    assert_eq!(titles(&list[1]), vec!["second day, early", "second day, late"]);
    assert_eq!(titles(&list[2]), vec!["third day"]);
}

#[test]
fn grouping_of_nothing_is_empty() {
    let days = Days::grouped(&[], &[], 0);
    assert!(days.list().is_empty());
    assert_eq!(days.into_list(), vec![]);
}

#[test]
fn grouping_keeps_the_events_whole() {
    let event = Event {
        title: "t".to_string(),
        desc: "d".to_string(),
        end: Timestamp::new(NEW_YEAR + 10, 5, 60),
        start: Timestamp::new(NEW_YEAR + 5, 7, -120),
        class: Some("c".to_string()),
    };
    let days = Days::grouped(&[event.clone()], &[0], 0).into_list();
    assert_eq!(days, vec![DayList { date: Timestamp::new(NEW_YEAR, 0, 0).unwrap(), events: vec![event] }]);
}

#[test]
fn grouping_is_deterministic() {
    let events = sample();
    let zones = [3_600, 0, -3_600, 7_200, 0];
    let first = Days::grouped(&events, &zones, 3_600);
    let second = Days::grouped(&events, &zones, 3_600);
    assert_eq!(first, second);
    assert_eq!(first.list(), second.list());
}

#[test]
fn grouping_events_in_a_bucket_start_on_its_day_in_order() {
    let events = sample();
    let zones = [3_600; 5];
    let days = Days::grouped(&events, &zones, 3_600);
    for day in days.list() {
        assert!(!day.events.is_empty());
        for event in &day.events {
            assert_eq!(event.start.unwrap().day_in_zone(3_600), day.date.local_day());
        }
        for pair in day.events.windows(2) {
            assert!(pair[1].start.unwrap().is_at_or_after(&pair[0].start.unwrap()));
        }
    }
}

#[test]
fn grouping_dates_strictly_increase() {
    let events = sample();
    let days = Days::grouped(&events, &[0; 5], -18_000);
    let list = days.list();
    assert_eq!(list.len(), 3);
    for pair in list.windows(2) {
        assert!(pair[0].date.seconds() < pair[1].date.seconds());
        assert!(pair[0].date.local_day() < pair[1].date.local_day());
    }
}

#[test]
fn grouping_loses_and_invents_nothing() {
    let events = sample();
    let days = Days::grouped(&events, &[0; 5], 0);
    let mut found: Vec<Event> = Vec::new();
    for day in days.list() {
        found.extend(day.events.iter().cloned());
    }
    assert_eq!(found.len(), events.len());
    for event in &events {
        assert_eq!(found.iter().filter(|e| *e == event).count(), 1);
    }
}

#[test]
fn grouping_equal_starts_keep_their_order() {
    let events = vec![
        starting("b", NEW_YEAR + 100),
        starting("first", NEW_YEAR + 50),
        starting("a", NEW_YEAR + 100),
        starting("second", NEW_YEAR + 50),
        starting("c", NEW_YEAR + 100),
        starting("third", NEW_YEAR + 50),
    ];
    let days = Days::grouped(&events, &[0; 6], 0);
    assert_eq!(days.list().len(), 1);
    assert_eq!(titles(&days.list()[0]), vec!["first", "second", "third", "b", "a", "c"]);
}

#[test]
fn grouping_orders_by_the_instant_not_the_wall_clock() {
    let mut early = starting("early", NEW_YEAR + 3_600);
    early.start = Timestamp::new(NEW_YEAR + 3_600, 0, 7_200);
    let mut late = starting("late", NEW_YEAR + 3_601);
    late.start = Timestamp::new(NEW_YEAR + 3_601, 0, -7_200);
    let mut nanos = starting("nanos", NEW_YEAR + 3_600);
    nanos.start = Timestamp::new(NEW_YEAR + 3_600, 1, 0);
    let days = Days::grouped(&[late, nanos, early], &[0; 3], 0);
    assert_eq!(titles(&days.list()[0]), vec!["early", "nanos", "late"]);
}

#[test]
fn grouping_the_day_is_that_of_the_zone_at_the_start() {
    // Half past eleven at night in UTC is the next day one hour east.
    let late = starting("late", NEW_YEAR + 84_600);
    let noon = starting("noon", NEW_YEAR + 43_200);
    let days = Days::grouped(&[late.clone(), noon.clone()], &[0, 0], 0);
    assert_eq!(days.list().len(), 1);
    let days = Days::grouped(&[late.clone(), noon.clone()], &[3_600, 3_600], 0);
    assert_eq!(days.list().len(), 2);
    assert_eq!(titles(&days.list()[0]), vec!["noon"]);
    assert_eq!(titles(&days.list()[1]), vec!["late"]);
    // Each event goes by the offset at its own start.
    let days = Days::grouped(&[late, noon], &[0, 3_600], 0);
    assert_eq!(days.list().len(), 1);
}

#[test]
fn grouping_buckets_are_dated_at_midnight_of_the_anchor_clock() {
    let events = [starting("a", NEW_YEAR + 43_200)];
    let east = Days::grouped(&events, &[3_600], 3_600).into_list();
    assert_eq!(east[0].date, Timestamp::new(NEW_YEAR - 3_600, 0, 3_600).unwrap());
    // The zone at the start decides the day, the anchor only how its midnight is shown.
    let mixed = Days::grouped(&events, &[3_600], -7_200).into_list();
    assert_eq!(mixed[0].date, Timestamp::new(NEW_YEAR + 7_200, 0, -7_200).unwrap());
    assert_eq!(mixed[0].date.local_day(), 19_723);
}

#[test]
fn grouping_before_the_epoch() {
    let events = [starting("eve", -1), starting("day", 0), starting("long ago", -3 * DAY - 5)];
    let days = Days::grouped(&events, &[0; 3], 0).into_list();
    assert_eq!(days.len(), 3);
    assert_eq!(days[0].date.seconds(), -4 * DAY);
    assert_eq!(days[1].date.seconds(), -DAY);
    assert_eq!(days[2].date.seconds(), 0);
    assert_eq!(titles(&days[1]), vec!["eve"]);
}

#[test]
fn can_group_wants_a_start_well_inside_the_range() {
    assert!(Days::can_group(&[]));
    assert!(Days::can_group(&sample()));
    let mut events = sample();
    events[2].start = None;
    assert!(!Days::can_group(&events));
    assert!(Days::can_group(&[starting("low", MIN_SECONDS + 3 * DAY)]));
    assert!(!Days::can_group(&[starting("too low", MIN_SECONDS + 3 * DAY - 1)]));
    assert!(Days::can_group(&[starting("high", MAX_SECONDS - 3 * DAY)]));
    assert!(!Days::can_group(&[starting("too high", MAX_SECONDS - 3 * DAY + 1)]));
}

#[test]
fn grouping_at_the_ends_of_the_range() {
    let low = starting("low", MIN_SECONDS + 3 * DAY);
    let high = starting("high", MAX_SECONDS - 3 * DAY);
    for zone in [-86_399, 0, 86_399] {
        for anchor in [-86_399, 0, 86_399] {
            let days = Days::grouped(&[high.clone(), low.clone()], &[zone, zone], anchor);
            assert_eq!(days.list().len(), 2);
            assert_eq!(titles(&days.list()[0]), vec!["low"]);
            assert_eq!(days.list()[0].date.offset_seconds(), anchor);
        }
    }
}

#[test]
fn from_slice_groups_by_the_local_day_of_this_machine() {
    let mut events = Vec::new();
    for hours in [0i64, 5, 11, 12, 13, 23, 24, 36, 47, 48, 100] {
        events.push(starting("e", NEW_YEAR + hours * 3_600));
    }
    let days = Days::from_slice(&events);
    let mut seen = 0;
    let mut previous: Option<chrono::NaiveDate> = None;
    for day in days.list() {
        let date = Local.timestamp_opt(day.events[0].start.unwrap().seconds(), 0).unwrap().date_naive();
        if let Some(earlier) = previous {
            assert!(earlier < date);
        }
        previous = Some(date);
        for event in &day.events {
            let start = Local.timestamp_opt(event.start.unwrap().seconds(), 0).unwrap();
            assert_eq!(start.date_naive(), date);
            seen += 1;
        }
        // The bucket is dated at local midnight of that day, on the clock as it stands now.
        let offset = Local::now().offset().local_minus_utc();
        let midnight = date.and_hms_opt(0, 0, 0).unwrap().and_utc().timestamp() - offset as i64;
        assert_eq!(day.date.seconds(), midnight);
        assert_eq!(day.date.nanoseconds(), 0);
        assert_eq!(day.date.offset_seconds(), offset);
    }
    assert_eq!(seen, events.len());
}

#[test]
fn from_slice_is_deterministic() {
    let events = sample();
    assert_eq!(Days::from_slice(&events), Days::from_slice(&events));
    assert_eq!(Days::from_slice(&[]).into_list(), vec![]);
}

#[test]
fn from_slice_dates_increase_and_buckets_are_ordered() {
    let events = sample();
    let days = Days::from_slice(&events);
    for pair in days.list().windows(2) {
        assert!(pair[0].date.seconds() < pair[1].date.seconds());
    }
    for day in days.list() {
        assert!(!day.events.is_empty());
        for pair in day.events.windows(2) {
            assert!(pair[1].start.unwrap().is_at_or_after(&pair[0].start.unwrap()));
        }
    }
}

#[test]
fn clone_of_a_bucket_is_equal_to_it() {
    let days = Days::grouped(&sample(), &[0; 5], 0).into_list();
    for day in &days {
        assert_eq!(&day.clone(), day);
    }
    let empty = DayList { date: Timestamp::new(0, 0, 0).unwrap(), events: vec![] };
    assert_eq!(empty.clone(), empty);
}
