use event_list::time::{
    Timestamp, MAX_SECONDS, MIN_SECONDS, NANOS_PER_SECOND, OFFSET_BOUND, SECONDS_PER_DAY,
};

fn at(secs: i64) -> Timestamp {
    Timestamp::new(secs, 0, 0).unwrap()
}

#[test]
fn timestamp_keeps_its_parts() {
    let t = Timestamp::new(1_704_099_600, 250, 3_600).unwrap();
    assert_eq!(t.seconds(), 1_704_099_600);
    assert_eq!(t.nanoseconds(), 250);
    assert_eq!(t.offset_seconds(), 3_600);
}

#[test]
fn timestamp_range_is_that_of_chrono() {
    assert_eq!(chrono::DateTime::<chrono::Utc>::MIN_UTC.timestamp(), MIN_SECONDS);
    assert_eq!(chrono::DateTime::<chrono::Utc>::MAX_UTC.timestamp(), MAX_SECONDS);
    assert!(chrono::DateTime::from_timestamp(MIN_SECONDS, 0).is_some());
    assert!(chrono::DateTime::from_timestamp(MIN_SECONDS - 1, 0).is_none());
    assert!(chrono::DateTime::from_timestamp(MAX_SECONDS, 0).is_some());
    assert!(chrono::DateTime::from_timestamp(MAX_SECONDS + 1, 0).is_none());
}

#[test]
fn timestamp_new_accepts_the_ends_of_the_range() {
    assert!(Timestamp::new(MIN_SECONDS, 0, 0).is_some());
    assert!(Timestamp::new(MAX_SECONDS, 999_999_999, 0).is_some());
    assert!(Timestamp::new(0, 0, OFFSET_BOUND - 1).is_some());
    assert!(Timestamp::new(0, 0, -OFFSET_BOUND + 1).is_some());
}

#[test]
fn timestamp_new_refuses_seconds_out_of_range() {
    assert_eq!(Timestamp::new(MIN_SECONDS - 1, 0, 0), None);
    assert_eq!(Timestamp::new(MAX_SECONDS + 1, 0, 0), None);
    assert_eq!(Timestamp::new(i64::MAX, 0, 0), None);
    assert_eq!(Timestamp::new(i64::MIN, 0, 0), None);
}

#[test]
fn timestamp_new_refuses_offsets_of_a_day_or_more() {
    assert_eq!(Timestamp::new(0, 0, OFFSET_BOUND), None);
    assert_eq!(Timestamp::new(0, 0, -OFFSET_BOUND), None);
    assert_eq!(Timestamp::new(0, 0, i32::MAX), None);
    assert_eq!(Timestamp::new(0, 0, i32::MIN), None);
}

#[test]
fn timestamp_new_takes_leap_nanoseconds_only_in_the_last_second_of_a_minute() {
    assert!(Timestamp::new(59, NANOS_PER_SECOND, 0).is_some());
    assert!(Timestamp::new(59, 2 * NANOS_PER_SECOND - 1, 0).is_some());
    assert_eq!(Timestamp::new(59, 2 * NANOS_PER_SECOND, 0), None);
    assert_eq!(Timestamp::new(58, NANOS_PER_SECOND, 0), None);
    assert_eq!(Timestamp::new(0, NANOS_PER_SECOND, 0), None);
    // One second before the epoch is the last second of its minute.
    assert!(Timestamp::new(-1, NANOS_PER_SECOND, 0).is_some());
    assert_eq!(Timestamp::new(-2, NANOS_PER_SECOND, 0), None);
    assert_eq!(Timestamp::new(0, u32::MAX, 0), None);
}

#[test]
fn timestamp_new_agrees_with_chrono_on_leap_nanoseconds() {
    for secs in [-61i64, -60, -2, -1, 0, 58, 59, 60, 119] {
        let ours = Timestamp::new(secs, NANOS_PER_SECOND, 0).is_some();
        let theirs = chrono::DateTime::from_timestamp(secs, NANOS_PER_SECOND).is_some();
        assert_eq!(ours, theirs);
    }
}

#[test]
fn earliest_is_the_start_of_the_range() {
    let t = Timestamp::earliest();
    assert_eq!(t.seconds(), MIN_SECONDS);
    assert_eq!(t.nanoseconds(), 0);
    assert_eq!(t.offset_seconds(), 0);
}

#[test]
fn at_or_after_compares_instants() {
    let early = Timestamp::new(100, 5, 0).unwrap();
    let same = Timestamp::new(100, 5, 7_200).unwrap();
    let later_nanos = Timestamp::new(100, 6, -3_600).unwrap();
    let later_secs = Timestamp::new(101, 0, 0).unwrap();
    assert!(early.is_at_or_after(&early));
    assert!(early.is_at_or_after(&same));
    assert!(same.is_at_or_after(&early));
    assert!(later_nanos.is_at_or_after(&early));
    assert!(!early.is_at_or_after(&later_nanos));
    assert!(later_secs.is_at_or_after(&later_nanos));
    assert!(!later_nanos.is_at_or_after(&later_secs));
}

#[test]
fn more_than_after_is_strict() {
    let since = Timestamp::new(1_000, 500, 0).unwrap();
    let exactly = Timestamp::new(4_600, 500, 0).unwrap();
    let just_over = Timestamp::new(4_600, 501, 0).unwrap();
    let just_under = Timestamp::new(4_600, 499, 0).unwrap();
    assert!(!exactly.is_more_than_after(3_600, &since));
    assert!(just_over.is_more_than_after(3_600, &since));
    assert!(!just_under.is_more_than_after(3_600, &since));
    assert!(!since.is_more_than_after(3_600, &exactly));
    assert!(!since.is_more_than_after(0, &since));
    assert!(just_over.is_more_than_after(0, &exactly));
}

#[test]
fn more_than_after_spans_the_whole_range() {
    let first = Timestamp::earliest();
    let last = at(MAX_SECONDS);
    assert!(last.is_more_than_after(u32::MAX, &first));
    assert!(!first.is_more_than_after(0, &last));
    assert!(at(0).is_more_than_after(3_600, &first));
}

#[test]
fn day_in_zone_counts_days_from_the_epoch() {
    assert_eq!(at(0).day_in_zone(0), 0);
    assert_eq!(at(86_399).day_in_zone(0), 0);
    assert_eq!(at(86_400).day_in_zone(0), 1);
    assert_eq!(at(-1).day_in_zone(0), -1);
    assert_eq!(at(-86_400).day_in_zone(0), -1);
    assert_eq!(at(-86_401).day_in_zone(0), -2);
    // 2024-01-01T09:00:00Z
    assert_eq!(at(1_704_099_600).day_in_zone(0), 19_723);
}

#[test]
fn day_in_zone_moves_with_the_zone() {
    // 2024-01-01T23:30:00Z is already the 2nd one hour east, still the 1st in UTC.
    let late = at(1_704_151_800);
    assert_eq!(late.day_in_zone(0), 19_723);
    assert_eq!(late.day_in_zone(3_600), 19_724);
    assert_eq!(late.day_in_zone(-3_600), 19_723);
    // 2024-01-01T00:30:00Z is still the 31st one hour west.
    let early = at(1_704_069_000);
    assert_eq!(early.day_in_zone(0), 19_723);
    assert_eq!(early.day_in_zone(-3_600), 19_722);
}

#[test]
fn local_day_uses_the_own_offset() {
    let t = Timestamp::new(1_704_151_800, 0, 3_600).unwrap();
    assert_eq!(t.local_day(), 19_724);
    let u = Timestamp::new(1_704_151_800, 0, 0).unwrap();
    assert_eq!(u.local_day(), 19_723);
}

#[test]
fn day_in_zone_agrees_with_chrono() {
    let cases: [(i64, i32); 6] = [
        (1_704_151_800, 3_600),
        (1_704_069_000, -3_600),
        (-1, 0),
        (-86_401, 7_200),
        (951_782_400, 50_400),
        (4_102_444_799, -43_200),
    ];
    for (secs, zone) in cases {
        let theirs = chrono::DateTime::from_timestamp(secs, 0)
            .unwrap()
            .with_timezone(&chrono::FixedOffset::east_opt(zone).unwrap())
            .date_naive();
        let epoch = chrono::NaiveDate::from_ymd_opt(1970, 1, 1).unwrap();
        let expected = theirs.signed_duration_since(epoch).num_days();
        assert_eq!(at(secs).day_in_zone(zone), expected);
    }
}

#[test]
fn midnight_is_the_start_of_the_day_on_the_given_clock() {
    let utc = Timestamp::midnight(19_723, 0).unwrap();
    assert_eq!(utc.seconds(), 1_704_067_200);
    assert_eq!(utc.nanoseconds(), 0);
    assert_eq!(utc.offset_seconds(), 0);
    let east = Timestamp::midnight(19_723, 3_600).unwrap();
    assert_eq!(east.seconds(), 1_704_067_200 - 3_600);
    assert_eq!(east.offset_seconds(), 3_600);
    let west = Timestamp::midnight(19_723, -18_000).unwrap();
    assert_eq!(west.seconds(), 1_704_067_200 + 18_000);
    assert_eq!(west.local_day(), 19_723);
    assert_eq!(Timestamp::midnight(-1, 0).unwrap().seconds(), -SECONDS_PER_DAY);
}

#[test]
fn midnight_refuses_what_cannot_be_held() {
    assert_eq!(Timestamp::midnight(i64::MAX, 0), None);
    assert_eq!(Timestamp::midnight(i64::MIN, 0), None);
    assert_eq!(Timestamp::midnight(0, OFFSET_BOUND), None);
    assert_eq!(Timestamp::midnight(MAX_SECONDS / SECONDS_PER_DAY + 1, 0), None);
    assert!(Timestamp::midnight(MAX_SECONDS / SECONDS_PER_DAY, 0).is_some());
    assert!(Timestamp::midnight(MIN_SECONDS / SECONDS_PER_DAY, 0).is_some());
    assert_eq!(Timestamp::midnight(MIN_SECONDS / SECONDS_PER_DAY, 1), None);
}
