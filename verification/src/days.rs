//! Events grouped by the calendar day on which they start.

use crate::event::{Event, EventView};
use crate::time::{
    at_or_after, day_of, local_offset_at, local_offset_now, midnight_of, representable,
    valid_offset, Timestamp, TimestampView, MAX_SECONDS, MIN_SECONDS, SECONDS_PER_DAY,
};
use vstd::prelude::*;

verus! {

/// The mathematical value of a [`DayList`].
pub struct DayListView {
    pub date: TimestampView,
    pub events: Seq<EventView>,
}

/// The events of one calendar day.
#[derive(Debug, PartialEq, Eq)]
pub struct DayList {
    /// Midnight at the start of the day, on the local clock.
    pub date: Timestamp,
    /// The events that start on the day, earliest first.
    pub events: Vec<Event>,
}

impl View for DayList {
    type V = DayListView;

    open spec fn view(&self) -> DayListView {
        DayListView { date: self.date@, events: self.events.deep_view() }
    }
}

impl DeepView for DayList {
    type V = DayListView;

    open spec fn deep_view(&self) -> DayListView {
        self@
    }
}

impl Clone for DayList {
    fn clone(&self) -> (copy: DayList)
        ensures
            copy@ == self@,
    {
        let mut events: Vec<Event> = Vec::new();
        let mut i: usize = 0;
        while i < self.events.len()
            invariant
                i <= self.events.len(),
                events.deep_view() == self.events.deep_view().take(i as int),
            decreases self.events.len() - i,
        {
            let ghost before = events.deep_view();
            events.push(self.events[i].clone());
            assert(events.deep_view() == before.push(self.events[i as int]@));
            i += 1;
        }
        assert(self.events.deep_view().take(i as int) == self.events.deep_view());
        DayList { date: self.date, events }
    }
}

/// Days in order, each with its events.
///
/// Every value is [`well_grouped`].
#[derive(Debug, PartialEq, Eq)]
pub struct Days {
    list: Vec<DayList>,
}

impl View for Days {
    type V = Seq<DayListView>;

    closed spec fn view(&self) -> Seq<DayListView> {
        self.list.deep_view()
    }
}

/// Whether `start` lies far enough inside the representable range for the
/// midnight of its day to be representable whatever the zone.
pub open spec fn can_anchor(start: TimestampView) -> bool {
    MIN_SECONDS + 3 * SECONDS_PER_DAY <= start.secs <= MAX_SECONDS - 3 * SECONDS_PER_DAY
}

/// Whether the events can be grouped: each has a start, far enough inside
/// the representable range.
pub open spec fn groupable(events: Seq<EventView>) -> bool {
    forall|i: int|
        0 <= i < events.len() ==> (#[trigger] events[i]).start is Some && can_anchor(
            events[i].start->0,
        )
}

/// Whether each of `zones` is an offset that a time zone can have.
pub open spec fn valid_zones(zones: Seq<i32>) -> bool {
    forall|i: int| 0 <= i < zones.len() ==> valid_offset(#[trigger] zones[i] as int)
}

/// The calendar day on which `event` starts for a clock that runs `zone`
/// seconds ahead of UTC.
pub open spec fn start_day(event: EventView, zone: i32) -> int {
    day_of(event.start->0.secs, zone as int)
}

/// Whether `a` starts no later than `b`.
pub open spec fn starts_by(a: EventView, b: EventView) -> bool {
    at_or_after(b.start->0, a.start->0)
}

/// `days` with `day` put in at its place, unless it is there already.
/// `days` is meant to be in increasing order.
pub open spec fn with_day(days: Seq<int>, day: int) -> Seq<int>
    decreases days.len(),
{
    if days.len() == 0 {
        seq![day]
    } else if days.last() < day {
        days.push(day)
    } else if days.last() == day {
        days
    } else {
        with_day(days.drop_last(), day).push(days.last())
    }
}

/// The days on which the events start, each once, in increasing order.
/// `zones[i]` is the offset of the local clock at the start of `events[i]`.
pub open spec fn days_of(events: Seq<EventView>, zones: Seq<i32>) -> Seq<int>
    decreases events.len(),
{
    if events.len() == 0 {
        Seq::empty()
    } else {
        with_day(
            days_of(events.drop_last(), zones.drop_last()),
            start_day(events.last(), zones.last()),
        )
    }
}

/// Those of the events that start on `day`, in their order.
pub open spec fn on_day(events: Seq<EventView>, zones: Seq<i32>, day: int) -> Seq<EventView>
    decreases events.len(),
{
    if events.len() == 0 {
        Seq::empty()
    } else {
        let before = on_day(events.drop_last(), zones.drop_last(), day);
        if start_day(events.last(), zones.last()) == day {
            before.push(events.last())
        } else {
            before
        }
    }
}

/// `sorted` with `event` put in behind every event that starts no later.
pub open spec fn inserted(sorted: Seq<EventView>, event: EventView) -> Seq<EventView>
    decreases sorted.len(),
{
    if sorted.len() == 0 {
        seq![event]
    } else if starts_by(sorted.last(), event) {
        sorted.push(event)
    } else {
        inserted(sorted.drop_last(), event).push(sorted.last())
    }
}

/// The events ordered by their start, earliest first; events that start at
/// the same instant keep their order.
pub open spec fn by_start(events: Seq<EventView>) -> Seq<EventView>
    decreases events.len(),
{
    if events.len() == 0 {
        Seq::empty()
    } else {
        inserted(by_start(events.drop_last()), events.last())
    }
}

/// The bucket for `day`: its date is the day's midnight on a clock `anchor`
/// seconds ahead of UTC, and it holds the events that start on the day,
/// ordered by their start.
pub open spec fn bucket(events: Seq<EventView>, zones: Seq<i32>, anchor: i32, day: int)
    -> DayListView {
    DayListView {
        date: midnight_of(day, anchor as int),
        events: by_start(on_day(events, zones, day)),
    }
}

/// The events grouped by day: one bucket for each day on which an event
/// starts, in increasing order of the days.
pub open spec fn grouping(events: Seq<EventView>, zones: Seq<i32>, anchor: i32) -> Seq<
    DayListView,
> {
    days_of(events, zones).map_values(|day: int| bucket(events, zones, anchor, day))
}

/// The day numbers as integers.
spec fn as_days(days: Seq<i64>) -> Seq<int> {
    days.map_values(|day: i64| day as int)
}

/// Whether each of `days` has a representable midnight on a clock `anchor`
/// seconds ahead of UTC.
spec fn anchored(days: Seq<i64>, anchor: i32) -> bool {
    forall|k: int|
        0 <= k < days.len() ==> representable(midnight_of(#[trigger] days[k] as int, anchor as int))
}

/// Puts `day` into `days` at its place, unless it is there already.
fn insert_day(days: &mut Vec<i64>, day: i64, Ghost(anchor): Ghost<i32>)
    requires
        anchored(old(days)@, anchor),
        representable(midnight_of(day as int, anchor as int)),
    ensures
        as_days(final(days)@) == with_day(as_days(old(days)@), day as int),
        anchored(final(days)@, anchor),
{
    let ghost start = as_days(days@);
    let mut at: usize = days.len();
    assert(start.take(at as int) == start);
    assert(start.skip(at as int) == Seq::<int>::empty());
    assert(with_day(start, day as int) + Seq::<int>::empty() == with_day(start, day as int));
    while at > 0 && days[at - 1] > day
        invariant
            at <= days.len(),
            start == as_days(days@),
            with_day(start, day as int) == with_day(start.take(at as int), day as int) + start.skip(
                at as int,
            ),
        decreases at,
    {
        let ghost head = start.take(at as int);
        assert(head.last() == days[at - 1] as int);
        assert(head.drop_last() == start.take(at - 1));
        assert(with_day(head.drop_last(), day as int).push(head.last()) + start.skip(at as int)
            == with_day(head.drop_last(), day as int) + start.skip(at - 1));
        at -= 1;
    }
    let ghost head = start.take(at as int);
    if at > 0 && days[at - 1] == day {
        assert(head.last() == day as int);
        assert(head + start.skip(at as int) == start);
    } else {
        if at > 0 {
            assert(head.last() == days[at - 1] as int);
        }
        let ghost before = days@;
        days.insert(at, day);
        assert(as_days(days@) == head.push(day as int) + start.skip(at as int));
        assert forall|k: int| 0 <= k < days.len() implies representable(
            midnight_of(#[trigger] days@[k] as int, anchor as int),
        ) by {
            if k < at {
                assert(days@[k] == before[k]);
            } else if k > at {
                assert(days@[k] == before[k - 1]);
            }
        }
    }
}

/// Whether `a` starts no later than `b`.
fn no_later(a: &Event, b: &Event) -> (yes: bool)
    requires
        a@.start is Some,
        b@.start is Some,
    ensures
        yes == starts_by(a@, b@),
{
    match (&a.start, &b.start) {
        (Some(first), Some(second)) => second.is_at_or_after(first),
        _ => false,
    }
}

/// Whether every one of the events has a start.
spec fn all_started(events: Seq<EventView>) -> bool {
    forall|i: int| 0 <= i < events.len() ==> (#[trigger] events[i]).start is Some
}

/// Puts `event` into `sorted` behind every event that starts no later.
fn insert_by_start(sorted: &mut Vec<Event>, event: Event)
    requires
        all_started(old(sorted).deep_view()),
        event@.start is Some,
    ensures
        final(sorted).deep_view() == inserted(old(sorted).deep_view(), event@),
        all_started(final(sorted).deep_view()),
{
    let ghost start = sorted.deep_view();
    let ghost new = event@;
    let mut at: usize = sorted.len();
    assert(start.take(at as int) == start);
    assert(start.skip(at as int) == Seq::<EventView>::empty());
    assert(inserted(start, new) + Seq::<EventView>::empty() == inserted(start, new));
    while at > 0 && !no_later(&sorted[at - 1], &event)
        invariant
            at <= sorted.len(),
            start == sorted.deep_view(),
            new == event@,
            new.start is Some,
            all_started(start),
            inserted(start, new) == inserted(start.take(at as int), new) + start.skip(at as int),
        decreases at,
    {
        let ghost head = start.take(at as int);
        assert(head.last() == sorted[at - 1]@);
        assert(head.drop_last() == start.take(at - 1));
        assert(inserted(head.drop_last(), new).push(head.last()) + start.skip(at as int)
            == inserted(head.drop_last(), new) + start.skip(at - 1));
        at -= 1;
    }
    let ghost head = start.take(at as int);
    if at > 0 {
        assert(head.last() == sorted[at - 1]@);
        assert(start[at - 1].start is Some);
    }
    let ghost before = sorted@;
    sorted.insert(at, event);
    assert(sorted.deep_view() == head.push(new) + start.skip(at as int));
    assert forall|k: int| 0 <= k < sorted.len() implies (#[trigger] sorted.deep_view()[k]).start
        is Some by {
        if k < at {
            assert(sorted@[k] == before[k]);
            assert(start[k].start is Some);
        } else if k > at {
            assert(sorted@[k] == before[k - 1]);
            assert(start[k - 1].start is Some);
        }
    }
}

/// The calendar day on which `event` starts for a clock that runs `zone`
/// seconds ahead of UTC.
fn day_number(event: &Event, zone: i32) -> (day: i64)
    requires
        event@.start is Some,
    ensures
        day == start_day(event@, zone),
{
    match &event.start {
        Some(start) => start.day_in_zone(zone),
        None => 0,
    }
}

/// Those of the events that start on `day`, ordered by their start.
fn events_on(list: &[Event], zones: &[i32], day: i64) -> (found: Vec<Event>)
    requires
        list.len() == zones.len(),
        groupable(list.deep_view()),
    ensures
        found.deep_view() == by_start(on_day(list.deep_view(), zones@, day as int)),
{
    let ghost events = list.deep_view();
    let mut found: Vec<Event> = Vec::new();
    let mut i: usize = 0;
    assert(events.take(0) == Seq::<EventView>::empty());
    assert(found.deep_view() == Seq::<EventView>::empty());
    while i < list.len()
        invariant
            i <= list.len(),
            list.len() == zones.len(),
            events == list.deep_view(),
            groupable(events),
            all_started(found.deep_view()),
            found.deep_view() == by_start(
                on_day(events.take(i as int), zones@.take(i as int), day as int),
            ),
        decreases list.len() - i,
    {
        let ghost seen = events.take(i + 1);
        assert(seen.drop_last() == events.take(i as int));
        assert(zones@.take(i + 1).drop_last() == zones@.take(i as int));
        assert(seen.last() == list[i as int]@);
        assert(events[i as int].start is Some);
        if day_number(&list[i], zones[i]) == day {
            let ghost before = on_day(events.take(i as int), zones@.take(i as int), day as int);
            assert(before.push(seen.last()).drop_last() == before);
            insert_by_start(&mut found, list[i].clone());
        }
        i += 1;
    }
    assert(events.take(i as int) == events);
    assert(zones@.take(i as int) == zones@);
    found
}

impl Days {
    #[verifier::type_invariant]
    pub closed spec fn is_well_grouped(self) -> bool {
        well_grouped(self@)
    }

    /// Whether the events can be grouped: each has a start, at least three
    /// days inside the range that a [`Timestamp`] can hold.
    pub fn can_group(list: &[Event]) -> (yes: bool)
        ensures
            yes == groupable(list.deep_view()),
    {
        let ghost events = list.deep_view();
        let mut i: usize = 0;
        while i < list.len()
            invariant
                i <= list.len(),
                events == list.deep_view(),
                groupable(events.take(i as int)),
            decreases list.len() - i,
        {
            assert(events[i as int] == list[i as int]@);
            match &list[i].start {
                None => {
                    return false;
                },
                Some(start) => {
                    let secs = start.seconds();
                    if secs < MIN_SECONDS + 3 * SECONDS_PER_DAY || secs > MAX_SECONDS - 3
                        * SECONDS_PER_DAY {
                        return false;
                    }
                },
            }
            assert forall|j: int| 0 <= j < i + 1 implies (#[trigger] events.take(i + 1)[j]).start
                is Some && can_anchor(events.take(i + 1)[j].start->0) by {
                if j < i {
                    assert(events.take(i + 1)[j] == events.take(i as int)[j]);
                }
            }
            i += 1;
        }
        assert(events.take(i as int) == events);
        true
    }

    /// Groups the events by the day on which they start, where `zones[i]`
    /// is the offset of the local clock at the start of `list[i]` and every
    /// bucket is dated at the midnight of a clock `anchor` seconds ahead of
    /// UTC.
    pub fn grouped(list: &[Event], zones: &[i32], anchor: i32) -> (days: Days)
        requires
            list.len() == zones.len(),
            groupable(list.deep_view()),
            valid_zones(zones@),
            valid_offset(anchor as int),
        ensures
            days@ == grouping(list.deep_view(), zones@, anchor),
            well_grouped(days@),
    {
        let ghost events = list.deep_view();
        let mut day_list: Vec<i64> = Vec::new();
        let mut i: usize = 0;
        assert(events.take(0) == Seq::<EventView>::empty());
        assert(as_days(day_list@) == Seq::<int>::empty());
        while i < list.len()
            invariant
                i <= list.len(),
                list.len() == zones.len(),
                events == list.deep_view(),
                groupable(events),
                valid_zones(zones@),
                valid_offset(anchor as int),
                anchored(day_list@, anchor),
                as_days(day_list@) == days_of(events.take(i as int), zones@.take(i as int)),
            decreases list.len() - i,
        {
            assert(events.take(i + 1).drop_last() == events.take(i as int));
            assert(zones@.take(i + 1).drop_last() == zones@.take(i as int));
            assert(events.take(i + 1).last() == list[i as int]@);
            assert(events[i as int].start is Some && can_anchor(events[i as int].start->0));
            assert(valid_offset(zones@[i as int] as int));
            let day = day_number(&list[i], zones[i]);
            insert_day(&mut day_list, day, Ghost(anchor));
            i += 1;
        }
        assert(events.take(i as int) == events);
        assert(zones@.take(i as int) == zones@);
        let ghost whole = grouping(events, zones@, anchor);
        let mut out: Vec<DayList> = Vec::new();
        let mut k: usize = 0;
        assert(out.deep_view() == whole.take(0));
        while k < day_list.len()
            invariant
                k <= day_list.len(),
                list.len() == zones.len(),
                events == list.deep_view(),
                groupable(events),
                anchored(day_list@, anchor),
                as_days(day_list@) == days_of(events, zones@),
                whole == grouping(events, zones@, anchor),
                out.deep_view() == whole.take(k as int),
            decreases day_list.len() - k,
        {
            let day = day_list[k];
            assert(as_days(day_list@)[k as int] == day as int);
            let found = events_on(list, zones, day);
            let date = match Timestamp::midnight(day, anchor) {
                Some(date) => date,
                None => vstd::pervasive::unreached(),
            };
            let ghost before = out.deep_view();
            let made = DayList { date, events: found };
            assert(made@ == whole[k as int]);
            out.push(made);
            assert(out.deep_view() == before.push(whole[k as int]));
            assert(whole.take(k + 1) == whole.take(k as int).push(whole[k as int]));
            k += 1;
        }
        assert(whole.take(k as int) == whole);
        proof {
            lemma_grouping_is_well_grouped(events, zones@, anchor);
        }
        Days { list: out }
    }

    /// Groups the events by the day on which they start on the local clock
    /// of this machine. Every bucket is dated at the midnight of the local
    /// clock as it stands now.
    pub fn from_slice(list: &[Event]) -> (days: Days)
        requires
            groupable(list.deep_view()),
        ensures
            exists|zones: Seq<i32>, anchor: i32|
                days@ == #[trigger] grouping(list.deep_view(), zones, anchor) && zones.len()
                    == list.len() && valid_zones(zones) && valid_offset(anchor as int),
            well_grouped(days@),
    {
        let mut zones: Vec<i32> = Vec::new();
        let mut i: usize = 0;
        while i < list.len()
            invariant
                i <= list.len(),
                zones.len() == i,
                groupable(list.deep_view()),
                valid_zones(zones@),
            decreases list.len() - i,
        {
            assert(list.deep_view()[i as int].start is Some);
            let secs = match &list[i].start {
                Some(start) => start.seconds(),
                None => 0,
            };
            let zone = local_offset_at(secs);
            let ghost before = zones@;
            zones.push(zone);
            assert forall|j: int| 0 <= j < zones.len() implies valid_offset(
                #[trigger] zones@[j] as int,
            ) by {
                if j < i {
                    assert(zones@[j] == before[j]);
                }
            }
            i += 1;
        }
        let anchor = local_offset_now();
        Days::grouped(list, zones.as_slice(), anchor)
    }

    /// The buckets, in increasing order of their days.
    pub fn list(&self) -> (list: &Vec<DayList>)
        ensures
            list.deep_view() == self@,
            well_grouped(self@),
    {
        proof {
            use_type_invariant(self);
        }
        &self.list
    }

    /// The buckets, handed over.
    pub fn into_list(self) -> (list: Vec<DayList>)
        ensures
            list.deep_view() == self@,
            well_grouped(self@),
    {
        proof {
            use_type_invariant(&self);
        }
        self.list
    }
}

/// Whether the days stand in strictly increasing order.
pub open spec fn increasing(days: Seq<int>) -> bool {
    forall|a: int, b: int| 0 <= a < b < days.len() ==> days[a] < days[b]
}

/// Whether the events stand in order of their start, earliest first.
pub open spec fn ordered_by_start(events: Seq<EventView>) -> bool {
    forall|j: int, k: int| 0 <= j <= k < events.len() ==> starts_by(events[j], events[k])
}

/// Whether `events[i]` starts on `day`.
pub open spec fn starts_on(events: Seq<EventView>, zones: Seq<i32>, i: int, day: int) -> bool {
    0 <= i < events.len() && start_day(events[i], zones[i]) == day
}

proof fn lemma_with_day(days: Seq<int>, day: int)
    requires
        increasing(days),
    ensures
        increasing(with_day(days, day)),
        forall|x: int|
            #![trigger with_day(days, day).contains(x)]
            #![trigger days.contains(x)]
            with_day(days, day).contains(x) <==> (days.contains(x) || x == day),
    decreases days.len(),
{
    let out = with_day(days, day);
    if days.len() == 0 {
        assert(out[0] == day);
    } else if days.last() < day {
        assert(out[days.len() as int] == day);
        assert forall|x: int| out.contains(x) <==> (days.contains(x) || x == day) by {
            if out.contains(x) {
                let i = choose|i: int| 0 <= i < out.len() && out[i] == x;
                if i < days.len() {
                    assert(days[i] == x);
                }
            }
            if days.contains(x) {
                let i = choose|i: int| 0 <= i < days.len() && days[i] == x;
                assert(out[i] == x);
            }
        }
        assert forall|a: int, b: int| 0 <= a < b < out.len() implies out[a] < out[b] by {
            if b == days.len() {
                if a < days.len() - 1 {
                    assert(days[a] < days[days.len() - 1]);
                }
            } else {
                assert(days[a] < days[b]);
            }
        }
    } else if days.last() == day {
        assert(days[days.len() - 1] == day);
    } else {
        let head = days.drop_last();
        assert forall|a: int, b: int| 0 <= a < b < head.len() implies head[a] < head[b] by {
            assert(days[a] < days[b]);
        }
        lemma_with_day(head, day);
        let inner = with_day(head, day);
        assert(out == inner.push(days.last()));
        assert forall|i: int| 0 <= i < inner.len() implies inner[i] < days.last() by {
            assert(inner.contains(inner[i]));
            if head.contains(inner[i]) {
                let j = choose|j: int| 0 <= j < head.len() && head[j] == inner[i];
                assert(days[j] < days[days.len() - 1]);
            }
        }
        assert forall|a: int, b: int| 0 <= a < b < out.len() implies out[a] < out[b] by {
            if b < inner.len() {
                assert(inner[a] < inner[b]);
            }
        }
        assert forall|x: int| out.contains(x) <==> (days.contains(x) || x == day) by {
            if out.contains(x) {
                let i = choose|i: int| 0 <= i < out.len() && out[i] == x;
                if i < inner.len() {
                    assert(inner.contains(x));
                    if head.contains(x) {
                        let j = choose|j: int| 0 <= j < head.len() && head[j] == x;
                        assert(days[j] == x);
                    }
                } else {
                    assert(days[days.len() - 1] == x);
                }
            }
            if days.contains(x) {
                let j = choose|j: int| 0 <= j < days.len() && days[j] == x;
                if j < head.len() {
                    assert(head[j] == x);
                    assert(head.contains(x));
                    assert(inner.contains(x));
                    let i = choose|i: int| 0 <= i < inner.len() && inner[i] == x;
                    assert(out[i] == x);
                } else {
                    assert(out[inner.len() as int] == x);
                }
            }
            if x == day {
                assert(inner.contains(x));
                let i = choose|i: int| 0 <= i < inner.len() && inner[i] == x;
                assert(out[i] == x);
            }
        }
    }
}

/// The days of a grouping stand in strictly increasing order, and a day is
/// among them exactly if one of the events starts on it.
pub proof fn lemma_days_of(events: Seq<EventView>, zones: Seq<i32>)
    requires
        zones.len() == events.len(),
    ensures
        increasing(days_of(events, zones)),
        forall|day: int|
            days_of(events, zones).contains(day) <==> exists|i: int|
                #[trigger] starts_on(events, zones, i, day),
    decreases events.len(),
{
    let days = days_of(events, zones);
    if events.len() == 0 {
        assert forall|day: int| days.contains(day) <==> exists|i: int| #[trigger]
            starts_on(events, zones, i, day) by {}
    } else {
        let head = events.drop_last();
        let head_zones = zones.drop_last();
        let last = events.len() - 1;
        let new = start_day(events.last(), zones.last());
        lemma_days_of(head, head_zones);
        lemma_with_day(days_of(head, head_zones), new);
        assert forall|day: int| days.contains(day) <==> exists|i: int| #[trigger]
            starts_on(events, zones, i, day) by {
            if days.contains(day) {
                if day == new {
                    assert(starts_on(events, zones, last, day));
                } else {
                    assert(days_of(head, head_zones).contains(day));
                    let i = choose|i: int| #[trigger] starts_on(head, head_zones, i, day);
                    assert(starts_on(events, zones, i, day));
                }
            }
            if exists|i: int| #[trigger] starts_on(events, zones, i, day) {
                let i = choose|i: int| #[trigger] starts_on(events, zones, i, day);
                if i < last {
                    assert(starts_on(head, head_zones, i, day));
                    assert(days_of(head, head_zones).contains(day));
                }
            }
        }
    }
}

/// Every event among those picked for a day is one of the events, and it
/// starts on that day.
pub proof fn lemma_on_day(events: Seq<EventView>, zones: Seq<i32>, day: int, k: int)
    requires
        zones.len() == events.len(),
        0 <= k < on_day(events, zones, day).len(),
    ensures
        exists|i: int| #[trigger]
            starts_on(events, zones, i, day) && events[i] == on_day(events, zones, day)[k],
    decreases events.len(),
{
    if events.len() > 0 {
        let head = events.drop_last();
        let head_zones = zones.drop_last();
        let before = on_day(head, head_zones, day);
        if k < before.len() {
            lemma_on_day(head, head_zones, day, k);
            let i = choose|i: int| #[trigger]
                starts_on(head, head_zones, i, day) && head[i] == before[k];
            assert(starts_on(events, zones, i, day));
        } else {
            assert(starts_on(events, zones, events.len() - 1, day));
        }
    }
}

/// Putting an event in adds it once and loses nothing.
proof fn lemma_inserted_holds(sorted: Seq<EventView>, event: EventView)
    ensures
        inserted(sorted, event).to_multiset() == sorted.to_multiset().insert(event),
    decreases sorted.len(),
{
    broadcast use vstd::seq_lib::group_to_multiset_ensures;

    if sorted.len() == 0 {
        assert(inserted(sorted, event) == sorted.push(event));
    } else if starts_by(sorted.last(), event) {
    } else {
        let head = sorted.drop_last();
        lemma_inserted_holds(head, event);
        assert(sorted == head.push(sorted.last()));
        assert(head.to_multiset().insert(event).insert(sorted.last()) =~= head.to_multiset().insert(
            sorted.last(),
        ).insert(event));
    }
}

/// Ordering by start keeps every event as often as it was there.
pub proof fn lemma_by_start_permutes(events: Seq<EventView>)
    ensures
        by_start(events).to_multiset() == events.to_multiset(),
    decreases events.len(),
{
    broadcast use vstd::seq_lib::group_to_multiset_ensures;

    if events.len() == 0 {
    } else {
        let head = events.drop_last();
        lemma_by_start_permutes(head);
        lemma_inserted_holds(by_start(head), events.last());
        assert(events == head.push(events.last()));
    }
}

proof fn lemma_inserted_ordered(sorted: Seq<EventView>, event: EventView)
    requires
        ordered_by_start(sorted),
    ensures
        ordered_by_start(inserted(sorted, event)),
    decreases sorted.len(),
{
    broadcast use vstd::seq_lib::group_to_multiset_ensures;

    let out = inserted(sorted, event);
    if sorted.len() == 0 {
    } else if starts_by(sorted.last(), event) {
        assert forall|j: int, k: int| 0 <= j <= k < out.len() implies starts_by(out[j], out[k]) by {
            if k == sorted.len() && j < sorted.len() {
                assert(starts_by(sorted[j], sorted[sorted.len() - 1]));
            } else if k < sorted.len() {
                assert(starts_by(sorted[j], sorted[k]));
            }
        }
    } else {
        let head = sorted.drop_last();
        assert forall|j: int, k: int| 0 <= j <= k < head.len() implies starts_by(
            head[j],
            head[k],
        ) by {
            assert(starts_by(sorted[j], sorted[k]));
        }
        lemma_inserted_ordered(head, event);
        lemma_inserted_holds(head, event);
        let inner = inserted(head, event);
        assert(out == inner.push(sorted.last()));
        assert forall|j: int| 0 <= j < inner.len() implies starts_by(inner[j], sorted.last()) by {
            assert(inner.contains(inner[j]));
            assert(inner.to_multiset().count(inner[j]) > 0);
            if inner[j] != event {
                assert(head.to_multiset().count(inner[j]) > 0);
                assert(head.contains(inner[j]));
                let i = choose|i: int| 0 <= i < head.len() && head[i] == inner[j];
                assert(starts_by(sorted[i], sorted[sorted.len() - 1]));
            }
        }
        assert forall|j: int, k: int| 0 <= j <= k < out.len() implies starts_by(out[j], out[k]) by {
            if k < inner.len() {
                assert(starts_by(inner[j], inner[k]));
            } else if j < inner.len() {
                assert(starts_by(inner[j], sorted.last()));
            }
        }
    }
}

/// Ordering by start puts the events in order of their start.
pub proof fn lemma_by_start_ordered(events: Seq<EventView>)
    ensures
        ordered_by_start(by_start(events)),
    decreases events.len(),
{
    if events.len() > 0 {
        lemma_by_start_ordered(events.drop_last());
        lemma_inserted_ordered(by_start(events.drop_last()), events.last());
    }
}

/// The same events under the same offsets always give the same days, in the
/// same order.
pub proof fn lemma_grouping_is_determined(
    first: Days,
    second: Days,
    events: Seq<EventView>,
    zones: Seq<i32>,
    anchor: i32,
)
    requires
        first@ == grouping(events, zones, anchor),
        second@ == grouping(events, zones, anchor),
    ensures
        first@ == second@,
{
}

/// In every bucket of a grouping, each event is one of the events that were
/// grouped and starts on the bucket's day, and the events stand in order of
/// their start.
pub proof fn lemma_bucket_holds_its_day(
    events: Seq<EventView>,
    zones: Seq<i32>,
    anchor: i32,
    b: int,
    k: int,
)
    requires
        zones.len() == events.len(),
        0 <= b < grouping(events, zones, anchor).len(),
        0 <= k < grouping(events, zones, anchor)[b].events.len(),
    ensures
        ordered_by_start(grouping(events, zones, anchor)[b].events),
        exists|i: int| #[trigger]
            starts_on(
                events,
                zones,
                i,
                day_of(
                    grouping(events, zones, anchor)[b].date.secs,
                    grouping(events, zones, anchor)[b].date.offset,
                ),
            ) && events[i] == grouping(events, zones, anchor)[b].events[k],
{
    broadcast use vstd::seq_lib::group_to_multiset_ensures;

    let day = days_of(events, zones)[b];
    let picked = on_day(events, zones, day);
    let held = grouping(events, zones, anchor)[b];
    assert(held == bucket(events, zones, anchor, day));
    lemma_by_start_ordered(picked);
    lemma_by_start_permutes(picked);
    lemma_midnight_day(day, anchor);
    let event = held.events[k];
    assert(held.events.contains(event));
    assert(held.events.to_multiset().count(event) > 0);
    assert(picked.contains(event));
    let at = choose|at: int| 0 <= at < picked.len() && picked[at] == event;
    lemma_on_day(events, zones, day, at);
    let i = choose|i: int| #[trigger] starts_on(events, zones, i, day) && events[i] == picked[at];
    assert(starts_on(events, zones, i, day_of(held.date.secs, held.date.offset)));
}

/// The midnight of a day falls on that day, on the clock it was taken on.
pub proof fn lemma_midnight_day(day: int, anchor: i32)
    ensures
        day_of(midnight_of(day, anchor as int).secs, midnight_of(day, anchor as int).offset) == day,
{
    assert((day * 86_400) / 86_400 == day) by (nonlinear_arith);
}

/// In a grouping, a later bucket has a later day and a later date: no two
/// buckets share a date.
pub proof fn lemma_dates_increase(
    events: Seq<EventView>,
    zones: Seq<i32>,
    anchor: i32,
    a: int,
    b: int,
)
    requires
        zones.len() == events.len(),
        0 <= a < b < grouping(events, zones, anchor).len(),
    ensures
        grouping(events, zones, anchor)[a].date.secs < grouping(events, zones, anchor)[b].date.secs,
        !at_or_after(
            grouping(events, zones, anchor)[a].date,
            grouping(events, zones, anchor)[b].date,
        ),
{
    lemma_days_of(events, zones);
    let days = days_of(events, zones);
    assert(days[a] < days[b]);
}

/// An event that starts on a day is among those picked for it.
pub proof fn lemma_on_day_holds(events: Seq<EventView>, zones: Seq<i32>, day: int, i: int)
    requires
        zones.len() == events.len(),
        starts_on(events, zones, i, day),
    ensures
        on_day(events, zones, day).contains(events[i]),
    decreases events.len(),
{
    let head = events.drop_last();
    let head_zones = zones.drop_last();
    let picked = on_day(events, zones, day);
    let before = on_day(head, head_zones, day);
    if i == events.len() - 1 {
        assert(picked[before.len() as int] == events[i]);
    } else {
        assert(starts_on(head, head_zones, i, day));
        lemma_on_day_holds(head, head_zones, day, i);
        let k = choose|k: int| 0 <= k < before.len() && before[k] == head[i];
        assert(picked[k] == events[i]);
    }
}

/// Nothing is lost: every event is in a bucket, and that bucket is dated at
/// the midnight of the day on which the event starts.
pub proof fn lemma_every_event_is_grouped(
    events: Seq<EventView>,
    zones: Seq<i32>,
    anchor: i32,
    i: int,
)
    requires
        zones.len() == events.len(),
        0 <= i < events.len(),
    ensures
        exists|b: int|
            0 <= b < grouping(events, zones, anchor).len() && (#[trigger] grouping(
                events,
                zones,
                anchor,
            )[b]).date == midnight_of(start_day(events[i], zones[i]), anchor as int) && grouping(
                events,
                zones,
                anchor,
            )[b].events.contains(events[i]),
{
    broadcast use vstd::seq_lib::group_to_multiset_ensures;

    let day = start_day(events[i], zones[i]);
    let days = days_of(events, zones);
    lemma_days_of(events, zones);
    assert(starts_on(events, zones, i, day));
    assert(days.contains(day));
    let b = choose|b: int| 0 <= b < days.len() && days[b] == day;
    let held = grouping(events, zones, anchor)[b];
    assert(held == bucket(events, zones, anchor, day));
    let picked = on_day(events, zones, day);
    lemma_on_day_holds(events, zones, day, i);
    lemma_by_start_permutes(picked);
    assert(picked.to_multiset().count(events[i]) > 0);
    assert(held.events.contains(events[i]));
}

/// Whether `event` starts on the day that `date` is the midnight of, on a
/// clock of some offset that a time zone can have.
pub open spec fn falls_on(event: EventView, date: TimestampView) -> bool {
    exists|zone: i32|
        valid_offset(zone as int) && #[trigger] start_day(event, zone) == day_of(
            date.secs,
            date.offset,
        )
}

/// What holds of days however the local clock stood: a later bucket has a
/// later date, no bucket is empty, and the events of a bucket start on its
/// day and stand in order of their start.
pub open spec fn well_grouped(days: Seq<DayListView>) -> bool {
    &&& forall|a: int, b: int|
        0 <= a < b < days.len() ==> (#[trigger] days[a]).date.secs < (#[trigger] days[b]).date.secs
    &&& forall|b: int|
        0 <= b < days.len() ==> (#[trigger] days[b]).events.len() > 0 && ordered_by_start(
            days[b].events,
        )
    &&& forall|b: int, k: int|
        0 <= b < days.len() && 0 <= k < days[b].events.len() ==> falls_on(
            #[trigger] days[b].events[k],
            days[b].date,
        )
}

/// Every grouping is well grouped.
pub proof fn lemma_grouping_is_well_grouped(events: Seq<EventView>, zones: Seq<i32>, anchor: i32)
    requires
        zones.len() == events.len(),
        valid_zones(zones),
    ensures
        well_grouped(grouping(events, zones, anchor)),
{
    let days = grouping(events, zones, anchor);
    lemma_days_of(events, zones);
    assert forall|a: int, b: int| 0 <= a < b < days.len() implies (#[trigger] days[a]).date.secs < (
    #[trigger] days[b]).date.secs by {
        lemma_dates_increase(events, zones, anchor, a, b);
    }
    assert forall|b: int| 0 <= b < days.len() implies (#[trigger] days[b]).events.len() > 0
        && ordered_by_start(days[b].events) by {
        let day = days_of(events, zones)[b];
        assert(days_of(events, zones).contains(day));
        let i = choose|i: int| #[trigger] starts_on(events, zones, i, day);
        lemma_every_event_is_grouped(events, zones, anchor, i);
        let other = choose|other: int|
            0 <= other < days.len() && (#[trigger] days[other]).date == midnight_of(
                day,
                anchor as int,
            ) && days[other].events.contains(events[i]);
        if other < b {
            lemma_dates_increase(events, zones, anchor, other, b);
        }
        if b < other {
            lemma_dates_increase(events, zones, anchor, b, other);
        }
        lemma_by_start_ordered(on_day(events, zones, day));
    }
    assert forall|b: int, k: int| 0 <= b < days.len() && 0 <= k < days[b].events.len() implies
        falls_on(#[trigger] days[b].events[k], days[b].date) by {
        lemma_bucket_holds_its_day(events, zones, anchor, b, k);
        let date = days[b].date;
        let i = choose|i: int| #[trigger]
            starts_on(events, zones, i, day_of(date.secs, date.offset)) && events[i]
                == days[b].events[k];
        assert(valid_offset(zones[i] as int));
        assert(start_day(days[b].events[k], zones[i]) == day_of(date.secs, date.offset));
    }
}

} // verus!
