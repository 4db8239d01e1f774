//! A calendar feed published as text: from its body to the events in it.

use crate::event::{unknown_event, Event, EventView};
use crate::text::{
    lemma_nothing_to_replace, lemma_pairs_after_replacing, pair_at, pair_replaced, replace_all,
    replaced, same_text,
};
use crate::time::{at_or_after, representable, stamp, Timestamp, TimestampView};
use vstd::prelude::*;

verus! {

/// A feed, known by the address it is fetched from.
#[derive(Debug, PartialEq, Eq)]
pub struct RemoteList {
    url: String,
}

impl View for RemoteList {
    type V = Seq<char>;

    closed spec fn view(&self) -> Seq<char> {
        self.url@
    }
}

/// Why a date could not be read.
#[derive(Clone, Copy, Debug, PartialEq, Eq)]
pub enum DateError {
    /// The text has neither of the two accepted shapes.
    Unrecognized,
    /// The text names an instant that a [`Timestamp`] cannot hold.
    OutOfRange,
}

/// The mathematical value of a [`FeedError`].
pub enum FeedErrorView {
    UnknownProperty(Seq<char>),
    MissingValue,
    MissingEnd,
}

/// Why the events of a feed could not be produced.
#[derive(Debug, PartialEq, Eq)]
pub enum FeedError {
    /// An event block holds a property that is neither used nor known to be
    /// ignorable; this is its name.
    UnknownProperty(String),
    /// A summary or a description stands without a value.
    MissingValue,
    /// An event has no end to hold against the cutoff.
    MissingEnd,
}

impl View for FeedError {
    type V = FeedErrorView;

    open spec fn view(&self) -> FeedErrorView {
        match self {
            FeedError::UnknownProperty(name) => FeedErrorView::UnknownProperty(name@),
            FeedError::MissingValue => FeedErrorView::MissingValue,
            FeedError::MissingEnd => FeedErrorView::MissingEnd,
        }
    }
}

/// The mathematical value of a [`Property`].
pub struct PropertyView {
    pub name: Seq<char>,
    pub value: Option<Seq<char>>,
}

/// One line of an event block: a name and, unless it is empty, a value.
#[derive(Debug, PartialEq, Eq)]
pub struct Property {
    pub name: String,
    pub value: Option<String>,
}

impl View for Property {
    type V = PropertyView;

    open spec fn view(&self) -> PropertyView {
        PropertyView { name: self.name@, value: self.value.deep_view() }
    }
}

impl DeepView for Property {
    type V = PropertyView;

    open spec fn deep_view(&self) -> PropertyView {
        self@
    }
}

/// `chrono::ParseError`, carried from the date readers to the place where it
/// is turned into a [`DateError`].
#[verifier::external_type_specification]
#[verifier::external_body]
pub struct ExParseError(chrono::ParseError);

/// What `chrono::NaiveDateTime::parse_from_str` reads from `text` under
/// `format`: the seconds since the epoch and the nanoseconds of the date and
/// time it found, taken as UTC, or nothing where it reports an error.
pub uninterp spec fn chrono_datetime(text: Seq<char>, format: Seq<char>) -> Option<(i64, u32)>;

/// What `chrono::NaiveDate::parse_from_str` reads from `text` under `format`:
/// the seconds since the epoch at which the date it found begins in UTC, or
/// nothing where it reports an error.
pub uninterp spec fn chrono_date(text: Seq<char>, format: Seq<char>) -> Option<i64>;

/// What `ical::IcalParser` finds in `text`, object by object in the order it
/// yields them: nothing for an object it reports an error for, else the event
/// blocks of the calendar, each as its properties in order.
pub uninterp spec fn ical_objects(text: Seq<char>) -> Seq<Option<Seq<Seq<PropertyView>>>>;

/// The value that a result carries on success.
pub open spec fn success<T, E>(outcome: Result<T, E>) -> Option<T> {
    match outcome {
        Ok(value) => Some(value),
        Err(_) => None,
    }
}

/// Calls `chrono::NaiveDateTime::parse_from_str` and hands back the instant
/// as seconds and nanoseconds. The contract names the result
/// [`chrono_datetime`] and claims nothing else of it.
#[verifier::external_body]
fn read_datetime(text: &str, format: &str) -> (read: Result<(i64, u32), chrono::ParseError>)
    ensures
        success(read) == chrono_datetime(text@, format@),
{
    chrono::NaiveDateTime::parse_from_str(text, format)
        .map(|found| (found.and_utc().timestamp(), found.and_utc().timestamp_subsec_nanos()))
}

/// Calls `chrono::NaiveDate::parse_from_str` and hands back the second at
/// which the date begins. The contract names the result [`chrono_date`] and
/// claims nothing else of it.
#[verifier::external_body]
fn read_date(text: &str, format: &str) -> (read: Result<i64, chrono::ParseError>)
    ensures
        success(read) == chrono_date(text@, format@),
{
    chrono::NaiveDate::parse_from_str(text, format)
        .map(|found| found.and_time(chrono::NaiveTime::MIN).and_utc().timestamp())
}

/// Runs `ical::IcalParser` over `text` to its end and hands back what each
/// object holds of interest here. The contract names the result
/// [`ical_objects`] and claims nothing else of it.
#[verifier::external_body]
fn read_objects(text: &str) -> (objects: Vec<Option<Vec<Vec<Property>>>>)
    ensures
        objects.deep_view() == ical_objects(text@),
{
    ical::IcalParser::new(std::io::BufReader::new(stringreader::StringReader::new(text)))
        .map(|object| object.ok().map(|calendar| calendar.events.into_iter()
            .map(|block| block.properties.into_iter()
                .map(|line| Property { name: line.name, value: line.value })
                .collect())
            .collect()))
        .collect()
}

/// The instant `secs` seconds and `nanos` nanoseconds after the epoch, shown
/// at offset zero.
pub open spec fn utc_instant(secs: int, nanos: int) -> Result<TimestampView, DateError> {
    if representable(stamp(secs, nanos, 0)) {
        Ok(stamp(secs, nanos, 0))
    } else {
        Err(DateError::OutOfRange)
    }
}

/// The instant that the two readings of a date text give: that of the full
/// timestamp where there is one, else the midnight that the bare date begins
/// with, either at offset zero.
pub open spec fn instant_of(datetime: Option<(i64, u32)>, date: Option<i64>) -> Result<
    TimestampView,
    DateError,
> {
    match datetime {
        Some((secs, nanos)) => utc_instant(secs as int, nanos as int),
        None => match date {
            Some(secs) => utc_instant(secs as int, 0),
            None => Err(DateError::Unrecognized),
        },
    }
}

/// What a date text stands for. It is read as a full timestamp
/// `YYYYMMDDTHHMMSS`, with or without a zone marker behind it, and as a bare
/// date `YYYYMMDD`. Whatever the marker says, the offset is zero.
pub open spec fn iso8601(text: Seq<char>) -> Result<TimestampView, DateError> {
    instant_of(chrono_datetime(text, "%Y%m%dT%H%M%S%Z"@), chrono_date(text, "%Y%m%d"@))
}

/// The value of a date that was read or not.
pub open spec fn date_outcome(read: Result<Timestamp, DateError>) -> Result<
    TimestampView,
    DateError,
> {
    match read {
        Ok(instant) => Ok(instant@),
        Err(error) => Err(error),
    }
}

/// The timestamp for the instant `secs` seconds and `nanos` nanoseconds after
/// the epoch, at offset zero.
pub fn instant_at_utc(secs: i64, nanos: u32) -> (made: Result<Timestamp, DateError>)
    ensures
        date_outcome(made) == utc_instant(secs as int, nanos as int),
{
    match Timestamp::new(secs, nanos, 0) {
        Some(instant) => Ok(instant),
        None => Err(DateError::OutOfRange),
    }
}

/// The timestamp that the two readings of a date text give.
pub fn instant_from(datetime: Option<(i64, u32)>, date: Option<i64>) -> (made: Result<
    Timestamp,
    DateError,
>)
    ensures
        date_outcome(made) == instant_of(datetime, date),
{
    match datetime {
        Some((secs, nanos)) => instant_at_utc(secs, nanos),
        None => match date {
            Some(secs) => instant_at_utc(secs, 0),
            None => Err(DateError::Unrecognized),
        },
    }
}

/// Reads a date in one of the two accepted shapes.
pub fn parse_from_iso8601(s: &str) -> (read: Result<Timestamp, DateError>)
    ensures
        date_outcome(read) == iso8601(s@),
{
    match read_datetime(s, "%Y%m%dT%H%M%S%Z") {
        Ok(found) => instant_from(Some(found), None),
        Err(_) => match read_date(s, "%Y%m%d") {
            Ok(secs) => instant_from(None, Some(secs)),
            Err(_) => instant_from(None, None),
        },
    }
}

/// `text` with the four escapes undone one after the other: first every
/// backslash-comma becomes a comma, then every double backslash a single
/// one, then every backslash-n a line feed, then every backslash-semicolon a
/// semicolon.
pub open spec fn unescaped(text: Seq<char>) -> Seq<char> {
    let commas = replaced(text, seq!['\\', ','], seq![',']);
    let backslashes = replaced(commas, seq!['\\', '\\'], seq!['\\']);
    let line_feeds = replaced(backslashes, seq!['\\', 'n'], seq!['\n']);
    replaced(line_feeds, seq!['\\', ';'], seq![';'])
}

/// Undoes the escapes of a feed value.
pub fn unescape_ical(s: &str) -> (out: String)
    ensures
        out@ == unescaped(s@),
{
    proof {
        reveal_strlit("\\,");
        reveal_strlit(",");
        reveal_strlit("\\\\");
        reveal_strlit("\\");
        reveal_strlit("\\n");
        reveal_strlit("\n");
        reveal_strlit("\\;");
        reveal_strlit(";");
        assert("\\,"@ == seq!['\\', ',']);
        assert(","@ == seq![',']);
        assert("\\\\"@ == seq!['\\', '\\']);
        assert("\\"@ == seq!['\\']);
        assert("\\n"@ == seq!['\\', 'n']);
        assert("\n"@ == seq!['\n']);
        assert("\\;"@ == seq!['\\', ';']);
        assert(";"@ == seq![';']);
    }
    let commas = replace_all(s, "\\,", ",");
    let backslashes = replace_all(commas.as_str(), "\\\\", "\\");
    let line_feeds = replace_all(backslashes.as_str(), "\\n", "\n");
    replace_all(line_feeds.as_str(), "\\;", ";")
}

/// Whether a property of this name is skipped without a trace.
pub open spec fn is_ignored(name: Seq<char>) -> bool {
    ||| name == "DTSTAMP"@
    ||| name == "CLASS"@
    ||| name == "UID"@
    ||| name == "SEQUENCE"@
    ||| name == "LAST-MODIFIED"@
    ||| name == "RRULE"@
}

/// The start or end that a date property gives: the date in its value where
/// it has one that can be read, else none.
pub open spec fn date_of(value: Option<Seq<char>>) -> Option<TimestampView> {
    match value {
        Some(text) => success(iso8601(text)),
        None => None,
    }
}

/// `event` after one more property of its block was taken in.
pub open spec fn with_property(event: EventView, property: PropertyView) -> Result<
    EventView,
    FeedErrorView,
> {
    if property.name == "DESCRIPTION"@ {
        match property.value {
            Some(text) => Ok(EventView { desc: unescaped(text), ..event }),
            None => Err(FeedErrorView::MissingValue),
        }
    } else if property.name == "SUMMARY"@ {
        match property.value {
            Some(text) => Ok(EventView { title: unescaped(text), ..event }),
            None => Err(FeedErrorView::MissingValue),
        }
    } else if property.name == "DTSTART"@ {
        Ok(EventView { start: date_of(property.value), ..event })
    } else if property.name == "DTEND"@ {
        Ok(EventView { end: date_of(property.value), ..event })
    } else if property.name == "LOCATION"@ {
        Ok(EventView { class: property.value, ..event })
    } else if is_ignored(property.name) {
        Ok(event)
    } else {
        Err(FeedErrorView::UnknownProperty(property.name))
    }
}

/// `event` after the properties were taken in from first to last, or the
/// first failure among them.
pub open spec fn with_properties(event: EventView, properties: Seq<PropertyView>) -> Result<
    EventView,
    FeedErrorView,
>
    decreases properties.len(),
{
    if properties.len() == 0 {
        Ok(event)
    } else {
        match with_property(event, properties[0]) {
            Ok(next) => with_properties(next, properties.skip(1)),
            Err(error) => Err(error),
        }
    }
}

/// The event that a block of properties describes.
pub open spec fn event_of(properties: Seq<PropertyView>) -> Result<EventView, FeedErrorView> {
    with_properties(unknown_event(), properties)
}

/// `first` followed by what `rest` gives, or the failure of `rest`.
pub open spec fn then_events(first: Seq<EventView>, rest: Result<Seq<EventView>, FeedErrorView>)
    -> Result<Seq<EventView>, FeedErrorView> {
    match rest {
        Ok(events) => Ok(first + events),
        Err(error) => Err(error),
    }
}

/// The events that the blocks describe, in order, or the failure of the
/// first block that has one.
pub open spec fn events_of_blocks(blocks: Seq<Seq<PropertyView>>) -> Result<
    Seq<EventView>,
    FeedErrorView,
>
    decreases blocks.len(),
{
    if blocks.len() == 0 {
        Ok(Seq::empty())
    } else {
        match event_of(blocks[0]) {
            Ok(event) => then_events(seq![event], events_of_blocks(blocks.skip(1))),
            Err(error) => Err(error),
        }
    }
}

/// Whether `event` passes the cutoff: it ends at or after `after`.
pub open spec fn ends_at_or_after(event: EventView, after: TimestampView) -> bool {
    event.end is Some && at_or_after(event.end->0, after)
}

/// Those of `events` that end at or after `after`, in their order; a failure
/// if one of them has no end.
pub open spec fn retained(events: Seq<EventView>, after: TimestampView) -> Result<
    Seq<EventView>,
    FeedErrorView,
>
    decreases events.len(),
{
    if events.len() == 0 {
        Ok(Seq::empty())
    } else if events[0].end is None {
        Err(FeedErrorView::MissingEnd)
    } else if ends_at_or_after(events[0], after) {
        then_events(seq![events[0]], retained(events.skip(1), after))
    } else {
        retained(events.skip(1), after)
    }
}

/// The events of a feed that end at or after `after`. Objects that could not
/// be read are passed over. Each calendar in turn has all its blocks turned
/// into events and these held against the cutoff; the first failure on the
/// way is the result.
pub open spec fn events_of_objects(
    objects: Seq<Option<Seq<Seq<PropertyView>>>>,
    after: TimestampView,
) -> Result<Seq<EventView>, FeedErrorView>
    decreases objects.len(),
{
    if objects.len() == 0 {
        Ok(Seq::empty())
    } else {
        match objects[0] {
            None => events_of_objects(objects.skip(1), after),
            Some(blocks) => match events_of_blocks(blocks) {
                Err(error) => Err(error),
                Ok(events) => match retained(events, after) {
                    Err(error) => Err(error),
                    Ok(kept) => then_events(kept, events_of_objects(objects.skip(1), after)),
                },
            },
        }
    }
}

/// The body of a feed with its folded lines joined: every carriage return,
/// line feed and tab in a row is taken out.
pub open spec fn unfolded(body: Seq<char>) -> Seq<char> {
    replaced(body, seq!['\r', '\n', '\t'], Seq::empty())
}

/// The value of an event that was made or not.
pub open spec fn event_outcome(made: Result<Event, FeedError>) -> Result<EventView, FeedErrorView> {
    match made {
        Ok(event) => Ok(event@),
        Err(error) => Err(error@),
    }
}

/// The value of a list of events that was made or not.
pub open spec fn events_outcome(made: Result<Vec<Event>, FeedError>) -> Result<
    Seq<EventView>,
    FeedErrorView,
> {
    match made {
        Ok(events) => Ok(events.deep_view()),
        Err(error) => Err(error@),
    }
}

/// Whether a property of this name is skipped without a trace.
fn ignores(name: &str) -> (yes: bool)
    ensures
        yes == is_ignored(name@),
{
    same_text(name, "DTSTAMP") || same_text(name, "CLASS") || same_text(name, "UID") || same_text(
        name,
        "SEQUENCE",
    ) || same_text(name, "LAST-MODIFIED") || same_text(name, "RRULE")
}

/// The start or end that a date property gives.
fn read_date_value(value: &Option<String>) -> (read: Option<Timestamp>)
    ensures
        read.deep_view() == date_of(value.deep_view()),
{
    match value {
        Some(text) => match parse_from_iso8601(text.as_str()) {
            Ok(instant) => Some(instant),
            Err(_) => None,
        },
        None => None,
    }
}

/// Takes one more property of its block into `event`.
pub fn apply_property(event: Event, property: &Property) -> (made: Result<Event, FeedError>)
    ensures
        event_outcome(made) == with_property(event@, property@),
{
    let mut event = event;
    let name = property.name.as_str();
    if same_text(name, "DESCRIPTION") {
        match &property.value {
            Some(text) => {
                event.desc = unescape_ical(text.as_str());
                Ok(event)
            },
            None => Err(FeedError::MissingValue),
        }
    } else if same_text(name, "SUMMARY") {
        match &property.value {
            Some(text) => {
                event.title = unescape_ical(text.as_str());
                Ok(event)
            },
            None => Err(FeedError::MissingValue),
        }
    } else if same_text(name, "DTSTART") {
        event.start = read_date_value(&property.value);
        Ok(event)
    } else if same_text(name, "DTEND") {
        event.end = read_date_value(&property.value);
        Ok(event)
    } else if same_text(name, "LOCATION") {
        event.class = property.value.clone();
        Ok(event)
    } else if ignores(name) {
        Ok(event)
    } else {
        Err(FeedError::UnknownProperty(property.name.clone()))
    }
}

/// The event that a block of properties describes.
pub fn event_from_properties(properties: &Vec<Property>) -> (made: Result<Event, FeedError>)
    ensures
        event_outcome(made) == event_of(properties.deep_view()),
{
    let ghost all = properties.deep_view();
    let mut event = Event::default();
    let mut i: usize = 0;
    assert(all.skip(0) == all);
    while i < properties.len()
        invariant
            i <= properties.len(),
            all == properties.deep_view(),
            with_properties(event@, all.skip(i as int)) == event_of(all),
        decreases properties.len() - i,
    {
        assert(all.skip(i as int)[0] == properties[i as int]@);
        assert(all.skip(i as int).skip(1) == all.skip(i + 1));
        match apply_property(event, &properties[i]) {
            Ok(next) => {
                event = next;
            },
            Err(error) => {
                return Err(error);
            },
        }
        i += 1;
    }
    Ok(event)
}

/// The events that the blocks describe.
pub fn events_from_blocks(blocks: &Vec<Vec<Property>>) -> (made: Result<Vec<Event>, FeedError>)
    ensures
        events_outcome(made) == events_of_blocks(blocks.deep_view()),
{
    let ghost all = blocks.deep_view();
    let mut events: Vec<Event> = Vec::new();
    let mut i: usize = 0;
    assert(all.skip(0) == all);
    assert(events.deep_view() == Seq::<EventView>::empty());
    while i < blocks.len()
        invariant
            i <= blocks.len(),
            all == blocks.deep_view(),
            then_events(events.deep_view(), events_of_blocks(all.skip(i as int)))
                == events_of_blocks(all),
        decreases blocks.len() - i,
    {
        assert(all.skip(i as int)[0] == blocks[i as int].deep_view());
        assert(all.skip(i as int).skip(1) == all.skip(i + 1));
        let ghost before = events.deep_view();
        match event_from_properties(&blocks[i]) {
            Ok(event) => {
                events.push(event);
                assert(events.deep_view() == before + seq![event@]);
                let ghost rest = events_of_blocks(all.skip(i + 1));
                assert(rest matches Ok(more) ==> (before + seq![event@]) + more == before + (
                seq![event@] + more));
            },
            Err(error) => {
                return Err(error);
            },
        }
        i += 1;
    }
    assert(events.deep_view() + Seq::<EventView>::empty() == events.deep_view());
    Ok(events)
}

/// Those of `events` that end at or after `after`, in their order.
pub fn retain(events: &Vec<Event>, after: &Timestamp) -> (kept: Result<Vec<Event>, FeedError>)
    ensures
        events_outcome(kept) == retained(events.deep_view(), after@),
{
    let ghost all = events.deep_view();
    let mut kept: Vec<Event> = Vec::new();
    let mut i: usize = 0;
    assert(all.skip(0) == all);
    assert(kept.deep_view() == Seq::<EventView>::empty());
    while i < events.len()
        invariant
            i <= events.len(),
            all == events.deep_view(),
            then_events(kept.deep_view(), retained(all.skip(i as int), after@)) == retained(
                all,
                after@,
            ),
        decreases events.len() - i,
    {
        assert(all.skip(i as int)[0] == events[i as int]@);
        assert(all.skip(i as int).skip(1) == all.skip(i + 1));
        let ghost before = kept.deep_view();
        match &events[i].end {
            None => {
                assert(all.skip(i as int)[0].end is None);
                return Err(FeedError::MissingEnd);
            },
            Some(end) => {
                if end.is_at_or_after(after) {
                    let event = events[i].clone();
                    kept.push(event);
                    assert(kept.deep_view() == before + seq![event@]);
                    let ghost rest = retained(all.skip(i + 1), after@);
                    assert(rest matches Ok(more) ==> (before + seq![event@]) + more == before + (
                    seq![event@] + more));
                }
            },
        }
        i += 1;
    }
    assert(kept.deep_view() + Seq::<EventView>::empty() == kept.deep_view());
    Ok(kept)
}

impl RemoteList {
    /// The feed at the address `s`.
    pub fn new(s: &str) -> (list: RemoteList)
        ensures
            list@ == s@,
    {
        RemoteList { url: s.to_owned() }
    }

    /// The events of a feed that end at or after `after`, given the objects
    /// that were read from its body.
    pub fn events_in(objects: &Vec<Option<Vec<Vec<Property>>>>, after: &Timestamp) -> (found:
        Result<Vec<Event>, FeedError>)
        ensures
            events_outcome(found) == events_of_objects(objects.deep_view(), after@),
    {
        let ghost all = objects.deep_view();
        let mut found: Vec<Event> = Vec::new();
        let mut i: usize = 0;
        assert(all.skip(0) == all);
        assert(found.deep_view() == Seq::<EventView>::empty());
        while i < objects.len()
            invariant
                i <= objects.len(),
                all == objects.deep_view(),
                then_events(found.deep_view(), events_of_objects(all.skip(i as int), after@))
                    == events_of_objects(all, after@),
            decreases objects.len() - i,
        {
            assert(all.skip(i as int)[0] == objects[i as int].deep_view());
            assert(all.skip(i as int).skip(1) == all.skip(i + 1));
            let ghost before = found.deep_view();
            match &objects[i] {
                None => {},
                Some(blocks) => {
                    match events_from_blocks(blocks) {
                        Err(error) => {
                            return Err(error);
                        },
                        Ok(events) => {
                            match retain(&events, after) {
                                Err(error) => {
                                    return Err(error);
                                },
                                Ok(kept) => {
                                    let ghost more = kept.deep_view();
                                    let mut kept = kept;
                                    found.append(&mut kept);
                                    assert(found.deep_view() == before + more);
                                    let ghost rest = events_of_objects(all.skip(i + 1), after@);
                                    assert(rest matches Ok(later) ==> (before + more) + later
                                        == before + (more + later));
                                },
                            }
                        },
                    }
                },
            }
            i += 1;
        }
        assert(found.deep_view() + Seq::<EventView>::empty() == found.deep_view());
        Ok(found)
    }

    /// The events in the body of a feed that end at or after `after`.
    pub fn events(body: &str, after: &Timestamp) -> (found: Result<Vec<Event>, FeedError>)
        ensures
            events_outcome(found) == events_of_objects(ical_objects(unfolded(body@)), after@),
    {
        proof {
            reveal_strlit("\r\n\t");
            reveal_strlit("");
            assert("\r\n\t"@ == seq!['\r', '\n', '\t']);
            assert(""@ == Seq::<char>::empty());
        }
        let text = replace_all(body, "\r\n\t", "");
        let objects = read_objects(text.as_str());
        RemoteList::events_in(&objects, after)
    }

    /// The address the feed is fetched from.
    pub fn url(&self) -> (url: &str)
        ensures
            url@ == self@,
    {
        self.url.as_str()
    }
}

/// Holding events against the cutoff fails exactly if one of them has no
/// end, and then for that reason.
pub proof fn lemma_retained_fails(events: Seq<EventView>, after: TimestampView)
    ensures
        retained(events, after) is Err <==> exists|i: int|
            0 <= i < events.len() && (#[trigger] events[i]).end is None,
        retained(events, after) is Err ==> retained(events, after)->Err_0
            == FeedErrorView::MissingEnd,
    decreases events.len(),
{
    if events.len() > 0 {
        let rest = events.skip(1);
        lemma_retained_fails(rest, after);
        if events[0].end is Some {
            if exists|i: int| 0 <= i < events.len() && (#[trigger] events[i]).end is None {
                let i = choose|i: int| 0 <= i < events.len() && (#[trigger] events[i]).end is None;
                assert(rest[i - 1].end is None);
            }
            if retained(rest, after) is Err {
                let i = choose|i: int| 0 <= i < rest.len() && (#[trigger] rest[i]).end is None;
                assert(events[i + 1].end is None);
            }
        }
    }
}

/// Where holding events against the cutoff succeeds, what is kept is exactly
/// the events that end at or after the cutoff.
pub proof fn lemma_retained_keeps(events: Seq<EventView>, after: TimestampView, event: EventView)
    requires
        retained(events, after) is Ok,
    ensures
        retained(events, after)->Ok_0.contains(event) <==> events.contains(event)
            && ends_at_or_after(event, after),
    decreases events.len(),
{
    let kept = retained(events, after)->Ok_0;
    if events.len() > 0 {
        let first = events[0];
        let rest = events.skip(1);
        lemma_retained_keeps(rest, after, event);
        let kept_rest = retained(rest, after)->Ok_0;
        if kept.contains(event) {
            let k = choose|k: int| 0 <= k < kept.len() && kept[k] == event;
            if ends_at_or_after(first, after) && k == 0 {
                assert(events[0] == event);
            } else {
                if ends_at_or_after(first, after) {
                    assert(kept_rest[k - 1] == event);
                } else {
                    assert(kept_rest[k] == event);
                }
                assert(kept_rest.contains(event));
                let j = choose|j: int| 0 <= j < rest.len() && rest[j] == event;
                assert(events[j + 1] == event);
            }
        }
        if events.contains(event) && ends_at_or_after(event, after) {
            let j = choose|j: int| 0 <= j < events.len() && events[j] == event;
            if j == 0 {
                assert(kept[0] == event);
            } else {
                assert(rest[j - 1] == event);
                assert(rest.contains(event));
                let k = choose|k: int| 0 <= k < kept_rest.len() && kept_rest[k] == event;
                if ends_at_or_after(first, after) {
                    assert(kept[k + 1] == event);
                } else {
                    assert(kept[k] == event);
                }
            }
        }
    }
}

/// The cutoff is inclusive: an event that ends exactly at the cutoff is
/// kept, and one that ends before it is not.
pub proof fn lemma_cutoff_boundary(events: Seq<EventView>, after: TimestampView, i: int)
    requires
        retained(events, after) is Ok,
        0 <= i < events.len(),
    ensures
        events[i].end == Some(after) ==> retained(events, after)->Ok_0.contains(events[i]),
        events[i].end is Some && !at_or_after(events[i].end->0, after) ==> !retained(
            events,
            after,
        )->Ok_0.contains(events[i]),
{
    lemma_retained_keeps(events, after, events[i]);
}

/// Once the escapes are undone no escaped line feed is left, so that undoing
/// line feeds once more changes nothing.
pub proof fn lemma_unescaped_line_feeds_are_settled(text: Seq<char>)
    ensures
        replaced(unescaped(text), seq!['\\', 'n'], seq!['\n']) == unescaped(text),
{
    let commas = replaced(text, seq!['\\', ','], seq![',']);
    let backslashes = replaced(commas, seq!['\\', '\\'], seq!['\\']);
    let line_feeds = replaced(backslashes, seq!['\\', 'n'], seq!['\n']);
    let out = replaced(line_feeds, seq!['\\', ';'], seq![';']);
    lemma_pairs_after_replacing(backslashes, '\\', 'n', '\n');
    assert(line_feeds == pair_replaced(backslashes, '\\', 'n', '\n'));
    assert forall|at: int| !pair_at(line_feeds, at, '\\', 'n') by {}
    lemma_pairs_after_replacing(line_feeds, '\\', ';', ';');
    assert(out == pair_replaced(line_feeds, '\\', ';', ';'));
    assert forall|at: int| !pair_at(out, at, '\\', 'n') by {}
    lemma_nothing_to_replace(out, '\\', 'n', seq!['\n']);
}

} // verus!
