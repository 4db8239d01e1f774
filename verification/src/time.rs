//! Instants with an explicit offset from UTC, and the day arithmetic on them.

use vstd::prelude::*;

verus! {

/// Seconds in one calendar day.
pub const SECONDS_PER_DAY: i64 = 86_400;

/// The earliest second that a [`Timestamp`] can hold: the first second of the
/// proleptic Gregorian year -262143.
pub const MIN_SECONDS: i64 = -8_334_601_228_800;

/// The latest second that a [`Timestamp`] can hold: the last second of the
/// year 262142.
pub const MAX_SECONDS: i64 = 8_210_266_876_799;

/// Offsets from UTC lie strictly between minus and plus this many seconds.
pub const OFFSET_BOUND: i32 = 86_400;

/// Nanoseconds in one second. A nanosecond part of this much or more marks a
/// leap second and is only allowed in the last second of a minute.
pub const NANOS_PER_SECOND: u32 = 1_000_000_000;

/// The mathematical value of a [`Timestamp`].
pub struct TimestampView {
    /// Seconds since 1970-01-01T00:00:00 UTC, leap seconds not counted.
    pub secs: int,
    /// Nanoseconds into that second.
    pub nanos: int,
    /// Seconds to add to UTC to get the wall-clock time the instant is shown in.
    pub offset: int,
}

/// The value with the given parts.
pub open spec fn stamp(secs: int, nanos: int, offset: int) -> TimestampView {
    TimestampView { secs, nanos, offset }
}

/// Whether `offset` is an offset from UTC that a time zone can have.
pub open spec fn valid_offset(offset: int) -> bool {
    -OFFSET_BOUND < offset < OFFSET_BOUND
}

/// Whether a [`Timestamp`] can hold `t`.
pub open spec fn representable(t: TimestampView) -> bool {
    &&& MIN_SECONDS <= t.secs <= MAX_SECONDS
    &&& 0 <= t.nanos < 2 * NANOS_PER_SECOND
    &&& (t.nanos >= NANOS_PER_SECOND ==> t.secs % 60 == 59)
    &&& valid_offset(t.offset)
}

/// Whether the instant `a` is at or after the instant `b`. Offsets play no part.
pub open spec fn at_or_after(a: TimestampView, b: TimestampView) -> bool {
    a.secs > b.secs || (a.secs == b.secs && a.nanos >= b.nanos)
}

/// Nanoseconds from the instant `from` to the instant `to`.
pub open spec fn nanos_between(from: TimestampView, to: TimestampView) -> int {
    (to.secs - from.secs) * NANOS_PER_SECOND + (to.nanos - from.nanos)
}

/// The calendar day, counted from 1970-01-01 as day 0, on which the second
/// `secs` falls for a clock that runs `offset` seconds ahead of UTC.
pub open spec fn day_of(secs: int, offset: int) -> int {
    (secs + offset) / (SECONDS_PER_DAY as int)
}

/// Midnight at the start of `day` on a clock that runs `offset` seconds ahead
/// of UTC.
pub open spec fn midnight_of(day: int, offset: int) -> TimestampView {
    stamp(day * SECONDS_PER_DAY - offset, 0, offset)
}

/// An instant, together with the offset from UTC of the clock it was read on.
///
/// Every value is [`representable`].
#[derive(Clone, Copy, Debug, PartialEq, Eq)]
pub struct Timestamp {
    secs: i64,
    nanos: u32,
    offset: i32,
}

impl View for Timestamp {
    type V = TimestampView;

    closed spec fn view(&self) -> TimestampView {
        stamp(self.secs as int, self.nanos as int, self.offset as int)
    }
}

impl DeepView for Timestamp {
    type V = TimestampView;

    open spec fn deep_view(&self) -> TimestampView {
        self@
    }
}

impl Timestamp {
    #[verifier::type_invariant]
    pub closed spec fn well_formed(self) -> bool {
        representable(self@)
    }

    /// The timestamp with the given parts, if they are representable.
    pub fn new(secs: i64, nanos: u32, offset: i32) -> (made: Option<Timestamp>)
        ensures
            made is Some <==> representable(stamp(secs as int, nanos as int, offset as int)),
            made is Some ==> made->0@ == stamp(secs as int, nanos as int, offset as int),
    {
        if secs < MIN_SECONDS || secs > MAX_SECONDS {
            return None;
        }
        if offset <= -OFFSET_BOUND || offset >= OFFSET_BOUND {
            return None;
        }
        if nanos >= 2 * NANOS_PER_SECOND {
            return None;
        }
        if nanos >= NANOS_PER_SECOND {
            match secs.checked_rem_euclid(60) {
                Some(r) => {
                    if r != 59 {
                        return None;
                    }
                },
                None => {
                    return None;
                },
            }
        }
        Some(Timestamp { secs, nanos, offset })
    }

    /// The earliest instant of all, at offset zero.
    pub fn earliest() -> (made: Timestamp)
        ensures
            made@ == stamp(MIN_SECONDS as int, 0, 0),
    {
        Timestamp { secs: MIN_SECONDS, nanos: 0, offset: 0 }
    }

    /// Seconds since the epoch.
    pub fn seconds(&self) -> (secs: i64)
        ensures
            secs == self@.secs,
            representable(self@),
    {
        proof {
            use_type_invariant(self);
        }
        self.secs
    }

    /// Nanoseconds into the second.
    pub fn nanoseconds(&self) -> (nanos: u32)
        ensures
            nanos == self@.nanos,
            representable(self@),
    {
        proof {
            use_type_invariant(self);
        }
        self.nanos
    }

    /// The offset from UTC, in seconds.
    pub fn offset_seconds(&self) -> (offset: i32)
        ensures
            offset == self@.offset,
            representable(self@),
    {
        proof {
            use_type_invariant(self);
        }
        self.offset
    }

    /// Whether this instant is at or after `other`.
    pub fn is_at_or_after(&self, other: &Timestamp) -> (yes: bool)
        ensures
            yes == at_or_after(self@, other@),
    {
        self.secs > other.secs || (self.secs == other.secs && self.nanos >= other.nanos)
    }

    /// Whether more than `limit` whole seconds lie between `since` and this
    /// instant. An instant before `since` is never more than `limit` after it.
    pub fn is_more_than_after(&self, limit: u32, since: &Timestamp) -> (yes: bool)
        ensures
            yes == (nanos_between(since@, self@) > limit * NANOS_PER_SECOND),
    {
        proof {
            use_type_invariant(self);
            use_type_invariant(since);
        }
        let seconds: i64 = self.secs - since.secs;
        let nanos: i64 = self.nanos as i64 - since.nanos as i64;
        let scaled: i128 = seconds as i128 * 1_000_000_000i128;
        let elapsed: i128 = scaled + nanos as i128;
        elapsed > limit as i128 * 1_000_000_000i128
    }

    /// The calendar day, counted from 1970-01-01 as day 0, on which this
    /// instant falls for a clock that runs `zone` seconds ahead of UTC.
    pub fn day_in_zone(&self, zone: i32) -> (day: i64)
        ensures
            day == day_of(self@.secs, zone as int),
    {
        proof {
            use_type_invariant(self);
        }
        let local: i64 = self.secs + zone as i64;
        match local.checked_div_euclid(SECONDS_PER_DAY) {
            Some(day) => day,
            None => 0,
        }
    }

    /// The calendar day on which this instant falls on its own clock.
    pub fn local_day(&self) -> (day: i64)
        ensures
            day == day_of(self@.secs, self@.offset),
    {
        self.day_in_zone(self.offset)
    }

    /// Midnight at the start of `day` on a clock that runs `offset` seconds
    /// ahead of UTC, if that instant is representable.
    pub fn midnight(day: i64, offset: i32) -> (made: Option<Timestamp>)
        ensures
            made is Some <==> representable(midnight_of(day as int, offset as int)),
            made is Some ==> made->0@ == midnight_of(day as int, offset as int),
    {
        match day.checked_mul(SECONDS_PER_DAY) {
            Some(start) => match start.checked_sub(offset as i64) {
                Some(secs) => Timestamp::new(secs, 0, offset),
                None => None,
            },
            None => None,
        }
    }
}

/// The offset from UTC of the machine's time zone at the second `secs`, as
/// `chrono::Local` finds it by `DateTime::with_timezone`. The answer depends
/// on the machine; the contract claims only that it is an offset that
/// `chrono::FixedOffset` can hold, which its constructor checks. `chrono`
/// makes a date and time of every second in the range asked for here; where
/// the zone data of the machine is unusable it panics instead of answering.
#[verifier::external_body]
pub(crate) fn local_offset_at(secs: i64) -> (offset: i32)
    requires
        MIN_SECONDS <= secs <= MAX_SECONDS,
    ensures
        valid_offset(offset as int),
{
    chrono::DateTime::from_timestamp(secs, 0)
        .unwrap()
        .with_timezone(&chrono::Local)
        .offset()
        .local_minus_utc()
}

/// The offset from UTC of the machine's time zone now, as `chrono::Local::now`
/// reports it. The answer depends on the machine and the moment; the contract
/// claims only that it is an offset that `chrono::FixedOffset` can hold.
#[verifier::external_body]
pub(crate) fn local_offset_now() -> (offset: i32)
    ensures
        valid_offset(offset as int),
{
    chrono::Local::now().offset().local_minus_utc()
}

} // verus!
