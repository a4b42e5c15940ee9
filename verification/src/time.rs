//! Points in time and the spans between them.
//!
//! A [`Timestamp`] holds what the beam reads of a UTC date and time: the
//! seconds since the epoch and the nanoseconds within that second. Calendar
//! arithmetic is chrono's: reading the clock, turning a number of seconds
//! into a span and subtracting two points in time are calls into it.

use chrono::{DateTime, Timelike, Utc};
use vstd::prelude::*;

verus! {

/// First second that a date and time can name, relative to the epoch.
pub const MIN_SECONDS: i64 = -8_334_601_228_800;

/// Last second that a date and time can name, relative to the epoch.
pub const MAX_SECONDS: i64 = 8_210_266_876_799;

/// Longest span, in whole seconds, that can be written in seconds.
pub const MAX_SPAN_SECONDS: i64 = 9_223_372_036_854_775;

/// A point in time, in UTC.
///
/// The nanoseconds run to a full second and, inside a leap second, to a
/// second more.
#[derive(Debug, Clone, Copy, PartialEq, Eq)]
pub struct Timestamp {
    secs: i64,
    nanos: u32,
}

/// A length of time, negative if it points into the past. Seconds and
/// nanoseconds carry the same sign.
#[derive(Debug, Clone, Copy, PartialEq, Eq)]
pub struct Span {
    secs: i64,
    nanos: i32,
}

/// True if a date and time can be written as these seconds and nanoseconds.
pub open spec fn representable(secs: int, nanos: int) -> bool {
    &&& MIN_SECONDS <= secs <= MAX_SECONDS
    &&& 0 <= nanos < 2_000_000_000
}

/// Seconds to add to the difference of the second counts of `a` and `b`
/// because one of them stands inside a leap second that the other is past, by
/// the time of day.
pub open spec fn leap_correction(a: Timestamp, b: Timestamp) -> int {
    if a.seconds() % 86_400 > b.seconds() % 86_400 && b.nanoseconds() >= 1_000_000_000 {
        1
    } else if a.seconds() % 86_400 < b.seconds() % 86_400 && a.nanoseconds() >= 1_000_000_000 {
        -1
    } else {
        0
    }
}

/// Nanoseconds from `b` to `a`.
pub open spec fn elapsed(a: Timestamp, b: Timestamp) -> int {
    (a.seconds() - b.seconds() + leap_correction(a, b)) * 1_000_000_000 + a.nanoseconds()
        - b.nanoseconds()
}

/// True of what a reading of the clock gave, and of nothing else that can be
/// shown: a point in time is known to be a reading only by reading it.
pub closed spec fn clock_reading(t: Timestamp) -> bool {
    call_ensures(Timestamp::now, (), t)
}

/// A clock reading is what the clock was read to be, as it came back.
pub(crate) proof fn law_clock_reading(t: Timestamp)
    ensures
        clock_reading(t) <==> call_ensures(Timestamp::now, (), t),
{
}

impl Timestamp {
    /// Seconds since the epoch.
    pub closed spec fn seconds(self) -> int {
        self.secs as int
    }

    /// Nanoseconds within the second.
    pub closed spec fn nanoseconds(self) -> int {
        self.nanos as int
    }

    #[verifier::type_invariant]
    spec fn in_range(self) -> bool {
        representable(self.secs as int, self.nanos as int)
    }

    /// True if this point in time comes before the other.
    pub open spec fn before(self, other: Timestamp) -> bool {
        self.seconds() < other.seconds() || (self.seconds() == other.seconds()
            && self.nanoseconds() < other.nanoseconds())
    }

    /// The later of two points in time.
    pub open spec fn later(self, other: Timestamp) -> Timestamp {
        if other.before(self) {
            self
        } else {
            other
        }
    }

    /// The point in time at these seconds and nanoseconds, if there is one.
    pub fn new(secs: i64, nanos: u32) -> (r: Option<Timestamp>)
        ensures
            r is Some <==> representable(secs as int, nanos as int),
            r matches Some(t) ==> t.seconds() == secs && t.nanoseconds() == nanos,
    {
        if MIN_SECONDS <= secs && secs <= MAX_SECONDS && nanos < 2_000_000_000 {
            Some(Timestamp { secs, nanos })
        } else {
            None
        }
    }

    /// Seconds since the epoch.
    pub fn timestamp(&self) -> (r: i64)
        ensures
            r == self.seconds(),
    {
        self.secs
    }

    /// Nanoseconds within the second.
    pub fn timestamp_subsec_nanos(&self) -> (r: u32)
        ensures
            r == self.nanoseconds(),
    {
        self.nanos
    }

    /// True if this point in time comes before the other.
    pub fn is_before(&self, other: &Timestamp) -> (r: bool)
        ensures
            r == self.before(*other),
    {
        self.secs < other.secs || (self.secs == other.secs && self.nanos < other.nanos)
    }

    /// The later of two points in time.
    pub fn max(self, other: Timestamp) -> (r: Timestamp)
        ensures
            r == self.later(other),
    {
        if other.is_before(&self) {
            self
        } else {
            other
        }
    }

    /// Read the clock.
    ///
    /// Calls `chrono::Utc::now`. Which point in time comes back is up to the
    /// system clock; nothing is claimed of it but that it is one that a date
    /// and time can name. The call panics if that clock is set before the
    /// epoch.
    #[verifier::external_body]
    pub(crate) fn now() -> (r: Timestamp)
        ensures
            representable(r.seconds(), r.nanoseconds()),
    {
        let t = Utc::now();
        Timestamp { secs: t.timestamp(), nanos: t.timestamp_subsec_nanos() }
    }

    /// The span from another point in time to this one.
    pub fn since(self, other: Timestamp) -> (r: Span)
        ensures
            r.total() == elapsed(self, other),
    {
        proof {
            use_type_invariant(&self);
            use_type_invariant(&other);
        }
        self.subtract(other)
    }

    /// The difference of two points in time.
    ///
    /// Calls the subtraction of two `chrono::DateTime<Utc>`, which are put
    /// together from their seconds and nanoseconds. Claims that the span is
    /// the difference of the two, in nanoseconds, with the correction that
    /// chrono makes for leap seconds, and that its two parts agree in sign.
    #[verifier::external_body]
    fn subtract(self, other: Timestamp) -> (r: Span)
        requires
            representable(self.seconds(), self.nanoseconds()),
            representable(other.seconds(), other.nanoseconds()),
        ensures
            r.total() == elapsed(self, other),
            r.signs_agree(),
    {
        let a = DateTime::from_timestamp(self.secs, 0).unwrap().naive_utc();
        let b = DateTime::from_timestamp(other.secs, 0).unwrap().naive_utc();
        let a = a.with_nanosecond(self.nanos).unwrap().and_utc();
        let b = b.with_nanosecond(other.nanos).unwrap().and_utc();
        let d = a - b;
        Span { secs: d.num_seconds(), nanos: d.subsec_nanos() }
    }
}

/// Two points in time of which neither comes before the other are the same.
pub proof fn lemma_before_total(a: Timestamp, b: Timestamp)
    ensures
        a == b || a.before(b) || b.before(a),
{
}

/// Points in time are ordered by their seconds, then by their nanoseconds, and
/// the later of two is one of them that the other does not come after.
pub proof fn law_before(a: Timestamp, b: Timestamp)
    ensures
        a.seconds() < b.seconds() ==> a.before(b),
        a.seconds() == b.seconds() ==> (a.before(b) <==> a.nanoseconds() < b.nanoseconds()),
        !(a.before(b) && b.before(a)),
        a == b || a.before(b) || b.before(a),
        a.later(b) == a || a.later(b) == b,
        !a.later(b).before(a),
        !a.later(b).before(b),
{
}

/// Outside of leap seconds, time elapses by the nanosecond.
pub proof fn law_elapsed(a: Timestamp, b: Timestamp)
    requires
        a.nanoseconds() < 1_000_000_000,
        b.nanoseconds() < 1_000_000_000,
    ensures
        elapsed(a, b) == (a.seconds() * 1_000_000_000 + a.nanoseconds()) - (b.seconds()
            * 1_000_000_000 + b.nanoseconds()),
{
}

/// Outside of leap seconds, the earlier of two points in time is the longer
/// ago.
pub proof fn law_elapsed_order(now: Timestamp, a: Timestamp, b: Timestamp)
    requires
        a.before(b),
        now.nanoseconds() < 1_000_000_000,
        a.nanoseconds() < 1_000_000_000,
        b.nanoseconds() < 1_000_000_000,
    ensures
        elapsed(now, b) < elapsed(now, a),
{
}

impl Span {
    /// The span in nanoseconds.
    pub closed spec fn total(self) -> int {
        self.secs * 1_000_000_000 + self.nanos
    }

    /// Seconds and nanoseconds point the same way.
    #[verifier::type_invariant]
    pub closed spec fn signs_agree(self) -> bool {
        &&& -1_000_000_000 < self.nanos < 1_000_000_000
        &&& self.secs > 0 ==> self.nanos >= 0
        &&& self.secs < 0 ==> self.nanos <= 0
    }

    /// A span of whole seconds.
    ///
    /// Calls `chrono::Duration::seconds`, which panics on more seconds than
    /// its range of milliseconds can hold. Claims that the span is that many
    /// seconds, and that its two parts agree in sign.
    #[verifier::external_body]
    pub(crate) fn seconds(secs: i64) -> (r: Span)
        requires
            -MAX_SPAN_SECONDS <= secs <= MAX_SPAN_SECONDS,
        ensures
            r.total() == secs * 1_000_000_000,
            r.signs_agree(),
    {
        let d = chrono::Duration::seconds(secs);
        Span { secs: d.num_seconds(), nanos: d.subsec_nanos() }
    }

    /// True if this span is shorter than the other.
    pub fn is_shorter(&self, other: &Span) -> (r: bool)
        ensures
            r == (self.total() < other.total()),
    {
        proof {
            use_type_invariant(self);
            use_type_invariant(other);
        }
        self.secs < other.secs || (self.secs == other.secs && self.nanos < other.nanos)
    }
}

} // verus!
