use chrono::{DateTime, Duration, NaiveDateTime, TimeZone, Timelike, Utc};
use kannaka_attention::time::{MAX_SECONDS, MAX_SPAN_SECONDS, MIN_SECONDS};
use kannaka_attention::{LogStrideLookback, MemoryId, ObservationEvent, Timestamp, Weight};

fn at(t: DateTime<Utc>) -> Timestamp {
    Timestamp::new(t.timestamp(), t.timestamp_subsec_nanos()).unwrap()
}

/// Dates and times around days, leap seconds and both ends of the calendar.
fn moments() -> Vec<DateTime<Utc>> {
    let mut all = vec![
        DateTime::<Utc>::MIN_UTC,
        DateTime::<Utc>::MAX_UTC,
        NaiveDateTime::MAX.with_nanosecond(1_999_999_999).unwrap().and_utc(),
        Utc.timestamp_opt(0, 0).unwrap(),
        Utc.timestamp_opt(-1, 999_999_999).unwrap(),
    ];
    for day in [-86_400i64, 0, 86_400, 1_483_228_799 / 86_400 * 86_400] {
        for second in [0i64, 1, 43_199, 86_398, 86_399] {
            for nano in [0u32, 1, 999_999_999, 1_000_000_000, 1_500_000_000, 1_999_999_999] {
                let t = Utc.timestamp_opt(day + second, 0).unwrap();
                all.push(t.with_nanosecond(nano).unwrap());
            }
        }
    }
    all
}

#[test]
fn the_range_is_that_of_dates() {
    assert_eq!(MIN_SECONDS, DateTime::<Utc>::MIN_UTC.timestamp());
    assert_eq!(MAX_SECONDS, DateTime::<Utc>::MAX_UTC.timestamp());
    assert!(Timestamp::new(MIN_SECONDS, 0).is_some());
    assert!(Timestamp::new(MIN_SECONDS - 1, 0).is_none());
    assert!(Timestamp::new(MAX_SECONDS, 999_999_999).is_some());
    assert!(Timestamp::new(MAX_SECONDS, 1_999_999_999).is_some());
    assert!(Timestamp::new(MAX_SECONDS, 2_000_000_000).is_none());
    assert!(Timestamp::new(MAX_SECONDS + 1, 0).is_none());
    assert!(Timestamp::new(59, 1_999_999_999).is_some());
    assert!(Timestamp::new(59, 2_000_000_000).is_none());
    assert!(DateTime::from_timestamp(MIN_SECONDS - 1, 0).is_none());
    assert!(DateTime::from_timestamp(MAX_SECONDS + 1, 0).is_none());
}

#[test]
fn spans_of_seconds_have_a_range() {
    assert!(Duration::try_seconds(MAX_SPAN_SECONDS).is_some());
    assert!(Duration::try_seconds(MAX_SPAN_SECONDS + 1).is_none());
    assert!(Duration::try_seconds(-MAX_SPAN_SECONDS).is_some());
    assert!(Duration::try_seconds(-MAX_SPAN_SECONDS - 1).is_none());
    let mut l = LogStrideLookback::with_config(&[-MAX_SPAN_SECONDS, MAX_SPAN_SECONDS], 1);
    l.observe(MemoryId::from_u128(1), at(DateTime::<Utc>::MIN_UTC));
    l.observe(MemoryId::from_u128(2), at(DateTime::<Utc>::MAX_UTC));
    // Both are in the bucket below the longest span, which has one place.
    assert_eq!(l.snapshot(), vec![MemoryId::from_u128(2)]);
}

#[test]
fn the_parts_of_a_timestamp_come_back() {
    for t in moments() {
        let u = at(t);
        assert_eq!(u.timestamp(), t.timestamp());
        assert_eq!(u.timestamp_subsec_nanos(), t.timestamp_subsec_nanos());
    }
}

#[test]
fn the_order_is_that_of_dates() {
    let all = moments();
    for a in &all {
        for b in &all {
            assert_eq!(at(*a).is_before(&at(*b)), a < b);
            assert_eq!(at(*a).max(at(*b)), at((*a).max(*b)));
        }
    }
}

#[test]
fn differences_are_those_of_dates() {
    let all = moments();
    let mut pairs = Vec::new();
    for a in &all {
        for b in &all {
            pairs.push((at(*a).since(at(*b)), *a - *b));
        }
    }
    for (i, (mine, theirs)) in pairs.iter().enumerate() {
        for k in [i * 7919 + 13, i + 1] {
            let (other, span) = &pairs[k % pairs.len()];
            assert_eq!(mine.is_shorter(other), theirs < span);
            assert_eq!(mine == other, theirs == span);
        }
    }
}

#[test]
fn an_earlier_moment_is_longer_ago() {
    let now = Timestamp::new(86_400 * 3, 5).unwrap();
    let early = Timestamp::new(86_399, 999_999_999).unwrap();
    let late = Timestamp::new(86_400, 0).unwrap();
    assert!(now.since(late).is_shorter(&now.since(early)));
}

#[test]
fn a_leap_second_can_be_less_long_ago_than_what_follows_it() {
    // Two days on, at an earlier time of day, the leap second is not made up
    // for.
    let now = Timestamp::new(86_400 * 3, 0).unwrap();
    let leap = Timestamp::new(86_398, 1_500_000_000).unwrap();
    let after = Timestamp::new(86_399, 200_000_000).unwrap();
    assert!(leap.is_before(&after));
    assert!(now.since(leap).is_shorter(&now.since(after)));
}

#[test]
fn an_event_made_now_carries_the_clock() {
    let before = at(Utc::now());
    let ev = ObservationEvent::now(MemoryId::from_u128(9), "ear");
    let after = at(Utc::now());
    assert!(!ev.ts.is_before(&before));
    assert!(!after.is_before(&ev.ts));
    assert_eq!(ev.memory_id, MemoryId::from_u128(9));
    assert_eq!(ev.source, "ear");
    assert_eq!(ev.weight, Weight::from_bits(1.0f32.to_bits()));
}

#[test]
fn an_event_made_at_a_time_carries_it() {
    let ts = Timestamp::new(1_700_000_000, 1).unwrap();
    let ev = ObservationEvent::at(MemoryId::from_u128(9), String::from("dream"), ts);
    assert_eq!(ev.ts, ts);
    assert_eq!(ev.source, "dream");
    assert_eq!(ev.weight.to_bits(), 1.0f32.to_bits());
}
