use chrono::{DateTime, Duration, Utc};
use kannaka_attention::lookback::{
    sanitize_weight, DEFAULT_BOUNDARIES_SECONDS, MAX_OBSERVATION_WEIGHT, MIN_OBSERVATION_WEIGHT,
};
use kannaka_attention::{LogStrideLookback, MemoryId, Timestamp, Weight};
use uuid::Uuid;

fn fresh_id() -> MemoryId {
    MemoryId::from_u128(Uuid::new_v4().as_u128())
}

fn id(n: u128) -> MemoryId {
    MemoryId::from_u128(n)
}

fn at(t: DateTime<Utc>) -> Timestamp {
    Timestamp::new(t.timestamp(), t.timestamp_subsec_nanos()).unwrap()
}

fn weight(x: f32) -> Weight {
    Weight::from_bits(x.to_bits())
}

/// A point in time some seconds after a fixed one.
fn second(n: i64) -> Timestamp {
    Timestamp::new(1_700_000_000 + n, 0).unwrap()
}

#[test]
fn fresh_observation_lands_in_first_bucket() {
    let mut l = LogStrideLookback::new();
    let a = fresh_id();
    l.observe(a, at(Utc::now()));
    assert_eq!(l.snapshot(), vec![a]);
}

#[test]
fn aging_rebalance_moves_entry_to_older_bucket() {
    let mut l = LogStrideLookback::new();
    let a = fresh_id();
    let t0 = Utc::now() - Duration::hours(2);
    l.observe(a, at(t0));
    l.rebalance(at(t0 + Duration::hours(2)));
    assert_eq!(l.snapshot(), vec![a]);
    assert_eq!(l.len(), 1);
}

#[test]
fn cap_evicts_lowest_weight() {
    let mut l = LogStrideLookback::with_config(&[60], 2);
    let high = fresh_id();
    let mid = fresh_id();
    let low = fresh_id();
    let t = at(Utc::now());
    l.observe(high, t);
    l.observe(high, t);
    l.observe(high, t);
    l.observe(mid, t);
    l.observe(mid, t);
    l.observe(low, t);
    let snap = l.snapshot();
    assert!(snap.contains(&high));
    assert!(snap.contains(&mid));
    assert!(!snap.contains(&low), "weakest entry is the one dropped");
}

#[test]
fn fresh_memories_still_admitted_after_bucket_zero_fills() {
    let mut l = LogStrideLookback::with_config(&[60], 4);
    let t = Utc::now();
    let filler: Vec<MemoryId> = (0..4).map(|_| fresh_id()).collect();
    for (i, id) in filler.iter().enumerate() {
        l.observe(*id, at(t + Duration::seconds(i as i64)));
    }
    assert_eq!(l.len(), 4, "bucket 0 is full");

    let newcomer = fresh_id();
    l.observe(newcomer, at(t + Duration::seconds(10)));
    assert!(
        l.snapshot().contains(&newcomer),
        "a fresh memory must still get in once the bucket is full"
    );
    // The stalest unit-weight resident is the one that made way.
    assert!(!l.snapshot().contains(&filler[0]));
}

#[test]
fn reobserving_refreshes_bucket_placement() {
    let mut l = LogStrideLookback::new();
    let old = fresh_id();
    let t0 = at(Utc::now() - Duration::days(20));
    l.observe(old, t0);

    let fresh = fresh_id();
    let now = at(Utc::now());
    l.observe(fresh, now);
    // Re-observe the ancient memory right now.
    l.observe(old, now);

    let snap = l.snapshot();
    assert_eq!(snap.len(), 2);
    // Both are now in bucket 0; the re-observed one is not stranded at the
    // far end of the snapshot behind six intervening buckets.
    assert!(snap.contains(&old) && snap.contains(&fresh));
    // first_seen is still preserved for callers that want provenance.
    assert_eq!(l.first_seen(&old), Some(t0));
}

#[test]
fn snapshot_is_newest_first_within_a_bucket() {
    let mut l = LogStrideLookback::new();
    let t = Utc::now();
    let a = fresh_id();
    let b = fresh_id();
    let c = fresh_id();
    l.observe(a, at(t));
    l.observe(b, at(t + Duration::seconds(1)));
    l.observe(c, at(t + Duration::seconds(2)));
    assert_eq!(l.snapshot(), vec![c, b, a]);
}

#[test]
fn placement_is_exact_without_waiting_for_a_rebalance_tick() {
    let mut l = LogStrideLookback::new();
    let t0 = Utc::now();
    let old = fresh_id();
    l.observe(old, at(t0));

    // One observation later, four hours on. `old` must already read as aged
    // even though nothing was rebalanced by hand.
    let fresh = fresh_id();
    l.observe(fresh, at(t0 + Duration::hours(4)));

    let snap = l.snapshot();
    assert_eq!(
        snap,
        vec![fresh, old],
        "the freshly observed id sorts into an earlier bucket immediately"
    );
}

#[test]
fn weight_outranks_bare_repetition() {
    let mut l = LogStrideLookback::with_config(&[60], 1);
    let t = at(Utc::now());
    let ambient = fresh_id();
    let deliberate = fresh_id();
    l.observe_weighted(ambient, t, weight(0.05));
    l.observe_weighted(ambient, t, weight(0.05));
    l.observe_weighted(deliberate, t, weight(10.0));
    assert_eq!(l.snapshot(), vec![deliberate]);
}

#[test]
fn observation_weight_is_clamped_to_documented_range() {
    assert_eq!(sanitize_weight(weight(-5.0)).to_bits(), MIN_OBSERVATION_WEIGHT);
    assert_eq!(sanitize_weight(weight(1e9)).to_bits(), MAX_OBSERVATION_WEIGHT);
    assert_eq!(sanitize_weight(weight(f32::NAN)), weight(1.0));
    assert_eq!(sanitize_weight(weight(f32::INFINITY)), weight(1.0));
    assert_eq!(sanitize_weight(weight(2.5)), weight(2.5));
}

#[test]
fn total_population_never_exceeds_cap_times_buckets() {
    // The structure's whole selling point is a hard memory ceiling. 8 buckets
    // x cap 3 = 24, no matter how much we feed it.
    let mut l = LogStrideLookback::with_config(&DEFAULT_BOUNDARIES_SECONDS, 3);
    let t = Utc::now();
    for i in 0..500 {
        l.observe(fresh_id(), at(t + Duration::seconds(i)));
    }
    assert!(l.len() <= 3 * 8, "population {} exceeded the cap", l.len());
}

#[test]
fn backdated_event_does_not_unage_the_structure() {
    // The reference clock only moves forward, so a late-arriving old event
    // cannot drag everything else back into bucket 0.
    let mut l = LogStrideLookback::new();
    let t = Utc::now();
    let recent = fresh_id();
    l.observe(recent, at(t));

    let backdated = fresh_id();
    l.observe(backdated, at(t - Duration::days(10)));

    let snap = l.snapshot();
    assert_eq!(snap.len(), 2);
    assert_eq!(snap[0], recent, "the genuinely recent id still sorts first");
}

#[test]
fn rebalance_is_idempotent() {
    let mut l = LogStrideLookback::new();
    let t = Utc::now();
    for i in 0..20 {
        l.observe(fresh_id(), at(t + Duration::seconds(i)));
    }
    let once = {
        l.rebalance(at(t + Duration::hours(1)));
        l.snapshot()
    };
    l.rebalance(at(t + Duration::hours(1)));
    assert_eq!(once, l.snapshot());
}

#[test]
fn the_clamp_range_is_a_hundredth_to_ten() {
    assert_eq!(MIN_OBSERVATION_WEIGHT, 0.01f32.to_bits());
    assert_eq!(MAX_OBSERVATION_WEIGHT, 10.0f32.to_bits());
    assert_eq!(sanitize_weight(weight(0.01)), weight(0.01));
    assert_eq!(sanitize_weight(weight(10.0)), weight(10.0));
    assert_eq!(sanitize_weight(weight(0.0)), weight(0.01));
    assert_eq!(sanitize_weight(weight(-0.0)), weight(0.01));
    assert_eq!(sanitize_weight(weight(f32::NEG_INFINITY)), weight(1.0));
    assert_eq!(sanitize_weight(weight(-f32::NAN)), weight(1.0));
    assert_eq!(sanitize_weight(weight(f32::from_bits(1))), weight(0.01));
    assert_eq!(sanitize_weight(weight(f32::MAX)), weight(10.0));
}

#[test]
fn a_boundary_belongs_to_the_older_bucket() {
    // One place per bucket, so two entries stay only in different buckets.
    for (age, nanos, kept) in [(59, 0, 1), (59, 999_999_999, 1), (60, 0, 2), (61, 0, 2)] {
        let mut l = LogStrideLookback::with_config(&[60], 1);
        l.observe(id(1), Timestamp::new(1_000, 0).unwrap());
        l.observe(id(2), Timestamp::new(1_000 + age, nanos).unwrap());
        assert_eq!(l.len(), kept, "age {age}.{nanos:09}");
        assert_eq!(l.snapshot()[0], id(2));
    }
}

#[test]
fn the_default_boundaries_are_log_spaced() {
    let minute = 60;
    let hour = 60 * minute;
    let day = 24 * hour;
    assert_eq!(
        DEFAULT_BOUNDARIES_SECONDS,
        [minute, 5 * minute, 30 * minute, 3 * hour, day, 7 * day, 30 * day]
    );
}

#[test]
fn each_age_keeps_its_own_representatives() {
    // Two ids per default bucket, read out newest bucket first.
    let ages: [i64; 8] = [0, 61, 301, 1_801, 10_801, 86_401, 604_801, 2_592_001];
    let mut l = LogStrideLookback::with_config(&DEFAULT_BOUNDARIES_SECONDS, 2);
    let mut expected = Vec::new();
    for (bucket, age) in ages.into_iter().enumerate() {
        let n = bucket as u128 * 3;
        let (a, b, c) = (id(n), id(n + 1), id(n + 2));
        // The heaviest and the freshest of three stay.
        l.observe_weighted(a, second(-age - 3), weight(2.0));
        l.observe(b, second(-age - 2));
        l.observe(c, second(-age - 1));
        expected.extend([c, a]);
    }
    l.rebalance(second(0));
    assert_eq!(l.snapshot(), expected);
    assert_eq!(l.len(), 16);
}

#[test]
fn a_cap_of_zero_counts_as_one() {
    let mut l = LogStrideLookback::with_config(&[], 0);
    l.observe(id(1), second(0));
    assert_eq!(l.snapshot(), vec![id(1)]);
    l.observe(id(2), second(1));
    assert_eq!(l.snapshot(), vec![id(2)]);
}

#[test]
fn an_empty_lookback_reads_out_nothing() {
    let mut l = LogStrideLookback::default();
    assert!(l.is_empty());
    assert!(l.snapshot().is_empty());
    assert_eq!(l.first_seen(&id(1)), None);
    assert!(!l.contains(&id(1)));
    l.rebalance(second(0));
    assert!(l.is_empty());
    assert_eq!(l.len(), 0);
}

#[test]
fn sources_are_kept_apart() {
    let mut l = LogStrideLookback::with_config(&[60], 8);
    l.observe_keyed(id(1), "eye:left", second(0), weight(1.0));
    l.observe_keyed(id(1), "eye:right", second(1), weight(1.0));
    l.observe_keyed(id(1), "eye:left", second(2), weight(1.0));
    l.observe(id(1), second(3));
    assert_eq!(l.len(), 3);
    assert_eq!(l.snapshot(), vec![id(1), id(1), id(1)]);
    assert!(l.contains(&id(1)));
    assert_eq!(l.first_seen(&id(1)), Some(second(0)));
}

#[test]
fn the_first_sighting_counts_whichever_source_made_it() {
    let mut l = LogStrideLookback::new();
    let at_second = |n: i64| Timestamp::new(n, 0).unwrap();
    l.observe_keyed(id(1), "eye:left", at_second(1000), weight(1.0));
    l.observe_keyed(id(1), "eye:right", at_second(1010), weight(10.0));
    assert_eq!(l.first_seen(&id(1)), Some(at_second(1000)));
    l.observe_keyed(id(1), "ear", at_second(990), weight(0.5));
    assert_eq!(l.first_seen(&id(1)), Some(at_second(990)));
}

#[test]
fn ties_of_all_else_go_by_id_then_source() {
    let mut l = LogStrideLookback::with_config(&[60], 3);
    l.observe_keyed(id(2), "b", second(0), weight(1.0));
    l.observe_keyed(id(2), "a", second(0), weight(1.0));
    l.observe(id(2), second(0));
    l.observe_keyed(id(1), "z", second(0), weight(1.0));
    // Of four the last by (id, source) is dropped: (2, "b").
    assert_eq!(l.snapshot(), vec![id(1), id(2), id(2)]);
    l.observe_keyed(id(2), "b", second(0), weight(1.0));
    assert_eq!(l.snapshot(), vec![id(1), id(2), id(2)]);
}

#[test]
fn ids_are_ordered_as_uuids_are() {
    let mut uuids: Vec<Uuid> = (0..40).map(|_| Uuid::new_v4()).collect();
    uuids.push(Uuid::nil());
    uuids.push(Uuid::max());
    let mut l = LogStrideLookback::with_config(&[60], 64);
    for u in &uuids {
        l.observe(id(u.as_u128()), second(0));
    }
    uuids.sort();
    let expected: Vec<MemoryId> = uuids.iter().map(|u| id(u.as_u128())).collect();
    assert_eq!(l.snapshot(), expected);
}

#[test]
fn strength_accumulates() {
    // Ten ambient mentions pull as hard as one deliberate one; on a tie the
    // fresher stays.
    let mut l = LogStrideLookback::with_config(&[60], 1);
    for _ in 0..10 {
        l.observe(id(1), second(0));
    }
    l.observe_weighted(id(2), second(0), weight(9.5));
    assert_eq!(l.snapshot(), vec![id(1)]);
    l.observe_weighted(id(3), second(1), weight(10.0));
    assert_eq!(l.snapshot(), vec![id(3)]);
}

#[test]
fn a_dropped_memory_starts_over() {
    let mut l = LogStrideLookback::with_config(&[60], 1);
    l.observe(id(1), second(0));
    l.observe(id(2), second(1));
    assert_eq!(l.first_seen(&id(1)), None);
    l.observe(id(1), second(2));
    assert_eq!(l.first_seen(&id(1)), Some(second(2)));
    assert_eq!(l.snapshot(), vec![id(1)]);
}

#[test]
fn a_backdated_event_keeps_the_last_sighting() {
    let mut l = LogStrideLookback::with_config(&[60], 4);
    l.observe(id(1), second(100));
    l.observe(id(1), second(0));
    l.observe(id(2), second(50));
    // Seen last at 100, first at the event that made the entry.
    assert_eq!(l.first_seen(&id(1)), Some(second(100)));
    assert_eq!(l.snapshot(), vec![id(1), id(2)]);
}

#[test]
fn rebalancing_into_the_past_changes_nothing() {
    let mut l = LogStrideLookback::new();
    for n in 0..20u8 {
        l.observe(id(n as u128), second(n as i64 * 37));
    }
    let before = l.snapshot();
    l.rebalance(second(0));
    assert_eq!(l.snapshot(), before);
    l.rebalance(second(19 * 37));
    assert_eq!(l.snapshot(), before);
}

#[test]
fn a_snapshot_names_what_is_kept_newest_first() {
    let mut l = LogStrideLookback::with_config(&[10, 100], 3);
    let mut seed: u64 = 88_172_645_463_325_252;
    for _ in 0..300 {
        seed ^= seed << 13;
        seed ^= seed >> 7;
        seed ^= seed << 17;
        let n = (seed % 23) as u128;
        let t = (seed >> 8) % 400;
        l.observe_weighted(id(n), second(t as i64), weight((seed >> 32) as f32 / 4e8));
        let snap = l.snapshot();
        assert_eq!(snap.len(), l.len());
        assert!(l.len() <= 9);
        for n in 0..23u128 {
            assert_eq!(snap.contains(&id(n)), l.contains(&id(n)));
            assert_eq!(l.contains(&id(n)), l.first_seen(&id(n)).is_some());
        }
    }
}

#[test]
fn clones_are_independent() {
    let mut l = LogStrideLookback::new();
    l.observe(id(1), second(0));
    let copy = l.clone();
    l.observe(id(2), second(1));
    assert_eq!(copy.snapshot(), vec![id(1)]);
    assert_eq!(l.snapshot(), vec![id(2), id(1)]);
}
