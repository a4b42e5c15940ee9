use chrono::{DateTime, Duration, Utc};
use kannaka_attention::beam::BeamStats;
use kannaka_attention::landmarks::Landmark;
use kannaka_attention::salience::{GateContext, RecencyWeightedGate, SalienceGate, StaticGate};
use kannaka_attention::{AttentionBeam, BeamConfig, MemoryId, ObservationEvent, Timestamp, Weight};
use uuid::Uuid;

fn fresh_id() -> MemoryId {
    MemoryId::from_u128(Uuid::new_v4().as_u128())
}

fn id(n: u128) -> MemoryId {
    MemoryId::from_u128(n)
}

fn at(t: DateTime<Utc>) -> Timestamp {
    Timestamp::new(t.timestamp(), t.timestamp_subsec_nanos()).unwrap()
}

fn second(n: i64) -> Timestamp {
    Timestamp::new(1_700_000_000 + n, 0).unwrap()
}

fn weight(x: f32) -> Weight {
    Weight::from_bits(x.to_bits())
}

fn landmark(id: MemoryId, cluster_label: &str, w: f32) -> Landmark {
    Landmark { id, cluster_label: cluster_label.to_string(), weight: weight(w) }
}

fn event(memory_id: MemoryId, n: i64) -> ObservationEvent {
    ObservationEvent::at(memory_id, String::from("test"), second(n))
}

/// A gate that turns the order of the weights round.
struct Lightest;

impl SalienceGate for Lightest {
    fn score(&self, landmark: &Landmark, _ctx: &GateContext<'_>) -> Weight {
        landmark.weight.times(weight(-1.0))
    }

    fn name(&self) -> &'static str {
        "lightest"
    }
}

/// A gate that finds every landmark the same, and gives itself no name.
struct Even;

impl SalienceGate for Even {
    fn score(&self, _landmark: &Landmark, _ctx: &GateContext<'_>) -> Weight {
        weight(0.5)
    }
}

/// A gate that must not be asked.
struct Untouchable;

impl SalienceGate for Untouchable {
    fn score(&self, _landmark: &Landmark, _ctx: &GateContext<'_>) -> Weight {
        panic!("asked for a score");
    }

    fn name(&self) -> &'static str {
        "untouchable"
    }
}

/// A gate that scores by what it is told of the beam.
struct Nosy;

impl SalienceGate for Nosy {
    fn score(&self, landmark: &Landmark, ctx: &GateContext<'_>) -> Weight {
        let place = ctx.recency.iter().position(|x| *x == landmark.id).unwrap_or(90);
        let depth = ctx.lookback.iter().position(|x| *x == landmark.id).unwrap_or(9);
        weight((ctx.observations * 1000) as f32 + (place * 10 + depth) as f32)
    }

    fn name(&self) -> &'static str {
        "nosy"
    }
}

#[test]
fn empty_beam_returns_no_candidates() {
    let b = AttentionBeam::new();
    assert!(b.candidates().is_empty());
}

#[test]
fn observation_lands_in_recency_first_tier() {
    let mut b = AttentionBeam::new();
    let id = fresh_id();
    b.observe_now(id, "eye:left");
    let cands = b.candidates();
    assert!(!cands.is_empty());
    assert_eq!(cands[0], id);
}

#[test]
fn landmark_only_no_observations_still_emits() {
    let mut b = AttentionBeam::new();
    let id = fresh_id();
    b.upsert_landmark(landmark(id, "philosophy", 1.0));
    let cands = b.candidates();
    assert_eq!(cands, vec![id]);
}

#[test]
fn dedup_across_tiers() {
    let mut b = AttentionBeam::new();
    let id = fresh_id();
    b.observe_now(id, "eye:left");
    b.upsert_landmark(landmark(id, "philosophy", 1.0));
    let cands = b.candidates();
    assert_eq!(cands.iter().filter(|c| **c == id).count(), 1);
}

#[test]
fn recency_weighted_gate_reorders_landmarks() {
    let mut b = AttentionBeam::with_config(BeamConfig {
        recency_capacity: 4,
        max_landmarks: 8,
        max_lookback: 0,
        max_beam: 16,
    });
    let cold = fresh_id();
    let warm = fresh_id();
    b.upsert_landmark(landmark(cold, "cold", 2.0));
    b.upsert_landmark(landmark(warm, "warm", 1.0));
    b.observe_now(warm, "test");
    // The recency ring also contains `warm`, so it appears in the recency
    // tier first and the landmark tier does not repeat it.
    b.set_gate(Box::new(RecencyWeightedGate::default()));
    let cands = b.candidates();
    assert!(cands.contains(&warm));
    assert!(cands.contains(&cold));
}

#[test]
fn max_beam_zero_emits_nothing() {
    let mut b = AttentionBeam::with_config(BeamConfig {
        recency_capacity: 8,
        max_landmarks: 8,
        max_lookback: 8,
        max_beam: 0,
    });
    let id = fresh_id();
    b.observe_now(id, "test");
    b.upsert_landmark(landmark(fresh_id(), "c", 5.0));
    assert!(b.candidates().is_empty());
}

#[test]
fn beam_never_exceeds_max_beam_for_any_config() {
    // Whatever the tier caps say, the total budget holds.
    for max_beam in 0..12usize {
        let mut b = AttentionBeam::with_config(BeamConfig {
            recency_capacity: 32,
            max_landmarks: 32,
            max_lookback: 32,
            max_beam,
        });
        for i in 0..20 {
            b.observe_now(fresh_id(), "test");
            b.upsert_landmark(landmark(fresh_id(), &format!("cluster-{i}"), i as f32));
        }
        let c = b.candidates();
        assert!(
            c.len() <= max_beam,
            "max_beam={max_beam} produced {} candidates",
            c.len()
        );
    }
}

#[test]
fn max_lookback_bounds_reach_even_when_recency_overlaps() {
    let mut b = AttentionBeam::with_config(BeamConfig {
        recency_capacity: 2,
        max_landmarks: 0,
        max_lookback: 1,
        max_beam: 16,
    });
    let a = fresh_id();
    let mid = fresh_id();
    let c = fresh_id();
    b.observe_now(a, "test");
    b.observe_now(mid, "test");
    b.observe_now(c, "test");

    let cands = b.candidates();
    // recency holds [c, mid]; the single lookback slot inspected is already
    // covered by recency, so `a` must NOT be resurrected.
    assert!(
        !cands.contains(&a),
        "max_lookback=1 must not reach past the first lookback slot: {cands:?}"
    );
}

#[test]
fn candidate_order_is_deterministic_across_runs() {
    let build = || {
        let mut b = AttentionBeam::with_config(BeamConfig {
            recency_capacity: 0,
            max_landmarks: 8,
            max_lookback: 0,
            max_beam: 16,
        });
        // Same weight for all: nothing but the tiebreak to separate them.
        for (n, label) in ["delta", "alpha", "charlie", "bravo"].iter().enumerate() {
            b.upsert_landmark(landmark(id(n as u128 + 1), label, 1.0));
        }
        b.candidates()
    };
    let first = build();
    assert_eq!(first.len(), 4);
    for _ in 0..16 {
        assert_eq!(first, build(), "equal-weight ordering must be stable");
    }
}

#[test]
fn observation_weight_reaches_the_lookback() {
    // recency is disabled so the ordering under test is the lookback's.
    let mut b = AttentionBeam::with_config(BeamConfig {
        recency_capacity: 0,
        max_landmarks: 0,
        max_lookback: 8,
        max_beam: 16,
    });
    let ambient = fresh_id();
    let deliberate = fresh_id();
    let t = at(Utc::now());
    b.observe(&ObservationEvent {
        memory_id: ambient,
        source: "ambient".into(),
        weight: weight(0.05),
        ts: t,
    });
    b.observe(&ObservationEvent {
        memory_id: deliberate,
        source: "user".into(),
        weight: weight(10.0),
        ts: t,
    });
    let cands = b.candidates();
    assert_eq!(cands.len(), 2);
    // Same bucket, same last_seen: weight is the only separator.
    assert_eq!(
        cands[0], deliberate,
        "the deliberate reference should lead: {cands:?}"
    );
}

#[test]
fn observe_uses_event_timestamp_not_wall_clock() {
    let mut b = AttentionBeam::with_config(BeamConfig {
        recency_capacity: 0,
        max_landmarks: 0,
        max_lookback: 8,
        max_beam: 16,
    });
    let now = Utc::now();
    let ancient = fresh_id();
    let fresh = fresh_id();
    b.observe(&ObservationEvent {
        memory_id: ancient,
        source: "replay".into(),
        weight: weight(1.0),
        ts: at(now - Duration::days(20)),
    });
    b.observe(&ObservationEvent {
        memory_id: fresh,
        source: "live".into(),
        weight: weight(1.0),
        ts: at(now),
    });
    // The 20-day-old event must sort into a far older bucket, so the fresh id
    // leads even though it was observed second.
    assert_eq!(b.candidates(), vec![fresh, ancient]);
}

#[test]
fn beam_truncated_at_max_beam() {
    let mut b = AttentionBeam::with_config(BeamConfig {
        recency_capacity: 1000,
        max_landmarks: 0,
        max_lookback: 0,
        max_beam: 5,
    });
    for _ in 0..50 {
        b.observe_now(fresh_id(), "test");
    }
    assert_eq!(b.candidates().len(), 5);
}

#[test]
fn the_default_knobs() {
    let c = BeamConfig::default();
    assert_eq!(c.recency_capacity, 128);
    assert_eq!(c.max_landmarks, 16);
    assert_eq!(c.max_lookback, 32);
    assert_eq!(c.max_beam, 256);
}

#[test]
fn tiers_come_in_order() {
    let mut b = AttentionBeam::with_config(BeamConfig {
        recency_capacity: 2,
        max_landmarks: 2,
        max_lookback: 3,
        max_beam: 16,
    });
    for n in 1..5 {
        b.observe(&event(id(n), n as i64));
    }
    b.upsert_landmark(landmark(id(10), "heavy", 3.0));
    b.upsert_landmark(landmark(id(11), "mid", 2.0));
    b.upsert_landmark(landmark(id(12), "light", 1.0));
    // Ring [4, 3]; three lookback places [4, 3, 2]; two landmark places.
    assert_eq!(b.candidates(), vec![id(4), id(3), id(2), id(10), id(11)]);
    // A landmark that has arrived already still spends its place.
    b.observe(&event(id(10), 9));
    assert_eq!(b.candidates(), vec![id(10), id(4), id(3), id(11)]);
}

#[test]
fn every_budget_is_a_prefix_of_the_next() {
    let mut last: Vec<MemoryId> = Vec::new();
    for max_beam in 0..12usize {
        let mut b = AttentionBeam::with_config(BeamConfig {
            recency_capacity: 3,
            max_landmarks: 4,
            max_lookback: 6,
            max_beam,
        });
        for n in 0..8 {
            b.observe(&event(id(n % 5), n as i64 * 40));
            b.upsert_landmark(landmark(id(n + 3), &format!("c{n}"), n as f32));
        }
        let c = b.candidates();
        assert!(c.len() <= max_beam);
        assert_eq!(c[..last.len()], last[..]);
        last = c;
    }
    assert!(last.len() > 5);
}

#[test]
fn the_last_observation_leads() {
    let mut b = AttentionBeam::default();
    for n in [5, 9, 5, 2, 9] {
        b.observe(&event(id(n), 0));
        assert_eq!(b.candidates()[0], id(n));
    }
}

#[test]
fn stats_count_the_tiers() {
    let mut b = AttentionBeam::with_config(BeamConfig {
        recency_capacity: 2,
        max_landmarks: 1,
        max_lookback: 1,
        max_beam: 16,
    });
    for n in 1..4 {
        b.observe(&event(id(n), 0));
    }
    b.observe(&event(id(3), 1));
    b.upsert_landmark(landmark(id(8), "a", 1.0));
    b.upsert_landmark(landmark(id(9), "b", 1.0));
    let BeamStats { recency_len, lookback_len, landmarks_len, beam_size, observations } = b.stats();
    assert_eq!(recency_len, 2);
    assert_eq!(lookback_len, 3);
    assert_eq!(landmarks_len, 2);
    assert_eq!(beam_size, 3);
    assert_eq!(observations, 4);
    assert_eq!(b.candidates(), vec![id(3), id(2), id(8)]);
}

#[test]
fn landmarks_come_and_go() {
    let mut b = AttentionBeam::new();
    b.upsert_landmark(landmark(id(1), "a", 1.0));
    b.upsert_landmark(landmark(id(2), "b", 2.0));
    b.drop_landmark("c");
    assert_eq!(b.candidates(), vec![id(2), id(1)]);
    b.drop_landmark("b");
    assert_eq!(b.candidates(), vec![id(1)]);
    assert_eq!(b.stats().landmarks_len, 1);
}

#[test]
fn the_gate_has_a_name() {
    let mut b = AttentionBeam::new();
    assert_eq!(b.gate_name(), "none");
    b.set_gate(Box::new(StaticGate));
    assert_eq!(b.gate_name(), "static");
    b.set_gate(Box::new(RecencyWeightedGate::default()));
    assert_eq!(b.gate_name(), "recency-weighted");
    b.set_gate(Box::new(Lightest));
    assert_eq!(b.gate_name(), "lightest");
}

#[test]
fn a_gate_without_a_name_is_unnamed() {
    assert_eq!(Even.name(), "unnamed");
    let mut b = AttentionBeam::new();
    b.set_gate(Box::new(Even));
    assert_eq!(b.gate_name(), "unnamed");
}

#[test]
fn the_type_of_a_gate_can_be_settled_at_run_time() {
    for (light, name) in [(true, "lightest"), (false, "unnamed")] {
        let gate: Box<dyn SalienceGate> = if light { Box::new(Lightest) } else { Box::new(Even) };
        let mut b = AttentionBeam::new();
        b.upsert_landmark(landmark(id(1), "a", 1.0));
        b.upsert_landmark(landmark(id(2), "b", 2.0));
        b.set_gate(gate);
        assert_eq!(b.gate_name(), name);
        let expected = if light { vec![id(1), id(2)] } else { vec![id(2), id(1)] };
        assert_eq!(b.candidates(), expected);
    }
}

#[test]
fn a_gate_of_the_host_orders_the_landmarks() {
    let mut b = AttentionBeam::new();
    for (n, label) in ["a", "b", "c", "d"].iter().enumerate() {
        b.upsert_landmark(landmark(id(n as u128), label, [2.0, 1.0, 3.0, 1.0][n]));
    }
    assert_eq!(b.candidates(), vec![id(2), id(0), id(1), id(3)]);
    b.set_gate(Box::new(Lightest));
    assert_eq!(b.candidates(), vec![id(1), id(3), id(0), id(2)]);
}

#[test]
fn warm_landmarks_rise() {
    // One landmark place; recency and lookback hold the warm one but add
    // nothing themselves below the landmark tier.
    let build = |gated: bool| {
        let mut b = AttentionBeam::with_config(BeamConfig {
            recency_capacity: 4,
            max_landmarks: 1,
            max_lookback: 0,
            max_beam: 16,
        });
        b.upsert_landmark(landmark(id(1), "cold", 1.9));
        b.upsert_landmark(landmark(id(2), "warm", 1.0));
        b.observe(&event(id(2), 0));
        if gated {
            b.set_gate(Box::new(RecencyWeightedGate::default()));
        }
        b.candidates()
    };
    assert_eq!(build(false), vec![id(2), id(1)]);
    // Gated, the warm landmark takes the only place, and it is in already.
    assert_eq!(build(true), vec![id(2)]);
}

#[test]
fn a_gate_sees_the_ring_the_lookback_and_the_count() {
    let mut b = AttentionBeam::with_config(BeamConfig {
        recency_capacity: 2,
        max_landmarks: 8,
        max_lookback: 0,
        max_beam: 16,
    });
    for n in 1..5 {
        b.observe(&event(id(n), n as i64));
        b.upsert_landmark(landmark(id(n), &format!("c{n}"), 1.0));
    }
    b.upsert_landmark(landmark(id(7), "unseen", 1.0));
    b.set_gate(Box::new(Nosy));
    // Ring [4, 3], lookback [4, 3, 2, 1]: the scores are 999, 903, 902, 11
    // and 0 above four thousand, so the unseen one leads.
    assert_eq!(b.candidates(), vec![id(4), id(3), id(7), id(1), id(2)]);
}

#[test]
fn the_static_gate_changes_nothing() {
    let mut b = AttentionBeam::new();
    for (n, label) in ["a", "b", "c", "d", "e"].iter().enumerate() {
        b.upsert_landmark(landmark(id(n as u128), label, [0.0, -1.0, 3.0, 0.5, 3.0][n]));
    }
    let before = b.candidates();
    b.set_gate(Box::new(StaticGate));
    assert_eq!(b.candidates(), before);
}

#[test]
fn the_static_gate_leaves_the_zeros_in_place() {
    let mut b = AttentionBeam::new();
    b.upsert_landmark(landmark(id(1), "", -0.0));
    b.upsert_landmark(landmark(id(2), "b", 0.0));
    b.upsert_landmark(landmark(id(3), "c", -0.0));
    assert_eq!(b.candidates(), vec![id(2), id(1), id(3)]);
    b.set_gate(Box::new(StaticGate));
    assert_eq!(b.candidates(), vec![id(2), id(1), id(3)]);
}

#[test]
fn equal_scores_stand_as_without_a_gate() {
    let mut b = AttentionBeam::new();
    for (n, label) in ["a", "b", "c", "d"].iter().enumerate() {
        b.upsert_landmark(landmark(id(n as u128), label, [1.0, 2.0, 1.0, 3.0][n]));
    }
    b.set_gate(Box::new(Even));
    assert_eq!(b.candidates(), vec![id(3), id(1), id(0), id(2)]);
}

#[test]
fn a_full_beam_does_not_ask_its_gate() {
    let build = |max_beam: usize| {
        let mut b = AttentionBeam::with_config(BeamConfig {
            recency_capacity: 1,
            max_landmarks: 4,
            max_lookback: 2,
            max_beam,
        });
        b.observe(&event(id(1), 0));
        b.observe(&event(id(2), 1));
        b.upsert_landmark(landmark(id(3), "a", 1.0));
        b.set_gate(Box::new(Untouchable));
        b.candidates()
    };
    assert_eq!(build(0), vec![]);
    assert_eq!(build(1), vec![id(2)]);
    assert_eq!(build(2), vec![id(2), id(1)]);
}

#[test]
fn sources_can_be_owned_strings() {
    let mut b = AttentionBeam::new();
    b.observe_now(id(3), String::from("swarm"));
    assert_eq!(b.candidates(), vec![id(3)]);
    assert_eq!(b.stats().observations, 1);
}

#[test]
fn budgets_beyond_memory_are_only_limits() {
    let mut b = AttentionBeam::with_config(BeamConfig {
        recency_capacity: usize::MAX,
        max_landmarks: usize::MAX,
        max_lookback: usize::MAX,
        max_beam: usize::MAX,
    });
    b.observe(&event(id(1), 0));
    b.upsert_landmark(landmark(id(2), "a", 1.0));
    assert_eq!(b.candidates(), vec![id(1), id(2)]);
}
