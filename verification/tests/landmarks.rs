use kannaka_attention::landmarks::Landmark;
use kannaka_attention::{LandmarkSet, MemoryId, Weight};
use uuid::Uuid;

fn fresh() -> MemoryId {
    MemoryId::from_u128(Uuid::new_v4().as_u128())
}

fn id(n: u128) -> MemoryId {
    MemoryId::from_u128(n)
}

fn landmark(id: MemoryId, cluster_label: &str, weight: f32) -> Landmark {
    Landmark {
        id,
        cluster_label: cluster_label.to_string(),
        weight: Weight::from_bits(weight.to_bits()),
    }
}

#[test]
fn upsert_replaces_by_cluster_label() {
    let mut s = LandmarkSet::new();
    let a = fresh();
    let b = fresh();
    s.upsert(landmark(a, "philosophy", 1.0));
    s.upsert(landmark(b, "philosophy", 1.0));
    assert_eq!(s.len(), 1);
    assert_eq!(s.snapshot(), vec![b]);
}

#[test]
fn reemitting_an_exemplar_under_a_new_label_drops_the_stale_alias() {
    let mut s = LandmarkSet::new();
    let exemplar = fresh();
    s.upsert(landmark(exemplar, "audio", 1.0));
    s.upsert(landmark(exemplar, "music", 1.0));
    assert_eq!(s.len(), 1, "one exemplar id, one landmark");
    assert_eq!(s.snapshot(), vec![exemplar]);

    // A genuinely different exemplar under the old label is unaffected.
    let other = fresh();
    s.upsert(landmark(other, "audio", 1.0));
    assert_eq!(s.len(), 2);
}

#[test]
fn equal_weight_snapshot_is_deterministic() {
    let ids: Vec<MemoryId> = (0..6).map(|_| fresh()).collect();
    let build = || {
        let mut s = LandmarkSet::new();
        for (i, id) in ids.iter().enumerate() {
            s.upsert(landmark(*id, &format!("cluster-{i}"), 1.0));
        }
        s.snapshot()
    };
    let first = build();
    for _ in 0..16 {
        assert_eq!(first, build());
    }
    // And it is the cluster_label order, not an arbitrary one.
    assert_eq!(first, ids);
}

#[test]
fn snapshot_orders_by_weight_descending() {
    let mut s = LandmarkSet::new();
    let high = fresh();
    let low = fresh();
    s.upsert(landmark(low, "a", 0.3));
    s.upsert(landmark(high, "b", 0.9));
    assert_eq!(s.snapshot(), vec![high, low]);
}

#[test]
fn a_weight_that_is_not_finite_counts_as_one() {
    for weight in [f32::NAN, f32::INFINITY, f32::NEG_INFINITY, -f32::NAN] {
        let mut s = LandmarkSet::new();
        s.upsert(landmark(id(1), "above", 1.5));
        s.upsert(landmark(id(2), "odd", weight));
        s.upsert(landmark(id(3), "below", 0.5));
        assert_eq!(s.snapshot(), vec![id(1), id(2), id(3)]);
    }
}

#[test]
fn negative_zero_is_lighter_than_zero() {
    let mut s = LandmarkSet::new();
    s.upsert(landmark(id(1), "a", -0.0));
    s.upsert(landmark(id(2), "b", 0.0));
    s.upsert(landmark(id(3), "c", -1.0));
    assert_eq!(s.snapshot(), vec![id(2), id(1), id(3)]);
}

#[test]
fn ties_go_by_the_bytes_of_the_label() {
    let mut s = LandmarkSet::new();
    let labels = ["zeta", "", "\u{e9}tude", "z", "Zeta", "\u{1f600}", "\u{ffff}"];
    for (n, label) in labels.iter().enumerate() {
        s.upsert(landmark(id(n as u128), label, 1.0));
    }
    let mut sorted: Vec<(&str, u128)> = Vec::new();
    for (n, label) in labels.iter().enumerate() {
        sorted.push((*label, n as u128));
    }
    sorted.sort();
    let expected: Vec<MemoryId> = sorted.iter().map(|(_, n)| id(*n)).collect();
    assert_eq!(s.snapshot(), expected);
}

#[test]
fn removing_a_cluster_forgets_only_it() {
    let mut s = LandmarkSet::default();
    assert!(s.is_empty());
    s.upsert(landmark(id(1), "one", 3.0));
    s.upsert(landmark(id(2), "two", 2.0));
    s.remove("three");
    assert_eq!(s.len(), 2);
    s.remove("one");
    assert_eq!(s.snapshot(), vec![id(2)]);
    assert!(!s.is_empty());
    s.remove("one");
    assert_eq!(s.len(), 1);
}

#[test]
fn registering_twice_is_registering_once() {
    let mut s = LandmarkSet::new();
    s.upsert(landmark(id(7), "b", 2.0));
    s.upsert(landmark(id(8), "a", 1.0));
    let once = s.snapshot();
    s.upsert(landmark(id(8), "a", 1.0));
    assert_eq!(s.snapshot(), once);
    assert_eq!(s.len(), 2);
}

#[test]
fn an_upsert_can_take_two_places_at_once() {
    // The cluster "b" is taken over by the exemplar of "a".
    let mut s = LandmarkSet::new();
    s.upsert(landmark(id(1), "a", 1.0));
    s.upsert(landmark(id(2), "b", 1.0));
    s.upsert(landmark(id(3), "c", 1.0));
    s.upsert(landmark(id(1), "b", 1.0));
    assert_eq!(s.snapshot(), vec![id(1), id(3)]);
}
