use kannaka_attention::landmarks::Landmark;
use kannaka_attention::salience::{
    rank_landmarks, GateContext, RecencyWeightedGate, SalienceGate, StaticGate,
};
use kannaka_attention::{MemoryId, Weight};
use uuid::Uuid;

fn weight(x: f32) -> Weight {
    Weight::from_bits(x.to_bits())
}

fn number(w: Weight) -> f32 {
    f32::from_bits(w.to_bits())
}

fn fresh() -> MemoryId {
    MemoryId::from_u128(Uuid::new_v4().as_u128())
}

fn landmark(id: MemoryId, w: f32) -> Landmark {
    Landmark {
        id,
        cluster_label: format!("c-{}", &Uuid::from_u128(id.as_u128()).to_string()[..4]),
        weight: weight(w),
    }
}

#[test]
fn static_gate_returns_weight_unchanged() {
    let id = fresh();
    let l = landmark(id, 0.7);
    let ctx = GateContext { recency: &[], lookback: &[], observations: 0 };
    assert_eq!(number(StaticGate.score(&l, &ctx)), 0.7);
}

#[test]
fn recency_gate_boosts_when_id_in_recency_ring() {
    let id = fresh();
    let l = landmark(id, 1.0);
    let ctx = GateContext { recency: &[id], lookback: &[], observations: 1 };
    let g = RecencyWeightedGate::default();
    let s = number(g.score(&l, &ctx));
    assert!((s - 2.0).abs() < 1e-6, "expected ~2.0 boost, got {}", s);
}

#[test]
fn recency_gate_lookback_only_lighter_boost() {
    let id = fresh();
    let l = landmark(id, 1.0);
    let ctx = GateContext { recency: &[], lookback: &[id], observations: 5 };
    let g = RecencyWeightedGate::default();
    let s = number(g.score(&l, &ctx));
    assert!((s - 1.3).abs() < 1e-6, "expected ~1.3 boost, got {}", s);
}

#[test]
fn recency_gate_cold_returns_weight() {
    let id = fresh();
    let other = fresh();
    let l = landmark(id, 0.5);
    let ctx = GateContext { recency: &[other], lookback: &[], observations: 0 };
    let g = RecencyWeightedGate::default();
    assert_eq!(number(g.score(&l, &ctx)), 0.5);
}

#[test]
fn recency_goes_before_lookback() {
    let id = MemoryId::from_u128(1);
    let l = landmark(id, 0.75);
    let ctx = GateContext { recency: &[id], lookback: &[id], observations: 2 };
    let g = RecencyWeightedGate { recency_boost: weight(4.0), lookback_boost: weight(0.5) };
    assert_eq!(number(g.score(&l, &ctx)), 3.0);
}

#[test]
fn gates_have_names_and_defaults() {
    assert_eq!(StaticGate::default().name(), "static");
    let g = RecencyWeightedGate::default();
    assert_eq!(g.name(), "recency-weighted");
    assert_eq!(number(g.recency_boost), 2.0);
    assert_eq!(number(g.lookback_boost), 1.3);
}

#[test]
fn landmarks_rank_by_score() {
    let ids: Vec<MemoryId> = (0..4).map(MemoryId::from_u128).collect();
    let ls = [
        landmark(ids[0], 1.0),
        landmark(ids[1], 1.5),
        landmark(ids[2], 0.9),
        landmark(ids[3], 1.0),
    ];
    let set: Vec<(MemoryId, &Landmark)> = ids.iter().copied().zip(ls.iter()).collect();
    let ctx = GateContext { recency: &[ids[2]], lookback: &[ids[0]], observations: 2 };
    let ranked = rank_landmarks(&set, &RecencyWeightedGate::default(), &ctx);
    assert_eq!(
        ranked,
        vec![
            (ids[2], weight(0.9 * 2.0)),
            (ids[1], weight(1.5)),
            (ids[0], weight(1.3)),
            (ids[3], weight(1.0)),
        ]
    );
}

#[test]
fn what_is_not_a_number_ranks_last() {
    let ids: Vec<MemoryId> = (0..4).map(MemoryId::from_u128).collect();
    let ls = [
        landmark(ids[0], f32::NAN),
        landmark(ids[1], f32::NEG_INFINITY),
        landmark(ids[2], -f32::NAN),
        landmark(ids[3], f32::INFINITY),
    ];
    let set: Vec<(MemoryId, &Landmark)> = ids.iter().copied().zip(ls.iter()).collect();
    let ctx = GateContext { recency: &[], lookback: &[], observations: 0 };
    let order: Vec<MemoryId> =
        rank_landmarks(&set, &StaticGate, &ctx).iter().map(|p| p.0).collect();
    assert_eq!(order, vec![ids[3], ids[1], ids[0], ids[2]]);
}

#[test]
fn what_is_not_a_number_stays_in_place_if_there_is_nothing_to_rank() {
    let ids: Vec<MemoryId> = (0..4).map(MemoryId::from_u128).collect();
    let ls = [
        landmark(ids[0], f32::NAN),
        landmark(ids[1], 0.0),
        landmark(ids[2], -f32::NAN),
        landmark(ids[3], -0.0),
    ];
    let set: Vec<(MemoryId, &Landmark)> = ids.iter().copied().zip(ls.iter()).collect();
    let ctx = GateContext { recency: &[], lookback: &[], observations: 0 };
    for n in 0..5 {
        let order: Vec<MemoryId> =
            rank_landmarks(&set[..n], &StaticGate, &ctx).iter().map(|p| p.0).collect();
        assert_eq!(order, ids[..n].to_vec());
    }
}

#[test]
fn equal_scores_keep_their_places() {
    let ids: Vec<MemoryId> = (0..5).rev().map(MemoryId::from_u128).collect();
    let ls: Vec<Landmark> = ids.iter().map(|id| landmark(*id, 1.0)).collect();
    let set: Vec<(MemoryId, &Landmark)> = ids.iter().copied().zip(ls.iter()).collect();
    let ctx = GateContext { recency: &[], lookback: &[], observations: 0 };
    let order: Vec<MemoryId> =
        rank_landmarks(&set, &StaticGate, &ctx).iter().map(|p| p.0).collect();
    assert_eq!(order, ids);
    assert!(rank_landmarks(&[], &StaticGate, &ctx).is_empty());
}
