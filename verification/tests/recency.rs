use kannaka_attention::{MemoryId, RecencyRing};
use uuid::Uuid;

fn fresh() -> MemoryId {
    MemoryId::from_u128(Uuid::new_v4().as_u128())
}

fn id(n: u128) -> MemoryId {
    MemoryId::from_u128(n)
}

#[test]
fn push_and_snapshot_are_most_recent_first() {
    let mut r = RecencyRing::new(4);
    let a = fresh();
    let b = fresh();
    let c = fresh();
    r.push(a);
    r.push(b);
    r.push(c);
    assert_eq!(r.snapshot(), vec![c, b, a]);
}

#[test]
fn dedup_moves_to_front_without_growing() {
    let mut r = RecencyRing::new(3);
    let a = fresh();
    let b = fresh();
    r.push(a);
    r.push(b);
    r.push(a);
    assert_eq!(r.len(), 2);
    assert_eq!(r.snapshot(), vec![a, b]);
}

#[test]
fn zero_capacity_disables_the_tier() {
    let mut r = RecencyRing::new(0);
    r.push(fresh());
    r.push(fresh());
    assert_eq!(r.len(), 0);
    assert!(r.snapshot().is_empty());
    assert_eq!(r.capacity(), 0);
}

#[test]
fn capacity_evicts_oldest() {
    let mut r = RecencyRing::new(2);
    let a = fresh();
    let b = fresh();
    let c = fresh();
    r.push(a);
    r.push(b);
    r.push(c);
    assert_eq!(r.snapshot(), vec![c, b]);
}

#[test]
fn a_new_ring_is_empty() {
    let r = RecencyRing::new(3);
    assert!(r.is_empty());
    assert_eq!(r.len(), 0);
    assert_eq!(r.capacity(), 3);
    assert!(r.snapshot().is_empty());
}

#[test]
fn pushing_twice_is_pushing_once() {
    let mut once = RecencyRing::new(3);
    let mut twice = RecencyRing::new(3);
    for n in [1, 2, 3, 4] {
        once.push(id(n));
        twice.push(id(n));
        twice.push(id(n));
    }
    assert_eq!(once.snapshot(), twice.snapshot());
    assert_eq!(once.snapshot(), vec![id(4), id(3), id(2)]);
    assert!(!once.is_empty());
}

#[test]
fn a_known_id_in_a_full_ring_pushes_nothing_out() {
    let mut r = RecencyRing::new(3);
    for n in [1, 2, 3, 1] {
        r.push(id(n));
    }
    assert_eq!(r.snapshot(), vec![id(1), id(3), id(2)]);
}

#[test]
fn the_ring_is_the_recent_end_of_the_history() {
    let history: Vec<u128> = vec![1, 2, 3, 2, 5, 1, 4, 4, 2];
    let mut recent: Vec<MemoryId> = Vec::new();
    for n in history.iter().rev() {
        if !recent.contains(&id(*n)) {
            recent.push(id(*n));
        }
    }
    for capacity in 0..7usize {
        let mut r = RecencyRing::new(capacity);
        for n in &history {
            r.push(id(*n));
        }
        let expected: Vec<MemoryId> = recent.iter().copied().take(capacity).collect();
        assert_eq!(r.snapshot(), expected);
    }
}

#[test]
fn a_capacity_beyond_memory_is_only_a_limit() {
    let mut r = RecencyRing::new(usize::MAX);
    r.push(id(1));
    assert_eq!(r.snapshot(), vec![id(1)]);
    assert_eq!(r.capacity(), usize::MAX);
}
