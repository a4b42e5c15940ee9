//! Attention-as-gravity over a memory medium.
//!
//! This crate is the sparse-attention layer between the sensors (eye, ear)
//! and the medium. It produces an **attention beam**: a small set of memory
//! ids that should be scored on the next recall, derived from three sources:
//!
//! 1. **Recency ring** (local window): a FIFO of the last N observed memory
//!    ids. This is the "what's hot right now" channel.
//! 2. **Log-stride snapshots** (hierarchical lookback): representatives at
//!    exponentially spaced ages (1m, 5m, 30m, 3h, 1d, 7d, 30d). Memory holds
//!    onto a sparse summary of its past.
//! 3. **Landmarks** (block summaries): cluster exemplars supplied by the host
//!    medium. These are the "everything-feeds-through-here" attractors, and
//!    an optional **salience gate** ranks them.
//!
//! The output is a deduped beam of <= K memory ids. The host scores only that
//! subset: O(K) instead of O(N), independent of medium size.
//!
//! # Threading model
//!
//! The beam is single-owner. The sensors publish observations into it from
//! one place. Recall consumers borrow the current beam immutably. If
//! multi-producer is needed, wrap [`AttentionBeam`] in your own lock: this
//! crate does not assume a concurrency primitive.

use vstd::prelude::*;

pub mod beam;
pub mod ident;
pub mod landmarks;
pub mod lookback;
pub mod order;
pub mod recency;
pub mod salience;
pub mod text;
pub mod time;
pub mod weight;

pub use beam::{AttentionBeam, BeamConfig};
pub use ident::MemoryId;
pub use landmarks::LandmarkSet;
pub use lookback::LogStrideLookback;
pub use recency::RecencyRing;
pub use time::Timestamp;
pub use weight::Weight;

verus! {

/// An attention event from a sensor (eye, ear, recall, dream, etc.). Drives
/// gravity in the beam: repeated events on the same memory pull harder.
#[derive(Debug, Clone)]
pub struct ObservationEvent {
    /// The memory this event is about (must already exist in the medium).
    pub memory_id: MemoryId,
    /// Where the event came from. Free-form so new senses can join without an
    /// enum bump; canonical values: "eye:left", "eye:right", "ear", "recall",
    /// "dream", "swarm".
    pub source: String,
    /// Strength multiplier. 1.0 = a normal observation. Higher = a deliberate
    /// signal (e.g. user explicitly references a memory). Lower than 1 = a
    /// background ambient mention. Clamped to [0.01, 10.0] in the beam.
    pub weight: Weight,
    /// Wall-clock time of the event. The beam uses this for log-stride
    /// bucketing; the current time is the common case.
    pub ts: Timestamp,
}

impl ObservationEvent {
    /// Build a normal observation, weight = 1.0, made at a given time.
    pub fn at(memory_id: MemoryId, source: String, ts: Timestamp) -> (r: Self)
        ensures
            r.memory_id == memory_id,
            r.source == source,
            r.weight.bits == weight::ONE_BITS,
            r.ts == ts,
    {
        ObservationEvent { memory_id, source, weight: Weight::from_bits(weight::ONE_BITS), ts }
    }

    /// Build an event from the common case: a memory id + a source label.
    /// Uses the current time for the timestamp and weight = 1.0.
    pub fn now<S: Into<String>>(memory_id: MemoryId, source: S) -> (r: Self)
        ensures
            r.memory_id == memory_id,
            call_ensures(S::into, (source,), r.source),
            r.weight.bits == weight::ONE_BITS,
            time::representable(r.ts.seconds(), r.ts.nanoseconds()),
            time::clock_reading(r.ts),
    {
        let ts = Timestamp::now();
        proof {
            time::law_clock_reading(ts);
        }
        Self::at(memory_id, source.into(), ts)
    }
}

} // verus!
