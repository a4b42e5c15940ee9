//! The attention beam. Composes the three primitives into a single owner
//! that the host feeds with observations and reads candidate sets from.
//!
//! The beam is gravity. Memories that get observed pull their cluster in,
//! and their cluster pulls the beam. The beam emits a deduped, ranked set
//! of memory ids that should be scored on the next recall.

use crate::ident::MemoryId;
use crate::landmarks::{Landmark, LandmarkSet, LandmarkView};
use crate::lookback::{LogStrideLookback, LookbackView};
use crate::recency::RecencyRing;
use crate::salience::{
    snapshot_with_gate, ContextView, GateContext, GateView, InstalledGate, SalienceGate, Socket,
};
use crate::time::Timestamp;
use crate::weight::Weight;
use crate::ObservationEvent;
use std::collections::HashSet;
use vstd::prelude::*;

verus! {

/// Configuration knobs for the beam. Defaults are tuned for a single-board
/// computer with a medium of 10k to 1M memories.
#[derive(Debug, Clone)]
pub struct BeamConfig {
    /// Recency ring capacity. 128 is enough to span a small conversation;
    /// raise to 512 for long-running narrative work.
    pub recency_capacity: usize,
    /// Max landmarks included per beam. Tight = stay-on-topic, wide = let
    /// cross-cluster ideas in. 16 is a reasonable default.
    pub max_landmarks: usize,
    /// Max lookback entries included per beam. Capped because the lookback
    /// can carry up to ~64 ids; we usually only need the top slice.
    pub max_lookback: usize,
    /// Total beam size cap (the K in O(K) recall). Hard ceiling on candidate
    /// set size: even if all three primitives are full, the beam is
    /// truncated to this.
    pub max_beam: usize,
}

impl Default for BeamConfig {
    fn default() -> (r: Self)
        ensures
            r.recency_capacity == 128,
            r.max_landmarks == 16,
            r.max_lookback == 32,
            r.max_beam == 256,
    {
        BeamConfig { recency_capacity: 128, max_landmarks: 16, max_lookback: 32, max_beam: 256 }
    }
}

/// What a beam is worth to its readers.
pub struct BeamView {
    /// The configuration.
    pub config: BeamConfig,
    /// The ids in the recency ring, most recent first.
    pub recency: Seq<MemoryId>,
    /// The lookback.
    pub lookback: LookbackView,
    /// The landmarks, by cluster label.
    pub landmarks: Map<Seq<char>, LandmarkView>,
    /// The installed gate.
    pub gate: Option<GateView>,
    /// How many observations there have been.
    pub observations: u64,
}

/// The elements of `s`, each where it first occurs.
pub open spec fn first_distinct(s: Seq<MemoryId>) -> Seq<MemoryId>
    decreases s.len(),
{
    if s.len() == 0 {
        Seq::empty()
    } else {
        let t = first_distinct(s.drop_last());
        if t.contains(s.last()) {
            t
        } else {
            t.push(s.last())
        }
    }
}

impl BeamView {
    /// A beam that has seen nothing yet.
    pub open spec fn fresh(config: BeamConfig) -> BeamView {
        BeamView {
            config,
            recency: Seq::empty(),
            lookback: LookbackView::fresh(crate::lookback::DEFAULT_BOUNDARIES_SECONDS@, 8),
            landmarks: Map::empty(),
            gate: None,
            observations: 0,
        }
    }

    /// The beam after an observation.
    pub open spec fn observed(self, id: MemoryId, ts: Timestamp, weight: Weight) -> BeamView {
        BeamView {
            recency: crate::recency::pushed(
                self.recency,
                self.config.recency_capacity as nat,
                id,
            ),
            lookback: self.lookback.observed(id, None, ts, weight),
            observations: if self.observations == u64::MAX {
                0
            } else {
                (self.observations + 1) as u64
            },
            ..self
        }
    }

    /// What the beam tells its gate.
    pub open spec fn context(self) -> ContextView {
        ContextView {
            recency: self.recency,
            lookback: self.lookback.ids(),
            observations: self.observations,
        }
    }

    /// The landmarks in the order in which they are considered: ranked by the
    /// gate if there is one, heaviest first otherwise.
    pub open spec fn landmark_order(self) -> Seq<MemoryId> {
        match self.gate {
            Some(g) => crate::salience::salience_order(
                self.landmarks,
                crate::salience::gate_salience(Some(g), self.context()),
            ),
            None => crate::landmarks::weight_order(self.landmarks),
        }
    }

    /// Everything that is considered for the beam, tier by tier.
    pub open spec fn considered(self) -> Seq<MemoryId> {
        self.recency + crate::order::at_most(
            self.lookback.ids(),
            self.config.max_lookback as nat,
        ) + crate::order::at_most(self.landmark_order(), self.config.max_landmarks as nat)
    }

    /// The candidate set: what is considered, each id once, no more than the
    /// budget.
    pub open spec fn candidates(self) -> Seq<MemoryId> {
        crate::order::at_most(first_distinct(self.considered()), self.config.max_beam as nat)
    }

    /// What holds of every beam.
    pub open spec fn wf(self) -> bool {
        &&& self.recency.no_duplicates()
        &&& self.recency.len() <= self.config.recency_capacity
        &&& self.lookback.wf()
        &&& crate::landmarks::landmarks_wf(self.landmarks)
    }
}

/// Snapshot of beam internals for telemetry. Cheap to compute.
#[derive(Debug, Clone, Copy)]
pub struct BeamStats {
    /// Current recency ring population.
    pub recency_len: usize,
    /// Current lookback population (sum across age buckets).
    pub lookback_len: usize,
    /// Current landmark count.
    pub landmarks_len: usize,
    /// Size of the candidate set this cycle.
    pub beam_size: usize,
    /// Total observations ever fed to the beam (wraps).
    pub observations: u64,
}

/// What comes first stays first, whatever follows.
proof fn lemma_first_distinct_prefix(s: Seq<MemoryId>, t: Seq<MemoryId>)
    ensures
        first_distinct(s).len() <= first_distinct(s + t).len(),
        first_distinct(s + t).take(first_distinct(s).len() as int) == first_distinct(s),
    decreases t.len(),
{
    let a = first_distinct(s);
    if t.len() == 0 {
        assert(s + t =~= s);
        assert(a.take(a.len() as int) =~= a);
    } else {
        let u = t.drop_last();
        lemma_first_distinct_prefix(s, u);
        assert((s + t).drop_last() =~= s + u);
        let b = first_distinct(s + u);
        assert(b.push(t.last()).take(a.len() as int) =~= b.take(a.len() as int));
    }
}

/// A beam that is full stays as it is, whatever follows.
proof fn lemma_full(earlier: Seq<MemoryId>, later: Seq<MemoryId>, budget: nat)
    requires
        crate::order::at_most(first_distinct(earlier), budget).len() >= budget,
    ensures
        crate::order::at_most(first_distinct(earlier + later), budget) == crate::order::at_most(
            first_distinct(earlier),
            budget,
        ),
{
    lemma_first_distinct_prefix(earlier, later);
    let (a, b) = (first_distinct(earlier), first_distinct(earlier + later));
    assert(b.take(a.len() as int) == a);
    assert(crate::order::at_most(b, budget) =~= crate::order::at_most(a, budget));
}

/// Take the first `reach` of `ids` into `out`, each once, up to `budget`.
///
/// `reach` bounds the positions inspected, not the ids taken in: an id that
/// is already in spends its slot.
fn take_in(
    out: &mut Vec<MemoryId>,
    seen: &mut HashSet<u128>,
    ids: &Vec<MemoryId>,
    reach: usize,
    budget: usize,
    Ghost(earlier): Ghost<Seq<MemoryId>>,
)
    requires
        old(out)@ == crate::order::at_most(first_distinct(earlier), budget as nat),
        forall|id: MemoryId| #[trigger] old(out)@.contains(id) <==> old(seen)@.contains(id.bits),
    ensures
        final(out)@ == crate::order::at_most(
            first_distinct(earlier + crate::order::at_most(ids@, reach as nat)),
            budget as nat,
        ),
        forall|id: MemoryId| #[trigger]
            final(out)@.contains(id) <==> final(seen)@.contains(id.bits),
{
    broadcast use vstd::std_specs::hash::group_hash_axioms;

    let ghost slots = crate::order::at_most(ids@, reach as nat);
    let mut i: usize = 0;
    assert(earlier + slots.take(0) =~= earlier);
    while i < ids.len() && i < reach
        invariant
            i <= slots.len(),
            slots == crate::order::at_most(ids@, reach as nat),
            out@ == crate::order::at_most(
                first_distinct(earlier + slots.take(i as int)),
                budget as nat,
            ),
            forall|id: MemoryId| #[trigger] out@.contains(id) <==> seen@.contains(id.bits),
        decreases ids.len() - i,
    {
        let ghost head = earlier + slots.take(i as int);
        if out.len() >= budget {
            proof {
                lemma_full(head, slots.skip(i as int), budget as nat);
                assert(head + slots.skip(i as int) =~= earlier + slots);
            }
            return ;
        }
        let id = ids[i];
        assert(out@ == first_distinct(head));
        assert((earlier + slots.take(i + 1)).drop_last() =~= head);
        assert((earlier + slots.take(i + 1)).last() == id);
        let ghost before = out@;
        if seen.insert(id.bits) {
            out.push(id);
            assert forall|x: MemoryId| #[trigger] out@.contains(x) <==> seen@.contains(x.bits) by {
                if before.contains(x) {
                    let k = before.index_of(x);
                    assert(out@[k] == x);
                }
                if x.bits == id.bits {
                    assert(out@[before.len() as int] == x);
                }
                if out@.contains(x) && x.bits != id.bits {
                    let k = out@.index_of(x);
                    assert(before[k] == x);
                }
            }
        } else {
            assert(before.contains(id));
        }
        i = i + 1;
    }
    assert(slots.take(i as int) =~= slots);
}

/// The composed attention beam. One per process. Single-owner (wrap in your
/// own lock if you need multi-producer).
pub struct AttentionBeam {
    config: BeamConfig,
    recency: RecencyRing,
    lookback: LogStrideLookback,
    landmarks: LandmarkSet,
    /// Optional salience gate. When set, ranks landmarks during
    /// `candidates()`. When None, landmarks fall back to weight-sorted.
    gate: Option<Box<dyn InstalledGate>>,
    obs_count: u64,
}

impl View for AttentionBeam {
    type V = BeamView;

    closed spec fn view(&self) -> BeamView {
        BeamView {
            config: self.config,
            recency: self.recency@,
            lookback: self.lookback@,
            landmarks: self.landmarks@,
            gate: match self.gate {
                Some(g) => Some(g.gate()),
                None => None,
            },
            observations: self.obs_count,
        }
    }
}

impl AttentionBeam {
    /// What holds of every beam.
    pub closed spec fn wf(&self) -> bool {
        &&& self.recency.wf()
        &&& self.recency.limit() == self.config.recency_capacity
        &&& self.lookback@.wf()
        &&& self.landmarks.wf()
    }

    /// The parts of a beam are well-formed.
    pub proof fn lemma_wf(&self)
        requires
            self.wf(),
        ensures
            self@.wf(),
    {
        self.landmarks.lemma_wf();
    }

    /// Build with default config.
    pub fn new() -> (r: Self)
        ensures
            r.wf(),
            exists|config: BeamConfig|
                {
                    &&& config.recency_capacity == 128
                    &&& config.max_landmarks == 16
                    &&& config.max_lookback == 32
                    &&& config.max_beam == 256
                    &&& r@ == #[trigger] BeamView::fresh(config)
                },
    {
        Self::with_config(BeamConfig::default())
    }

    /// Build with explicit config.
    pub fn with_config(config: BeamConfig) -> (r: Self)
        ensures
            r.wf(),
            r@ == BeamView::fresh(config),
    {
        let recency = RecencyRing::new(config.recency_capacity);
        AttentionBeam {
            recency,
            lookback: LogStrideLookback::new(),
            landmarks: LandmarkSet::new(),
            gate: None,
            obs_count: 0,
            config,
        }
    }

    /// Install a salience gate. Replaces any previously installed gate.
    ///
    /// Takes a gate of any type, `Box<dyn SalienceGate>` among them.
    pub fn set_gate<G: SalienceGate + ?Sized + 'static>(&mut self, gate: Box<G>)
        requires
            old(self).wf(),
        ensures
            final(self).wf(),
            final(self)@ == (BeamView {
                gate: Some(crate::salience::gate_view(&*gate)),
                ..old(self)@
            }),
    {
        let place: Box<dyn InstalledGate> = Box::new(Socket::new(gate));
        let installed = Some(place);
        self.gate = installed;
    }

    /// Name of the active gate, or "none". Surfaced in stats.
    pub fn gate_name(&self) -> (r: &'static str)
        ensures
            match self@.gate {
                Some(g) => (g.named)(r),
                None => r@ == "none"@,
            },
    {
        match &self.gate {
            Some(g) => g.report(),
            None => "none",
        }
    }

    /// Observe a memory. Pushes into recency + lookback.
    ///
    /// `ev.weight` is honored: it is clamped to the documented
    /// `[0.01, 10.0]` range and accumulated as the memory's standing in the
    /// lookback, so a deliberate reference outranks an ambient mention
    /// rather than counting the same.
    ///
    /// Bucket placement uses `ev.ts`, the event's own timestamp, not wall
    /// clock, so replayed and backdated events land where they belong and
    /// callers can write exact-time fixtures.
    pub fn observe(&mut self, ev: &ObservationEvent)
        requires
            old(self).wf(),
        ensures
            final(self).wf(),
            final(self)@ == old(self)@.observed(ev.memory_id, ev.ts, ev.weight),
    {
        self.recency.push(ev.memory_id);
        self.lookback.observe_weighted(ev.memory_id, ev.ts, ev.weight);
        self.obs_count = self.obs_count.wrapping_add(1);
    }

    /// Convenience: observe by id with the current time and source label.
    pub fn observe_now<S: Into<String>>(&mut self, id: MemoryId, source: S)
        requires
            old(self).wf(),
        ensures
            final(self).wf(),
            exists|ts: Timestamp|
                {
                    &&& crate::time::representable(ts.seconds(), ts.nanoseconds())
                    &&& crate::time::clock_reading(ts)
                    &&& final(self)@ == #[trigger] old(self)@.observed(
                        id,
                        ts,
                        Weight { bits: crate::weight::ONE_BITS },
                    )
                },
    {
        let ev = ObservationEvent::now(id, source);
        self.observe(&ev);
    }

    /// Register/refresh a landmark, so the beam always knows the current
    /// exemplar per cluster.
    pub fn upsert_landmark(&mut self, l: Landmark)
        requires
            old(self).wf(),
        ensures
            final(self).wf(),
            final(self)@ == (BeamView {
                landmarks: crate::landmarks::upserted(old(self)@.landmarks, l@),
                ..old(self)@
            }),
    {
        self.landmarks.upsert(l);
    }

    /// Remove a landmark by cluster label.
    pub fn drop_landmark(&mut self, cluster_label: &str)
        requires
            old(self).wf(),
        ensures
            final(self).wf(),
            final(self)@ == (BeamView {
                landmarks: old(self)@.landmarks.remove(cluster_label@),
                ..old(self)@
            }),
    {
        self.landmarks.remove(cluster_label);
    }

    /// Emit the current candidate set. Deduped, ordered by tier:
    /// 1. Recency (most recent first), always in.
    /// 2. Lookback (newer buckets first).
    /// 3. Landmarks (gate-ranked if a gate is installed, weight-sorted
    ///    otherwise).
    ///
    /// Truncated to `config.max_beam`. Empty if no observation and no
    /// landmark has ever landed.
    pub fn candidates(&self) -> (r: Vec<MemoryId>)
        requires
            self.wf(),
        ensures
            r@ == self@.candidates(),
    {
        let ghost v = self@;
        let ghost nothing = Seq::<MemoryId>::empty();
        let ghost reached = crate::order::at_most(
            v.lookback.ids(),
            v.config.max_lookback as nat,
        );
        let ghost anchors = crate::order::at_most(
            v.landmark_order(),
            v.config.max_landmarks as nat,
        );
        let budget = self.config.max_beam;
        let mut out: Vec<MemoryId> = Vec::new();
        let mut seen: HashSet<u128> = HashSet::new();
        if budget == 0 {
            assert(out@ =~= v.candidates());
            return out;
        }
        let recency_snap = self.recency.snapshot();
        let lookback_snap = self.lookback.snapshot();
        assert(out@ =~= crate::order::at_most(first_distinct(nothing), budget as nat));
        take_in(
            &mut out,
            &mut seen,
            &recency_snap,
            recency_snap.len(),
            budget,
            Ghost(nothing),
        );
        assert(nothing + v.recency =~= v.recency);
        if out.len() >= budget {
            proof {
                lemma_full(v.recency, reached + anchors, budget as nat);
                assert(v.recency + (reached + anchors) =~= v.considered());
            }
            return out;
        }
        take_in(
            &mut out,
            &mut seen,
            &lookback_snap,
            self.config.max_lookback,
            budget,
            Ghost(v.recency),
        );
        if out.len() >= budget {
            proof {
                lemma_full(v.recency + reached, anchors, budget as nat);
            }
            return out;
        }
        // Landmark ordering goes by salience when a gate is installed.
        // Without a gate, fall back to weight-sorted.
        let landmark_order: Vec<MemoryId> = match &self.gate {
            Some(g) => {
                let ctx = GateContext {
                    recency: recency_snap.as_slice(),
                    lookback: lookback_snap.as_slice(),
                    observations: self.obs_count,
                };
                let gate = Some(&**g);
                let ranked = snapshot_with_gate(&self.landmarks, gate, &ctx);
                ranked
            },
            None => self.landmarks.snapshot(),
        };
        take_in(
            &mut out,
            &mut seen,
            &landmark_order,
            self.config.max_landmarks,
            budget,
            Ghost(v.recency + reached),
        );
        out
    }

    /// Stats for instrumentation / observatory display.
    pub fn stats(&self) -> (r: BeamStats)
        requires
            self.wf(),
        ensures
            r.recency_len == self@.recency.len(),
            r.lookback_len == self@.lookback.entries.len(),
            r.landmarks_len == self@.landmarks.len(),
            r.beam_size == self@.candidates().len(),
            r.observations == self@.observations,
    {
        BeamStats {
            recency_len: self.recency.len(),
            lookback_len: self.lookback.len(),
            landmarks_len: self.landmarks.len(),
            beam_size: self.candidates().len(),
            observations: self.obs_count,
        }
    }
}

impl Default for AttentionBeam {
    fn default() -> (r: Self)
        ensures
            r.wf(),
            exists|config: BeamConfig|
                {
                    &&& config.recency_capacity == 128
                    &&& config.max_landmarks == 16
                    &&& config.max_lookback == 32
                    &&& config.max_beam == 256
                    &&& r@ == #[trigger] BeamView::fresh(config)
                },
    {
        Self::new()
    }
}

/// The distinct elements of a sequence are its elements, each once.
pub proof fn law_first_distinct(s: Seq<MemoryId>)
    ensures
        first_distinct(s).no_duplicates(),
        first_distinct(s).len() <= s.len(),
        forall|id: MemoryId| #[trigger] first_distinct(s).contains(id) <==> s.contains(id),
    decreases s.len(),
{
    if s.len() > 0 {
        let (rest, x) = (s.drop_last(), s.last());
        let t = first_distinct(rest);
        let u = first_distinct(s);
        law_first_distinct(rest);
        assert forall|id: MemoryId| #[trigger] u.contains(id) <==> s.contains(id) by {
            assert(s[s.len() - 1] == x);
            if t.contains(id) {
                assert(rest[rest.index_of(id)] == id);
                assert(s[rest.index_of(id)] == id);
                assert(u[t.index_of(id)] == id);
            }
            if s.contains(id) && id != x {
                assert(rest[s.index_of(id)] == id);
                assert(t.contains(id));
            }
            if id == x && !t.contains(x) {
                assert(u[t.len() as int] == x);
            }
            if u.contains(id) && id != x {
                assert(t[u.index_of(id)] == id);
            }
        }
    }
}

/// What names nothing twice is its own distinct elements.
proof fn lemma_first_distinct_fixed(s: Seq<MemoryId>)
    requires
        s.no_duplicates(),
    ensures
        first_distinct(s) == s,
    decreases s.len(),
{
    if s.len() > 0 {
        let rest = s.drop_last();
        lemma_first_distinct_fixed(rest);
        assert(!rest.contains(s.last())) by {
            if rest.contains(s.last()) {
                assert(s[rest.index_of(s.last())] == s[s.len() - 1]);
            }
        }
        assert(s =~= rest.push(s.last()));
    } else {
        assert(first_distinct(s) =~= s);
    }
}

/// A beam names nothing twice and never exceeds its budget.
pub proof fn law_beam_bounded(v: BeamView)
    ensures
        v.candidates().no_duplicates(),
        v.candidates().len() <= v.config.max_beam,
{
    law_first_distinct(v.considered());
}

/// A beam names only what is considered, and as long as it is below its
/// budget it names all of it.
pub proof fn law_beam_complete(v: BeamView, id: MemoryId)
    ensures
        v.candidates().contains(id) ==> v.considered().contains(id),
        v.candidates().len() < v.config.max_beam ==> (v.candidates().contains(id)
            <==> v.considered().contains(id)),
{
    let all = first_distinct(v.considered());
    law_first_distinct(v.considered());
    if v.candidates().contains(id) {
        assert(all[v.candidates().index_of(id)] == id);
        assert(all.contains(id));
    }
}

/// What is considered is what the three tiers hold, as far as the beam
/// reaches into each.
pub proof fn law_considered(v: BeamView, id: MemoryId)
    ensures
        v.considered().contains(id) <==> {
            ||| v.recency.contains(id)
            ||| crate::order::at_most(v.lookback.ids(), v.config.max_lookback as nat).contains(id)
            ||| crate::order::at_most(
                v.landmark_order(),
                v.config.max_landmarks as nat,
            ).contains(id)
        },
{
    let a = v.recency;
    let b = crate::order::at_most(v.lookback.ids(), v.config.max_lookback as nat);
    let c = crate::order::at_most(v.landmark_order(), v.config.max_landmarks as nat);
    let all = v.considered();
    if a.contains(id) {
        assert(all[a.index_of(id)] == id);
    }
    if b.contains(id) {
        assert(all[a.len() + b.index_of(id)] == id);
    }
    if c.contains(id) {
        assert(all[a.len() + b.len() + c.index_of(id)] == id);
    }
    if all.contains(id) {
        let k = all.index_of(id);
        if k < a.len() {
            assert(a[k] == id);
        } else if k < a.len() + b.len() {
            assert(b[k - a.len()] == id);
        } else {
            assert(c[k - a.len() - b.len()] == id);
        }
    }
}

/// The recency tier is always in: the beam starts with the ring, most recent
/// first, as far as the budget goes.
pub proof fn law_recency_first(v: BeamView, i: int)
    requires
        v.wf(),
        0 <= i < v.recency.len(),
        i < v.config.max_beam,
    ensures
        i < v.candidates().len(),
        v.candidates()[i] == v.recency[i],
{
    let rest = crate::order::at_most(v.lookback.ids(), v.config.max_lookback as nat)
        + crate::order::at_most(v.landmark_order(), v.config.max_landmarks as nat);
    let all = first_distinct(v.considered());
    assert(v.considered() =~= v.recency + rest);
    lemma_first_distinct_prefix(v.recency, rest);
    lemma_first_distinct_fixed(v.recency);
    assert(all.take(v.recency.len() as int)[i] == all[i]);
}

/// Whatever was observed last leads the beam, unless the recency tier or the
/// beam is disabled.
pub proof fn law_last_observed_leads(v: BeamView, id: MemoryId, ts: Timestamp, weight: Weight)
    requires
        v.wf(),
        v.config.recency_capacity > 0,
        v.config.max_beam > 0,
    ensures
        v.observed(id, ts, weight).candidates().len() > 0,
        v.observed(id, ts, weight).candidates()[0] == id,
{
    let w = v.observed(id, ts, weight);
    law_observed_wf(v, id, ts, weight);
    crate::recency::law_push_fronts(v.recency, v.config.recency_capacity as nat, id);
    law_recency_first(w, 0);
}

/// Observing keeps a beam well-formed.
pub proof fn law_observed_wf(v: BeamView, id: MemoryId, ts: Timestamp, weight: Weight)
    requires
        v.wf(),
    ensures
        v.observed(id, ts, weight).wf(),
{
    crate::recency::law_push_bounded(v.recency, v.config.recency_capacity as nat, id);
    crate::lookback::law_observed_wf(v.lookback, id, None, ts, weight);
}

/// The tiers keep their rank: of two candidates, the one that is considered
/// first comes first.
pub proof fn law_tier_order(v: BeamView, i: int, j: int)
    requires
        0 <= i < j < v.candidates().len(),
    ensures
        v.considered().contains(v.candidates()[i]),
        v.considered().contains(v.candidates()[j]),
        v.considered().index_of_first(v.candidates()[i])->0 < v.considered().index_of_first(
            v.candidates()[j],
        )->0,
{
    lemma_first_distinct_order(v.considered(), i, j);
    law_first_distinct(v.considered());
    let all = first_distinct(v.considered());
    assert(all[i] == v.candidates()[i]);
    assert(all[j] == v.candidates()[j]);
}

/// Distinct elements stand in the order in which they first occur.
proof fn lemma_first_distinct_order(s: Seq<MemoryId>, i: int, j: int)
    requires
        0 <= i < j < first_distinct(s).len(),
    ensures
        s.contains(first_distinct(s)[i]),
        s.contains(first_distinct(s)[j]),
        s.index_of_first(first_distinct(s)[i])->0 < s.index_of_first(first_distinct(s)[j])->0,
    decreases s.len(),
{
    let (rest, x) = (s.drop_last(), s.last());
    let t = first_distinct(rest);
    let u = first_distinct(s);
    law_first_distinct(s);
    law_first_distinct(rest);
    assert(u.contains(u[i]) && u.contains(u[j]));
    s.index_of_first_ensures(u[i]);
    s.index_of_first_ensures(u[j]);
    assert(t.contains(t[i]));
    rest.index_of_first_ensures(u[i]);
    let a = s.index_of_first(u[i])->0;
    let b = s.index_of_first(u[j])->0;
    let c = rest.index_of_first(u[i])->0;
    assert(rest[c] == s[c]);
    if j < t.len() {
        lemma_first_distinct_order(rest, i, j);
        assert(t.contains(t[j]));
        rest.index_of_first_ensures(u[j]);
        let d = rest.index_of_first(u[j])->0;
        assert(rest[d] == s[d]);
        if a < c {
            assert(rest[a] == s[a]);
        }
        if b < d {
            assert(rest[b] == s[b]);
        }
    } else {
        assert(u[j] == x);
        if b < rest.len() {
            assert(rest[b] == x);
            assert(rest.contains(x));
        }
    }
}

/// A beam that has seen nothing and knows no landmark is empty; so is every
/// beam with a budget of 0.
pub proof fn law_beam_empty(v: BeamView)
    requires
        v.wf(),
    ensures
        v.candidates().len() == 0 <==> v.config.max_beam == 0 || v.considered().len() == 0,
        v.recency.len() == 0 && v.lookback.entries.len() == 0 && v.landmarks.len() == 0
            ==> v.candidates().len() == 0,
{
    law_first_distinct(v.considered());
    if v.considered().len() > 0 {
        assert(v.considered().contains(v.considered()[0]));
        assert(first_distinct(v.considered()).len() > 0);
    }
    crate::lookback::law_snapshot_complete(v.lookback);
    crate::landmarks::law_snapshot_complete(v.landmarks);
    match v.gate {
        Some(g) => {
            crate::salience::law_gate_only_reorders(
                v.landmarks,
                crate::salience::gate_salience(Some(g), v.context()),
            );
        },
        None => {},
    }
}

/// Installing the no-op gate changes no beam.
pub proof fn law_static_gate(v: BeamView, gated: BeamView)
    requires
        v.wf(),
        v.gate is None,
        gated == (BeamView {
            gate: Some(crate::salience::gate_view(&crate::salience::StaticGate)),
            ..v
        }),
    ensures
        gated.candidates() == v.candidates(),
{
    let ctx = gated.context();
    crate::salience::law_static_gate(v.landmarks, ctx);
    assert(crate::salience::gate_salience(gated.gate, ctx) =~= (|l: LandmarkView|
        crate::salience::StaticGate.salience(l, ctx)));
}

/// Whatever the caps of the beam are, its gate is told all that the ring and
/// the lookback hold: every id in the ring in its place, every id that an
/// entry of the lookback has and no other, as the lookback reads them out, and
/// the count of observations.
pub proof fn law_context(v: BeamView, id: MemoryId)
    requires
        v.wf(),
    ensures
        v.context().recency == v.recency,
        v.context().lookback == v.lookback.ids(),
        v.context().lookback.len() == v.lookback.entries.len(),
        v.context().lookback.contains(id) <==> exists|i: int|
            0 <= i < v.lookback.entries.len() && (#[trigger] v.lookback.entries[i]).id == id,
        v.context().observations == v.observations,
{
    crate::lookback::law_snapshot_complete(v.lookback);
}

/// Under a gate, of two landmarks the one that it scores higher, told all that
/// the ring and the lookback hold, is considered first.
pub proof fn law_gated_order<G: SalienceGate>(
    v: BeamView,
    g: G,
    ctx: ContextView,
    a: Seq<char>,
    b: Seq<char>,
)
    requires
        v.wf(),
        v.gate == Some(crate::salience::gate_view(&g)),
        ctx.recency == v.recency,
        ctx.lookback == v.lookback.ids(),
        ctx.observations == v.observations,
        v.landmarks.contains_key(a),
        v.landmarks.contains_key(b),
        !g.salience(v.landmarks[a], ctx).nan(),
        !g.salience(v.landmarks[b], ctx).nan(),
        g.salience(v.landmarks[a], ctx).value() > g.salience(v.landmarks[b], ctx).value(),
    ensures
        v.landmark_order().contains(v.landmarks[a].id),
        v.landmark_order().contains(v.landmarks[b].id),
        v.landmark_order().index_of(v.landmarks[a].id) < v.landmark_order().index_of(
            v.landmarks[b].id,
        ),
{
    assert(ctx == v.context());
    crate::salience::law_salience_order(
        v.landmarks,
        crate::salience::gate_salience(v.gate, v.context()),
        a,
        b,
    );
}

/// Under the recency-weighted gate a landmark that the lookback keeps, however
/// far down, and the ring does not, is scored by the product of its weight and
/// the lookback boost; one in the ring, by that of its weight and the recency
/// boost; any other, by its weight.
pub proof fn law_warmth(v: BeamView, g: crate::salience::RecencyWeightedGate, l: LandmarkView)
    requires
        v.wf(),
    ensures
        v.recency.contains(l.id) ==> crate::weight::is_product(
            l.weight,
            g.recency_boost,
            g.salience(l, v.context()),
        ),
        !v.recency.contains(l.id) && (exists|i: int|
            0 <= i < v.lookback.entries.len() && (#[trigger] v.lookback.entries[i]).id == l.id)
            ==> crate::weight::is_product(
            l.weight,
            g.lookback_boost,
            g.salience(l, v.context()),
        ),
        !v.recency.contains(l.id) && (forall|i: int|
            0 <= i < v.lookback.entries.len() ==> (#[trigger] v.lookback.entries[i]).id != l.id)
            ==> g.salience(l, v.context()) == l.weight,
{
    law_context(v, l.id);
    crate::salience::law_recency_weighted(g, l, v.context());
    let ctx = v.context();
    if ctx.recency.contains(l.id) {
        assert(ctx.recency[ctx.recency.index_of(l.id)] == l.id);
    }
    if ctx.lookback.contains(l.id) {
        assert(ctx.lookback[ctx.lookback.index_of(l.id)] == l.id);
    }
}

/// What an observation does to a beam, and that it does nothing else: the id
/// goes into the ring, the sighting into the lookback for all sources alike,
/// with the time and the weight of the event, and the count goes up by one.
pub proof fn law_observed(v: BeamView, id: MemoryId, ts: Timestamp, weight: Weight)
    ensures
        ({
            let w = v.observed(id, ts, weight);
            &&& w.recency == crate::recency::pushed(
                v.recency,
                v.config.recency_capacity as nat,
                id,
            )
            &&& w.lookback == v.lookback.observed(id, None, ts, weight)
            &&& w.observations == (v.observations + 1) % 0x1_0000_0000_0000_0000
            &&& w.config == v.config
            &&& w.landmarks == v.landmarks
            &&& w.gate == v.gate
        }),
{
}

/// The tiers, place by place: first the ring, then the lookback as far as the
/// beam reaches into it, then the landmarks as far as it reaches into them.
pub proof fn law_tiers(v: BeamView, i: int)
    ensures
        ({
            let (a, b, c) = (v.recency, v.lookback.ids(), v.landmark_order());
            let n: int = if b.len() < v.config.max_lookback {
                b.len() as int
            } else {
                v.config.max_lookback as int
            };
            let k: int = if c.len() < v.config.max_landmarks {
                c.len() as int
            } else {
                v.config.max_landmarks as int
            };
            &&& v.considered().len() == a.len() + n + k
            &&& 0 <= i < v.considered().len() ==> v.considered()[i] == if i < a.len() {
                a[i]
            } else if i < a.len() + n {
                b[i - a.len()]
            } else {
                c[i - a.len() - n]
            }
        }),
{
}

/// Nothing is passed over: whatever is considered before a candidate is a
/// candidate too, and a beam that is below its budget names everything.
pub proof fn law_nothing_passed_over(v: BeamView, i: int, k: int)
    requires
        0 <= k < v.candidates().len(),
        0 <= i < v.considered().len(),
        i < v.considered().index_of_first(v.candidates()[k])->0 || v.candidates().len()
            < v.config.max_beam,
    ensures
        v.candidates().contains(v.considered()[i]),
{
    let s = v.considered();
    let all = first_distinct(s);
    let x = s[i];
    law_first_distinct(s);
    assert(s.contains(x));
    assert(all.contains(x));
    let j = all.index_of(x);
    if j < v.candidates().len() {
        assert(v.candidates()[j] == x);
    } else {
        assert(all[k] == v.candidates()[k]);
        lemma_first_distinct_order(s, k, j);
        s.index_of_first_ensures(x);
        let first = s.index_of_first(x)->0;
        assert(first <= i);
    }
}

/// A new beam is configured as it was asked to be and holds nothing: not an
/// id, not a landmark, not a gate.
pub proof fn law_fresh(config: BeamConfig)
    ensures
        BeamView::fresh(config).config == config,
        BeamView::fresh(config).recency.len() == 0,
        BeamView::fresh(config).lookback.entries.len() == 0,
        BeamView::fresh(config).lookback.clock is None,
        BeamView::fresh(config).lookback.cap == 8,
        BeamView::fresh(config).lookback.boundaries.len() == 7,
        BeamView::fresh(config).landmarks.len() == 0,
        BeamView::fresh(config).gate is None,
        BeamView::fresh(config).observations == 0,
        BeamView::fresh(config).candidates().len() == 0,
        BeamView::fresh(config).wf(),
{
    let v = BeamView::fresh(config);
    assert(v.lookback.trimmed() == v.lookback);
    assert(v.wf());
    law_beam_empty(v);
}

/// Without a gate, of two landmarks the one worth more is considered first;
/// of the same weight, the one whose label stands first.
pub proof fn law_ungated_order(v: BeamView, a: Seq<char>, b: Seq<char>)
    requires
        v.wf(),
        v.gate is None,
        v.landmarks.contains_key(a),
        v.landmarks.contains_key(b),
        v.landmarks[a].weight.value() > v.landmarks[b].weight.value() || (
        v.landmarks[a].weight == v.landmarks[b].weight && a != b && crate::text::text_leq(a, b)),
    ensures
        v.landmark_order().contains(v.landmarks[a].id),
        v.landmark_order().contains(v.landmarks[b].id),
        v.landmark_order().index_of(v.landmarks[a].id) < v.landmark_order().index_of(
            v.landmarks[b].id,
        ),
{
    crate::landmarks::law_heavier_first(v.landmarks, a, b);
}

/// Outside of leap seconds, a memory observed at a reading of the clock that is
/// later than all that the beam has seen, and kept, is the first that the
/// lookback names: it is seen at that reading, not before.
pub proof fn law_observed_now(
    v: BeamView,
    id: MemoryId,
    reading: Timestamp,
    weight: Weight,
    f: crate::lookback::EntryView,
)
    requires
        v.wf(),
        v.lookback.clock matches Some(c) ==> c.before(reading),
        reading.nanoseconds() < 1_000_000_000,
        forall|i: int|
            0 <= i < v.lookback.entries.len() ==> (
            #[trigger] v.lookback.entries[i]).last_seen.nanoseconds() < 1_000_000_000,
        v.observed(id, reading, weight).lookback.entries.contains(f),
        f.matches(id, None),
    ensures
        v.observed(id, reading, weight).lookback.clock == Some(reading),
        v.observed(id, reading, weight).lookback.ids().len() > 0,
        v.observed(id, reading, weight).lookback.ids()[0] == id,
{
    crate::lookback::law_clock_moves_forward(v.lookback, id, None, reading, weight);
    crate::lookback::law_newest_leads(v.lookback, id, None, reading, weight, f);
}

} // verus!
