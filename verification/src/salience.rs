//! Salience gate: re-orders the landmarks before they enter the beam.
//!
//! Given the current beam state (recency + lookback) and a candidate
//! landmark, a gate emits a salience that ranks the landmark. Two gates come
//! with the beam:
//!
//! - [`StaticGate`] uses only the weight of the landmark.
//! - [`RecencyWeightedGate`] boosts landmarks whose id appears in the recency
//!   ring or in the lookback: a cluster whose exemplar was *just* observed
//!   should outrank one whose exemplar hasn't moved in weeks.

use crate::ident::MemoryId;
use crate::landmarks::{ByWeight, Landmark, LandmarkSet, LandmarkView};
use crate::order::Ranking;
use crate::weight::Weight;
use vstd::prelude::*;

verus! {

/// The encoding of the default boost for a landmark in the recency ring, 2.0.
pub const DEFAULT_RECENCY_BOOST: u32 = 0x4000_0000;

/// The encoding of the default boost for a landmark in the lookback, 1.3.
pub const DEFAULT_LOOKBACK_BOOST: u32 = 0x3fa6_6666;

/// Context the beam hands a gate when scoring a landmark.
#[derive(Debug, Clone)]
pub struct GateContext<'a> {
    /// Memory ids currently in the recency ring (most recent first).
    pub recency: &'a [MemoryId],
    /// Memory ids currently in the log-stride lookback (any age).
    pub lookback: &'a [MemoryId],
    /// Total observations the beam has processed (monotonic).
    pub observations: u64,
}

/// What a gate is told of the beam.
pub struct ContextView {
    /// Memory ids in the recency ring, most recent first.
    pub recency: Seq<MemoryId>,
    /// Memory ids in the lookback.
    pub lookback: Seq<MemoryId>,
    /// Observations that the beam has processed.
    pub observations: u64,
}

impl<'a> View for GateContext<'a> {
    type V = ContextView;

    open spec fn view(&self) -> ContextView {
        ContextView {
            recency: self.recency@,
            lookback: self.lookback@,
            observations: self.observations,
        }
    }
}

/// A scoring function over landmarks. Implementations must be pure: the beam
/// may call `score` many times per snapshot and expects the same result from
/// the same landmark and context, which [`salience`](SalienceGate::salience)
/// stands for.
pub trait SalienceGate: Send + Sync {
    /// The score of a landmark in a context.
    open spec fn salience(&self, landmark: LandmarkView, ctx: ContextView) -> Weight {
        landmark.weight
    }

    /// Return the salience score for `landmark` given the current beam
    /// context. Higher = include first / weight more heavily.
    fn score(&self, landmark: &Landmark, ctx: &GateContext<'_>) -> (r: Weight)
        ensures
            r == self.salience(landmark@, ctx@),
    ;

    /// Optional name for telemetry / observatory display.
    fn name(&self) -> (r: &'static str)
        default_ensures
            r@ == "unnamed"@,
    {
        "unnamed"
    }
}

/// What a gate is worth to the beam.
#[verifier::ext_equal]
pub struct GateView {
    /// The score of a landmark in a context.
    pub salience: spec_fn(LandmarkView, ContextView) -> Weight,
    /// True of the names by which it may go.
    pub named: spec_fn(&'static str) -> bool,
}

/// What a gate `g` is worth to the beam: it scores as `g` does, and goes by
/// what `g` gives as its name.
pub open spec fn gate_view<G: SalienceGate + ?Sized>(g: &G) -> GateView {
    GateView {
        salience: |l: LandmarkView, ctx: ContextView| g.salience(l, ctx),
        named: |r: &'static str| call_ensures(G::name, (g,), r),
    }
}

/// A gate in its place in the beam, of whatever type it is.
pub trait InstalledGate: Send + Sync {
    /// What this gate is worth to the beam.
    spec fn gate(&self) -> GateView;

    /// Ask it for the score of a landmark.
    fn ask(&self, landmark: &Landmark, ctx: &GateContext<'_>) -> (r: Weight)
        ensures
            r == (self.gate().salience)(landmark@, ctx@),
    ;

    /// Ask it for its name.
    fn report(&self) -> (r: &'static str)
        ensures
            (self.gate().named)(r),
    ;
}

/// The place in the beam for a gate of one type.
pub(crate) struct Socket<G: SalienceGate + ?Sized> {
    gate: Box<G>,
}

impl<G: SalienceGate + ?Sized> Socket<G> {
    /// Put a gate in its place.
    pub(crate) fn new(gate: Box<G>) -> (r: Self)
        ensures
            r.gate() == gate_view(&*gate),
    {
        Socket { gate }
    }
}

impl<G: SalienceGate + ?Sized> InstalledGate for Socket<G> {
    closed spec fn gate(&self) -> GateView {
        gate_view(&*self.gate)
    }

    fn ask(&self, landmark: &Landmark, ctx: &GateContext<'_>) -> Weight {
        self.gate.score(landmark, ctx)
    }

    fn report(&self) -> &'static str {
        self.gate.name()
    }
}

/// The no-op gate. Returns the weight of the landmark unchanged.
#[derive(Debug, Clone)]
pub struct StaticGate;

impl Default for StaticGate {
    fn default() -> (r: Self)
        ensures
            r == StaticGate,
    {
        StaticGate
    }
}

impl SalienceGate for StaticGate {
    open spec fn salience(&self, landmark: LandmarkView, ctx: ContextView) -> Weight {
        landmark.weight
    }

    fn score(&self, landmark: &Landmark, _ctx: &GateContext<'_>) -> Weight {
        landmark.weight
    }

    fn name(&self) -> (r: &'static str)
        ensures
            r@ == "static"@,
    {
        "static"
    }
}

/// Recency-weighted gate. A landmark whose exemplar id is currently in the
/// recency ring gets a `recency_boost` multiplier; a landmark whose id is in
/// the lookback (but not recency) gets a smaller boost; cold landmarks get
/// their weight as it is.
#[derive(Debug, Clone)]
pub struct RecencyWeightedGate {
    /// Multiplier applied when the landmark's id is in the recency ring.
    /// Default 2.0.
    pub recency_boost: Weight,
    /// Multiplier applied when the landmark's id is in the lookback but not
    /// in the recency ring. Default 1.3.
    pub lookback_boost: Weight,
}

impl Default for RecencyWeightedGate {
    fn default() -> (r: Self)
        ensures
            r.recency_boost.bits == DEFAULT_RECENCY_BOOST,
            r.lookback_boost.bits == DEFAULT_LOOKBACK_BOOST,
    {
        RecencyWeightedGate {
            recency_boost: Weight::from_bits(DEFAULT_RECENCY_BOOST),
            lookback_boost: Weight::from_bits(DEFAULT_LOOKBACK_BOOST),
        }
    }
}

/// True if `id` is one of `ids`.
fn holds(ids: &[MemoryId], id: MemoryId) -> (r: bool)
    ensures
        r == ids@.contains(id),
{
    let mut i: usize = 0;
    while i < ids.len()
        invariant
            i <= ids.len(),
            forall|k: int| 0 <= k < i ==> ids@[k] != id,
        decreases ids.len() - i,
    {
        if ids[i] == id {
            assert(ids@[i as int] == id);
            return true;
        }
        i = i + 1;
    }
    false
}

impl SalienceGate for RecencyWeightedGate {
    open spec fn salience(&self, landmark: LandmarkView, ctx: ContextView) -> Weight {
        if ctx.recency.contains(landmark.id) {
            crate::weight::product(landmark.weight, self.recency_boost)
        } else if ctx.lookback.contains(landmark.id) {
            crate::weight::product(landmark.weight, self.lookback_boost)
        } else {
            landmark.weight
        }
    }

    fn score(&self, landmark: &Landmark, ctx: &GateContext<'_>) -> Weight {
        // Small N (typically 128), a linear scan is fine.
        if holds(ctx.recency, landmark.id) {
            return landmark.weight.times(self.recency_boost);
        }
        if holds(ctx.lookback, landmark.id) {
            return landmark.weight.times(self.lookback_boost);
        }
        landmark.weight
    }

    fn name(&self) -> (r: &'static str)
        ensures
            r@ == "recency-weighted"@,
    {
        "recency-weighted"
    }
}

/// A score that leads another: worth at least as much. What is not a number
/// is behind every number.
pub open spec fn score_leads(a: Weight, b: Weight) -> bool {
    b.nan() || (!a.nan() && a.value() >= b.value())
}

/// Highest score first.
pub open spec fn by_score() -> spec_fn((MemoryId, Weight), (MemoryId, Weight)) -> bool {
    |a: (MemoryId, Weight), b: (MemoryId, Weight)| score_leads(a.1, b.1)
}

/// True if no two of the scores differ as numbers.
pub open spec fn level(pairs: Seq<(MemoryId, Weight)>) -> bool {
    forall|i: int, j: int|
        #![trigger pairs[i], pairs[j]]
        0 <= i < pairs.len() && 0 <= j < pairs.len() && !pairs[i].1.nan() && !pairs[j].1.nan()
            ==> pairs[i].1.value() == pairs[j].1.value()
}

/// Scored ids, highest score first. What ties stays in place: a score that is
/// not a number ties with every other as long as there is nothing to rank,
/// and is behind them all otherwise.
pub open spec fn best_first(pairs: Seq<(MemoryId, Weight)>) -> Seq<(MemoryId, Weight)> {
    if level(pairs) {
        pairs
    } else {
        crate::order::ranked(pairs, by_score())
    }
}

/// The landmarks of `m` with their salience, heaviest first, ties by
/// ascending label.
pub open spec fn scores(
    m: Map<Seq<char>, LandmarkView>,
    salience: spec_fn(LandmarkView) -> Weight,
) -> Seq<(MemoryId, Weight)> {
    crate::landmarks::heaviest_first(m).map_values(|l: LandmarkView| (l.id, salience(l)))
}

/// The ids of the landmarks of `m`: highest salience first, ties as they
/// stand without a gate.
pub open spec fn salience_order(
    m: Map<Seq<char>, LandmarkView>,
    salience: spec_fn(LandmarkView) -> Weight,
) -> Seq<MemoryId> {
    best_first(scores(m, salience)).map_values(|p: (MemoryId, Weight)| p.0)
}

/// The salience that an optional gate gives: without a gate, the weight.
pub open spec fn gate_salience(gate: Option<GateView>, ctx: ContextView) -> spec_fn(
    LandmarkView,
) -> Weight {
    |l: LandmarkView|
        match gate {
            Some(g) => (g.salience)(l, ctx),
            None => l.weight,
        }
}

/// What an optional gate is worth to the beam.
pub open spec fn optional_gate(gate: Option<&dyn InstalledGate>) -> Option<GateView> {
    match gate {
        Some(g) => Some(g.gate()),
        None => None,
    }
}

/// An id with its score.
struct Scored {
    id: MemoryId,
    score: Weight,
}

impl View for Scored {
    type V = (MemoryId, Weight);

    closed spec fn view(&self) -> (MemoryId, Weight) {
        (self.id, self.score)
    }
}

/// Highest score first.
struct ByScore;

impl Ranking for ByScore {
    type Item = Scored;

    open spec fn leads(&self, a: (MemoryId, Weight), b: (MemoryId, Weight)) -> bool {
        score_leads(a.1, b.1)
    }

    proof fn lemma_total(&self) {
    }

    fn may_lead(&self, a: &Scored, b: &Scored) -> bool {
        b.score.is_nan() || (!a.score.is_nan() && !a.score.less_than(b.score))
    }
}

/// True if no two of the scores differ as numbers.
fn are_level(scored: &Vec<Scored>) -> (r: bool)
    ensures
        r == level(scored@.map_values(|s: Scored| s@)),
{
    let ghost pairs = scored@.map_values(|s: Scored| s@);
    let mut first: usize = 0;
    while first < scored.len() && scored[first].score.is_nan()
        invariant
            first <= scored.len(),
            pairs == scored@.map_values(|s: Scored| s@),
            forall|k: int| 0 <= k < first ==> (#[trigger] pairs[k]).1.nan(),
        decreases scored.len() - first,
    {
        assert(pairs[first as int].1 == scored[first as int].score);
        first = first + 1;
    }
    let mut i: usize = first;
    while i < scored.len()
        invariant
            first <= i <= scored.len(),
            pairs == scored@.map_values(|s: Scored| s@),
            first < scored.len() ==> !pairs[first as int].1.nan(),
            forall|k: int|
                0 <= k < i ==> (#[trigger] pairs[k]).1.nan() || pairs[k].1.value()
                    == pairs[first as int].1.value(),
        decreases scored.len() - i,
    {
        let (a, b) = (scored[first].score, scored[i].score);
        assert(pairs[first as int].1 == a && pairs[i as int].1 == b);
        if !b.is_nan() && (a.less_than(b) || b.less_than(a)) {
            return false;
        }
        i = i + 1;
    }
    true
}

/// Sort scored ids, highest score first.
fn rank_scores(scored: &Vec<Scored>) -> (r: Vec<(MemoryId, Weight)>)
    ensures
        r@ == best_first(scored@.map_values(|s: Scored| s@)),
{
    let ghost pairs = scored@.map_values(|s: Scored| s@);
    let mut refs: Vec<&Scored> = Vec::new();
    let mut i: usize = 0;
    while i < scored.len()
        invariant
            i <= scored.len(),
            pairs == scored@.map_values(|s: Scored| s@),
            crate::order::views(refs@) == pairs.take(i as int),
        decreases scored.len() - i,
    {
        let ghost before = refs@;
        refs.push(&scored[i]);
        assert(crate::order::views(refs@) =~= crate::order::views(before).push(pairs[i as int]));
        i = i + 1;
        assert(crate::order::views(refs@) =~= pairs.take(i as int));
    }
    assert(pairs.take(i as int) =~= pairs);
    let sorted = if are_level(scored) {
        refs
    } else {
        crate::order::rank(&ByScore, refs)
    };
    assert((|a: (MemoryId, Weight), b: (MemoryId, Weight)| (&ByScore).leads(a, b)) =~= by_score());
    let ghost all = crate::order::views(sorted@);
    let mut out: Vec<(MemoryId, Weight)> = Vec::new();
    let mut j: usize = 0;
    while j < sorted.len()
        invariant
            j <= sorted.len(),
            all == crate::order::views(sorted@),
            out@ == all.take(j as int),
        decreases sorted.len() - j,
    {
        assert(sorted[j as int]@ == all[j as int]);
        out.push((sorted[j].id, sorted[j].score));
        j = j + 1;
        assert(out@ =~= all.take(j as int));
    }
    assert(all.take(j as int) =~= all);
    out
}

/// Score every landmark in `set` using `gate` against `ctx`, returning
/// (id, score) sorted descending by score. Helper for callers that want to
/// rank a snapshot once.
pub fn rank_landmarks(
    set: &[(MemoryId, &Landmark)],
    gate: &dyn SalienceGate,
    ctx: &GateContext<'_>,
) -> (r: Vec<(MemoryId, Weight)>)
    ensures
        r@ == best_first(
            set@.map_values(
                |p: (MemoryId, &Landmark)| (p.0, gate.salience(p.1@, ctx@)),
            ),
        ),
{
    let ghost pairs = set@.map_values(
        |p: (MemoryId, &Landmark)| (p.0, gate.salience(p.1@, ctx@)),
    );
    let mut scored: Vec<Scored> = Vec::new();
    let mut i: usize = 0;
    while i < set.len()
        invariant
            i <= set.len(),
            pairs == set@.map_values(
                |p: (MemoryId, &Landmark)| (p.0, gate.salience(p.1@, ctx@)),
            ),
            scored@.map_values(|s: Scored| s@) == pairs.take(i as int),
        decreases set.len() - i,
    {
        let ghost before = scored@;
        let (id, landmark) = set[i];
        scored.push(Scored { id, score: gate.score(landmark, ctx) });
        assert(scored@.map_values(|s: Scored| s@) =~= before.map_values(|s: Scored| s@).push(
            pairs[i as int],
        ));
        i = i + 1;
        assert(scored@.map_values(|s: Scored| s@) =~= pairs.take(i as int));
    }
    assert(pairs.take(i as int) =~= pairs);
    rank_scores(&scored)
}

/// Ids of the landmarks of a set, ranked by an optional gate. Equal scores
/// stay in the order that the landmarks have without a gate.
pub(crate) fn snapshot_with_gate(
    set: &LandmarkSet,
    gate: Option<&dyn InstalledGate>,
    ctx: &GateContext<'_>,
) -> (r: Vec<MemoryId>)
    requires
        set.wf(),
    ensures
        r@ == salience_order(set@, gate_salience(optional_gate(gate), ctx@)),
{
    proof {
        set.lemma_wf();
    }
    let ghost salience = gate_salience(optional_gate(gate), ctx@);
    let ghost heaviest = crate::landmarks::heaviest_first(set@);
    let ghost pairs = scores(set@, salience);
    let refs = crate::order::rank(&ByWeight, set.refs());
    assert((|a: LandmarkView, b: LandmarkView| (&ByWeight).leads(a, b))
        =~= crate::landmarks::by_weight());
    let mut scored: Vec<Scored> = Vec::new();
    let mut i: usize = 0;
    while i < refs.len()
        invariant
            i <= refs.len(),
            salience == gate_salience(optional_gate(gate), ctx@),
            crate::order::views(refs@) == heaviest,
            pairs == heaviest.map_values(|l: LandmarkView| (l.id, salience(l))),
            scored@.map_values(|s: Scored| s@) == pairs.take(i as int),
        decreases refs.len() - i,
    {
        let ghost before = scored@;
        let landmark = refs[i];
        assert(landmark@ == heaviest[i as int]);
        let score = match gate {
            Some(g) => g.ask(landmark, ctx),
            None => landmark.weight,
        };
        scored.push(Scored { id: landmark.id, score });
        assert(scored@.map_values(|s: Scored| s@) =~= before.map_values(|s: Scored| s@).push(
            pairs[i as int],
        ));
        i = i + 1;
        assert(scored@.map_values(|s: Scored| s@) =~= pairs.take(i as int));
    }
    assert(pairs.take(i as int) =~= pairs);
    let ranking = rank_scores(&scored);
    let ghost id_of = |p: (MemoryId, Weight)| p.0;
    let mut out: Vec<MemoryId> = Vec::new();
    let mut j: usize = 0;
    while j < ranking.len()
        invariant
            j <= ranking.len(),
            id_of == (|p: (MemoryId, Weight)| p.0),
            out@ == ranking@.map_values(id_of).take(j as int),
        decreases ranking.len() - j,
    {
        out.push(ranking[j].0);
        j = j + 1;
        assert(out@ =~= ranking@.map_values(id_of).take(j as int));
    }
    assert(ranking@.map_values(id_of).take(j as int) =~= ranking@.map_values(id_of));
    out
}

/// The order by score is a total preorder.
proof fn lemma_score_order()
    ensures
        crate::order::total_preorder(by_score()),
{
}

/// A ranking of scored ids holds exactly what was scored, highest number
/// first; if there are numbers to rank, what is not a number comes last.
pub proof fn law_best_first(pairs: Seq<(MemoryId, Weight)>, i: int, j: int)
    requires
        0 <= i < j < pairs.len(),
    ensures
        best_first(pairs).to_multiset() == pairs.to_multiset(),
        best_first(pairs).len() == pairs.len(),
        !best_first(pairs)[i].1.nan() && !best_first(pairs)[j].1.nan() ==> best_first(
            pairs,
        )[i].1.value() >= best_first(pairs)[j].1.value(),
        !level(pairs) ==> score_leads(best_first(pairs)[i].1, best_first(pairs)[j].1),
        !level(pairs) && best_first(pairs)[i].1.nan() ==> best_first(pairs)[j].1.nan(),
{
    lemma_score_order();
    crate::order::lemma_ranked_rearranges(pairs, by_score());
    crate::order::lemma_ranked_sorted(pairs, by_score());
    let r = crate::order::ranked(pairs, by_score());
    assert(by_score()(r[i], r[j]));
}

/// As long as every score is a number, ties or not, the order is the stable
/// one by score.
proof fn lemma_best_first(pairs: Seq<(MemoryId, Weight)>)
    requires
        forall|i: int| 0 <= i < pairs.len() ==> !(#[trigger] pairs[i]).1.nan(),
    ensures
        best_first(pairs) == crate::order::ranked(pairs, by_score()),
{
    lemma_score_order();
    if level(pairs) {
        assert forall|i: int, j: int| 0 <= i < j < pairs.len() implies #[trigger] by_score()(
            pairs[i],
            pairs[j],
        ) by {}
        crate::order::lemma_ranked_fixed(pairs, by_score());
    }
}

/// Whatever gate there is, ranking the landmarks names every exemplar once, and
/// nothing else: a gate can reorder the landmarks but not lose one.
pub proof fn law_gate_only_reorders(
    m: Map<Seq<char>, LandmarkView>,
    salience: spec_fn(LandmarkView) -> Weight,
)
    requires
        crate::landmarks::landmarks_wf(m),
    ensures
        salience_order(m, salience).len() == m.len(),
        salience_order(m, salience).no_duplicates(),
        forall|id: MemoryId| #[trigger]
            salience_order(m, salience).contains(id)
                <==> crate::landmarks::weight_order(m).contains(id),
{
    broadcast use vstd::seq_lib::group_to_multiset_ensures;

    let ids = crate::landmarks::weight_order(m);
    let pairs = scores(m, salience);
    let r = best_first(pairs);
    let p = crate::order::ranking(pairs, by_score());
    let order = salience_order(m, salience);
    crate::landmarks::law_snapshot_complete(m);
    lemma_score_order();
    crate::order::lemma_ranked_rearranges(pairs, by_score());
    assert forall|i: int| 0 <= i < pairs.len() implies (#[trigger] pairs[i]).0 == ids[i] by {}
    assert forall|i: int, j: int| 0 <= i < r.len() && 0 <= j < r.len() && i != j implies order[i]
        != order[j] by {
        let (a, b) = if i < j {
            (i, j)
        } else {
            (j, i)
        };
        if level(pairs) {
            assert(ids[a] != ids[b]);
        } else {
            crate::order::lemma_ranked_stable(pairs, by_score(), a, b);
            assert(r[a] == pairs[p[a]] && r[b] == pairs[p[b]]);
            assert(ids[p[a]] != ids[p[b]]);
        }
    }
    assert forall|id: MemoryId| #[trigger] order.contains(id) <==> ids.contains(id) by {
        if order.contains(id) {
            let x = r[order.index_of(id)];
            assert(r.contains(x));
            assert(pairs.to_multiset().count(x) > 0);
            assert(pairs.contains(x));
            assert(ids[pairs.index_of(x)] == id);
        }
        if ids.contains(id) {
            let x = pairs[ids.index_of(id)];
            assert(pairs.contains(x));
            assert(r.to_multiset().count(x) > 0);
            assert(r.contains(x));
            assert(order[r.index_of(x)] == id);
        }
    }
}

/// The no-op gate ranks the landmarks as no gate does.
pub proof fn law_static_gate(m: Map<Seq<char>, LandmarkView>, ctx: ContextView)
    requires
        crate::landmarks::landmarks_wf(m),
    ensures
        salience_order(m, |l: LandmarkView| StaticGate.salience(l, ctx))
            == crate::landmarks::weight_order(m),
{
    let salience = |l: LandmarkView| StaticGate.salience(l, ctx);
    let h = crate::landmarks::heaviest_first(m);
    let pairs = scores(m, salience);
    crate::landmarks::law_snapshot_complete(m);
    lemma_score_order();
    assert forall|i: int| 0 <= i < h.len() implies !(#[trigger] h[i]).weight.nan() by {
        crate::landmarks::law_heaviest_first(m, i);
    }
    assert forall|i: int| 0 <= i < pairs.len() implies !(#[trigger] pairs[i]).1.nan() by {
        assert(!h[i].weight.nan());
    }
    lemma_best_first(pairs);
    assert forall|i: int, j: int| 0 <= i < j < pairs.len() implies #[trigger] by_score()(
        pairs[i],
        pairs[j],
    ) by {
        assert(!h[i].weight.nan() && !h[j].weight.nan());
        crate::landmarks::law_snapshot_order(m, i, j);
        crate::weight::lemma_rank_order(h[i].weight, h[j].weight);
    }
    crate::order::lemma_ranked_fixed(pairs, by_score());
    assert(salience_order(m, salience) =~= crate::landmarks::weight_order(m));
}

/// Landmarks whose scores tie stand as they do without a gate: heaviest
/// first, then by label.
pub proof fn law_gate_ties(
    m: Map<Seq<char>, LandmarkView>,
    salience: spec_fn(LandmarkView) -> Weight,
    i: int,
    j: int,
)
    requires
        crate::landmarks::landmarks_wf(m),
        0 <= i < j < m.len(),
        ({
            let h = crate::landmarks::heaviest_first(m);
            score_leads(salience(h[i]), salience(h[j])) && score_leads(
                salience(h[j]),
                salience(h[i]),
            )
        }),
    ensures
        ({
            let h = crate::landmarks::heaviest_first(m);
            let order = salience_order(m, salience);
            order.contains(h[i].id) && order.contains(h[j].id) && order.index_of(h[i].id)
                < order.index_of(h[j].id)
        }),
{
    broadcast use vstd::seq_lib::group_to_multiset_ensures;

    let h = crate::landmarks::heaviest_first(m);
    let ids = crate::landmarks::weight_order(m);
    let pairs = scores(m, salience);
    let r = best_first(pairs);
    let p = crate::order::ranking(pairs, by_score());
    let order = salience_order(m, salience);
    crate::landmarks::law_snapshot_complete(m);
    law_gate_only_reorders(m, salience);
    assert(ids[i] == h[i].id && ids[j] == h[j].id);
    assert(ids.contains(ids[i]) && ids.contains(ids[j]));
    assert(order.contains(ids[i]) && order.contains(ids[j]));
    let (a, b) = (order.index_of(h[i].id), order.index_of(h[j].id));
    assert(order[a] == ids[i] && order[b] == ids[j]);
    assert(ids[i] != ids[j]);
    if level(pairs) {
        assert(order[i] == h[i].id && order[j] == h[j].id);
    } else {
        lemma_score_order();
        let (x, y) = if a < b {
            (a, b)
        } else {
            (b, a)
        };
        crate::order::lemma_ranked_rearranges(pairs, by_score());
        crate::order::lemma_ranked_stable(pairs, by_score(), x, y);
        assert(r[x] == pairs[p[x]] && r[y] == pairs[p[y]]);
        assert(ids[p[x]] == order[x] && ids[p[y]] == order[y]);
        if b < a {
            assert(p[x] == j && p[y] == i);
            assert(by_score()(pairs[i], pairs[j]));
        }
    }
}

/// Being looked at never counts against a landmark: with boosts of one or
/// more, the larger for recency, a landmark of no negative weight scores at
/// least as much in the recency ring as in the lookback, and in the lookback
/// as when it is cold.
pub proof fn law_boosts(gate: RecencyWeightedGate, landmark: LandmarkView, ctx: ContextView)
    requires
        landmark.weight.amount() && landmark.weight.finite(),
        gate.recency_boost.amount() && gate.recency_boost.finite(),
        crate::weight::ONE_BITS <= gate.lookback_boost.bits <= gate.recency_boost.bits,
    ensures
        landmark.weight.value() <= gate.salience(landmark, ctx).value(),
        gate.salience(landmark, ctx).value() <= crate::weight::product(
            landmark.weight,
            gate.recency_boost,
        ).value(),
        !ctx.recency.contains(landmark.id) ==> gate.salience(landmark, ctx).value()
            <= crate::weight::product(landmark.weight, gate.lookback_boost).value(),
{
    let one = Weight { bits: crate::weight::ONE_BITS };
    crate::weight::law_product_one(landmark.weight);
    crate::weight::law_product_monotone(landmark.weight, one, gate.lookback_boost);
    crate::weight::law_product_monotone(
        landmark.weight,
        gate.lookback_boost,
        gate.recency_boost,
    );
}

/// The recency-weighted gate scores by where a landmark was seen: anywhere in
/// the ring, the product of its weight and the recency boost; anywhere in the
/// lookback alone, the product of its weight and the lookback boost; nowhere,
/// its weight.
pub proof fn law_recency_weighted(
    gate: RecencyWeightedGate,
    landmark: LandmarkView,
    ctx: ContextView,
)
    ensures
        (exists|i: int| 0 <= i < ctx.recency.len() && #[trigger] ctx.recency[i] == landmark.id)
            ==> crate::weight::is_product(
            landmark.weight,
            gate.recency_boost,
            gate.salience(landmark, ctx),
        ),
        (forall|i: int| 0 <= i < ctx.recency.len() ==> #[trigger] ctx.recency[i] != landmark.id)
            && (exists|i: int|
            0 <= i < ctx.lookback.len() && #[trigger] ctx.lookback[i] == landmark.id)
            ==> crate::weight::is_product(
            landmark.weight,
            gate.lookback_boost,
            gate.salience(landmark, ctx),
        ),
        (forall|i: int| 0 <= i < ctx.recency.len() ==> #[trigger] ctx.recency[i] != landmark.id)
            && (forall|i: int|
            0 <= i < ctx.lookback.len() ==> #[trigger] ctx.lookback[i] != landmark.id)
            ==> gate.salience(landmark, ctx) == landmark.weight,
{
    crate::weight::lemma_any_product(landmark.weight, gate.recency_boost);
    crate::weight::lemma_any_product(landmark.weight, gate.lookback_boost);
}

/// The no-op gate scores a landmark by its weight, whatever was seen.
pub proof fn law_static_score(landmark: LandmarkView, ctx: ContextView)
    ensures
        StaticGate.salience(landmark, ctx) == landmark.weight,
{
}

/// Of two landmarks, the one with the higher salience ranks first, whatever
/// they weigh and however they are labelled.
pub proof fn law_salience_order(
    m: Map<Seq<char>, LandmarkView>,
    salience: spec_fn(LandmarkView) -> Weight,
    a: Seq<char>,
    b: Seq<char>,
)
    requires
        crate::landmarks::landmarks_wf(m),
        m.contains_key(a),
        m.contains_key(b),
        !salience(m[a]).nan(),
        !salience(m[b]).nan(),
        salience(m[a]).value() > salience(m[b]).value(),
    ensures
        salience_order(m, salience).contains(m[a].id),
        salience_order(m, salience).contains(m[b].id),
        salience_order(m, salience).index_of(m[a].id) < salience_order(m, salience).index_of(
            m[b].id,
        ),
{
    broadcast use vstd::seq_lib::group_to_multiset_ensures;

    let h = crate::landmarks::heaviest_first(m);
    let ids = crate::landmarks::weight_order(m);
    let pairs = scores(m, salience);
    let r = best_first(pairs);
    let order = salience_order(m, salience);
    crate::landmarks::law_snapshot_complete(m);
    law_gate_only_reorders(m, salience);
    lemma_score_order();
    crate::order::lemma_ranked_rearranges(pairs, by_score());
    assert(ids.contains(m[a].id) && ids.contains(m[b].id));
    let (i, j) = (ids.index_of(m[a].id), ids.index_of(m[b].id));
    crate::landmarks::law_heaviest_first(m, i);
    crate::landmarks::law_heaviest_first(m, j);
    assert(h[i].id == m[a].id && h[j].id == m[b].id);
    assert(m[h[i].label].id == m[a].id && m[h[j].label].id == m[b].id);
    assert(h[i] == m[a] && h[j] == m[b]);
    let (x, y) = ((m[a].id, salience(m[a])), (m[b].id, salience(m[b])));
    assert(pairs[i] == x && pairs[j] == y);
    assert(!level(pairs));
    assert(order.contains(m[a].id) && order.contains(m[b].id));
    let (p, q) = (order.index_of(m[a].id), order.index_of(m[b].id));
    assert(order[p] == m[a].id && order[q] == m[b].id);
    lemma_scored_once(m, salience, p, i);
    lemma_scored_once(m, salience, q, j);
    if q < p {
        law_best_first(pairs, q, p);
    }
}

/// A ranked pair is the scored pair with its id.
proof fn lemma_scored_once(
    m: Map<Seq<char>, LandmarkView>,
    salience: spec_fn(LandmarkView) -> Weight,
    p: int,
    i: int,
)
    requires
        crate::landmarks::landmarks_wf(m),
        0 <= p < best_first(scores(m, salience)).len(),
        0 <= i < scores(m, salience).len(),
        best_first(scores(m, salience))[p].0 == scores(m, salience)[i].0,
    ensures
        best_first(scores(m, salience))[p] == scores(m, salience)[i],
{
    broadcast use vstd::seq_lib::group_to_multiset_ensures;

    let ids = crate::landmarks::weight_order(m);
    let pairs = scores(m, salience);
    let r = best_first(pairs);
    crate::landmarks::law_snapshot_complete(m);
    lemma_score_order();
    crate::order::lemma_ranked_rearranges(pairs, by_score());
    assert(r.contains(r[p]));
    assert(pairs.to_multiset().count(r[p]) > 0);
    assert(pairs.contains(r[p]));
    let k = pairs.index_of(r[p]);
    assert(ids[k] == pairs[k].0 && ids[i] == pairs[i].0);
}

/// Scored ids that tie keep their places.
pub proof fn law_best_first_stable(pairs: Seq<(MemoryId, Weight)>, i: int, j: int)
    requires
        0 <= i < j < pairs.len(),
        score_leads(pairs[i].1, pairs[j].1),
        score_leads(pairs[j].1, pairs[i].1),
    ensures
        exists|a: int, b: int|
            0 <= a < b < best_first(pairs).len() && #[trigger] best_first(pairs)[a] == pairs[i]
                && #[trigger] best_first(pairs)[b] == pairs[j],
{
    broadcast use vstd::seq_lib::group_to_multiset_ensures;

    let r = best_first(pairs);
    if level(pairs) {
        assert(r[i] == pairs[i] && r[j] == pairs[j]);
    } else {
        let p = crate::order::ranking(pairs, by_score());
        let q = crate::order::positions(pairs.len());
        lemma_score_order();
        crate::order::lemma_comes_first_total(pairs, by_score());
        q.lemma_sort_by_ensures(
            |x: int, y: int| crate::order::comes_first(pairs, by_score(), x, y),
        );
        vstd::seq_lib::to_multiset_len(p);
        vstd::seq_lib::to_multiset_len(q);
        assert(q[i] == i && q[j] == j);
        assert(q.contains(i) && q.contains(j));
        assert(p.to_multiset().count(i) > 0 && p.to_multiset().count(j) > 0);
        assert(p.contains(i) && p.contains(j));
        let (a, b) = (p.index_of(i), p.index_of(j));
        assert(p[a] == i && p[b] == j);
        if b < a {
            crate::order::lemma_ranked_stable(pairs, by_score(), b, a);
            assert(by_score()(pairs[i], pairs[j]));
        }
        assert(r[a] == pairs[i] && r[b] == pairs[j]);
    }
}

/// What the beam is told of a gate is what that gate does: its scores, and its
/// names.
pub proof fn law_gate_view<G: SalienceGate>(
    g: G,
    l: LandmarkView,
    ctx: ContextView,
    name: &'static str,
)
    ensures
        gate_salience(Some(gate_view(&g)), ctx)(l) == g.salience(l, ctx),
        gate_salience(None, ctx)(l) == l.weight,
        (gate_view(&g).named)(name) <==> call_ensures(G::name, (&g,), name),
{
}

/// By default the recency boost is two and the lookback boost the number
/// nearest to one and three tenths, counted in units of 2^-149.
pub proof fn law_default_boosts()
    ensures
        (Weight { bits: DEFAULT_RECENCY_BOOST }).value() == 2
            * vstd::arithmetic::power2::pow2(149),
        crate::weight::nearest(
            (13 * vstd::arithmetic::power2::pow2(149)) as int,
            10,
            DEFAULT_LOOKBACK_BOOST as int,
        ),
{
    crate::weight::lemma_two_and_ten();
    crate::weight::lemma_thirteen_tenths();
}

} // verus!
