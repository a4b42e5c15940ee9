//! Log-stride lookback: the hierarchical-reach primitive.
//!
//! A memory medium lives in clock time, so reaching into its past at
//! exponentially spaced strides means **exponentially aged buckets**: keep
//! representatives of recent (~1m), middle-aged (~hour, ~day) and old (~week,
//! ~month) memories, and the beam reaches across the lifespan without scanning
//! every entry.
//!
//! The buckets do not store every memory of that age: each is capped at a
//! small N (default 8). When a bucket is over cap the lowest-weight entries
//! are dropped, so the survivors are the ones that mattered.
//!
//! # Aging is by `last_seen`, not `first_seen`
//!
//! The bucket of a memory is decided by how long it has been since it was
//! last *observed*, not since it was first created. Re-observing a memory
//! makes it fresh.
//!
//! # Placement is exact at every observation
//!
//! `observe` re-buckets the whole structure against the clock, which is the
//! newest event time seen so far, never the wall clock. The structure holds
//! at most `bucket_cap * (boundaries + 1)` entries, 64 by default, so a full
//! re-bucket is a few dozen comparisons.

use crate::ident::MemoryId;
use crate::order::Ranking;
use crate::time::{Span, Timestamp};
use crate::weight::Weight;
use vstd::prelude::*;

verus! {

/// The exponentially spaced age boundaries used by [`LogStrideLookback`].
/// An entry whose age is `< boundary[k]` belongs in bucket `k`. The implicit
/// final bucket holds everything older than the last boundary.
pub const DEFAULT_BOUNDARIES_SECONDS: [i64; 7] = [
    60,  // < 1 min
    5 * 60,  // < 5 min
    30 * 60,  // < 30 min
    3 * 3600,  // < 3 h
    24 * 3600,  // < 1 d
    7 * 24 * 3600,  // < 7 d
    30 * 24 * 3600,  // < 30 d
];

/// Lower end of the clamp range for an observation's strength multiplier:
/// the encoding of 0.01.
pub const MIN_OBSERVATION_WEIGHT: u32 = 0x3c23_d70a;

/// Upper end of the observation strength clamp: the encoding of 10.0.
pub const MAX_OBSERVATION_WEIGHT: u32 = 0x4120_0000;

/// What a lookback remembers of one memory.
pub struct EntryView {
    /// The memory.
    pub id: MemoryId,
    /// Where its observations come from, if it is kept per source.
    pub source: Option<Seq<char>>,
    /// When it was first observed.
    pub first_seen: Timestamp,
    /// When it was last observed.
    pub last_seen: Timestamp,
    /// The strength of all its observations together.
    pub weight: Weight,
}

/// What a lookback is worth to its readers.
pub struct LookbackView {
    /// The age boundaries, in nanoseconds.
    pub boundaries: Seq<int>,
    /// The most entries that a bucket keeps.
    pub cap: nat,
    /// The entries, bucket by bucket, strongest first.
    pub entries: Seq<EntryView>,
    /// The newest point in time that has been seen.
    pub clock: Option<Timestamp>,
}

/// The weight that an observation counts for: clamped into the documented
/// `[0.01, 10.0]` range, with the neutral 1.0 for what is not finite.
pub open spec fn sanitized(w: Weight) -> Weight {
    let min = Weight { bits: MIN_OBSERVATION_WEIGHT };
    let max = Weight { bits: MAX_OBSERVATION_WEIGHT };
    if !w.finite() {
        Weight { bits: crate::weight::ONE_BITS }
    } else if w.value() < min.value() {
        min
    } else if max.value() < w.value() {
        max
    } else {
        w
    }
}

/// The first bucket whose boundary an age is below; the overflow bucket if
/// there is none.
pub open spec fn bucket_for_age(boundaries: Seq<int>, age: int) -> int
    decreases boundaries.len(),
{
    if boundaries.len() == 0 || age < boundaries[0] {
        0
    } else {
        1 + bucket_for_age(boundaries.drop_first(), age)
    }
}

/// The bucket that an entry belongs in at a point in time.
pub open spec fn bucket_of(boundaries: Seq<int>, now: Timestamp, e: EntryView) -> int {
    bucket_for_age(boundaries, crate::time::elapsed(now, e.last_seen))
}

/// The entries in one bucket, as they stand.
pub open spec fn in_bucket(
    entries: Seq<EntryView>,
    boundaries: Seq<int>,
    now: Timestamp,
    bucket: int,
) -> Seq<EntryView> {
    entries.filter(|e: EntryView| bucket_of(boundaries, now, e) == bucket)
}

/// `a` is at least as strong as `b`: heavier, then fresher, then by id and
/// source.
pub open spec fn strength_leq(a: EntryView, b: EntryView) -> bool {
    if a.weight.rank() != b.weight.rank() {
        a.weight.rank() > b.weight.rank()
    } else if b.last_seen.before(a.last_seen) {
        true
    } else if a.last_seen.before(b.last_seen) {
        false
    } else {
        key_leq(a, b)
    }
}

/// `a` is at least as fresh as `b`: seen later, then heavier, then by id and
/// source.
pub open spec fn freshness_leq(a: EntryView, b: EntryView) -> bool {
    if b.last_seen.before(a.last_seen) {
        true
    } else if a.last_seen.before(b.last_seen) {
        false
    } else if a.weight.rank() != b.weight.rank() {
        a.weight.rank() > b.weight.rank()
    } else {
        key_leq(a, b)
    }
}

/// Order by id, then by source.
pub open spec fn key_leq(a: EntryView, b: EntryView) -> bool {
    if a.id.bits != b.id.bits {
        a.id.bits < b.id.bits
    } else {
        crate::text::optional_text_leq(a.source, b.source)
    }
}

/// Strongest first.
pub open spec fn by_strength() -> spec_fn(EntryView, EntryView) -> bool {
    |a: EntryView, b: EntryView| strength_leq(a, b)
}

/// Newest first.
pub open spec fn by_freshness() -> spec_fn(EntryView, EntryView) -> bool {
    |a: EntryView, b: EntryView| freshness_leq(a, b)
}

/// The entries that one bucket keeps.
pub open spec fn strongest(
    entries: Seq<EntryView>,
    boundaries: Seq<int>,
    now: Timestamp,
    cap: nat,
    bucket: int,
) -> Seq<EntryView> {
    crate::order::at_most(
        crate::order::ranked(
            in_bucket(entries, boundaries, now, bucket),
            by_strength(),
        ),
        cap,
    )
}

/// The entries that the first `n` buckets keep.
pub open spec fn survivors(
    entries: Seq<EntryView>,
    boundaries: Seq<int>,
    now: Timestamp,
    cap: nat,
    n: nat,
) -> Seq<EntryView>
    decreases n,
{
    if n == 0 {
        Seq::empty()
    } else {
        survivors(entries, boundaries, now, cap, (n - 1) as nat) + strongest(
            entries,
            boundaries,
            now,
            cap,
            n - 1,
        )
    }
}

/// The entries of the first `n` buckets, newest bucket first and newest first
/// within each bucket.
pub open spec fn reading(
    entries: Seq<EntryView>,
    boundaries: Seq<int>,
    now: Timestamp,
    n: nat,
) -> Seq<EntryView>
    decreases n,
{
    if n == 0 {
        Seq::empty()
    } else {
        reading(entries, boundaries, now, (n - 1) as nat) + crate::order::ranked(
            in_bucket(entries, boundaries, now, n - 1),
            by_freshness(),
        )
    }
}

impl EntryView {
    /// True if this entry is the one for that memory and source.
    pub open spec fn matches(self, id: MemoryId, source: Option<Seq<char>>) -> bool {
        self.id == id && self.source == source
    }

    /// This entry after one more observation.
    pub open spec fn bumped(self, now: Timestamp, weight: Weight) -> EntryView {
        EntryView {
            last_seen: self.last_seen.later(now),
            weight: crate::weight::sum(self.weight, weight),
            ..self
        }
    }
}

/// The entries after an observation, before any is dropped: the entry of that
/// memory and source is bumped, or a new one is added.
pub open spec fn noted(
    entries: Seq<EntryView>,
    id: MemoryId,
    source: Option<Seq<char>>,
    now: Timestamp,
    weight: Weight,
) -> Seq<EntryView> {
    if exists|i: int| 0 <= i < entries.len() && (#[trigger] entries[i]).matches(id, source) {
        entries.map_values(
            |e: EntryView|
                if e.matches(id, source) {
                    e.bumped(now, weight)
                } else {
                    e
                },
        )
    } else {
        entries.push(EntryView { id, source, first_seen: now, last_seen: now, weight })
    }
}

impl LookbackView {
    /// A lookback that has seen nothing yet.
    pub open spec fn fresh(boundaries_seconds: Seq<i64>, bucket_cap: nat) -> LookbackView {
        LookbackView {
            boundaries: boundaries_seconds.map_values(|s: i64| s * 1_000_000_000),
            cap: if bucket_cap == 0 {
                1
            } else {
                bucket_cap
            },
            entries: Seq::empty(),
            clock: None,
        }
    }

    /// Number of buckets, the implicit overflow bucket included.
    pub open spec fn n_buckets(self) -> nat {
        self.boundaries.len() + 1
    }

    /// The clock after an event at `now`: it only moves forward.
    pub open spec fn advanced(self, now: Timestamp) -> Timestamp {
        match self.clock {
            Some(prev) => prev.later(now),
            None => now,
        }
    }

    /// The lookback with every bucket cut down to its strongest entries.
    pub open spec fn trimmed(self) -> LookbackView {
        match self.clock {
            Some(now) => LookbackView {
                entries: survivors(
                    self.entries,
                    self.boundaries,
                    now,
                    self.cap,
                    self.n_buckets(),
                ),
                ..self
            },
            None => self,
        }
    }

    /// The lookback after time has passed to `now`.
    pub open spec fn rebalanced(self, now: Timestamp) -> LookbackView {
        LookbackView { clock: Some(self.advanced(now)), ..self }.trimmed()
    }

    /// The lookback after an observation.
    pub open spec fn observed(
        self,
        id: MemoryId,
        source: Option<Seq<char>>,
        now: Timestamp,
        weight: Weight,
    ) -> LookbackView {
        LookbackView {
            clock: Some(self.advanced(now)),
            entries: noted(self.entries, id, source, now, sanitized(weight)),
            ..self
        }.trimmed()
    }

    /// The entries in the order in which they are read out.
    pub open spec fn read_out(self) -> Seq<EntryView> {
        match self.clock {
            Some(now) => reading(self.entries, self.boundaries, now, self.n_buckets()),
            None => Seq::empty(),
        }
    }

    /// The ids in the order in which they are read out.
    pub open spec fn ids(self) -> Seq<MemoryId> {
        self.read_out().map_values(|e: EntryView| e.id)
    }

    /// What holds of every lookback.
    pub open spec fn wf(self) -> bool {
        &&& self.cap >= 1
        &&& self.clock is None ==> self.entries.len() == 0
        &&& keyed(self.entries)
        &&& forall|i: int| 0 <= i < self.entries.len() ==> self.entry_wf(#[trigger] self.entries[i])
        &&& self.trimmed() == self
    }

    /// What holds of every entry: it was seen first before it was seen last,
    /// both by the clock, and has at least the weight of one observation.
    pub open spec fn entry_wf(self, e: EntryView) -> bool {
        &&& !e.last_seen.before(e.first_seen)
        &&& self.clock matches Some(now) && !now.before(e.last_seen)
        &&& MIN_OBSERVATION_WEIGHT <= e.weight.bits <= crate::weight::INFINITY_BITS
    }
}

/// No two entries are for the same memory and source.
pub open spec fn keyed(entries: Seq<EntryView>) -> bool {
    forall|i: int, j: int|
        #![trigger entries[i], entries[j]]
        0 <= i < entries.len() && 0 <= j < entries.len() && entries[i].matches(
            entries[j].id,
            entries[j].source,
        ) ==> i == j
}

/// Whatever weight is asked for, an observation counts for one in the
/// documented range: a weight in the range counts as it is, one outside of it
/// as the end that it is beyond, and what is not finite as 1.0.
pub proof fn law_sanitized(w: Weight)
    ensures
        MIN_OBSERVATION_WEIGHT <= sanitized(w).bits <= MAX_OBSERVATION_WEIGHT,
        (Weight { bits: MIN_OBSERVATION_WEIGHT }).value() <= sanitized(w).value(),
        sanitized(w).value() <= (Weight { bits: MAX_OBSERVATION_WEIGHT }).value(),
        !w.finite() ==> sanitized(w).bits == crate::weight::ONE_BITS,
        w.finite() && w.value() < (Weight { bits: MIN_OBSERVATION_WEIGHT }).value()
            ==> sanitized(w).bits == MIN_OBSERVATION_WEIGHT,
        w.finite() && (Weight { bits: MAX_OBSERVATION_WEIGHT }).value() < w.value()
            ==> sanitized(w).bits == MAX_OBSERVATION_WEIGHT,
        w.finite() && (Weight { bits: MIN_OBSERVATION_WEIGHT }).value() <= w.value()
            && w.value() <= (Weight { bits: MAX_OBSERVATION_WEIGHT }).value() ==> sanitized(w)
            == w,
{
    let min = Weight { bits: MIN_OBSERVATION_WEIGHT };
    let max = Weight { bits: MAX_OBSERVATION_WEIGHT };
    let r = sanitized(w);
    crate::weight::lemma_value_order(min, w);
    crate::weight::lemma_value_order(max, w);
    crate::weight::lemma_value_order(min, r);
    crate::weight::lemma_value_order(r, min);
    crate::weight::lemma_value_order(max, r);
    crate::weight::lemma_value_order(r, max);
}

/// Of two finite weights the heavier never counts for less, and two that
/// differ within the range count differently.
pub proof fn law_sanitized_graded(a: Weight, b: Weight)
    requires
        a.finite(),
        b.finite(),
        a.value() < b.value(),
    ensures
        sanitized(a).value() <= sanitized(b).value(),
        (Weight { bits: MIN_OBSERVATION_WEIGHT }).value() <= a.value() && b.value() <= (Weight {
            bits: MAX_OBSERVATION_WEIGHT,
        }).value() ==> sanitized(a).value() < sanitized(b).value(),
{
    law_sanitized(a);
    law_sanitized(b);
}

/// Clamp an observation weight into the documented `[0.01, 10.0]` range,
/// mapping non-finite input to the neutral 1.0.
pub fn sanitize_weight(weight: Weight) -> (r: Weight)
    ensures
        r == sanitized(weight),
        MIN_OBSERVATION_WEIGHT <= r.bits <= MAX_OBSERVATION_WEIGHT,
        weight.finite() && (Weight { bits: MIN_OBSERVATION_WEIGHT }).value() <= weight.value()
            && weight.value() <= (Weight { bits: MAX_OBSERVATION_WEIGHT }).value() ==> r == weight,
{
    let min = Weight::from_bits(MIN_OBSERVATION_WEIGHT);
    let max = Weight::from_bits(MAX_OBSERVATION_WEIGHT);
    proof {
        law_sanitized(weight);
    }
    if !weight.is_finite() {
        Weight::from_bits(crate::weight::ONE_BITS)
    } else if weight.less_than(min) {
        min
    } else if max.less_than(weight) {
        max
    } else {
        weight
    }
}

/// Per-memory state inside the lookback.
#[derive(Debug, Clone)]
struct Entry {
    id: MemoryId,
    /// Present only when the lookback is keying per source. `None` means
    /// all sources collapse onto the memory id, which is the default.
    source: Option<String>,
    first_seen: Timestamp,
    last_seen: Timestamp,
    /// Accumulated observation strength. A deliberate observation at weight
    /// 10.0 pulls as hard as ten ambient ones.
    weight: Weight,
}

/// The characters of an optional string.
spec fn optional_view(s: Option<String>) -> Option<Seq<char>> {
    match s {
        Some(t) => Some(t@),
        None => None,
    }
}

/// The characters of an optional string slice.
spec fn optional_str_view(s: Option<&str>) -> Option<Seq<char>> {
    match s {
        Some(t) => Some(t@),
        None => None,
    }
}

impl View for Entry {
    type V = EntryView;

    closed spec fn view(&self) -> EntryView {
        EntryView {
            id: self.id,
            source: optional_view(self.source),
            first_seen: self.first_seen,
            last_seen: self.last_seen,
            weight: self.weight,
        }
    }
}

impl Entry {
    fn matches(&self, id: MemoryId, source: Option<&str>) -> (r: bool)
        ensures
            r == self@.matches(id, optional_str_view(source)),
    {
        self.id == id && match (&self.source, source) {
            (Some(a), Some(b)) => crate::text::same_text(a.as_str(), b),
            (None, None) => true,
            _ => false,
        }
    }

    fn key_leads(&self, other: &Entry) -> (r: bool)
        ensures
            r == key_leq(self@, other@),
    {
        if self.id.bits != other.id.bits {
            self.id.bits < other.id.bits
        } else {
            match (&self.source, &other.source) {
                (None, _) => true,
                (Some(_), None) => false,
                (Some(a), Some(b)) => crate::text::stands_before(a.as_str(), b.as_str()),
            }
        }
    }

    fn duplicate(&self) -> (r: Entry)
        ensures
            r@ == self@,
    {
        Entry {
            id: self.id,
            source: match &self.source {
                Some(s) => Some(s.clone()),
                None => None,
            },
            first_seen: self.first_seen,
            last_seen: self.last_seen,
            weight: self.weight,
        }
    }
}

/// Strongest first.
struct ByStrength;

/// Newest first.
struct ByFreshness;

proof fn lemma_key_order(a: EntryView, b: EntryView, c: EntryView)
    ensures
        key_leq(a, b) || key_leq(b, a),
        key_leq(a, b) && key_leq(b, c) ==> key_leq(a, c),
{
    if a.source is Some && b.source is Some {
        crate::text::lemma_text_total(a.source->0, b.source->0);
        if c.source is Some && key_leq(a, b) && key_leq(b, c) && a.id.bits == c.id.bits {
            crate::text::lemma_text_transitive(a.source->0, b.source->0, c.source->0);
        }
    }
}

/// The order of strength is a total preorder.
proof fn lemma_strength_order()
    ensures
        crate::order::total_preorder(by_strength()),
{
    let leq = by_strength();
    assert forall|a: EntryView, b: EntryView| #[trigger] leq(a, b) || leq(b, a) by {
        lemma_key_order(a, b, b);
    }
    assert forall|a: EntryView, b: EntryView, c: EntryView| #[trigger]
        leq(a, b) && #[trigger] leq(b, c) implies leq(a, c) by {
        lemma_key_order(a, b, c);
    }
}

/// The order of freshness is a total preorder.
proof fn lemma_freshness_order()
    ensures
        crate::order::total_preorder(by_freshness()),
{
    let leq = by_freshness();
    assert forall|a: EntryView, b: EntryView| #[trigger] leq(a, b) || leq(b, a) by {
        lemma_key_order(a, b, b);
    }
    assert forall|a: EntryView, b: EntryView, c: EntryView| #[trigger]
        leq(a, b) && #[trigger] leq(b, c) implies leq(a, c) by {
        lemma_key_order(a, b, c);
    }
}

impl Ranking for ByStrength {
    type Item = Entry;

    open spec fn leads(&self, a: EntryView, b: EntryView) -> bool {
        strength_leq(a, b)
    }

    proof fn lemma_total(&self) {
        lemma_strength_order();
        assert((|a: EntryView, b: EntryView| self.leads(a, b)) =~= by_strength());
    }

    fn may_lead(&self, a: &Entry, b: &Entry) -> bool {
        let x = a.weight.order();
        let y = b.weight.order();
        if x != y {
            x > y
        } else if b.last_seen.is_before(&a.last_seen) {
            true
        } else if a.last_seen.is_before(&b.last_seen) {
            false
        } else {
            a.key_leads(b)
        }
    }
}

impl Ranking for ByFreshness {
    type Item = Entry;

    open spec fn leads(&self, a: EntryView, b: EntryView) -> bool {
        freshness_leq(a, b)
    }

    proof fn lemma_total(&self) {
        lemma_freshness_order();
        assert((|a: EntryView, b: EntryView| self.leads(a, b)) =~= by_freshness());
    }

    fn may_lead(&self, a: &Entry, b: &Entry) -> bool {
        if b.last_seen.is_before(&a.last_seen) {
            true
        } else if a.last_seen.is_before(&b.last_seen) {
            false
        } else {
            let x = a.weight.order();
            let y = b.weight.order();
            if x != y {
                x > y
            } else {
                a.key_leads(b)
            }
        }
    }
}

/// Every age has a bucket: the first whose boundary it is below.
pub proof fn law_bucket_for_age(boundaries: Seq<int>, age: int)
    ensures
        0 <= bucket_for_age(boundaries, age) <= boundaries.len(),
        forall|k: int|
            0 <= k < bucket_for_age(boundaries, age) ==> age >= #[trigger] boundaries[k],
        bucket_for_age(boundaries, age) < boundaries.len() ==> age < boundaries[bucket_for_age(
            boundaries,
            age,
        )],
    decreases boundaries.len(),
{
    if boundaries.len() > 0 && age >= boundaries[0] {
        let rest = boundaries.drop_first();
        law_bucket_for_age(rest, age);
        assert forall|k: int| 0 <= k < bucket_for_age(boundaries, age) implies age
            >= #[trigger] boundaries[k] by {
            if k > 0 {
                assert(boundaries[k] == rest[k - 1]);
            }
        }
    }
}

/// What a bucket keeps comes out of that bucket, is in order, fits, and holds
/// nothing more often than the entries did.
proof fn lemma_strongest(
    entries: Seq<EntryView>,
    boundaries: Seq<int>,
    now: Timestamp,
    cap: nat,
    b: int,
)
    ensures
        ({
            let s = strongest(entries, boundaries, now, cap, b);
            &&& s.len() <= cap
            &&& vstd::relations::sorted_by(s, by_strength())
            &&& forall|i: int|
                0 <= i < s.len() ==> bucket_of(boundaries, now, #[trigger] s[i]) == b
                    && entries.contains(s[i])
            &&& forall|e: EntryView| #[trigger]
                s.to_multiset().count(e) <= if bucket_of(boundaries, now, e) == b {
                    entries.to_multiset().count(e)
                } else {
                    0
                }
        }),
{
    broadcast use vstd::seq_lib::group_to_multiset_ensures;

    let pass = |e: EntryView| bucket_of(boundaries, now, e) == b;
    let mine = in_bucket(entries, boundaries, now, b);
    let r = crate::order::ranked(mine, by_strength());
    let s = strongest(entries, boundaries, now, cap, b);
    lemma_strength_order();
    crate::order::lemma_ranked_rearranges(mine, by_strength());
    crate::order::lemma_ranked_sorted(mine, by_strength());
    assert forall|i: int, j: int| 0 <= i < j < s.len() implies #[trigger] by_strength()(
        s[i],
        s[j],
    ) by {
        assert(by_strength()(r[i], r[j]));
    }
    assert forall|e: EntryView| #[trigger]
        s.to_multiset().count(e) <= if bucket_of(boundaries, now, e) == b {
            entries.to_multiset().count(e)
        } else {
            0
        } by {
        crate::order::lemma_at_most_count(r, cap, e);
        crate::order::lemma_filter_count(entries, pass, e);
    }
    assert forall|i: int| 0 <= i < s.len() implies bucket_of(boundaries, now, #[trigger] s[i]) == b
        && entries.contains(s[i]) by {
        assert(s.contains(s[i]));
        assert(s.to_multiset().count(s[i]) > 0);
    }
}

/// The survivors hold nothing more often than the entries did, and each
/// survivor stands in one of the buckets.
proof fn lemma_survivors_count(
    entries: Seq<EntryView>,
    boundaries: Seq<int>,
    now: Timestamp,
    cap: nat,
    n: nat,
)
    ensures
        forall|e: EntryView| #[trigger]
            survivors(entries, boundaries, now, cap, n).to_multiset().count(e) <= if bucket_of(
                boundaries,
                now,
                e,
            ) < n {
                entries.to_multiset().count(e)
            } else {
                0
            },
        survivors(entries, boundaries, now, cap, n).len() <= cap * n,
    decreases n,
{
    broadcast use vstd::multiset::group_multiset_axioms;
    broadcast use vstd::seq_lib::group_to_multiset_ensures;

    let all = survivors(entries, boundaries, now, cap, n);
    if n == 0 {
        assert forall|e: EntryView| #[trigger] all.to_multiset().count(e) == 0 by {
            assert(!all.contains(e));
        }
    } else {
        let m = (n - 1) as nat;
        let before = survivors(entries, boundaries, now, cap, m);
        let last = strongest(entries, boundaries, now, cap, n - 1);
        lemma_survivors_count(entries, boundaries, now, cap, m);
        lemma_strongest(entries, boundaries, now, cap, n - 1);
        vstd::seq_lib::lemma_multiset_commutative(before, last);
        assert forall|e: EntryView| #[trigger]
            all.to_multiset().count(e) <= if bucket_of(boundaries, now, e) < n {
                entries.to_multiset().count(e)
            } else {
                0
            } by {
            assert(all.to_multiset().count(e) == before.to_multiset().count(e)
                + last.to_multiset().count(e));
        }
        assert(cap * m + cap == cap * n) by (nonlinear_arith)
            requires
                n == m + 1,
        ;
    }
}

/// Each bucket of the survivors holds what that bucket kept.
proof fn lemma_survivors_bucket(
    entries: Seq<EntryView>,
    boundaries: Seq<int>,
    now: Timestamp,
    cap: nat,
    n: nat,
    b: int,
)
    requires
        0 <= b,
    ensures
        in_bucket(survivors(entries, boundaries, now, cap, n), boundaries, now, b) == if b < n {
            strongest(entries, boundaries, now, cap, b)
        } else {
            Seq::empty()
        },
    decreases n,
{
    let pass = |e: EntryView| bucket_of(boundaries, now, e) == b;
    if n == 0 {
        crate::order::lemma_filter_uniform(Seq::<EntryView>::empty(), pass);
    } else {
        let before = survivors(entries, boundaries, now, cap, (n - 1) as nat);
        let last = strongest(entries, boundaries, now, cap, n - 1);
        lemma_survivors_bucket(entries, boundaries, now, cap, (n - 1) as nat, b);
        lemma_strongest(entries, boundaries, now, cap, n - 1);
        Seq::filter_distributes_over_add(before, last, pass);
        crate::order::lemma_filter_uniform(last, pass);
        assert(in_bucket(before + last, boundaries, now, b) =~= in_bucket(
            before,
            boundaries,
            now,
            b,
        ) + in_bucket(last, boundaries, now, b));
        if b == n - 1 {
            assert forall|i: int| 0 <= i < last.len() implies pass(#[trigger] last[i]) by {}
            assert(Seq::<EntryView>::empty() + last =~= last);
        } else {
            assert forall|i: int| 0 <= i < last.len() implies !pass(#[trigger] last[i]) by {}
            assert(in_bucket(before, boundaries, now, b) + Seq::<EntryView>::empty() =~= in_bucket(
                before,
                boundaries,
                now,
                b,
            ));
        }
    }
}

/// Cutting the buckets down a second time changes nothing.
proof fn lemma_survivors_fixed(
    entries: Seq<EntryView>,
    boundaries: Seq<int>,
    now: Timestamp,
    cap: nat,
    all: nat,
    n: nat,
)
    requires
        n <= all,
    ensures
        survivors(survivors(entries, boundaries, now, cap, all), boundaries, now, cap, n)
            == survivors(entries, boundaries, now, cap, n),
    decreases n,
{
    if n > 0 {
        let kept = survivors(entries, boundaries, now, cap, all);
        let b = n - 1;
        lemma_survivors_fixed(entries, boundaries, now, cap, all, (n - 1) as nat);
        lemma_survivors_bucket(entries, boundaries, now, cap, all, b);
        lemma_strongest(entries, boundaries, now, cap, b);
        lemma_strength_order();
        crate::order::lemma_ranked_fixed(
            strongest(entries, boundaries, now, cap, b),
            by_strength(),
        );
        assert(strongest(kept, boundaries, now, cap, b) == strongest(
            entries,
            boundaries,
            now,
            cap,
            b,
        ));
    }
}

/// Cutting the buckets down keeps the entries apart.
proof fn lemma_survivors_keyed(
    entries: Seq<EntryView>,
    boundaries: Seq<int>,
    now: Timestamp,
    cap: nat,
    n: nat,
)
    requires
        keyed(entries),
    ensures
        keyed(survivors(entries, boundaries, now, cap, n)),
        forall|i: int|
            0 <= i < survivors(entries, boundaries, now, cap, n).len() ==> entries.contains(
                #[trigger] survivors(entries, boundaries, now, cap, n)[i],
            ),
{
    broadcast use vstd::seq_lib::group_to_multiset_ensures;

    let s = survivors(entries, boundaries, now, cap, n);
    lemma_survivors_count(entries, boundaries, now, cap, n);
    assert(entries.no_duplicates());
    entries.lemma_multiset_has_no_duplicates();
    assert forall|e: EntryView| #[trigger] s.to_multiset().contains(e) implies s.to_multiset().count(
        e,
    ) == 1 by {
        assert(s.to_multiset().count(e) <= entries.to_multiset().count(e));
        assert(entries.to_multiset().contains(e));
    }
    s.lemma_multiset_has_no_duplicates_conv();
    assert forall|i: int| 0 <= i < s.len() implies entries.contains(#[trigger] s[i]) by {
        assert(s.contains(s[i]));
        assert(s.to_multiset().count(s[i]) > 0);
    }
    assert forall|i: int, j: int|
        #![trigger s[i], s[j]]
        0 <= i < s.len() && 0 <= j < s.len() && s[i].matches(s[j].id, s[j].source) implies i
        == j by {
        let a = entries.index_of(s[i]);
        let b = entries.index_of(s[j]);
        assert(entries[a] == s[i] && entries[b] == s[j]);
    }
}

/// An observation keeps the entries apart, and each in its range.
proof fn lemma_noted(
    v: LookbackView,
    id: MemoryId,
    source: Option<Seq<char>>,
    now: Timestamp,
    weight: Weight,
)
    requires
        v.wf(),
        MIN_OBSERVATION_WEIGHT <= weight.bits <= MAX_OBSERVATION_WEIGHT,
    ensures
        ({
            let w = LookbackView {
                clock: Some(v.advanced(now)),
                entries: noted(v.entries, id, source, now, weight),
                ..v
            };
            &&& keyed(w.entries)
            &&& forall|i: int|
                0 <= i < w.entries.len() ==> w.entry_wf(#[trigger] w.entries[i])
        }),
{
    let w = LookbackView {
        clock: Some(v.advanced(now)),
        entries: noted(v.entries, id, source, now, weight),
        ..v
    };
    assert forall|i: int| 0 <= i < w.entries.len() implies w.entry_wf(#[trigger] w.entries[i]) by {
        if i < v.entries.len() {
            let e = v.entries[i];
            assert(v.entry_wf(e));
            if e.matches(id, source) {
                crate::weight::lemma_sum_exists(e.weight, weight);
                crate::weight::lemma_sum_grows(
                    e.weight,
                    weight,
                    crate::weight::sum(e.weight, weight),
                );
            }
        }
    }
    assert forall|i: int, j: int|
        #![trigger w.entries[i], w.entries[j]]
        0 <= i < w.entries.len() && 0 <= j < w.entries.len() && w.entries[i].matches(
            w.entries[j].id,
            w.entries[j].source,
        ) implies i == j by {
        if i < v.entries.len() && j < v.entries.len() {
            assert(v.entries[i].matches(v.entries[j].id, v.entries[j].source));
        }
    }
}

/// Trimming gives a well-formed lookback.
proof fn lemma_trimmed_wf(v: LookbackView)
    requires
        v.cap >= 1,
        v.clock is Some,
        keyed(v.entries),
        forall|i: int| 0 <= i < v.entries.len() ==> v.entry_wf(#[trigger] v.entries[i]),
    ensures
        v.trimmed().wf(),
{
    let t = v.trimmed();
    let now = v.clock->0;
    lemma_survivors_keyed(v.entries, v.boundaries, now, v.cap, v.n_buckets());
    lemma_survivors_fixed(
        v.entries,
        v.boundaries,
        now,
        v.cap,
        v.n_buckets(),
        v.n_buckets(),
    );
    assert forall|i: int| 0 <= i < t.entries.len() implies t.entry_wf(#[trigger] t.entries[i]) by {
        assert(v.entries.contains(t.entries[i]));
        let k = v.entries.index_of(t.entries[i]);
        assert(v.entry_wf(v.entries[k]));
    }
    assert(t.trimmed() == t);
}

/// Log-stride lookback. Owns a per-bucket cap and the bucket boundaries.
#[derive(Debug, Clone)]
pub struct LogStrideLookback {
    boundaries: Vec<Span>,
    bucket_cap: usize,
    /// Flat entry list. Bucketing is derived from `last_seen` on demand
    /// rather than stored, so there are no `(bucket, position)` indices to
    /// go stale behind an eviction.
    entries: Vec<Entry>,
    /// The newest timestamp observed so far: the reference "now" used to
    /// bucket entries in `snapshot`.
    clock: Option<Timestamp>,
}

impl View for LogStrideLookback {
    type V = LookbackView;

    closed spec fn view(&self) -> LookbackView {
        LookbackView {
            boundaries: self.boundaries@.map_values(|s: Span| s.total()),
            cap: self.bucket_cap as nat,
            entries: self.entries@.map_values(|e: Entry| e@),
            clock: self.clock,
        }
    }
}

impl LogStrideLookback {
    /// Build with the default boundaries (1m, 5m, 30m, 3h, 1d, 7d, 30d) and
    /// a per-bucket cap of 8. That gives at most 64 ids across all buckets:
    /// negligible memory, but spans the whole observable lifespan.
    pub fn new() -> (r: Self)
        ensures
            r@.wf(),
            r@ == LookbackView::fresh(DEFAULT_BOUNDARIES_SECONDS@, 8),
    {
        Self::with_config(DEFAULT_BOUNDARIES_SECONDS.as_slice(), 8)
    }

    /// Custom boundaries + per-bucket cap. The boundaries must be ascending;
    /// duplicates are tolerated but waste a bucket. A cap of 0 counts as 1.
    pub fn with_config(boundaries_seconds: &[i64], bucket_cap: usize) -> (r: Self)
        requires
            forall|i: int|
                0 <= i < boundaries_seconds@.len() ==> -crate::time::MAX_SPAN_SECONDS
                    <= #[trigger] boundaries_seconds@[i] <= crate::time::MAX_SPAN_SECONDS,
        ensures
            r@.wf(),
            r@ == LookbackView::fresh(boundaries_seconds@, bucket_cap as nat),
    {
        let mut boundaries: Vec<Span> = Vec::new();
        let mut i: usize = 0;
        while i < boundaries_seconds.len()
            invariant
                i <= boundaries_seconds.len(),
                boundaries.len() == i,
                forall|k: int|
                    0 <= k < boundaries_seconds@.len() ==> -crate::time::MAX_SPAN_SECONDS
                        <= #[trigger] boundaries_seconds@[k] <= crate::time::MAX_SPAN_SECONDS,
                forall|k: int|
                    0 <= k < i ==> (#[trigger] boundaries[k]).total() == boundaries_seconds@[k]
                        * 1_000_000_000,
            decreases boundaries_seconds.len() - i,
        {
            boundaries.push(Span::seconds(boundaries_seconds[i]));
            i = i + 1;
        }
        let r = LogStrideLookback {
            boundaries,
            bucket_cap: if bucket_cap == 0 {
                1
            } else {
                bucket_cap
            },
            entries: Vec::new(),
            clock: None,
        };
        assert(r@.boundaries =~= LookbackView::fresh(
            boundaries_seconds@,
            bucket_cap as nat,
        ).boundaries);
        assert(r@.entries =~= Seq::<EntryView>::empty());
        r
    }

    /// Record an observation at unit weight.
    ///
    /// `now` is passed in (rather than read from the clock inside) so
    /// callers can do exact-time test fixtures, and so replayed events
    /// bucket against the event timeline rather than wall clock.
    pub fn observe(&mut self, id: MemoryId, now: Timestamp)
        requires
            old(self)@.wf(),
        ensures
            final(self)@.wf(),
            final(self)@ == old(self)@.observed(
                id,
                None,
                now,
                Weight { bits: crate::weight::ONE_BITS },
            ),
    {
        self.observe_weighted(id, now, Weight::from_bits(crate::weight::ONE_BITS));
    }

    /// Record an observation carrying an explicit strength multiplier.
    ///
    /// `weight` is clamped to the documented `[0.01, 10.0]` range. Repeated
    /// observations accumulate, so a memory's standing in its bucket
    /// reflects both how often and how strongly it was attended.
    pub fn observe_weighted(&mut self, id: MemoryId, now: Timestamp, weight: Weight)
        requires
            old(self)@.wf(),
        ensures
            final(self)@.wf(),
            final(self)@ == old(self)@.observed(id, None, now, weight),
    {
        self.record(id, None, now, weight);
    }

    /// Record an observation keyed on `(source, id)` rather than `id` alone,
    /// so a left/right mirror pair accumulate their own weight and bucket
    /// placement independently instead of collapsing onto one entry.
    pub fn observe_keyed(&mut self, id: MemoryId, source: &str, now: Timestamp, weight: Weight)
        requires
            old(self)@.wf(),
        ensures
            final(self)@.wf(),
            final(self)@ == old(self)@.observed(id, Some(source@), now, weight),
    {
        self.record(id, Some(source), now, weight);
    }

    fn record(&mut self, id: MemoryId, source: Option<&str>, now: Timestamp, weight: Weight)
        requires
            old(self)@.wf(),
        ensures
            final(self)@.wf(),
            final(self)@ == old(self)@.observed(id, optional_str_view(source), now, weight),
    {
        let ghost v = self@;
        let ghost key = optional_str_view(source);
        let weight = sanitize_weight(weight);

        // The reference clock only moves forward. An out-of-order or
        // backdated event still updates its own entry, but must not drag
        // the whole structure back in time and un-age everything else.
        self.clock = Some(
            match self.clock {
                Some(prev) => prev.max(now),
                None => now,
            },
        );

        let mut i: usize = 0;
        while i < self.entries.len() && !self.entries[i].matches(id, source)
            invariant
                i <= self.entries.len(),
                key == optional_str_view(source),
                v.entries == self.entries@.map_values(|e: Entry| e@),
                forall|k: int| 0 <= k < i ==> !(#[trigger] v.entries[k]).matches(id, key),
            decreases self.entries.len() - i,
        {
            i = i + 1;
        }
        if i < self.entries.len() {
            assert(v.entry_wf(v.entries[i as int]));
            let last_seen = self.entries[i].last_seen.max(now);
            let total = self.entries[i].weight.plus(weight);
            self.entries[i].last_seen = last_seen;
            self.entries[i].weight = total;
        } else {
            self.entries.push(
                Entry {
                    id,
                    source: match source {
                        Some(s) => Some(s.to_owned()),
                        None => None,
                    },
                    first_seen: now,
                    last_seen: now,
                    weight,
                },
            );
        }
        proof {
            lemma_noted(v, id, key, now, weight);
            let after = noted(v.entries, id, key, now, weight);
            assert forall|k: int| 0 <= k < after.len() implies self@.entries[k] == #[trigger] after[k] by {
                if k < v.entries.len() && k != i {
                    assert(!v.entries[k].matches(id, key));
                }
            }
            assert(self@.entries =~= after);
        }
        self.enforce_caps();
    }

    /// The entries that belong in one bucket at a point in time.
    fn in_bucket(&self, now: Timestamp, bucket: usize) -> (r: Vec<&Entry>)
        ensures
            crate::order::views(r@) == in_bucket(
                self@.entries,
                self@.boundaries,
                now,
                bucket as int,
            ),
    {
        let ghost pass = |e: EntryView| bucket_of(self@.boundaries, now, e) == bucket;
        let mut out: Vec<&Entry> = Vec::new();
        let mut i: usize = 0;
        proof {
            reveal(Seq::filter);
            assert(crate::order::views(out@) =~= self@.entries.take(0).filter(pass));
        }
        while i < self.entries.len()
            invariant
                i <= self.entries.len(),
                pass == (|e: EntryView| bucket_of(self@.boundaries, now, e) == bucket),
                crate::order::views(out@) == self@.entries.take(i as int).filter(pass),
            decreases self.entries.len() - i,
        {
            let e: &Entry = &self.entries[i];
            let ghost before = out@;
            if Self::bucket_for_age(&self.boundaries, &now.since(e.last_seen)) == bucket {
                out.push(e);
                assert(crate::order::views(out@) =~= crate::order::views(before).push(e@));
            }
            proof {
                self@.entries.take(i as int).lemma_filter_push(e@, pass);
                assert(self@.entries.take(i + 1) =~= self@.entries.take(i as int).push(e@));
            }
            i = i + 1;
        }
        assert(self@.entries.take(i as int) =~= self@.entries);
        out
    }

    /// Drop the weakest entries from any over-cap bucket.
    ///
    /// Ranking within a bucket is `(weight desc, last_seen desc, id asc,
    /// source asc)`. Freshest wins a tie of weights, so a newcomer at unit
    /// weight is admitted to a bucket full of unit-weight residents.
    fn enforce_caps(&mut self)
        requires
            old(self)@.cap >= 1,
            keyed(old(self)@.entries),
            old(self)@.clock is None ==> old(self)@.entries.len() == 0,
            forall|i: int|
                0 <= i < old(self)@.entries.len() ==> old(self)@.entry_wf(
                    #[trigger] old(self)@.entries[i],
                ),
        ensures
            final(self)@ == old(self)@.trimmed(),
            final(self)@.wf(),
    {
        let now = match self.clock {
            Some(c) => c,
            None => {
                return ;
            },
        };
        let ghost v = self@;
        let cap = self.bucket_cap;
        let mut kept: Vec<Entry> = Vec::new();
        let mut bucket: usize = 0;
        loop
            invariant_except_break
                kept@.map_values(|e: Entry| e@) == survivors(
                    v.entries,
                    v.boundaries,
                    now,
                    v.cap,
                    bucket as nat,
                ),
            invariant
                v == self@,
                v.cap == cap,
                v.clock == Some(now),
                bucket <= self.boundaries.len(),
                self.boundaries.len() == v.boundaries.len(),
            ensures
                kept@.map_values(|e: Entry| e@) == v.trimmed().entries,
            decreases self.boundaries.len() - bucket,
        {
            let ghost before = kept@.map_values(|e: Entry| e@);
            let mine = self.in_bucket(now, bucket);
            let mut top = crate::order::rank(&ByStrength, mine);
            assert((|a: EntryView, b: EntryView| (&ByStrength).leads(a, b)) =~= by_strength());
            top.truncate(cap);
            let ghost chosen = strongest(v.entries, v.boundaries, now, v.cap, bucket as int);
            assert(crate::order::views(top@) =~= chosen);
            let mut i: usize = 0;
            while i < top.len()
                invariant
                    i <= top.len(),
                    crate::order::views(top@) == chosen,
                    kept@.map_values(|e: Entry| e@) == before + chosen.take(i as int),
                decreases top.len() - i,
            {
                let ghost so_far = kept@;
                kept.push(top[i].duplicate());
                assert(kept@.map_values(|e: Entry| e@) =~= so_far.map_values(|e: Entry| e@).push(
                    chosen[i as int],
                ));
                assert(before + chosen.take(i + 1) =~= (before + chosen.take(i as int)).push(
                    chosen[i as int],
                ));
                i = i + 1;
            }
            assert(chosen.take(i as int) =~= chosen);
            if bucket == self.boundaries.len() {
                break;
            }
            bucket = bucket + 1;
        }
        self.entries = kept;
        proof {
            lemma_trimmed_wf(v);
        }
    }

    fn bucket_for_age(boundaries: &Vec<Span>, age: &Span) -> (r: usize)
        ensures
            r == bucket_for_age(boundaries@.map_values(|s: Span| s.total()), age.total()),
    {
        let ghost limits = boundaries@.map_values(|s: Span| s.total());
        let mut i: usize = 0;
        assert(limits.skip(0) =~= limits);
        while i < boundaries.len()
            invariant
                i <= boundaries.len(),
                limits == boundaries@.map_values(|s: Span| s.total()),
                bucket_for_age(limits, age.total()) == i + bucket_for_age(
                    limits.skip(i as int),
                    age.total(),
                ),
            decreases boundaries.len() - i,
        {
            if age.is_shorter(&boundaries[i]) {
                return i;
            }
            assert(limits.skip(i as int).drop_first() =~= limits.skip(i + 1));
            i = i + 1;
        }
        i
    }

    /// Re-bucket every entry against `now` and re-apply the per-bucket caps.
    ///
    /// `observe` already does this on every call, so this is only needed
    /// when time has passed without any new observation and the caller
    /// wants aging reflected before reading [`snapshot`](Self::snapshot).
    /// It is idempotent.
    pub fn rebalance(&mut self, now: Timestamp)
        requires
            old(self)@.wf(),
        ensures
            final(self)@.wf(),
            final(self)@ == old(self)@.rebalanced(now),
    {
        let ghost v = self@;
        self.clock = Some(
            match self.clock {
                Some(prev) => prev.max(now),
                None => now,
            },
        );
        proof {
            assert(self@.entries == v.entries);
            assert forall|i: int| 0 <= i < self@.entries.len() implies self@.entry_wf(
                #[trigger] self@.entries[i],
            ) by {
                assert(v.entry_wf(v.entries[i]));
            }
        }
        self.enforce_caps();
    }

    /// Snapshot the lookback as a flat vec of memory ids, newest bucket
    /// first and newest first within each bucket.
    pub fn snapshot(&self) -> (r: Vec<MemoryId>)
        ensures
            r@ == self@.ids(),
    {
        let ghost v = self@;
        let ghost id_of = |e: EntryView| e.id;
        let mut out: Vec<MemoryId> = Vec::new();
        let now = match self.clock {
            Some(c) => c,
            None => {
                assert(out@ =~= v.ids());
                return out;
            },
        };
        let mut bucket: usize = 0;
        assert(out@ =~= reading(v.entries, v.boundaries, now, 0).map_values(id_of));
        loop
            invariant_except_break
                out@ == reading(v.entries, v.boundaries, now, bucket as nat).map_values(id_of),
            invariant
                v == self@,
                id_of == (|e: EntryView| e.id),
                v.clock == Some(now),
                bucket <= self.boundaries.len(),
                self.boundaries.len() == v.boundaries.len(),
            ensures
                out@ == v.ids(),
            decreases self.boundaries.len() - bucket,
        {
            let ghost before = out@;
            let mine = self.in_bucket(now, bucket);
            let fresh = crate::order::rank(&ByFreshness, mine);
            assert((|a: EntryView, b: EntryView| (&ByFreshness).leads(a, b)) =~= by_freshness());
            let ghost chosen = crate::order::ranked(
                in_bucket(v.entries, v.boundaries, now, bucket as int),
                by_freshness(),
            );
            let mut i: usize = 0;
            assert(out@ =~= before + chosen.take(0).map_values(id_of));
            while i < fresh.len()
                invariant
                    i <= fresh.len(),
                    id_of == (|e: EntryView| e.id),
                    crate::order::views(fresh@) == chosen,
                    out@ == before + chosen.take(i as int).map_values(id_of),
                decreases fresh.len() - i,
            {
                assert(fresh[i as int]@ == chosen[i as int]);
                out.push(fresh[i].id);
                i = i + 1;
                assert(out@ =~= before + chosen.take(i as int).map_values(id_of));
            }
            proof {
                let all = reading(v.entries, v.boundaries, now, (bucket + 1) as nat);
                assert(chosen.take(i as int) =~= chosen);
                assert(out@ =~= all.map_values(id_of));
            }
            if bucket == self.boundaries.len() {
                break;
            }
            bucket = bucket + 1;
        }
        out
    }

    /// Total entries across all buckets.
    pub fn len(&self) -> (r: usize)
        ensures
            r == self@.entries.len(),
    {
        self.entries.len()
    }

    /// True if empty.
    pub fn is_empty(&self) -> (r: bool)
        ensures
            r == (self@.entries.len() == 0),
    {
        self.entries.len() == 0
    }

    /// True if `id` is currently retained by the lookback.
    pub fn contains(&self, id: &MemoryId) -> (r: bool)
        ensures
            r == (exists|i: int|
                0 <= i < self@.entries.len() && (#[trigger] self@.entries[i]).id == *id),
    {
        let mut i: usize = 0;
        while i < self.entries.len()
            invariant
                i <= self.entries.len(),
                forall|k: int| 0 <= k < i ==> (#[trigger] self@.entries[k]).id != *id,
            decreases self.entries.len() - i,
        {
            if self.entries[i].id == *id {
                assert(self@.entries[i as int].id == *id);
                return true;
            }
            i = i + 1;
        }
        false
    }

    /// When `id` was first observed, if it is still retained: the earliest
    /// first sighting among the entries that are kept for it.
    pub fn first_seen(&self, id: &MemoryId) -> (r: Option<Timestamp>)
        ensures
            match r {
                Some(t) => {
                    &&& exists|i: int|
                        0 <= i < self@.entries.len() && (#[trigger] self@.entries[i]).id == *id
                            && self@.entries[i].first_seen == t
                    &&& forall|k: int|
                        0 <= k < self@.entries.len() && (#[trigger] self@.entries[k]).id == *id
                            ==> !self@.entries[k].first_seen.before(t)
                },
                None => forall|k: int|
                    0 <= k < self@.entries.len() ==> (#[trigger] self@.entries[k]).id != *id,
            },
    {
        let mut earliest: Option<Timestamp> = None;
        let mut i: usize = 0;
        while i < self.entries.len()
            invariant
                i <= self.entries.len(),
                match earliest {
                    Some(t) => {
                        &&& exists|k: int|
                            0 <= k < i && (#[trigger] self@.entries[k]).id == *id
                                && self@.entries[k].first_seen == t
                        &&& forall|k: int|
                            0 <= k < i && (#[trigger] self@.entries[k]).id == *id
                                ==> !self@.entries[k].first_seen.before(t)
                    },
                    None => forall|k: int| 0 <= k < i ==> (#[trigger] self@.entries[k]).id != *id,
                },
            decreases self.entries.len() - i,
        {
            let e: &Entry = &self.entries[i];
            assert(self@.entries[i as int] == e@);
            if e.id == *id {
                earliest = match earliest {
                    Some(t) => if e.first_seen.is_before(&t) {
                        Some(e.first_seen)
                    } else {
                        Some(t)
                    },
                    None => Some(e.first_seen),
                };
            }
            i = i + 1;
        }
        earliest
    }
}

impl Default for LogStrideLookback {
    fn default() -> (r: Self)
        ensures
            r@.wf(),
            r@ == LookbackView::fresh(DEFAULT_BOUNDARIES_SECONDS@, 8),
    {
        Self::new()
    }
}

/// The longer ago, the later the bucket.
pub proof fn law_older_is_later(boundaries: Seq<int>, age: int, older: int)
    requires
        age <= older,
    ensures
        bucket_for_age(boundaries, age) <= bucket_for_age(boundaries, older),
    decreases boundaries.len(),
{
    law_bucket_for_age(boundaries, older);
    if boundaries.len() > 0 && age >= boundaries[0] {
        law_older_is_later(boundaries.drop_first(), age, older);
    }
}

/// The clock of a lookback only moves forward: it ends up at the event or
/// where it was, whichever is later.
pub proof fn law_clock_moves_forward(
    v: LookbackView,
    id: MemoryId,
    source: Option<Seq<char>>,
    now: Timestamp,
    weight: Weight,
)
    ensures
        v.observed(id, source, now, weight).clock == Some(v.advanced(now)),
        v.rebalanced(now).clock == Some(v.advanced(now)),
        !v.advanced(now).before(now),
        v.clock matches Some(c) ==> !v.advanced(now).before(c),
        v.advanced(now) == now || v.clock == Some(v.advanced(now)),
{
}

/// Observing keeps a lookback well-formed.
pub proof fn law_observed_wf(
    v: LookbackView,
    id: MemoryId,
    source: Option<Seq<char>>,
    now: Timestamp,
    weight: Weight,
)
    requires
        v.wf(),
    ensures
        v.observed(id, source, now, weight).wf(),
{
    law_sanitized(weight);
    lemma_noted(v, id, source, now, sanitized(weight));
    lemma_trimmed_wf(
        LookbackView {
            clock: Some(v.advanced(now)),
            entries: noted(v.entries, id, source, now, sanitized(weight)),
            ..v
        },
    );
}

/// A bucket never holds more entries than its cap, so a lookback never holds
/// more than its cap times its buckets.
pub proof fn law_population(v: LookbackView, bucket: int)
    requires
        v.wf(),
        0 <= bucket < v.n_buckets(),
    ensures
        v.entries.len() <= v.cap * v.n_buckets(),
        v.clock matches Some(now) ==> in_bucket(v.entries, v.boundaries, now, bucket).len()
            <= v.cap,
{
    match v.clock {
        Some(now) => {
            lemma_survivors_count(v.entries, v.boundaries, now, v.cap, v.n_buckets());
            lemma_survivors_bucket(v.entries, v.boundaries, now, v.cap, v.n_buckets(), bucket);
            lemma_strongest(v.entries, v.boundaries, now, v.cap, bucket);
        },
        None => {
            assert(0 <= v.cap * v.n_buckets()) by (nonlinear_arith)
                requires
                    v.cap >= 0,
                    v.n_buckets() >= 0,
            ;
        },
    }
}

/// Rebalancing twice is rebalancing once.
pub proof fn law_rebalance_idempotent(v: LookbackView, now: Timestamp)
    ensures
        v.rebalanced(now).rebalanced(now) == v.rebalanced(now),
{
    let n = v.n_buckets();
    lemma_survivors_fixed(v.entries, v.boundaries, v.advanced(now), v.cap, n, n);
}

/// Rebalancing is only needed when time has passed: at the clock of the
/// lookback, or before it, nothing changes.
pub proof fn law_rebalance_settled(v: LookbackView, now: Timestamp)
    requires
        v.wf(),
        v.clock matches Some(c) && !c.before(now),
    ensures
        v.rebalanced(now) == v,
{
    crate::time::lemma_before_total(v.clock->0, now);
}

/// A backdated event does not set the clock back, and whatever else the
/// lookback keeps stays in the bucket in which it stood.
pub proof fn law_backdated(
    v: LookbackView,
    id: MemoryId,
    source: Option<Seq<char>>,
    now: Timestamp,
    weight: Weight,
    e: EntryView,
)
    requires
        v.wf(),
        v.clock matches Some(c) && now.before(c),
        v.observed(id, source, now, weight).entries.contains(e),
        !e.matches(id, source),
    ensures
        v.observed(id, source, now, weight).clock == v.clock,
        v.entries.contains(e),
        bucket_of(v.boundaries, v.observed(id, source, now, weight).clock->0, e) == bucket_of(
            v.boundaries,
            v.clock->0,
            e,
        ),
{
    law_observe_touches_one(v, id, source, now, weight, e);
}

/// What is kept after an observation, for another memory or another source,
/// is kept as it was.
pub proof fn law_observe_touches_one(
    v: LookbackView,
    id: MemoryId,
    source: Option<Seq<char>>,
    now: Timestamp,
    weight: Weight,
    e: EntryView,
)
    requires
        v.wf(),
        v.observed(id, source, now, weight).entries.contains(e),
        !e.matches(id, source),
    ensures
        v.entries.contains(e),
{
    let w = sanitized(weight);
    let after = noted(v.entries, id, source, now, w);
    law_sanitized(weight);
    lemma_noted(v, id, source, now, w);
    lemma_survivors_keyed(after, v.boundaries, v.advanced(now), v.cap, v.n_buckets());
    let kept = v.observed(id, source, now, weight).entries;
    let k = kept.index_of(e);
    assert(after.contains(kept[k]));
    let i = after.index_of(e);
    assert(v.entries[i] == e);
}

/// Re-observing a memory makes it fresh and keeps when it was first seen: if
/// it is still kept, its weight has grown by the observation, and at the
/// front of time it stands in the bucket for age zero.
pub proof fn law_reobserved(
    v: LookbackView,
    id: MemoryId,
    source: Option<Seq<char>>,
    now: Timestamp,
    weight: Weight,
    e: EntryView,
    f: EntryView,
)
    requires
        v.wf(),
        v.entries.contains(e),
        e.matches(id, source),
        v.observed(id, source, now, weight).entries.contains(f),
        f.matches(id, source),
    ensures
        f == e.bumped(now, sanitized(weight)),
        crate::weight::is_sum(e.weight, sanitized(weight), f.weight),
        f.first_seen == e.first_seen,
        f.last_seen == e.last_seen || f.last_seen == now,
        !f.last_seen.before(now),
        !f.last_seen.before(e.last_seen),
        f.weight.rank() >= e.weight.rank(),
        !now.before(v.clock->0) ==> bucket_of(
            v.boundaries,
            v.observed(id, source, now, weight).clock->0,
            f,
        ) == bucket_for_age(v.boundaries, 0),
{
    let w = sanitized(weight);
    let after = noted(v.entries, id, source, now, w);
    law_sanitized(weight);
    lemma_noted(v, id, source, now, w);
    lemma_survivors_keyed(after, v.boundaries, v.advanced(now), v.cap, v.n_buckets());
    let kept = v.observed(id, source, now, weight).entries;
    let k = kept.index_of(f);
    assert(after.contains(kept[k]));
    let h = v.entries.index_of(e);
    assert(v.entries[h].matches(id, source));
    assert(v.entry_wf(v.entries[h]));
    let i = after.index_of(f);
    assert(v.entries[i].matches(id, source));
    assert(v.entries[i].matches(v.entries[h].id, v.entries[h].source));
    crate::weight::lemma_sum_exists(e.weight, w);
    crate::weight::lemma_sum_grows(e.weight, w, crate::weight::sum(e.weight, w));
    if !now.before(v.clock->0) {
        crate::time::lemma_before_total(now, v.clock->0);
        crate::time::lemma_before_total(now, e.last_seen);
        assert(f.last_seen == now);
        assert(v.advanced(now) == now);
    }
}

/// An entry that was not there before stands for the one observation that
/// added it.
pub proof fn law_first_observed(
    v: LookbackView,
    id: MemoryId,
    source: Option<Seq<char>>,
    now: Timestamp,
    weight: Weight,
    f: EntryView,
)
    requires
        v.wf(),
        forall|i: int| 0 <= i < v.entries.len() ==> !(#[trigger] v.entries[i]).matches(id, source),
        v.observed(id, source, now, weight).entries.contains(f),
        f.matches(id, source),
    ensures
        f.first_seen == now,
        f.last_seen == now,
        f.weight == sanitized(weight),
{
    let w = sanitized(weight);
    let after = noted(v.entries, id, source, now, w);
    law_sanitized(weight);
    lemma_noted(v, id, source, now, w);
    lemma_survivors_keyed(after, v.boundaries, v.advanced(now), v.cap, v.n_buckets());
    let kept = v.observed(id, source, now, weight).entries;
    let k = kept.index_of(f);
    assert(after.contains(kept[k]));
    let i = after.index_of(f);
    if i < v.entries.len() {
        assert(!v.entries[i].matches(id, source));
    }
}

/// An observation, as a lookback is told of it.
pub struct Sighting {
    /// The memory.
    pub id: MemoryId,
    /// Where it was seen, if that is kept apart.
    pub source: Option<Seq<char>>,
    /// When it was seen.
    pub now: Timestamp,
    /// How strongly.
    pub weight: Weight,
}

/// The weights of the sightings of one memory and source.
pub open spec fn weights_of(
    sightings: Seq<Sighting>,
    id: MemoryId,
    source: Option<Seq<char>>,
) -> Seq<Weight>
    decreases sightings.len(),
{
    if sightings.len() == 0 {
        Seq::empty()
    } else {
        let rest = weights_of(sightings.drop_last(), id, source);
        let last = sightings.last();
        if last.id == id && last.source == source {
            rest.push(last.weight)
        } else {
            rest
        }
    }
}

/// `totals` is the running sum of `start` and of what the weights count for,
/// rounded after each.
pub open spec fn adds_up(start: Weight, weights: Seq<Weight>, totals: Seq<Weight>) -> bool {
    &&& totals.len() == weights.len() + 1
    &&& totals[0] == start
    &&& forall|i: int|
        0 <= i < weights.len() ==> crate::weight::is_sum(
            totals[i],
            sanitized(#[trigger] weights[i]),
            totals[i + 1],
        )
}

/// As long as a memory is kept, whatever else is observed in between, its
/// entry weighs what it weighed at first and all that its observations since
/// have counted for, added up.
pub proof fn law_weight_accumulates(
    states: Seq<LookbackView>,
    sightings: Seq<Sighting>,
    entries: Seq<EntryView>,
    id: MemoryId,
    source: Option<Seq<char>>,
)
    requires
        states.len() == sightings.len() + 1,
        entries.len() == states.len(),
        states[0].wf(),
        forall|i: int|
            0 <= i < sightings.len() ==> #[trigger] states[i + 1] == states[i].observed(
                sightings[i].id,
                sightings[i].source,
                sightings[i].now,
                sightings[i].weight,
            ),
        forall|i: int|
            0 <= i < states.len() ==> states[i].entries.contains(#[trigger] entries[i])
                && entries[i].matches(id, source),
    ensures
        exists|totals: Seq<Weight>| #[trigger]
            adds_up(entries[0].weight, weights_of(sightings, id, source), totals)
                && totals.last() == entries.last().weight,
        entries.last().first_seen == entries[0].first_seen,
        states.last().wf(),
    decreases sightings.len(),
{
    if sightings.len() > 0 {
        let n = sightings.len() - 1;
        let (s, t, e) = (states.drop_last(), sightings.drop_last(), entries.drop_last());
        assert forall|i: int| 0 <= i < t.len() implies #[trigger] s[i + 1] == s[i].observed(
            t[i].id,
            t[i].source,
            t[i].now,
            t[i].weight,
        ) by {
            assert(states[i + 1] == s[i + 1]);
        }
        assert forall|i: int| 0 <= i < s.len() implies s[i].entries.contains(#[trigger] e[i])
            && e[i].matches(id, source) by {
            assert(entries[i] == e[i]);
        }
        law_weight_accumulates(s, t, e, id, source);
        let (v, x, a, b) = (states[n], sightings[n], entries[n], entries[n + 1]);
        assert(s.last() == v && e.last() == a);
        assert(states[n + 1] == v.observed(x.id, x.source, x.now, x.weight));
        law_observed_wf(v, x.id, x.source, x.now, x.weight);
        let ws = weights_of(sightings, id, source);
        assert(e[0] == entries[0] && b == entries.last() && x == sightings.last());
        let totals = choose|totals: Seq<Weight>| #[trigger]
            adds_up(e[0].weight, weights_of(t, id, source), totals) && totals.last()
                == e.last().weight;
        if x.id == id && x.source == source {
            law_reobserved(v, id, source, x.now, x.weight, a, b);
            let more = totals.push(b.weight);
            let earlier = weights_of(t, id, source);
            assert(ws == earlier.push(x.weight));
            assert forall|i: int| 0 <= i < ws.len() implies crate::weight::is_sum(
                more[i],
                sanitized(#[trigger] ws[i]),
                more[i + 1],
            ) by {
                if i < earlier.len() {
                    assert(ws[i] == earlier[i]);
                }
            }
            assert(adds_up(entries[0].weight, ws, more));
        } else {
            law_observe_touches_one(v, x.id, x.source, x.now, x.weight, b);
            let (p, q) = (v.entries.index_of(a), v.entries.index_of(b));
            assert(v.entries[p].matches(v.entries[q].id, v.entries[q].source));
            assert(a == b);
            assert(adds_up(entries[0].weight, ws, totals));
        }
    } else {
        assert(adds_up(entries[0].weight, Seq::empty(), seq![entries[0].weight]));
        assert(weights_of(sightings, id, source) =~= Seq::<Weight>::empty());
    }
}

/// Which of two entries is stronger never depends on how they are compared.
proof fn lemma_strength_strict(a: EntryView, b: EntryView)
    requires
        strength_leq(a, b),
        strength_leq(b, a),
    ensures
        a.matches(b.id, b.source),
{
    if a.source is Some && b.source is Some {
        crate::text::lemma_text_total(a.source->0, b.source->0);
    }
}

/// True of the other entries that are stronger than `e`.
pub open spec fn outranks(e: EntryView) -> spec_fn(EntryView) -> bool {
    |f: EntryView| f != e && strength_leq(f, e)
}

/// The entries in the bucket of `e` that are stronger than `e`.
pub open spec fn rivals(v: LookbackView, now: Timestamp, e: EntryView) -> Seq<EntryView> {
    in_bucket(v.entries, v.boundaries, now, bucket_of(v.boundaries, now, e)).filter(outranks(e))
}

/// The entries of a bucket, strongest first, are those of the bucket, and
/// what is kept of them is what is kept of the bucket.
proof fn lemma_ranked_bucket(v: LookbackView, now: Timestamp, e: EntryView)
    requires
        v.clock == Some(now),
    ensures
        ({
            let b = bucket_of(v.boundaries, now, e);
            let mine = in_bucket(v.entries, v.boundaries, now, b);
            let r = crate::order::ranked(mine, by_strength());
            let s = strongest(v.entries, v.boundaries, now, v.cap, b);
            &&& vstd::relations::sorted_by(r, by_strength())
            &&& r.to_multiset() == mine.to_multiset()
            &&& mine.to_multiset().count(e) == v.entries.to_multiset().count(e)
            &&& r.contains(e) <==> v.entries.contains(e)
            &&& v.trimmed().entries.contains(e) <==> s.contains(e)
        }),
{
    broadcast use vstd::seq_lib::group_to_multiset_ensures;

    let b = bucket_of(v.boundaries, now, e);
    let pass = |f: EntryView| bucket_of(v.boundaries, now, f) == b;
    let mine = in_bucket(v.entries, v.boundaries, now, b);
    let r = crate::order::ranked(mine, by_strength());
    let s = strongest(v.entries, v.boundaries, now, v.cap, b);
    let kept = v.trimmed().entries;
    law_bucket_for_age(v.boundaries, crate::time::elapsed(now, e.last_seen));
    lemma_strength_order();
    crate::order::lemma_ranked_rearranges(mine, by_strength());
    crate::order::lemma_ranked_sorted(mine, by_strength());
    crate::order::lemma_filter_count(v.entries, pass, e);
    assert(r.contains(e) <==> r.to_multiset().count(e) > 0);
    assert(v.entries.contains(e) <==> v.entries.to_multiset().count(e) > 0);
    lemma_survivors_bucket(v.entries, v.boundaries, now, v.cap, v.n_buckets(), b);
    crate::order::lemma_filter_count(kept, pass, e);
    assert(kept.contains(e) <==> kept.to_multiset().count(e) > 0);
    assert(s.contains(e) <==> s.to_multiset().count(e) > 0);
}

/// The entries of a ranking that are stronger than the one at `k` are those
/// in front of it.
proof fn lemma_front_outranks(r: Seq<EntryView>, k: int)
    requires
        vstd::relations::sorted_by(r, by_strength()),
        0 <= k < r.len(),
        forall|i: int|
            0 <= i < r.len() && i != k ==> !(#[trigger] r[i]).matches(r[k].id, r[k].source),
    ensures
        r.filter(outranks(r[k])) == r.take(k),
{
    let e = r[k];
    let over = outranks(e);
    let (front, back) = (r.take(k), r.skip(k));
    assert(front + back =~= r);
    Seq::filter_distributes_over_add(front, back, over);
    assert forall|i: int| 0 <= i < front.len() implies over(#[trigger] front[i]) by {
        assert(!r[i].matches(e.id, e.source));
        assert(by_strength()(r[i], r[k]));
    }
    assert forall|i: int| 0 <= i < back.len() implies !over(#[trigger] back[i]) by {
        assert(back[i] == r[k + i]);
        if i > 0 {
            assert(by_strength()(r[k], r[k + i]));
            if strength_leq(back[i], e) {
                lemma_strength_strict(back[i], e);
            }
        }
    }
    crate::order::lemma_filter_uniform(front, over);
    crate::order::lemma_filter_uniform(back, over);
    assert(r.filter(over) =~= front);
}

/// Rearranging a sequence does not change how much of it passes a test.
proof fn lemma_filter_rearranged(
    s: Seq<EntryView>,
    t: Seq<EntryView>,
    pass: spec_fn(EntryView) -> bool,
)
    requires
        s.to_multiset() == t.to_multiset(),
    ensures
        s.filter(pass).len() == t.filter(pass).len(),
{
    let (a, b) = (s.filter(pass).to_multiset(), t.filter(pass).to_multiset());
    assert forall|x: EntryView| a.count(x) == b.count(x) by {
        crate::order::lemma_filter_count(s, pass, x);
        crate::order::lemma_filter_count(t, pass, x);
    }
    assert(a =~= b);
    vstd::seq_lib::to_multiset_len(s.filter(pass));
    vstd::seq_lib::to_multiset_len(t.filter(pass));
}

/// Cutting the buckets down keeps an entry if, and only if, there is such an
/// entry and fewer entries of its bucket are stronger than the bucket has
/// room for.
pub proof fn law_kept(v: LookbackView, now: Timestamp, e: EntryView)
    requires
        keyed(v.entries),
        v.clock == Some(now),
    ensures
        v.trimmed().entries.contains(e) <==> v.entries.contains(e) && rivals(v, now, e).len()
            < v.cap,
{
    let b = bucket_of(v.boundaries, now, e);
    let mine = in_bucket(v.entries, v.boundaries, now, b);
    let r = crate::order::ranked(mine, by_strength());
    let s = strongest(v.entries, v.boundaries, now, v.cap, b);
    lemma_ranked_bucket(v, now, e);
    if !v.entries.contains(e) {
        if s.contains(e) {
            assert(r[s.index_of(e)] == e);
        }
    } else {
        let k = r.index_of(e);
        assert forall|i: int| 0 <= i < r.len() && i != k implies !(#[trigger] r[i]).matches(
            e.id,
            e.source,
        ) by {
            if r[i].matches(e.id, e.source) {
                lemma_one_per_key(v, now, e, i);
            }
        }
        lemma_front_outranks(r, k);
        lemma_filter_rearranged(r, mine, outranks(e));
        if k < v.cap {
            assert(s[k] == e);
        } else if s.contains(e) {
            let i = s.index_of(e);
            assert(r[i] == e);
            lemma_one_per_key(v, now, e, i);
        }
    }
}

/// In the ranking of a bucket only one entry has the key of `e`.
proof fn lemma_one_per_key(v: LookbackView, now: Timestamp, e: EntryView, i: int)
    requires
        keyed(v.entries),
        v.clock == Some(now),
        v.entries.contains(e),
        ({
            let b = bucket_of(v.boundaries, now, e);
            let r = crate::order::ranked(
                in_bucket(v.entries, v.boundaries, now, b),
                by_strength(),
            );
            0 <= i < r.len() && r[i].matches(e.id, e.source)
        }),
    ensures
        ({
            let b = bucket_of(v.boundaries, now, e);
            let r = crate::order::ranked(
                in_bucket(v.entries, v.boundaries, now, b),
                by_strength(),
            );
            r.index_of(e) == i
        }),
{
    broadcast use vstd::seq_lib::group_to_multiset_ensures;

    let b = bucket_of(v.boundaries, now, e);
    let pass = |f: EntryView| bucket_of(v.boundaries, now, f) == b;
    let mine = in_bucket(v.entries, v.boundaries, now, b);
    let r = crate::order::ranked(mine, by_strength());
    lemma_ranked_bucket(v, now, e);
    let k = r.index_of(e);
    let x = r[i];
    assert(r.contains(x));
    crate::order::lemma_filter_count(v.entries, pass, x);
    assert(v.entries.to_multiset().count(x) > 0);
    assert(v.entries.contains(x));
    let (p, q) = (v.entries.index_of(x), v.entries.index_of(e));
    assert(v.entries[p].matches(v.entries[q].id, v.entries[q].source));
    assert(x == e);
    if i != k {
        lemma_twice(r, i, k);
        assert(v.entries.no_duplicates());
        v.entries.lemma_multiset_has_no_duplicates();
        assert(v.entries.to_multiset().contains(e));
    }
}

/// A bucket that has room for all its entries loses none.
pub proof fn law_room(v: LookbackView, now: Timestamp, e: EntryView)
    requires
        v.clock == Some(now),
        v.entries.contains(e),
        in_bucket(v.entries, v.boundaries, now, bucket_of(v.boundaries, now, e)).len() <= v.cap,
    ensures
        v.trimmed().entries.contains(e),
{
    let b = bucket_of(v.boundaries, now, e);
    let mine = in_bucket(v.entries, v.boundaries, now, b);
    lemma_ranked_bucket(v, now, e);
    vstd::seq_lib::to_multiset_len(crate::order::ranked(mine, by_strength()));
    vstd::seq_lib::to_multiset_len(mine);
}

/// A value that stands at two places is counted twice.
proof fn lemma_twice(s: Seq<EntryView>, i: int, j: int)
    requires
        0 <= i < s.len(),
        0 <= j < s.len(),
        i != j,
        s[i] == s[j],
    ensures
        s.to_multiset().count(s[i]) >= 2,
{
    broadcast use vstd::seq_lib::group_to_multiset_ensures;
    broadcast use vstd::multiset::group_multiset_axioms;

    let t = s.remove(i);
    assert(t[if j < i {
        j
    } else {
        j - 1
    }] == s[i]);
    assert(t.contains(s[i]));
    assert(t.to_multiset().count(s[i]) > 0);
}

/// What is dropped from a bucket is weaker than everything that the bucket
/// keeps.
pub proof fn law_dropped_are_weakest(
    v: LookbackView,
    now: Timestamp,
    dropped: EntryView,
    kept: EntryView,
)
    requires
        v.clock == Some(now),
        v.entries.contains(dropped),
        !v.trimmed().entries.contains(dropped),
        v.trimmed().entries.contains(kept),
        bucket_of(v.boundaries, now, dropped) == bucket_of(v.boundaries, now, kept),
    ensures
        strength_leq(kept, dropped),
{
    let b = bucket_of(v.boundaries, now, kept);
    let r = crate::order::ranked(in_bucket(v.entries, v.boundaries, now, b), by_strength());
    let s = strongest(v.entries, v.boundaries, now, v.cap, b);
    lemma_ranked_bucket(v, now, kept);
    lemma_ranked_bucket(v, now, dropped);
    let i = s.index_of(kept);
    let j = r.index_of(dropped);
    assert(r[i] == kept);
    if j < s.len() {
        assert(s[j] == dropped);
    }
    assert(by_strength()(r[i], r[j]));
}

/// A newcomer that is newer than everything seen so far is admitted, even to
/// a full bucket, as long as nothing in the bucket is heavier: freshest wins
/// a tie of weights.
pub proof fn law_newcomer_admitted(
    v: LookbackView,
    id: MemoryId,
    source: Option<Seq<char>>,
    now: Timestamp,
    weight: Weight,
)
    requires
        v.wf(),
        v.clock matches Some(c) ==> c.before(now),
        forall|i: int|
            0 <= i < v.entries.len() ==> {
                &&& !(#[trigger] v.entries[i]).matches(id, source)
                &&& bucket_of(v.boundaries, now, v.entries[i]) == bucket_for_age(v.boundaries, 0)
                    ==> v.entries[i].weight.rank() <= sanitized(weight).rank()
            },
    ensures
        v.observed(id, source, now, weight).entries.contains(
            EntryView {
                id,
                source,
                first_seen: now,
                last_seen: now,
                weight: sanitized(weight),
            },
        ),
{
    broadcast use vstd::seq_lib::group_to_multiset_ensures;

    let w = sanitized(weight);
    let e = EntryView { id, source, first_seen: now, last_seen: now, weight: w };
    let u = LookbackView {
        clock: Some(v.advanced(now)),
        entries: noted(v.entries, id, source, now, w),
        ..v
    };
    law_sanitized(weight);
    lemma_noted(v, id, source, now, w);
    assert(v.advanced(now) == now);
    assert(u.entries[v.entries.len() as int] == e);
    assert(u.entries.contains(e));
    law_kept(u, now, e);
    let b = bucket_of(v.boundaries, now, e);
    let pass = |f: EntryView| bucket_of(v.boundaries, now, f) == b;
    let over = outranks(e);
    let mine = in_bucket(u.entries, u.boundaries, now, b);
    assert forall|i: int| 0 <= i < mine.len() implies !over(#[trigger] mine[i]) by {
        let f = mine[i];
        assert(mine.contains(f));
        crate::order::lemma_filter_count(u.entries, pass, f);
        assert(u.entries.contains(f));
        let k = u.entries.index_of(f);
        if k < v.entries.len() {
            assert(v.entries[k] == f);
            assert(v.entry_wf(v.entries[k]));
        }
    }
    crate::order::lemma_filter_uniform(mine, over);
    assert(rivals(u, now, e) =~= Seq::<EntryView>::empty());
}

/// How often an entry is read out of the first `n` buckets.
proof fn lemma_reading_count(
    entries: Seq<EntryView>,
    boundaries: Seq<int>,
    now: Timestamp,
    n: nat,
    e: EntryView,
)
    ensures
        reading(entries, boundaries, now, n).to_multiset().count(e) == if bucket_of(
            boundaries,
            now,
            e,
        ) < n {
            entries.to_multiset().count(e)
        } else {
            0
        },
    decreases n,
{
    broadcast use vstd::multiset::group_multiset_axioms;
    broadcast use vstd::seq_lib::group_to_multiset_ensures;

    law_bucket_for_age(boundaries, crate::time::elapsed(now, e.last_seen));
    let all = reading(entries, boundaries, now, n);
    if n == 0 {
        assert(!all.contains(e));
    } else {
        let m = (n - 1) as nat;
        let pass = |f: EntryView| bucket_of(boundaries, now, f) == m;
        let mine = in_bucket(entries, boundaries, now, m as int);
        let last = crate::order::ranked(mine, by_freshness());
        lemma_reading_count(entries, boundaries, now, m, e);
        lemma_freshness_order();
        crate::order::lemma_ranked_rearranges(mine, by_freshness());
        crate::order::lemma_filter_count(entries, pass, e);
        vstd::seq_lib::lemma_multiset_commutative(reading(entries, boundaries, now, m), last);
    }
}

/// A snapshot reads out every entry once, and nothing else.
pub proof fn law_snapshot_complete(v: LookbackView)
    requires
        v.wf(),
    ensures
        v.read_out().to_multiset() == v.entries.to_multiset(),
        v.ids().len() == v.entries.len(),
        forall|id: MemoryId| #[trigger]
            v.ids().contains(id) <==> exists|i: int|
                0 <= i < v.entries.len() && (#[trigger] v.entries[i]).id == id,
{
    broadcast use vstd::seq_lib::group_to_multiset_ensures;

    let r = v.read_out();
    match v.clock {
        Some(now) => {
            assert forall|e: EntryView| r.to_multiset().count(e) == v.entries.to_multiset().count(
                e,
            ) by {
                lemma_reading_count(v.entries, v.boundaries, now, v.n_buckets(), e);
                law_bucket_for_age(v.boundaries, crate::time::elapsed(now, e.last_seen));
            }
        },
        None => {
            assert(r =~= v.entries);
        },
    }
    assert(r.to_multiset() =~= v.entries.to_multiset());
    vstd::seq_lib::to_multiset_len(r);
    vstd::seq_lib::to_multiset_len(v.entries);
    assert forall|id: MemoryId| #[trigger] v.ids().contains(id) <==> exists|i: int|
        0 <= i < v.entries.len() && (#[trigger] v.entries[i]).id == id by {
        if v.ids().contains(id) {
            let k = v.ids().index_of(id);
            assert(r.contains(r[k]));
            assert(v.entries.to_multiset().count(r[k]) > 0);
            assert(v.entries.contains(r[k]));
            assert(v.entries[v.entries.index_of(r[k])].id == id);
        }
        if exists|i: int| 0 <= i < v.entries.len() && (#[trigger] v.entries[i]).id == id {
            let i = choose|i: int| 0 <= i < v.entries.len() && (#[trigger] v.entries[i]).id == id;
            let e = v.entries[i];
            assert(v.entries.contains(e));
            assert(r.to_multiset().count(e) > 0);
            assert(r.contains(e));
            assert(v.ids()[r.index_of(e)] == id);
        }
    }
}

/// The first `n` buckets are read out in order.
proof fn lemma_reading_order(
    entries: Seq<EntryView>,
    boundaries: Seq<int>,
    now: Timestamp,
    n: nat,
)
    ensures
        ({
            let r = reading(entries, boundaries, now, n);
            &&& forall|i: int|
                0 <= i < r.len() ==> 0 <= bucket_of(boundaries, now, #[trigger] r[i]) < n
            &&& forall|i: int, j: int|
                #![trigger r[i], r[j]]
                0 <= i < j < r.len() ==> {
                    let (a, b) = (
                        bucket_of(boundaries, now, r[i]),
                        bucket_of(boundaries, now, r[j]),
                    );
                    a <= b && (a == b ==> freshness_leq(r[i], r[j]))
                }
        }),
    decreases n,
{
    broadcast use vstd::seq_lib::group_to_multiset_ensures;

    if n > 0 {
        let m = (n - 1) as nat;
        let pass = |f: EntryView| bucket_of(boundaries, now, f) == m;
        let mine = in_bucket(entries, boundaries, now, m as int);
        let before = reading(entries, boundaries, now, m);
        let last = crate::order::ranked(mine, by_freshness());
        let r = reading(entries, boundaries, now, n);
        lemma_reading_order(entries, boundaries, now, m);
        lemma_freshness_order();
        crate::order::lemma_ranked_rearranges(mine, by_freshness());
        crate::order::lemma_ranked_sorted(mine, by_freshness());
        assert forall|i: int| 0 <= i < last.len() implies bucket_of(
            boundaries,
            now,
            #[trigger] last[i],
        ) == m by {
            assert(last.contains(last[i]));
            crate::order::lemma_filter_count(entries, pass, last[i]);
            assert(last.to_multiset().count(last[i]) > 0);
        }
        assert forall|i: int| 0 <= i < r.len() implies 0 <= bucket_of(
            boundaries,
            now,
            #[trigger] r[i],
        ) < n by {
            if i < before.len() {
                assert(r[i] == before[i]);
            } else {
                assert(r[i] == last[i - before.len()]);
            }
        }
        assert forall|i: int, j: int|
            #![trigger r[i], r[j]]
            0 <= i < j < r.len() implies {
            let (a, b) = (bucket_of(boundaries, now, r[i]), bucket_of(boundaries, now, r[j]));
            a <= b && (a == b ==> freshness_leq(r[i], r[j]))
        } by {
            if j < before.len() {
                assert(r[i] == before[i] && r[j] == before[j]);
            } else {
                assert(r[j] == last[j - before.len()]);
                if i < before.len() {
                    assert(r[i] == before[i]);
                } else {
                    assert(r[i] == last[i - before.len()]);
                    assert(by_freshness()(last[i - before.len()], last[j - before.len()]));
                }
            }
        }
    }
}

/// A snapshot comes newest bucket first, and newest first within each bucket.
pub proof fn law_snapshot_order(v: LookbackView, now: Timestamp, i: int, j: int)
    requires
        v.clock == Some(now),
        0 <= i < j < v.read_out().len(),
    ensures
        bucket_of(v.boundaries, now, v.read_out()[i]) <= bucket_of(
            v.boundaries,
            now,
            v.read_out()[j],
        ),
        bucket_of(v.boundaries, now, v.read_out()[i]) == bucket_of(
            v.boundaries,
            now,
            v.read_out()[j],
        ) ==> freshness_leq(v.read_out()[i], v.read_out()[j]),
        v.ids().len() == v.read_out().len(),
        v.ids()[i] == v.read_out()[i].id,
        v.ids()[j] == v.read_out()[j].id,
{
    lemma_reading_order(v.entries, v.boundaries, now, v.n_buckets());
}

/// Outside of leap seconds, a whole snapshot comes newest first: of two
/// entries, whichever bucket they stand in, the one that is read out earlier
/// was not seen longer ago.
pub proof fn law_snapshot_newest_first(v: LookbackView, now: Timestamp, i: int, j: int)
    requires
        v.clock == Some(now),
        0 <= i < j < v.read_out().len(),
        now.nanoseconds() < 1_000_000_000,
        v.read_out()[i].last_seen.nanoseconds() < 1_000_000_000,
        v.read_out()[j].last_seen.nanoseconds() < 1_000_000_000,
    ensures
        !v.read_out()[i].last_seen.before(v.read_out()[j].last_seen),
{
    let (a, b) = (v.read_out()[i], v.read_out()[j]);
    law_snapshot_order(v, now, i, j);
    if a.last_seen.before(b.last_seen) {
        crate::time::law_elapsed_order(now, a.last_seen, b.last_seen);
        law_older_is_later(
            v.boundaries,
            crate::time::elapsed(now, b.last_seen),
            crate::time::elapsed(now, a.last_seen),
        );
    }
}

/// The rivals of an entry, as a set, are as many as they are in a row.
proof fn lemma_rivals_set(v: LookbackView, now: Timestamp, e: EntryView, set: Set<EntryView>)
    requires
        keyed(v.entries),
        v.clock == Some(now),
        forall|f: EntryView| #[trigger]
            set.contains(f) <==> {
                &&& v.entries.contains(f)
                &&& bucket_of(v.boundaries, now, f) == bucket_of(v.boundaries, now, e)
                &&& f != e
                &&& strength_leq(f, e)
            },
    ensures
        set.len() == rivals(v, now, e).len(),
{
    broadcast use vstd::seq_lib::group_to_multiset_ensures;

    let b = bucket_of(v.boundaries, now, e);
    let pass = |f: EntryView| bucket_of(v.boundaries, now, f) == b;
    let mine = in_bucket(v.entries, v.boundaries, now, b);
    let r = rivals(v, now, e);
    assert(v.entries.no_duplicates());
    v.entries.lemma_multiset_has_no_duplicates();
    assert forall|f: EntryView| #[trigger]
        r.to_multiset().count(f) == if set.contains(f) {
            v.entries.to_multiset().count(f)
        } else {
            0
        } by {
        crate::order::lemma_filter_count(v.entries, pass, f);
        crate::order::lemma_filter_count(mine, outranks(e), f);
        assert(v.entries.contains(f) <==> v.entries.to_multiset().count(f) > 0);
    }
    assert forall|f: EntryView| #[trigger] r.to_multiset().contains(f) implies r.to_multiset()
        .count(f) == 1 by {
        assert(v.entries.to_multiset().contains(f));
    }
    r.lemma_multiset_has_no_duplicates_conv();
    r.unique_seq_to_set();
    assert forall|f: EntryView| r.contains(f) <==> #[trigger] set.contains(f) by {
        assert(r.contains(f) <==> r.to_multiset().count(f) > 0);
        assert(v.entries.contains(f) <==> v.entries.to_multiset().count(f) > 0);
    }
    assert(set =~= r.to_set());
}

/// True of the entries that vie for a place after an observation: the one that
/// was observed, and those of every other memory or source as they were.
pub open spec fn contends(
    v: LookbackView,
    id: MemoryId,
    source: Option<Seq<char>>,
    touched: EntryView,
    f: EntryView,
) -> bool {
    f == touched || (v.entries.contains(f) && !f.matches(id, source))
}

/// What an observation leaves behind, in full: of the entry that was observed
/// and all others as they were, those that fewer stronger ones of the same age
/// are in front of than a bucket has room for. `touched` is the entry of the
/// memory and source after the observation, `before` the one before it.
pub proof fn law_observed_kept(
    v: LookbackView,
    id: MemoryId,
    source: Option<Seq<char>>,
    now: Timestamp,
    weight: Weight,
    before: Option<EntryView>,
    touched: EntryView,
    e: EntryView,
)
    requires
        v.wf(),
        touched.matches(id, source),
        match before {
            Some(d) => {
                &&& v.entries.contains(d)
                &&& d.matches(id, source)
                &&& touched.first_seen == d.first_seen
                &&& touched.last_seen == d.last_seen.later(now)
                &&& crate::weight::is_sum(d.weight, sanitized(weight), touched.weight)
            },
            None => {
                &&& forall|i: int|
                    0 <= i < v.entries.len() ==> !(#[trigger] v.entries[i]).matches(id, source)
                &&& touched.first_seen == now
                &&& touched.last_seen == now
                &&& touched.weight == sanitized(weight)
            },
        },
    ensures
        v.observed(id, source, now, weight).entries.contains(e) <==> contends(
            v,
            id,
            source,
            touched,
            e,
        ) && Set::new(
            |f: EntryView|
                {
                    &&& contends(v, id, source, touched, f)
                    &&& bucket_of(v.boundaries, v.advanced(now), f) == bucket_of(
                        v.boundaries,
                        v.advanced(now),
                        e,
                    )
                    &&& f != e
                    &&& strength_leq(f, e)
                },
        ).len() < v.cap,
        v.observed(id, source, now, weight).boundaries == v.boundaries,
        v.observed(id, source, now, weight).cap == v.cap,
{
    let w = sanitized(weight);
    let at = v.advanced(now);
    let u = LookbackView {
        clock: Some(at),
        entries: noted(v.entries, id, source, now, w),
        ..v
    };
    law_sanitized(weight);
    lemma_noted(v, id, source, now, w);
    match before {
        Some(d) => {
            let h = v.entries.index_of(d);
            assert(v.entries[h].matches(id, source));
            crate::weight::lemma_sum_unique(d.weight, w, touched.weight);
            assert(touched == d.bumped(now, w));
            assert(u.entries[h] == touched);
            assert forall|f: EntryView| u.entries.contains(f) <==> #[trigger] contends(
                v,
                id,
                source,
                touched,
                f,
            ) by {
                if u.entries.contains(f) {
                    let k = u.entries.index_of(f);
                    if v.entries[k].matches(id, source) {
                        assert(v.entries[k].matches(v.entries[h].id, v.entries[h].source));
                    } else {
                        assert(v.entries[k] == f);
                    }
                }
                if v.entries.contains(f) && !f.matches(id, source) {
                    assert(u.entries[v.entries.index_of(f)] == f);
                }
            }
        },
        None => {
            assert(u.entries == v.entries.push(touched));
            assert(u.entries[v.entries.len() as int] == touched);
            assert forall|f: EntryView| u.entries.contains(f) <==> #[trigger] contends(
                v,
                id,
                source,
                touched,
                f,
            ) by {
                if u.entries.contains(f) {
                    let k = u.entries.index_of(f);
                    if k < v.entries.len() {
                        assert(v.entries[k] == f);
                    }
                }
                if v.entries.contains(f) {
                    assert(u.entries[v.entries.index_of(f)] == f);
                }
            }
        },
    }
    let set = Set::new(
        |f: EntryView|
            {
                &&& contends(v, id, source, touched, f)
                &&& bucket_of(v.boundaries, at, f) == bucket_of(v.boundaries, at, e)
                &&& f != e
                &&& strength_leq(f, e)
            },
    );
    lemma_rivals_set(u, at, e, set);
    law_kept(u, at, e);
    assert(contends(v, id, source, touched, e) <==> u.entries.contains(e));
}

/// What the passing of time leaves behind, in full: of the entries as they
/// were, those that fewer stronger ones of the same age are in front of than a
/// bucket has room for.
pub proof fn law_rebalanced_kept(v: LookbackView, now: Timestamp, e: EntryView)
    requires
        v.wf(),
    ensures
        v.rebalanced(now).entries.contains(e) <==> v.entries.contains(e) && Set::new(
            |f: EntryView|
                {
                    &&& v.entries.contains(f)
                    &&& bucket_of(v.boundaries, v.advanced(now), f) == bucket_of(
                        v.boundaries,
                        v.advanced(now),
                        e,
                    )
                    &&& f != e
                    &&& strength_leq(f, e)
                },
        ).len() < v.cap,
        v.rebalanced(now).boundaries == v.boundaries,
        v.rebalanced(now).cap == v.cap,
{
    let at = v.advanced(now);
    let u = LookbackView { clock: Some(at), ..v };
    let set = Set::new(
        |f: EntryView|
            {
                &&& v.entries.contains(f)
                &&& bucket_of(v.boundaries, at, f) == bucket_of(v.boundaries, at, e)
                &&& f != e
                &&& strength_leq(f, e)
            },
    );
    lemma_rivals_set(u, at, e, set);
    law_kept(u, at, e);
}

/// An entry is the one for a memory and a source if it has that id and that
/// very source, and two entries of a lookback are never for the same.
pub proof fn law_one_entry_per_key(
    v: LookbackView,
    e: EntryView,
    f: EntryView,
    id: MemoryId,
    source: Option<Seq<char>>,
)
    requires
        v.wf(),
        v.entries.contains(e),
        v.entries.contains(f),
    ensures
        e.matches(id, source) <==> e.id == id && e.source == source,
        e.id == f.id && e.source == f.source ==> e == f,
        v.entries.no_duplicates(),
{
    let (i, j) = (v.entries.index_of(e), v.entries.index_of(f));
    assert(v.entries[i] == e && v.entries[j] == f);
    if e.id == f.id && e.source == f.source {
        assert(v.entries[i].matches(v.entries[j].id, v.entries[j].source));
    }
}

/// The bucket of an entry goes by when it was last seen: it is as old as the
/// boundaries of all earlier buckets, and not as old as its own.
pub proof fn law_bucket_of(boundaries: Seq<int>, now: Timestamp, e: EntryView)
    ensures
        0 <= bucket_of(boundaries, now, e) <= boundaries.len(),
        forall|k: int|
            0 <= k < bucket_of(boundaries, now, e) ==> crate::time::elapsed(now, e.last_seen)
                >= #[trigger] boundaries[k],
        bucket_of(boundaries, now, e) < boundaries.len() ==> crate::time::elapsed(
            now,
            e.last_seen,
        ) < boundaries[bucket_of(boundaries, now, e)],
{
    law_bucket_for_age(boundaries, crate::time::elapsed(now, e.last_seen));
}

/// Of two entries, both of which amount to something, the one worth more is
/// the stronger; of equal worth, the one seen later; seen at the same time,
/// the one with the lower id; with the same id, the one whose source stands
/// first, no source before any.
pub proof fn law_strength(a: EntryView, b: EntryView)
    requires
        a.weight.amount(),
        b.weight.amount(),
    ensures
        a.weight.value() > b.weight.value() ==> strength_leq(a, b) && !strength_leq(b, a),
        a.weight.value() == b.weight.value() && b.last_seen.before(a.last_seen) ==> strength_leq(
            a,
            b,
        ) && !strength_leq(b, a),
        a.weight.value() == b.weight.value() && a.last_seen == b.last_seen && a.id.bits
            < b.id.bits ==> strength_leq(a, b) && !strength_leq(b, a),
        a.weight.value() == b.weight.value() && a.last_seen == b.last_seen && a.id == b.id ==> (
        strength_leq(a, b) <==> match (a.source, b.source) {
            (None, _) => true,
            (Some(_), None) => false,
            (Some(x), Some(y)) => crate::text::text_leq(x, y),
        }),
{
    crate::weight::lemma_value_order(a.weight, b.weight);
    crate::weight::lemma_value_order(b.weight, a.weight);
    crate::time::law_before(a.last_seen, b.last_seen);
}

/// Of two entries, both of which amount to something, the one seen later is
/// read out first; seen at the same time, the one worth more; of equal worth,
/// the one with the lower id; with the same id, the one whose source stands
/// first, no source before any.
pub proof fn law_freshness(a: EntryView, b: EntryView)
    requires
        a.weight.amount(),
        b.weight.amount(),
    ensures
        b.last_seen.before(a.last_seen) ==> freshness_leq(a, b) && !freshness_leq(b, a),
        a.last_seen == b.last_seen && a.weight.value() > b.weight.value() ==> freshness_leq(a, b)
            && !freshness_leq(b, a),
        a.last_seen == b.last_seen && a.weight.value() == b.weight.value() && a.id.bits
            < b.id.bits ==> freshness_leq(a, b) && !freshness_leq(b, a),
        a.last_seen == b.last_seen && a.weight.value() == b.weight.value() && a.id == b.id ==> (
        freshness_leq(a, b) <==> match (a.source, b.source) {
            (None, _) => true,
            (Some(_), None) => false,
            (Some(x), Some(y)) => crate::text::text_leq(x, y),
        }),
{
    crate::weight::lemma_value_order(a.weight, b.weight);
    crate::weight::lemma_value_order(b.weight, a.weight);
    crate::time::law_before(a.last_seen, b.last_seen);
}

/// A new lookback has the boundaries that it was given, in nanoseconds, and
/// room for at least one entry in each bucket.
pub proof fn law_fresh(boundaries_seconds: Seq<i64>, bucket_cap: nat, k: int)
    ensures
        LookbackView::fresh(boundaries_seconds, bucket_cap).boundaries.len()
            == boundaries_seconds.len(),
        0 <= k < boundaries_seconds.len() ==> LookbackView::fresh(
            boundaries_seconds,
            bucket_cap,
        ).boundaries[k] == boundaries_seconds[k] * 1_000_000_000,
        bucket_cap >= 1 ==> LookbackView::fresh(boundaries_seconds, bucket_cap).cap == bucket_cap,
        bucket_cap == 0 ==> LookbackView::fresh(boundaries_seconds, bucket_cap).cap == 1,
        LookbackView::fresh(boundaries_seconds, bucket_cap).entries.len() == 0,
        LookbackView::fresh(boundaries_seconds, bucket_cap).clock is None,
{
}

/// Outside of leap seconds, a memory that is observed later than anything
/// before it, and kept, is the first that a snapshot names.
pub proof fn law_newest_leads(
    v: LookbackView,
    id: MemoryId,
    source: Option<Seq<char>>,
    now: Timestamp,
    weight: Weight,
    f: EntryView,
)
    requires
        v.wf(),
        v.clock matches Some(c) ==> c.before(now),
        now.nanoseconds() < 1_000_000_000,
        forall|i: int|
            0 <= i < v.entries.len() ==> (#[trigger] v.entries[i]).last_seen.nanoseconds()
                < 1_000_000_000,
        v.observed(id, source, now, weight).entries.contains(f),
        f.matches(id, source),
    ensures
        v.observed(id, source, now, weight).ids().len() > 0,
        v.observed(id, source, now, weight).ids()[0] == id,
{
    broadcast use vstd::seq_lib::group_to_multiset_ensures;

    let u = v.observed(id, source, now, weight);
    let r = u.read_out();
    law_observed_wf(v, id, source, now, weight);
    law_clock_moves_forward(v, id, source, now, weight);
    law_snapshot_complete(u);
    assert(u.clock == Some(now));
    if exists|i: int| 0 <= i < v.entries.len() && (#[trigger] v.entries[i]).matches(id, source) {
        let i = choose|i: int|
            0 <= i < v.entries.len() && (#[trigger] v.entries[i]).matches(id, source);
        assert(v.entries.contains(v.entries[i]));
        assert(v.entry_wf(v.entries[i]));
        law_reobserved(v, id, source, now, weight, v.entries[i], f);
    } else {
        law_first_observed(v, id, source, now, weight, f);
    }
    assert(f.last_seen == now);
    assert(u.entries.to_multiset().count(f) > 0);
    assert(r.contains(f));
    let k = r.index_of(f);
    let g = r[0];
    assert(r.contains(g));
    assert(u.entries.to_multiset().count(g) > 0);
    assert(u.entries.contains(g));
    if k > 0 {
        if !g.matches(id, source) {
            law_observe_touches_one(v, id, source, now, weight, g);
            let h = v.entries.index_of(g);
            assert(v.entry_wf(v.entries[h]));
            assert(g.last_seen.before(now));
            law_snapshot_newest_first(u, now, 0, k);
        }
    }
    assert(u.ids()[0] == g.id);
}

/// The range of what an observation counts for is that from the number nearest
/// to a hundredth to ten, counted in units of 2^-149.
pub proof fn law_weight_range()
    ensures
        crate::weight::nearest(
            vstd::arithmetic::power2::pow2(149) as int,
            100,
            MIN_OBSERVATION_WEIGHT as int,
        ),
        (Weight { bits: MAX_OBSERVATION_WEIGHT }).value() == 10
            * vstd::arithmetic::power2::pow2(149),
{
    crate::weight::lemma_hundredth();
    crate::weight::lemma_two_and_ten();
}

} // verus!
