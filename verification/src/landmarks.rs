//! Landmark set: the block-summary primitive.
//!
//! Landmarks are cluster exemplars: the canonical memory of each cluster of
//! the host medium. This module is a thin owner for them. The host wires
//! them in from outside; it is intentionally not a redo of the clustering,
//! which the medium owns.

use crate::ident::MemoryId;
use crate::order::Ranking;
use crate::weight::Weight;
use vstd::prelude::*;

verus! {

/// One landmark: a cluster exemplar.
#[derive(Debug, Clone)]
pub struct Landmark {
    /// The memory id of the exemplar.
    pub id: MemoryId,
    /// Stable label for the cluster this exemplar represents (free-form).
    pub cluster_label: String,
    /// Importance hint provided by the medium. Higher = include before
    /// lower-importance landmarks when the beam is tight. Default to 1.0.
    pub weight: Weight,
}

/// What a landmark says.
pub struct LandmarkView {
    /// The memory id of the exemplar.
    pub id: MemoryId,
    /// The label of the cluster.
    pub label: Seq<char>,
    /// The importance of the landmark.
    pub weight: Weight,
}

impl View for Landmark {
    type V = LandmarkView;

    open spec fn view(&self) -> LandmarkView {
        LandmarkView { id: self.id, label: self.cluster_label@, weight: self.weight }
    }
}

impl LandmarkView {
    /// The landmark as it is kept: an importance that is not finite counts
    /// as 1.0.
    pub open spec fn sanitized(self) -> LandmarkView {
        if self.weight.finite() {
            self
        } else {
            LandmarkView { weight: Weight { bits: crate::weight::ONE_BITS }, ..self }
        }
    }
}

/// `a` stands strictly before `b` by label.
pub open spec fn label_before(a: LandmarkView, b: LandmarkView) -> bool {
    a.label != b.label && crate::text::text_leq(a.label, b.label)
}

/// By ascending label, no label twice.
pub open spec fn by_label() -> spec_fn(LandmarkView, LandmarkView) -> bool {
    |a: LandmarkView, b: LandmarkView| label_before(a, b)
}

/// Heaviest first.
pub open spec fn by_weight() -> spec_fn(LandmarkView, LandmarkView) -> bool {
    |a: LandmarkView, b: LandmarkView| a.weight.rank() >= b.weight.rank()
}

/// `s` holds the landmarks of `m`, by ascending label.
pub open spec fn lists(m: Map<Seq<char>, LandmarkView>, s: Seq<LandmarkView>) -> bool {
    &&& vstd::relations::sorted_by(s, by_label())
    &&& forall|i: int|
        0 <= i < s.len() ==> m.contains_key((#[trigger] s[i]).label) && m[s[i].label] == s[i]
    &&& forall|l: Seq<char>| #[trigger]
        m.contains_key(l) ==> exists|i: int| 0 <= i < s.len() && (#[trigger] s[i]).label == l
}

/// The landmarks of `m`, by ascending label.
pub open spec fn listing(m: Map<Seq<char>, LandmarkView>) -> Seq<LandmarkView> {
    choose|s: Seq<LandmarkView>| lists(m, s)
}

/// The landmarks of `m`: heaviest first, ties by ascending label.
pub open spec fn heaviest_first(m: Map<Seq<char>, LandmarkView>) -> Seq<LandmarkView> {
    crate::order::ranked(listing(m), by_weight())
}

/// The ids of the landmarks of `m`: heaviest first, ties by ascending label.
pub open spec fn weight_order(m: Map<Seq<char>, LandmarkView>) -> Seq<MemoryId> {
    heaviest_first(m).map_values(|l: LandmarkView| l.id)
}

/// The landmarks of `m` whose exemplar is not `id`.
pub open spec fn dropping(m: Map<Seq<char>, LandmarkView>, id: MemoryId) -> Map<
    Seq<char>,
    LandmarkView,
> {
    m.restrict(Set::new(|l: Seq<char>| m.contains_key(l) && m[l].id != id))
}

/// The landmarks after `l` is registered: it takes the place of whatever its
/// cluster had, and of the same exemplar under any other label.
pub open spec fn upserted(m: Map<Seq<char>, LandmarkView>, l: LandmarkView) -> Map<
    Seq<char>,
    LandmarkView,
> {
    dropping(m, l.id).insert(l.label, l.sanitized())
}

/// What holds of every set of landmarks: each is filed under its own label,
/// has a finite weight, and no exemplar is filed twice.
pub open spec fn landmarks_wf(m: Map<Seq<char>, LandmarkView>) -> bool {
    &&& m.dom().finite()
    &&& forall|l: Seq<char>| #[trigger]
        m.contains_key(l) ==> m[l].label == l && m[l].weight.finite()
    &&& forall|a: Seq<char>, b: Seq<char>|
        #![trigger m[a], m[b]]
        m.contains_key(a) && m.contains_key(b) && m[a].id == m[b].id ==> a == b
}

/// Heaviest first.
pub struct ByWeight;

/// The order by weight is a total preorder.
proof fn lemma_weight_order()
    ensures
        crate::order::total_preorder(by_weight()),
{
}

impl Ranking for ByWeight {
    type Item = Landmark;

    open spec fn leads(&self, a: LandmarkView, b: LandmarkView) -> bool {
        a.weight.rank() >= b.weight.rank()
    }

    proof fn lemma_total(&self) {
        lemma_weight_order();
        assert((|a: LandmarkView, b: LandmarkView| self.leads(a, b)) =~= by_weight());
    }

    fn may_lead(&self, a: &Landmark, b: &Landmark) -> bool {
        a.weight.order() >= b.weight.order()
    }
}

/// The labels of a sequence of landmarks.
pub open spec fn labels(s: Seq<LandmarkView>) -> Seq<Seq<char>> {
    s.map_values(|l: LandmarkView| l.label)
}

proof fn lemma_text_ordering()
    ensures
        vstd::relations::total_ordering(
            |a: Seq<char>, b: Seq<char>| crate::text::text_leq(a, b),
        ),
{
    let leq = |a: Seq<char>, b: Seq<char>| crate::text::text_leq(a, b);
    assert forall|a: Seq<char>, b: Seq<char>| #[trigger] leq(a, b) || #[trigger] leq(b, a) by {
        crate::text::lemma_text_total(a, b);
    }
    assert forall|a: Seq<char>| #[trigger] leq(a, a) by {
        crate::text::lemma_text_total(a, a);
    }
    assert forall|a: Seq<char>, b: Seq<char>| #[trigger]
        leq(a, b) && #[trigger] leq(b, a) implies a == b by {
        crate::text::lemma_text_total(a, b);
    }
    assert forall|a: Seq<char>, b: Seq<char>, c: Seq<char>| #[trigger]
        leq(a, b) && #[trigger] leq(b, c) implies leq(a, c) by {
        crate::text::lemma_text_transitive(a, b, c);
    }
}

/// There is only one way to list the landmarks by label.
pub proof fn lemma_listing_unique(
    m: Map<Seq<char>, LandmarkView>,
    s: Seq<LandmarkView>,
    t: Seq<LandmarkView>,
)
    requires
        lists(m, s),
        lists(m, t),
    ensures
        s == t,
{
    let leq = |a: Seq<char>, b: Seq<char>| crate::text::text_leq(a, b);
    let (x, y) = (labels(s), labels(t));
    lemma_text_ordering();
    lemma_listed_labels(m, s);
    lemma_listed_labels(m, t);
    assert(x.to_multiset() =~= y.to_multiset()) by {
        broadcast use vstd::seq_lib::group_to_multiset_ensures;
        broadcast use vstd::multiset::group_multiset_axioms;

        x.lemma_multiset_has_no_duplicates();
        y.lemma_multiset_has_no_duplicates();
        assert forall|l: Seq<char>| x.to_multiset().count(l) == y.to_multiset().count(l) by {
            assert(x.contains(l) <==> y.contains(l));
            if x.contains(l) {
                assert(x.to_multiset().contains(l));
                assert(y.to_multiset().contains(l));
            }
        }
    }
    vstd::seq_lib::lemma_sorted_unique(x, y, leq);
    assert forall|i: int| 0 <= i < s.len() implies s[i] == t[i] by {
        assert(x[i] == y[i]);
        assert(m[s[i].label] == s[i]);
        assert(m[t[i].label] == t[i]);
    }
    assert(s.len() == x.len() && t.len() == y.len());
    assert(s =~= t);
}

/// The labels of a listing are the keys, in order, each once.
proof fn lemma_listed_labels(m: Map<Seq<char>, LandmarkView>, s: Seq<LandmarkView>)
    requires
        lists(m, s),
    ensures
        labels(s).no_duplicates(),
        vstd::relations::sorted_by(
            labels(s),
            |a: Seq<char>, b: Seq<char>| crate::text::text_leq(a, b),
        ),
        forall|l: Seq<char>| #[trigger] labels(s).contains(l) <==> m.contains_key(l),
{
    let x = labels(s);
    let leq = |a: Seq<char>, b: Seq<char>| crate::text::text_leq(a, b);
    assert forall|i: int, j: int| 0 <= i < j < x.len() implies #[trigger] leq(x[i], x[j])
        && x[i] != x[j] by {
        assert(by_label()(s[i], s[j]));
    }
    assert forall|i: int, j: int| 0 <= i < x.len() && 0 <= j < x.len() && i != j implies x[i]
        != x[j] by {
        let (a, b) = if i < j {
            (i, j)
        } else {
            (j, i)
        };
        assert(leq(x[a], x[b]) && x[a] != x[b]);
    }
    assert forall|l: Seq<char>| #[trigger] x.contains(l) <==> m.contains_key(l) by {
        if m.contains_key(l) {
            let i = choose|i: int| 0 <= i < s.len() && (#[trigger] s[i]).label == l;
            assert(x[i] == l);
        }
        if x.contains(l) {
            let i = x.index_of(l);
            assert(s[i].label == l);
        }
    }
}

/// The map of a sequence of landmarks, by label.
pub open spec fn map_of(s: Seq<LandmarkView>) -> Map<Seq<char>, LandmarkView> {
    Map::new(
        |l: Seq<char>| labels(s).contains(l),
        |l: Seq<char>| s[labels(s).index_of(l)],
    )
}

/// A sequence by ascending label lists its own map.
proof fn lemma_map_of(s: Seq<LandmarkView>)
    requires
        vstd::relations::sorted_by(s, by_label()),
    ensures
        lists(map_of(s), s),
        listing(map_of(s)) == s,
        map_of(s).dom().finite(),
        map_of(s).len() == s.len(),
{
    let m = map_of(s);
    let x = labels(s);
    assert forall|i: int| 0 <= i < s.len() implies m.contains_key((#[trigger] s[i]).label)
        && m[s[i].label] == s[i] by {
        assert(x[i] == s[i].label);
        let k = x.index_of(s[i].label);
        assert(x[k] == s[k].label);
        if k < i {
            assert(by_label()(s[k], s[i]));
        }
        if i < k {
            assert(by_label()(s[i], s[k]));
        }
    }
    assert forall|l: Seq<char>| #[trigger] m.contains_key(l) implies exists|i: int|
        0 <= i < s.len() && (#[trigger] s[i]).label == l by {
        let k = x.index_of(l);
        assert(s[k].label == l);
    }
    assert(lists(m, s));
    lemma_listing_unique(m, s, listing(m));
    lemma_listed_labels(m, s);
    assert(m.dom() =~= x.to_set());
    x.unique_seq_to_set();
    vstd::seq_lib::seq_to_set_is_finite(x);
}

/// What passes a test stays in order.
proof fn lemma_filter_sorted(s: Seq<LandmarkView>, pass: spec_fn(LandmarkView) -> bool)
    requires
        vstd::relations::sorted_by(s, by_label()),
    ensures
        vstd::relations::sorted_by(s.filter(pass), by_label()),
        forall|e: LandmarkView| #[trigger]
            s.filter(pass).contains(e) <==> s.contains(e) && pass(e),
    decreases s.len(),
{
    broadcast use vstd::seq_lib::group_to_multiset_ensures;

    let f = s.filter(pass);
    assert forall|e: LandmarkView| #[trigger] f.contains(e) <==> s.contains(e) && pass(e) by {
        crate::order::lemma_filter_count(s, pass, e);
        assert(f.contains(e) <==> f.to_multiset().count(e) > 0);
        assert(s.contains(e) <==> s.to_multiset().count(e) > 0);
    }
    if s.len() == 0 {
        reveal(Seq::filter);
    } else {
        let t = s.drop_last();
        let x = s.last();
        lemma_filter_sorted(t, pass);
        t.lemma_filter_push(x, pass);
        assert(t.push(x) =~= s);
        let g = t.filter(pass);
        assert forall|i: int, j: int| 0 <= i < j < f.len() implies #[trigger] by_label()(
            f[i],
            f[j],
        ) by {
            if j < g.len() {
                assert(by_label()(g[i], g[j]));
            } else {
                assert(g.contains(g[i]));
                let k = t.index_of(g[i]);
                assert(by_label()(s[k], s[s.len() - 1]));
            }
        }
    }
}

/// Filing a landmark in its place gives the map with the landmark in it.
proof fn lemma_upserted(s: Seq<LandmarkView>, l: LandmarkView, f: Seq<LandmarkView>, j: int)
    requires
        vstd::relations::sorted_by(s, by_label()),
        f == s.filter(|e: LandmarkView| e.id != l.id && e.label != l.label),
        0 <= j <= f.len(),
        forall|i: int| 0 <= i < j ==> crate::text::text_leq((#[trigger] f[i]).label, l.label),
        j < f.len() ==> crate::text::text_leq(l.label, f[j].label),
        landmarks_wf(map_of(s)),
        l.weight.finite(),
    ensures
        vstd::relations::sorted_by(f.insert(j, l), by_label()),
        map_of(f.insert(j, l)) == upserted(map_of(s), l),
        landmarks_wf(map_of(f.insert(j, l))),
{
    let pass = |e: LandmarkView| e.id != l.id && e.label != l.label;
    let t = f.insert(j, l);
    lemma_filter_sorted(s, pass);
    assert forall|a: int, b: int| 0 <= a < b < t.len() implies #[trigger] by_label()(
        t[a],
        t[b],
    ) by {
        if a == j {
            assert(t[b] == f[b - 1]);
            assert(f.contains(f[b - 1]));
            assert(f.contains(f[j]));
            if b - 1 > j {
                assert(by_label()(f[j], f[b - 1]));
                crate::text::lemma_text_transitive(l.label, f[j].label, f[b - 1].label);
            }
        } else if b == j {
            assert(t[a] == f[a]);
            assert(f.contains(f[a]));
        } else {
            let a0 = if a < j {
                a
            } else {
                a - 1
            };
            let b0 = if b < j {
                b
            } else {
                b - 1
            };
            assert(by_label()(f[a0], f[b0]));
        }
    }
    lemma_map_of(s);
    lemma_map_of(t);
    let m = map_of(s);
    let u = upserted(m, l);
    let n = map_of(t);
    lemma_listed_labels(m, s);
    lemma_listed_labels(n, t);
    assert forall|k: Seq<char>| #[trigger] n.contains_key(k) <==> u.contains_key(k) by {
        if k == l.label {
            assert(t[j].label == k);
        } else {
            if n.contains_key(k) {
                let i = choose|i: int| 0 <= i < t.len() && (#[trigger] t[i]).label == k;
                let e = t[i];
                assert(e == f[if i < j {
                    i
                } else {
                    i - 1
                }]);
                assert(f.contains(e));
                let h = s.index_of(e);
                assert(s[h] == e);
            }
            if u.contains_key(k) {
                let h = choose|h: int| 0 <= h < s.len() && (#[trigger] s[h]).label == k;
                assert(s.contains(s[h]));
                assert(f.contains(s[h]));
                let i = f.index_of(s[h]);
                assert(t[if i < j {
                    i
                } else {
                    i + 1
                }] == s[h]);
            }
        }
    }
    assert forall|k: Seq<char>| #[trigger] n.contains_key(k) implies n[k] == u[k] by {
        let i = choose|i: int| 0 <= i < t.len() && (#[trigger] t[i]).label == k;
        if i != j {
            let e = t[i];
            assert(e == f[if i < j {
                i
            } else {
                i - 1
            }]);
            assert(f.contains(e));
            let h = s.index_of(e);
            assert(s[h] == e);
        } else {
            assert(t[j] == l);
        }
    }
    assert(n =~= u);
    assert forall|k: Seq<char>| #[trigger] n.contains_key(k) implies n[k].label == k
        && n[k].weight.finite() by {
        if k != l.label {
            assert(m.contains_key(k));
        }
    }
    assert forall|a: Seq<char>, b: Seq<char>|
        #![trigger n[a], n[b]]
        n.contains_key(a) && n.contains_key(b) && n[a].id == n[b].id implies a == b by {
        if a != l.label && b != l.label {
            assert(m[a].id == m[b].id);
        }
    }
}

/// Taking a landmark out of its place takes its cluster out of the map.
proof fn lemma_removed(s: Seq<LandmarkView>, i: int)
    requires
        vstd::relations::sorted_by(s, by_label()),
        0 <= i < s.len(),
        landmarks_wf(map_of(s)),
    ensures
        vstd::relations::sorted_by(s.remove(i), by_label()),
        map_of(s.remove(i)) == map_of(s).remove(s[i].label),
        landmarks_wf(map_of(s.remove(i))),
{
    let t = s.remove(i);
    assert forall|a: int, b: int| 0 <= a < b < t.len() implies #[trigger] by_label()(
        t[a],
        t[b],
    ) by {
        let a0 = if a < i {
            a
        } else {
            a + 1
        };
        let b0 = if b < i {
            b
        } else {
            b + 1
        };
        assert(by_label()(s[a0], s[b0]));
    }
    lemma_map_of(s);
    lemma_map_of(t);
    let m = map_of(s);
    let n = map_of(t);
    let u = m.remove(s[i].label);
    lemma_listed_labels(m, s);
    lemma_listed_labels(n, t);
    assert forall|k: Seq<char>| #[trigger] n.contains_key(k) <==> u.contains_key(k) by {
        if n.contains_key(k) {
            let h = choose|h: int| 0 <= h < t.len() && (#[trigger] t[h]).label == k;
            let g = if h < i {
                h
            } else {
                h + 1
            };
            assert(t[h] == s[g]);
            assert(labels(s)[g] == k && labels(s)[i] == s[i].label);
        }
        if u.contains_key(k) {
            let g = choose|g: int| 0 <= g < s.len() && (#[trigger] s[g]).label == k;
            assert(t[if g < i {
                g
            } else {
                g - 1
            }] == s[g]);
        }
    }
    assert forall|k: Seq<char>| #[trigger] n.contains_key(k) implies n[k] == u[k] by {
        let h = choose|h: int| 0 <= h < t.len() && (#[trigger] t[h]).label == k;
        assert(t[h] == s[if h < i {
            h
        } else {
            h + 1
        }]);
    }
    assert(n =~= u);
    assert forall|k: Seq<char>| #[trigger] n.contains_key(k) implies n[k].label == k
        && n[k].weight.finite() by {
        assert(m.contains_key(k));
    }
    assert forall|a: Seq<char>, b: Seq<char>|
        #![trigger n[a], n[b]]
        n.contains_key(a) && n.contains_key(b) && n[a].id == n[b].id implies a == b by {
        assert(m[a].id == m[b].id);
    }
}

/// Owns the current set of landmarks, one per cluster label, so a re-emit on
/// the same cluster replaces rather than duplicates.
#[derive(Debug, Clone)]
pub struct LandmarkSet {
    /// The landmarks, by ascending cluster label.
    by_cluster: Vec<Landmark>,
}

impl View for LandmarkSet {
    type V = Map<Seq<char>, LandmarkView>;

    closed spec fn view(&self) -> Map<Seq<char>, LandmarkView> {
        map_of(self.listed())
    }
}

impl LandmarkSet {
    /// The landmarks, by ascending label.
    pub closed spec fn listed(&self) -> Seq<LandmarkView> {
        self.by_cluster@.map_values(|l: Landmark| l@)
    }

    /// What holds of every set.
    pub closed spec fn wf(&self) -> bool {
        &&& vstd::relations::sorted_by(self.listed(), by_label())
        &&& landmarks_wf(self@)
    }

    /// A set lists its landmarks by label, and files each once.
    pub proof fn lemma_wf(&self)
        requires
            self.wf(),
        ensures
            landmarks_wf(self@),
            lists(self@, self.listed()),
            listing(self@) == self.listed(),
            self@.len() == self.listed().len(),
    {
        lemma_map_of(self.listed());
    }

    /// Empty set.
    pub fn new() -> (r: Self)
        ensures
            r.wf(),
            r@ == Map::<Seq<char>, LandmarkView>::empty(),
    {
        let r = LandmarkSet { by_cluster: Vec::new() };
        assert(r@ =~= Map::<Seq<char>, LandmarkView>::empty());
        r
    }

    /// Upsert a landmark. If the cluster label is already known, replace it:
    /// the medium's exemplar can drift over time as the cluster evolves.
    ///
    /// If the same exemplar `id` is already registered under a *different*
    /// cluster label, that stale alias is dropped. One exemplar id, one
    /// landmark.
    ///
    /// A weight that is not finite counts as 1.0.
    pub fn upsert(&mut self, l: Landmark)
        requires
            old(self).wf(),
        ensures
            final(self).wf(),
            final(self)@ == upserted(old(self)@, l@),
    {
        let ghost s = self.listed();
        let ghost given = l@;
        let mut l = l;
        if !l.weight.is_finite() {
            l.weight = Weight::from_bits(crate::weight::ONE_BITS);
        }
        assert(l@ == given.sanitized());
        let ghost pass = |e: LandmarkView| e.id != l@.id && e.label != l@.label;
        let mut i: usize = 0;
        let ghost mut k: int = 0;
        proof {
            reveal(Seq::filter);
            assert(s.take(0).filter(pass) =~= Seq::<LandmarkView>::empty());
            assert(self.listed() =~= s.take(0).filter(pass) + s.skip(0));
        }
        while i < self.by_cluster.len()
            invariant
                0 <= k <= s.len(),
                i <= self.by_cluster.len(),
                pass == (|e: LandmarkView| e.id != l@.id && e.label != l@.label),
                i == s.take(k).filter(pass).len(),
                self.listed() == s.take(k).filter(pass) + s.skip(k),
            decreases self.by_cluster.len() - i,
        {
            let ghost before = self.listed();
            assert(before.len() == i + (s.len() - k));
            assert(before[i as int] == s[k]);
            proof {
                s.take(k).lemma_filter_push(s[k], pass);
                assert(s.take(k + 1) =~= s.take(k).push(s[k]));
            }
            if self.by_cluster[i].id == l.id || crate::text::same_text(
                self.by_cluster[i].cluster_label.as_str(),
                l.cluster_label.as_str(),
            ) {
                self.by_cluster.remove(i);
                assert(self.listed() =~= before.remove(i as int));
                assert(self.listed() =~= s.take(k + 1).filter(pass) + s.skip(k + 1));
            } else {
                i = i + 1;
                assert(self.listed() =~= s.take(k + 1).filter(pass) + s.skip(k + 1));
            }
            proof {
                k = k + 1;
            }
        }
        let ghost f = s.filter(pass);
        proof {
            assert(s.skip(k).len() == 0);
            assert(s.take(k) =~= s);
            assert(self.listed() =~= f);
        }
        let mut j: usize = 0;
        while j < self.by_cluster.len() && crate::text::stands_before(
            self.by_cluster[j].cluster_label.as_str(),
            l.cluster_label.as_str(),
        )
            invariant
                j <= self.by_cluster.len(),
                self.listed() == f,
                forall|h: int|
                    0 <= h < j ==> crate::text::text_leq((#[trigger] f[h]).label, l@.label),
            decreases self.by_cluster.len() - j,
        {
            assert(f[j as int].label == self.by_cluster[j as int].cluster_label@);
            j = j + 1;
        }
        proof {
            if j < f.len() {
                crate::text::lemma_text_total(f[j as int].label, l@.label);
            }
            lemma_upserted(s, l@, f, j as int);
        }
        let ghost filed = l@;
        self.by_cluster.insert(j, l);
        assert(self.listed() =~= f.insert(j as int, filed));
    }

    /// Drop a cluster entirely (e.g. on prune).
    pub fn remove(&mut self, cluster_label: &str)
        requires
            old(self).wf(),
        ensures
            final(self).wf(),
            final(self)@ == old(self)@.remove(cluster_label@),
    {
        let ghost s = self.listed();
        proof {
            self.lemma_wf();
        }
        let mut i: usize = 0;
        while i < self.by_cluster.len() && !crate::text::same_text(
            self.by_cluster[i].cluster_label.as_str(),
            cluster_label,
        )
            invariant
                i <= self.by_cluster.len(),
                self.listed() == s,
                forall|h: int| 0 <= h < i ==> (#[trigger] s[h]).label != cluster_label@,
            decreases self.by_cluster.len() - i,
        {
            assert(s[i as int].label == self.by_cluster[i as int].cluster_label@);
            i = i + 1;
        }
        if i < self.by_cluster.len() {
            assert(s[i as int].label == self.by_cluster[i as int].cluster_label@);
            self.by_cluster.remove(i);
            proof {
                assert(self.listed() =~= s.remove(i as int));
                lemma_removed(s, i as int);
            }
        } else {
            assert(self@ =~= old(self)@.remove(cluster_label@));
        }
    }

    /// The landmarks, by ascending label.
    pub(crate) fn refs(&self) -> (r: Vec<&Landmark>)
        ensures
            crate::order::views(r@) == self.listed(),
    {
        let mut out: Vec<&Landmark> = Vec::new();
        let mut i: usize = 0;
        while i < self.by_cluster.len()
            invariant
                i <= self.by_cluster.len(),
                crate::order::views(out@) == self.listed().take(i as int),
            decreases self.by_cluster.len() - i,
        {
            let ghost before = out@;
            out.push(&self.by_cluster[i]);
            assert(crate::order::views(out@) =~= crate::order::views(before).push(
                self.listed()[i as int],
            ));
            i = i + 1;
            assert(crate::order::views(out@) =~= self.listed().take(i as int));
        }
        assert(self.listed().take(i as int) =~= self.listed());
        out
    }

    /// Snapshot: landmark ids ordered by weight descending, ties broken by
    /// cluster label. Caller decides how many to actually use.
    pub fn snapshot(&self) -> (r: Vec<MemoryId>)
        requires
            self.wf(),
        ensures
            r@ == weight_order(self@),
    {
        proof {
            self.lemma_wf();
        }
        let order = crate::order::rank(&ByWeight, self.refs());
        assert((|a: LandmarkView, b: LandmarkView| (&ByWeight).leads(a, b)) =~= by_weight());
        let out = ids_of(&order);
        assert(out@ =~= weight_order(self@));
        out
    }

    /// Number of clusters tracked.
    pub fn len(&self) -> (r: usize)
        requires
            self.wf(),
        ensures
            r == self@.len(),
    {
        proof {
            self.lemma_wf();
        }
        self.by_cluster.len()
    }

    /// True if no landmarks have been registered yet.
    pub fn is_empty(&self) -> (r: bool)
        requires
            self.wf(),
        ensures
            r == (self@.len() == 0),
    {
        proof {
            self.lemma_wf();
        }
        self.by_cluster.len() == 0
    }
}

impl Default for LandmarkSet {
    fn default() -> (r: Self)
        ensures
            r.wf(),
            r@ == Map::<Seq<char>, LandmarkView>::empty(),
    {
        Self::new()
    }
}

/// The ids of some landmarks.
pub(crate) fn ids_of(landmarks: &Vec<&Landmark>) -> (r: Vec<MemoryId>)
    ensures
        r@ == crate::order::views(landmarks@).map_values(|l: LandmarkView| l.id),
{
    let ghost id_of = |l: LandmarkView| l.id;
    let ghost all = crate::order::views(landmarks@);
    let mut out: Vec<MemoryId> = Vec::new();
    let mut i: usize = 0;
    while i < landmarks.len()
        invariant
            i <= landmarks.len(),
            id_of == (|l: LandmarkView| l.id),
            all == crate::order::views(landmarks@),
            out@ == all.map_values(id_of).take(i as int),
        decreases landmarks.len() - i,
    {
        assert(landmarks[i as int]@ == all[i as int]);
        out.push(landmarks[i].id);
        i = i + 1;
        assert(out@ =~= all.map_values(id_of).take(i as int));
    }
    assert(all.map_values(id_of).take(i as int) =~= all.map_values(id_of));
    out
}

/// A finite set, put in some order, names nothing twice.
proof fn lemma_to_seq_distinct(set: Set<Seq<char>>)
    requires
        set.finite(),
    ensures
        set.to_seq().no_duplicates(),
    decreases set.len(),
{
    if set.len() > 0 {
        let x = set.choose();
        let rest = set.remove(x).to_seq();
        lemma_to_seq_distinct(set.remove(x));
        set.remove(x).lemma_to_seq_to_set_id();
        assert(!rest.contains(x)) by {
            if rest.contains(x) {
                assert(rest.to_set().contains(x));
            }
        }
        assert(set.to_seq() =~= seq![x] + rest);
    }
}

/// The landmarks of a set can be listed by label.
proof fn lemma_listing_exists(m: Map<Seq<char>, LandmarkView>)
    requires
        landmarks_wf(m),
    ensures
        lists(m, listing(m)),
{
    broadcast use vstd::seq_lib::group_to_multiset_ensures;

    let leq = |a: Seq<char>, b: Seq<char>| crate::text::text_leq(a, b);
    let keys = m.dom().to_seq();
    let sorted = keys.sort_by(leq);
    let s = sorted.map_values(|l: Seq<char>| m[l]);
    lemma_text_ordering();
    lemma_to_seq_distinct(m.dom());
    m.dom().lemma_to_seq_to_set_id();
    keys.lemma_sort_by_ensures(leq);
    keys.lemma_multiset_has_no_duplicates();
    assert forall|x: Seq<char>| #[trigger] sorted.to_multiset().contains(x) implies sorted
        .to_multiset().count(x) == 1 by {}
    sorted.lemma_multiset_has_no_duplicates_conv();
    assert forall|x: Seq<char>| #[trigger] sorted.contains(x) <==> m.contains_key(x) by {
        assert(sorted.contains(x) <==> keys.to_multiset().count(x) > 0);
        assert(keys.contains(x) <==> keys.to_set().contains(x));
    }
    assert forall|i: int| 0 <= i < s.len() implies m.contains_key((#[trigger] s[i]).label)
        && m[s[i].label] == s[i] by {
        assert(sorted.contains(sorted[i]));
    }
    assert forall|i: int, j: int| 0 <= i < j < s.len() implies #[trigger] by_label()(
        s[i],
        s[j],
    ) by {
        assert(sorted.contains(sorted[i]) && sorted.contains(sorted[j]));
        assert(leq(sorted[i], sorted[j]));
    }
    assert forall|l: Seq<char>| #[trigger] m.contains_key(l) implies exists|i: int|
        0 <= i < s.len() && (#[trigger] s[i]).label == l by {
        assert(sorted.contains(l));
        assert(s[sorted.index_of(l)].label == l);
    }
    assert(lists(m, s));
}

/// Registering a landmark files it under its label, drops the same exemplar
/// from any other label, and leaves every other cluster as it was.
pub proof fn law_upsert(
    m: Map<Seq<char>, LandmarkView>,
    l: LandmarkView,
    label: Seq<char>,
)
    requires
        landmarks_wf(m),
    ensures
        landmarks_wf(upserted(m, l)),
        upserted(m, l).contains_key(l.label),
        upserted(m, l)[l.label] == l.sanitized(),
        label != l.label ==> (upserted(m, l).contains_key(label) <==> m.contains_key(label)
            && m[label].id != l.id),
        label != l.label && upserted(m, l).contains_key(label) ==> upserted(m, l)[label]
            == m[label],
{
    let u = upserted(m, l);
    assert(u.dom().subset_of(m.dom().insert(l.label)));
    vstd::set_lib::lemma_set_subset_finite(m.dom().insert(l.label), u.dom());
    assert forall|a: Seq<char>, b: Seq<char>|
        #![trigger u[a], u[b]]
        u.contains_key(a) && u.contains_key(b) && u[a].id == u[b].id implies a == b by {
        if a != l.label && b != l.label {
            assert(m[a].id == m[b].id);
        }
    }
}

/// Registering a landmark twice is registering it once.
pub proof fn law_upsert_twice(m: Map<Seq<char>, LandmarkView>, l: LandmarkView)
    ensures
        upserted(upserted(m, l), l) == upserted(m, l),
{
    assert(upserted(upserted(m, l), l) =~= upserted(m, l));
}

/// A later exemplar of a cluster replaces an earlier one: nothing of the
/// earlier one is left.
pub proof fn law_upsert_replaces(
    m: Map<Seq<char>, LandmarkView>,
    earlier: LandmarkView,
    later: LandmarkView,
)
    requires
        earlier.label == later.label,
    ensures
        upserted(upserted(m, earlier), later) == upserted(dropping(m, earlier.id), later),
{
    assert(upserted(upserted(m, earlier), later) =~= upserted(dropping(m, earlier.id), later));
}

/// Dropping a cluster keeps a set of landmarks well-formed.
pub proof fn law_remove(m: Map<Seq<char>, LandmarkView>, label: Seq<char>)
    requires
        landmarks_wf(m),
    ensures
        landmarks_wf(m.remove(label)),
{
    let u = m.remove(label);
    assert forall|a: Seq<char>, b: Seq<char>|
        #![trigger u[a], u[b]]
        u.contains_key(a) && u.contains_key(b) && u[a].id == u[b].id implies a == b by {
        assert(m[a].id == m[b].id);
    }
}

/// The listing of a set holds each of its landmarks once.
pub proof fn law_listing(m: Map<Seq<char>, LandmarkView>)
    requires
        landmarks_wf(m),
    ensures
        listing(m).len() == m.len(),
        lists(m, listing(m)),
        forall|i: int, j: int|
            #![trigger listing(m)[i], listing(m)[j]]
            0 <= i < m.len() && 0 <= j < m.len() && listing(m)[i].id == listing(m)[j].id ==> i
                == j,
{
    let s = listing(m);
    let x = labels(s);
    lemma_listing_exists(m);
    lemma_listed_labels(m, s);
    assert(m.dom() =~= x.to_set());
    x.unique_seq_to_set();
    assert forall|i: int, j: int|
        #![trigger s[i], s[j]]
        0 <= i < s.len() && 0 <= j < s.len() && s[i].id == s[j].id implies i == j by {
        assert(m[s[i].label].id == m[s[j].label].id);
        assert(x[i] == x[j]);
    }
}

/// A snapshot of the landmarks names every exemplar once, and nothing else.
pub proof fn law_snapshot_complete(m: Map<Seq<char>, LandmarkView>)
    requires
        landmarks_wf(m),
    ensures
        heaviest_first(m).to_multiset() == listing(m).to_multiset(),
        weight_order(m).len() == m.len(),
        weight_order(m).no_duplicates(),
        forall|id: MemoryId| #[trigger]
            weight_order(m).contains(id) <==> exists|l: Seq<char>| #[trigger]
                m.contains_key(l) && m[l].id == id,
{
    broadcast use vstd::seq_lib::group_to_multiset_ensures;

    let s = listing(m);
    let h = heaviest_first(m);
    let p = crate::order::ranking(s, by_weight());
    law_listing(m);
    lemma_weight_order();
    crate::order::lemma_ranked_rearranges(s, by_weight());
    assert forall|i: int, j: int|
        0 <= i < h.len() && 0 <= j < h.len() && i != j implies #[trigger] h[i].id
        != #[trigger] h[j].id by {
        let (a, b) = if i < j {
            (i, j)
        } else {
            (j, i)
        };
        crate::order::lemma_ranked_stable(s, by_weight(), a, b);
        assert(h[a] == s[p[a]] && h[b] == s[p[b]]);
    }
    assert forall|id: MemoryId| #[trigger] weight_order(m).contains(id) <==> exists|l: Seq<char>|
        #[trigger] m.contains_key(l) && m[l].id == id by {
        if weight_order(m).contains(id) {
            let e = h[weight_order(m).index_of(id)];
            assert(h.contains(e));
            assert(s.to_multiset().count(e) > 0);
            assert(s.contains(e));
            let k = s.index_of(e);
            assert(m.contains_key(s[k].label));
        }
        if exists|l: Seq<char>| #[trigger] m.contains_key(l) && m[l].id == id {
            let l = choose|l: Seq<char>| #[trigger] m.contains_key(l) && m[l].id == id;
            let k = choose|k: int| 0 <= k < s.len() && (#[trigger] s[k]).label == l;
            assert(s.contains(s[k]));
            assert(h.to_multiset().count(s[k]) > 0);
            assert(h.contains(s[k]));
            assert(weight_order(m)[h.index_of(s[k])] == id);
        }
    }
}

/// What a snapshot reads out are landmarks of the set.
pub proof fn law_heaviest_first(m: Map<Seq<char>, LandmarkView>, i: int)
    requires
        landmarks_wf(m),
        0 <= i < m.len(),
    ensures
        heaviest_first(m).len() == m.len(),
        m.contains_key(heaviest_first(m)[i].label),
        m[heaviest_first(m)[i].label] == heaviest_first(m)[i],
        heaviest_first(m)[i].weight.finite(),
{
    broadcast use vstd::seq_lib::group_to_multiset_ensures;

    let (s, h) = (listing(m), heaviest_first(m));
    law_listing(m);
    lemma_weight_order();
    crate::order::lemma_ranked_rearranges(s, by_weight());
    assert(h.contains(h[i]));
    assert(s.to_multiset().count(h[i]) > 0);
    assert(s.contains(h[i]));
    assert(m.contains_key(s[s.index_of(h[i])].label));
}

/// A snapshot of the landmarks comes heaviest first, ties by label.
pub proof fn law_snapshot_order(m: Map<Seq<char>, LandmarkView>, i: int, j: int)
    requires
        landmarks_wf(m),
        0 <= i < j < m.len(),
    ensures
        ({
            let (a, b) = (heaviest_first(m)[i], heaviest_first(m)[j]);
            ||| a.weight.rank() > b.weight.rank()
            ||| a.weight.rank() == b.weight.rank() && label_before(a, b)
        }),
{
    let s = listing(m);
    let p = crate::order::ranking(s, by_weight());
    law_listing(m);
    lemma_weight_order();
    crate::order::lemma_ranked_stable(s, by_weight(), i, j);
    if p[i] < p[j] {
        assert(by_label()(s[p[i]], s[p[j]]));
    }
}

/// A landmark is kept as it was given, but for a weight that is not finite,
/// which counts as 1.0.
pub proof fn law_sanitized(l: LandmarkView)
    ensures
        l.sanitized().id == l.id,
        l.sanitized().label == l.label,
        l.weight.finite() ==> l.sanitized().weight == l.weight,
        !l.weight.finite() ==> l.sanitized().weight.bits == crate::weight::ONE_BITS,
{
}

/// Of two landmarks, the one worth more stands first in a snapshot, however
/// they are labelled; of the same weight, the one whose label stands first.
pub proof fn law_heavier_first(m: Map<Seq<char>, LandmarkView>, a: Seq<char>, b: Seq<char>)
    requires
        landmarks_wf(m),
        m.contains_key(a),
        m.contains_key(b),
        m[a].weight.value() > m[b].weight.value() || (m[a].weight == m[b].weight && a != b
            && crate::text::text_leq(a, b)),
    ensures
        weight_order(m).contains(m[a].id),
        weight_order(m).contains(m[b].id),
        weight_order(m).index_of(m[a].id) < weight_order(m).index_of(m[b].id),
{
    let h = heaviest_first(m);
    let ids = weight_order(m);
    law_snapshot_complete(m);
    assert(ids.contains(m[a].id) && ids.contains(m[b].id));
    let (i, j) = (ids.index_of(m[a].id), ids.index_of(m[b].id));
    law_heaviest_first(m, i);
    law_heaviest_first(m, j);
    assert(h[i].id == m[a].id && h[j].id == m[b].id);
    assert(m[h[i].label].id == m[a].id && m[h[j].label].id == m[b].id);
    assert(h[i] == m[a] && h[j] == m[b]);
    assert(m[a].label == a && m[b].label == b);
    crate::weight::lemma_rank_order(m[b].weight, m[a].weight);
    crate::text::lemma_text_total(a, b);
    if j < i {
        law_snapshot_order(m, j, i);
    }
}

} // verus!
