//! Ranking: stable sorting by a total preorder.
//!
//! Every list that the beam reads out is a ranking: the lookback by strength
//! and by freshness, the landmarks by weight or by salience. [`ranked`] says
//! what a ranking is; [`rank`] makes one.

use vstd::prelude::*;

verus! {

/// Any two values can be put in order, and orders chain.
pub open spec fn total_preorder<T>(leq: spec_fn(T, T) -> bool) -> bool {
    &&& forall|a: T, b: T| #[trigger] leq(a, b) || leq(b, a)
    &&& forall|a: T, b: T, c: T| #[trigger] leq(a, b) && #[trigger] leq(b, c) ==> leq(a, c)
}

/// Position `i` of `s` ranks no later than position `j`: its value goes
/// first, or neither value does and it is the earlier position.
pub open spec fn comes_first<T>(s: Seq<T>, leq: spec_fn(T, T) -> bool, i: int, j: int) -> bool {
    leq(s[i], s[j]) && (leq(s[j], s[i]) ==> i <= j)
}

/// The positions of a sequence of length `n`.
pub open spec fn positions(n: nat) -> Seq<int> {
    Seq::new(n, |i: int| i)
}

/// The positions of `s`, in the order of their ranks.
pub open spec fn ranking<T>(s: Seq<T>, leq: spec_fn(T, T) -> bool) -> Seq<int> {
    positions(s.len()).sort_by(|i: int, j: int| comes_first(s, leq, i, j))
}

/// `s` in the order `leq`, values of the same rank as they stood.
pub open spec fn ranked<T>(s: Seq<T>, leq: spec_fn(T, T) -> bool) -> Seq<T> {
    ranking(s, leq).map_values(|i: int| s[i])
}

/// The first `n` elements, or all if there are fewer.
pub open spec fn at_most<T>(s: Seq<T>, n: nat) -> Seq<T> {
    if s.len() <= n {
        s
    } else {
        s.take(n as int)
    }
}

/// The views of a sequence of references.
pub open spec fn views<T: View>(s: Seq<&T>) -> Seq<T::V> {
    s.map_values(|x: &T| x@)
}

/// A way to rank the items of one type.
pub trait Ranking {
    /// What is ranked.
    type Item: View;

    /// True if `a` may stand before `b`.
    spec fn leads(&self, a: <Self::Item as View>::V, b: <Self::Item as View>::V) -> bool;

    /// The order is a total preorder.
    proof fn lemma_total(&self)
        ensures
            total_preorder(
                |a: <Self::Item as View>::V, b: <Self::Item as View>::V| self.leads(a, b),
            ),
    ;

    /// True if `a` may stand before `b`.
    fn may_lead(&self, a: &Self::Item, b: &Self::Item) -> (r: bool)
        ensures
            r == self.leads(a@, b@),
    ;
}

/// The order of positions is total, whatever the sequence.
pub proof fn lemma_comes_first_total<T>(s: Seq<T>, leq: spec_fn(T, T) -> bool)
    requires
        total_preorder(leq),
    ensures
        vstd::relations::total_ordering(|i: int, j: int| comes_first(s, leq, i, j)),
{
    let r = |i: int, j: int| comes_first(s, leq, i, j);
    assert forall|i: int, j: int| #[trigger] r(i, j) || #[trigger] r(j, i) by {
        assert(leq(s[i], s[j]) || leq(s[j], s[i]));
    }
    assert forall|i: int| #[trigger] r(i, i) by {
        assert(leq(s[i], s[i]) || leq(s[i], s[i]));
    }
    assert forall|i: int, j: int| #[trigger] r(i, j) && #[trigger] r(j, i) implies i == j by {}
    assert forall|i: int, j: int, k: int| #[trigger] r(i, j) && #[trigger] r(j, k) implies r(
        i,
        k,
    ) by {
        assert(leq(s[i], s[k]));
        if leq(s[k], s[i]) {
            assert(leq(s[j], s[i]));
            assert(leq(s[k], s[j]));
        }
    }
}

/// A sequence of positions that holds each position once and is in rank
/// order is the ranking.
pub proof fn lemma_ranking_unique<T>(s: Seq<T>, leq: spec_fn(T, T) -> bool, p: Seq<int>)
    requires
        total_preorder(leq),
        p.to_multiset() == positions(s.len()).to_multiset(),
        vstd::relations::sorted_by(p, |i: int, j: int| comes_first(s, leq, i, j)),
    ensures
        p == ranking(s, leq),
{
    let r = |i: int, j: int| comes_first(s, leq, i, j);
    lemma_comes_first_total(s, leq);
    positions(s.len()).lemma_sort_by_ensures(r);
    vstd::seq_lib::lemma_sorted_unique(p, ranking(s, leq), r);
}

/// Mapping two rearrangements of each other gives two rearrangements of each
/// other.
proof fn lemma_map_rearranged<A, B>(p: Seq<A>, q: Seq<A>, f: spec_fn(A) -> B)
    requires
        p.to_multiset() == q.to_multiset(),
    ensures
        p.map_values(f).to_multiset() == q.map_values(f).to_multiset(),
    decreases p.len(),
{
    broadcast use vstd::seq_lib::group_to_multiset_ensures;
    broadcast use vstd::multiset::group_multiset_axioms;

    vstd::seq_lib::to_multiset_len(p);
    vstd::seq_lib::to_multiset_len(q);
    if p.len() == 0 {
        assert(p.map_values(f) =~= q.map_values(f));
    } else {
        let x = p.last();
        assert(p.contains(x));
        assert(q.to_multiset().count(x) > 0);
        let k = q.index_of(x);
        let p0 = p.drop_last();
        let q0 = q.remove(k);
        assert(p0 =~= p.remove(p.len() - 1));
        lemma_map_rearranged(p0, q0, f);
        assert(p.map_values(f) =~= p0.map_values(f).push(f(x)));
        assert(q.map_values(f) =~= q0.map_values(f).insert(k, f(x)));
    }
}

/// A ranking holds exactly what was ranked.
pub proof fn lemma_ranked_rearranges<T>(s: Seq<T>, leq: spec_fn(T, T) -> bool)
    requires
        total_preorder(leq),
    ensures
        ranked(s, leq).to_multiset() == s.to_multiset(),
        ranked(s, leq).len() == s.len(),
{
    broadcast use vstd::seq_lib::group_to_multiset_ensures;

    let r = |i: int, j: int| comes_first(s, leq, i, j);
    let at = |i: int| s[i];
    lemma_comes_first_total(s, leq);
    positions(s.len()).lemma_sort_by_ensures(r);
    lemma_map_rearranged(ranking(s, leq), positions(s.len()), at);
    assert(positions(s.len()).map_values(at) =~= s);
    assert(ranked(s, leq) == ranking(s, leq).map_values(at));
    vstd::seq_lib::to_multiset_len(ranked(s, leq));
    vstd::seq_lib::to_multiset_len(s);
}

/// A ranking is in order.
pub proof fn lemma_ranked_sorted<T>(s: Seq<T>, leq: spec_fn(T, T) -> bool)
    requires
        total_preorder(leq),
    ensures
        vstd::relations::sorted_by(ranked(s, leq), leq),
{
    let r = |i: int, j: int| comes_first(s, leq, i, j);
    let p = ranking(s, leq);
    lemma_comes_first_total(s, leq);
    positions(s.len()).lemma_sort_by_ensures(r);
    let t = ranked(s, leq);
    assert forall|a: int, b: int| 0 <= a < b < t.len() implies #[trigger] leq(t[a], t[b]) by {
        assert(r(p[a], p[b]));
    }
}

/// Where the elements of a ranking stood: no two at the same place, and of
/// two of the same rank the one that stood earlier still does.
pub proof fn lemma_ranked_stable<T>(s: Seq<T>, leq: spec_fn(T, T) -> bool, a: int, b: int)
    requires
        total_preorder(leq),
        0 <= a < b < s.len(),
    ensures
        ranking(s, leq).len() == s.len(),
        0 <= ranking(s, leq)[a] < s.len(),
        0 <= ranking(s, leq)[b] < s.len(),
        ranking(s, leq)[a] != ranking(s, leq)[b],
        comes_first(s, leq, ranking(s, leq)[a], ranking(s, leq)[b]),
{
    broadcast use vstd::seq_lib::group_to_multiset_ensures;

    let r = |i: int, j: int| comes_first(s, leq, i, j);
    let (p, q) = (ranking(s, leq), positions(s.len()));
    lemma_comes_first_total(s, leq);
    q.lemma_sort_by_ensures(r);
    vstd::seq_lib::to_multiset_len(p);
    vstd::seq_lib::to_multiset_len(q);
    assert(r(p[a], p[b]));
    assert forall|i: int| 0 <= i < p.len() implies 0 <= #[trigger] p[i] < s.len() by {
        assert(p.contains(p[i]));
        assert(q.to_multiset().count(p[i]) > 0);
        assert(q.contains(p[i]));
    }
    q.lemma_multiset_has_no_duplicates();
    assert forall|x: int| #[trigger] p.to_multiset().contains(x) implies p.to_multiset().count(x)
        == 1 by {}
    p.lemma_multiset_has_no_duplicates_conv();
}

/// What is in order already stays as it is.
pub proof fn lemma_ranked_fixed<T>(s: Seq<T>, leq: spec_fn(T, T) -> bool)
    requires
        total_preorder(leq),
        vstd::relations::sorted_by(s, leq),
    ensures
        ranked(s, leq) == s,
{
    let r = |i: int, j: int| comes_first(s, leq, i, j);
    let p = positions(s.len());
    assert forall|i: int, j: int| 0 <= i < j < p.len() implies #[trigger] r(p[i], p[j]) by {
        assert(leq(s[i], s[j]));
    }
    lemma_ranking_unique(s, leq, p);
    assert(ranked(s, leq) =~= s);
}

/// How often a value stands among those that pass a test.
pub proof fn lemma_filter_count<T>(s: Seq<T>, pass: spec_fn(T) -> bool, x: T)
    ensures
        s.filter(pass).to_multiset().count(x) == if pass(x) {
            s.to_multiset().count(x)
        } else {
            0
        },
    decreases s.len(),
{
    broadcast use vstd::seq_lib::group_to_multiset_ensures;
    broadcast use vstd::multiset::group_multiset_axioms;

    if s.len() == 0 {
        reveal(Seq::filter);
        assert(s.filter(pass) =~= s);
        assert(!s.contains(x));
    } else {
        let t = s.drop_last();
        lemma_filter_count(t, pass, x);
        t.lemma_filter_push(s.last(), pass);
        assert(t.push(s.last()) =~= s);
    }
}

/// If everything passes a test, or nothing does, filtering is simple.
pub proof fn lemma_filter_uniform<T>(s: Seq<T>, pass: spec_fn(T) -> bool)
    ensures
        (forall|i: int| 0 <= i < s.len() ==> pass(#[trigger] s[i])) ==> s.filter(pass) == s,
        (forall|i: int| 0 <= i < s.len() ==> !pass(#[trigger] s[i])) ==> s.filter(pass)
            == Seq::<T>::empty(),
    decreases s.len(),
{
    if s.len() == 0 {
        reveal(Seq::filter);
        assert(s.filter(pass) =~= s);
        assert(s =~= Seq::<T>::empty());
    } else {
        let t = s.drop_last();
        lemma_filter_uniform(t, pass);
        t.lemma_filter_push(s.last(), pass);
        assert(t.push(s.last()) =~= s);
        if forall|i: int| 0 <= i < s.len() ==> pass(#[trigger] s[i]) {
            assert forall|i: int| 0 <= i < t.len() implies pass(#[trigger] t[i]) by {
                assert(pass(s[i]));
            }
            assert(pass(s[s.len() - 1]));
        }
        if forall|i: int| 0 <= i < s.len() ==> !pass(#[trigger] s[i]) {
            assert forall|i: int| 0 <= i < t.len() implies !pass(#[trigger] t[i]) by {
                assert(!pass(s[i]));
            }
            assert(!pass(s[s.len() - 1]));
        }
    }
}

/// Cutting a sequence short leaves nothing more often than before.
pub proof fn lemma_at_most_count<T>(s: Seq<T>, n: nat, x: T)
    ensures
        at_most(s, n).to_multiset().count(x) <= s.to_multiset().count(x),
{
    broadcast use vstd::multiset::group_multiset_axioms;

    if s.len() > n {
        let (a, b) = (s.take(n as int), s.skip(n as int));
        vstd::seq_lib::lemma_multiset_commutative(a, b);
        assert(a + b =~= s);
    }
}

/// Rank the items, keeping items of the same rank as they stand.
pub fn rank<'a, R: Ranking>(order: &R, items: Vec<&'a R::Item>) -> (out: Vec<&'a R::Item>)
    ensures
        views(out@) == ranked(
            views(items@),
            |a: <R::Item as View>::V, b: <R::Item as View>::V| order.leads(a, b),
        ),
{
    let ghost s = views(items@);
    let ghost leq = |a: <R::Item as View>::V, b: <R::Item as View>::V| order.leads(a, b);
    let ghost r = |i: int, j: int| comes_first(s, leq, i, j);
    let ghost n = s.len();
    let ghost mut p: Seq<int> = Seq::empty();
    let mut rest = items;
    let mut out: Vec<&'a R::Item> = Vec::new();
    proof {
        order.lemma_total();
        assert(positions(n).skip(n as int) =~= Seq::<int>::empty());
    }
    while rest.len() > 0
        invariant
            s == views(items@),
            n == s.len(),
            leq == (|a: <R::Item as View>::V, b: <R::Item as View>::V| order.leads(a, b)),
            r == (|i: int, j: int| comes_first(s, leq, i, j)),
            total_preorder(leq),
            rest.len() <= n,
            rest@ == items@.take(rest.len() as int),
            out.len() == p.len(),
            out.len() + rest.len() == n,
            forall|t: int| 0 <= t < p.len() ==> rest.len() <= #[trigger] p[t] < n,
            forall|t: int| 0 <= t < p.len() ==> (#[trigger] out[t])@ == s[p[t]],
            p.to_multiset() == positions(n).skip(rest.len() as int).to_multiset(),
            vstd::relations::sorted_by(p, r),
        decreases rest.len(),
    {
        let ghost k = rest.len() - 1;
        let ghost before = out@;
        let x: &'a R::Item = match rest.pop() {
            Some(x) => x,
            None => {
                return out;
            },
        };
        assert(x@ == s[k]);
        let mut j: usize = 0;
        while j < out.len() && !order.may_lead(x, out[j])
            invariant
                0 <= j <= out.len(),
                out@ == before,
                out.len() == p.len(),
                leq == (|a: <R::Item as View>::V, b: <R::Item as View>::V| order.leads(a, b)),
                forall|t: int| 0 <= t < p.len() ==> (#[trigger] out[t])@ == s[p[t]],
                x@ == s[k],
                forall|t: int| 0 <= t < j ==> !leq(s[k], s[#[trigger] p[t]]),
            decreases out.len() - j,
        {
            j = j + 1;
        }
        out.insert(j, x);
        proof {
            let q = p.insert(j as int, k);
            assert forall|a: int, b: int| 0 <= a < b < q.len() implies #[trigger] r(q[a], q[b]) by {
                if a == j {
                    assert(q[b] == p[b - 1]);
                    assert(k < p[b - 1]);
                    assert(leq(s[k], s[p[j as int]]));
                    if b - 1 > j {
                        assert(r(p[j as int], p[b - 1]));
                    }
                } else if b == j {
                    assert(q[a] == p[a]);
                    assert(!leq(s[k], s[p[a]]));
                } else {
                    let a0 = if a < j {
                        a
                    } else {
                        a - 1
                    };
                    let b0 = if b < j {
                        b
                    } else {
                        b - 1
                    };
                    assert(q[a] == p[a0] && q[b] == p[b0]);
                    assert(r(p[a0], p[b0]));
                }
            }
            vstd::seq_lib::to_multiset_insert(p, j as int, k);
            vstd::seq_lib::to_multiset_insert(positions(n).skip(k + 1), 0, k);
            assert(positions(n).skip(k) =~= positions(n).skip(k + 1).insert(0, k));
            assert forall|t: int| 0 <= t < q.len() implies (#[trigger] out[t])@ == s[q[t]] by {
                if t < j {
                    assert(out[t] == before[t]);
                } else if t > j {
                    assert(out[t] == before[t - 1]);
                }
            }
            p = q;
        }
    }
    proof {
        assert(positions(n).skip(0) =~= positions(n));
        lemma_ranking_unique(s, leq, p);
        assert(views(out@) =~= ranked(s, leq));
    }
    out
}

/// Cutting a sequence short leaves its beginning, as long as it may be.
pub proof fn law_at_most<T>(s: Seq<T>, n: nat, i: int)
    ensures
        s.len() <= n ==> at_most(s, n) == s,
        s.len() > n ==> at_most(s, n).len() == n,
        0 <= i < at_most(s, n).len() ==> at_most(s, n)[i] == s[i],
{
}

} // verus!
