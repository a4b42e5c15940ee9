//! Recency ring: the "local window" primitive.
//!
//! A FIFO of the most recently observed memory ids. Capacity bounded; the
//! oldest entries fall out of the ring as new ones come in. This is the
//! cheapest and most reliable signal of "what should be in the next recall's
//! candidate set": if a memory was just observed by a sensor, it is almost
//! certainly relevant to the next query.

use crate::ident::MemoryId;
use std::collections::VecDeque;
use vstd::prelude::*;

verus! {

/// FIFO ring of recently observed memory ids.
#[derive(Debug, Clone)]
pub struct RecencyRing {
    capacity: usize,
    buf: VecDeque<MemoryId>,
}

/// The ids of `ring` other than `id`, as they stand.
pub open spec fn without(ring: Seq<MemoryId>, id: MemoryId) -> Seq<MemoryId> {
    ring.filter(|x: MemoryId| x != id)
}

/// The ring `ring` after an observation of `id`: `id` in front, the others
/// behind it as they stood, and no more than the capacity in all.
pub open spec fn pushed(ring: Seq<MemoryId>, capacity: nat, id: MemoryId) -> Seq<MemoryId> {
    crate::order::at_most(seq![id] + without(ring, id), capacity)
}

/// Taking an id out of a ring leaves the others.
proof fn lemma_remove_is_without(s: Seq<MemoryId>, i: int, id: MemoryId)
    requires
        s.no_duplicates(),
        0 <= i < s.len(),
        s[i] == id,
    ensures
        s.remove(i) == without(s, id),
    decreases s.len(),
{
    reveal(Seq::filter);
    let t = s.drop_last();
    if i == s.len() - 1 {
        lemma_absent(t, id);
        assert(s.remove(i) =~= t);
    } else {
        lemma_remove_is_without(t, i, id);
        assert(s.remove(i) =~= t.remove(i).push(s.last()));
    }
}

proof fn lemma_absent(s: Seq<MemoryId>, id: MemoryId)
    requires
        !s.contains(id),
    ensures
        without(s, id) == s,
    decreases s.len(),
{
    reveal(Seq::filter);
    if s.len() > 0 {
        assert(s.last() == s[s.len() - 1]);
        assert forall|i: int| 0 <= i < s.drop_last().len() implies s.drop_last()[i] != id by {
            assert(s[i] != id);
        }
        lemma_absent(s.drop_last(), id);
        assert(s =~= s.drop_last().push(s.last()));
    } else {
        assert(without(s, id) =~= s);
    }
}

/// What is left without an id holds it no more, and nothing twice.
proof fn lemma_without(s: Seq<MemoryId>, id: MemoryId)
    requires
        s.no_duplicates(),
    ensures
        !without(s, id).contains(id),
        without(s, id).no_duplicates(),
        without(s, id).len() <= s.len(),
    decreases s.len(),
{
    if s.contains(id) {
        let i = s.index_of(id);
        lemma_remove_is_without(s, i, id);
    } else {
        lemma_absent(s, id);
    }
}

impl RecencyRing {
    /// The ids in the ring, most recent first.
    pub closed spec fn view(&self) -> Seq<MemoryId> {
        self.buf@
    }

    /// The most ids that the ring holds.
    pub closed spec fn limit(&self) -> nat {
        self.capacity as nat
    }

    /// No id stands in the ring twice, and there are no more than the limit.
    pub open spec fn wf(&self) -> bool {
        &&& self@.no_duplicates()
        &&& self@.len() <= self.limit()
    }

    /// Create a ring with the given capacity. A reasonable default is 128:
    /// large enough to span a small conversation, small enough to be cheap
    /// on the smallest of boards.
    ///
    /// A capacity of `0` disables the recency tier entirely.
    pub fn new(capacity: usize) -> (r: Self)
        ensures
            r.wf(),
            r@ == Seq::<MemoryId>::empty(),
            r.limit() == capacity,
    {
        RecencyRing { capacity, buf: VecDeque::new() }
    }

    /// Push an observation. If `id` is already in the ring it is moved to the
    /// front, not duplicated: observing the same memory twice in quick
    /// succession should keep the ring tight, not flush it.
    ///
    /// A no-op at capacity 0.
    pub fn push(&mut self, id: MemoryId)
        requires
            old(self).wf(),
        ensures
            final(self).wf(),
            final(self).limit() == old(self).limit(),
            final(self)@ == pushed(old(self)@, old(self).limit(), id),
    {
        let ghost ring = self.buf@;
        let ghost others = without(ring, id);
        if self.capacity == 0 {
            proof {
                assert(ring =~= Seq::empty());
                assert(pushed(ring, 0, id) =~= ring);
            }
            return ;
        }
        let mut pos: usize = 0;
        while pos < self.buf.len() && self.buf[pos] != id
            invariant
                pos <= self.buf.len(),
                self.buf@ == ring,
                forall|i: int| 0 <= i < pos ==> ring[i] != id,
            decreases self.buf.len() - pos,
        {
            pos = pos + 1;
        }
        if pos < self.buf.len() {
            self.buf.remove(pos);
            proof {
                lemma_remove_is_without(ring, pos as int, id);
            }
        } else {
            proof {
                lemma_absent(ring, id);
            }
        }
        let ghost len = others.len();
        proof {
            lemma_without(ring, id);
            assert(self.buf@ == others);
        }
        while self.buf.len() >= self.capacity
            invariant
                self.capacity > 0,
                self.capacity == old(self).capacity,
                others.len() == len,
                self.buf.len() <= len,
                self.buf@ == others.take(self.buf.len() as int),
                self.buf.len() < len ==> self.buf.len() == self.capacity - 1,
                len <= self.capacity,
            decreases self.buf.len(),
        {
            self.buf.pop_back();
        }
        self.buf.push_front(id);
        proof {
            assert(self.buf@ =~= pushed(ring, old(self).limit(), id));
            assert(!others.contains(id));
        }
    }

    /// Snapshot the ring, most recent first.
    pub fn snapshot(&self) -> (r: Vec<MemoryId>)
        ensures
            r@ == self@,
    {
        let mut out: Vec<MemoryId> = Vec::new();
        let mut i: usize = 0;
        while i < self.buf.len()
            invariant
                i <= self.buf.len(),
                out@ == self.buf@.take(i as int),
            decreases self.buf.len() - i,
        {
            out.push(self.buf[i]);
            i = i + 1;
            assert(out@ =~= self.buf@.take(i as int));
        }
        assert(self.buf@.take(i as int) =~= self.buf@);
        out
    }

    /// Current population.
    pub fn len(&self) -> (r: usize)
        ensures
            r == self@.len(),
    {
        self.buf.len()
    }

    /// True if the ring is empty.
    pub fn is_empty(&self) -> (r: bool)
        ensures
            r == (self@.len() == 0),
    {
        self.buf.len() == 0
    }

    /// Configured capacity (max population).
    pub fn capacity(&self) -> (r: usize)
        ensures
            r == self.limit(),
    {
        self.capacity
    }
}

/// The distinct ids of a history of observations, most recently observed
/// first.
pub open spec fn recent(history: Seq<MemoryId>) -> Seq<MemoryId>
    decreases history.len(),
{
    if history.len() == 0 {
        Seq::empty()
    } else {
        seq![history.last()] + without(recent(history.drop_last()), history.last())
    }
}

/// The ring that a history of observations leaves behind.
pub open spec fn pushed_all(history: Seq<MemoryId>, capacity: nat) -> Seq<MemoryId>
    decreases history.len(),
{
    if history.len() == 0 {
        Seq::empty()
    } else {
        pushed(pushed_all(history.drop_last(), capacity), capacity, history.last())
    }
}

/// What is left without an id is the rest.
proof fn lemma_without_contains(s: Seq<MemoryId>, id: MemoryId, x: MemoryId)
    requires
        s.no_duplicates(),
    ensures
        without(s, id).contains(x) <==> s.contains(x) && x != id,
{
    if s.contains(id) {
        let i = s.index_of(id);
        lemma_remove_is_without(s, i, id);
        let t = s.remove(i);
        if t.contains(x) {
            let k = t.index_of(x);
            assert(s[if k < i {
                k
            } else {
                k + 1
            }] == x);
        }
        if s.contains(x) && x != id {
            let k = s.index_of(x);
            assert(t[if k < i {
                k
            } else {
                k - 1
            }] == x);
        }
    } else {
        lemma_absent(s, id);
    }
}

/// Observing an id puts it in front, unless the tier is disabled.
pub proof fn law_push_fronts(ring: Seq<MemoryId>, capacity: nat, id: MemoryId)
    requires
        capacity > 0,
    ensures
        pushed(ring, capacity, id).len() > 0,
        pushed(ring, capacity, id)[0] == id,
{
}

/// A capacity of 0 disables the recency tier: nothing is ever kept.
pub proof fn law_push_disabled(ring: Seq<MemoryId>, id: MemoryId)
    ensures
        pushed(ring, 0, id) == Seq::<MemoryId>::empty(),
{
    assert(pushed(ring, 0, id) =~= Seq::empty());
}

/// A ring keeps no id twice and never outgrows its capacity.
pub proof fn law_push_bounded(ring: Seq<MemoryId>, capacity: nat, id: MemoryId)
    requires
        ring.no_duplicates(),
    ensures
        pushed(ring, capacity, id).no_duplicates(),
        pushed(ring, capacity, id).len() <= capacity,
{
    lemma_without(ring, id);
    let t = seq![id] + without(ring, id);
    assert forall|i: int, j: int| 0 <= i < t.len() && 0 <= j < t.len() && i != j implies t[i]
        != t[j] by {
        let w = without(ring, id);
        if i > 0 {
            assert(t[i] == w[i - 1]);
            assert(w.contains(w[i - 1]));
        }
        if j > 0 {
            assert(t[j] == w[j - 1]);
            assert(w.contains(w[j - 1]));
        }
    }
}

/// Observing the same memory twice in succession is observing it once.
pub proof fn law_push_twice(ring: Seq<MemoryId>, capacity: nat, id: MemoryId)
    requires
        ring.no_duplicates(),
    ensures
        pushed(pushed(ring, capacity, id), capacity, id) == pushed(ring, capacity, id),
{
    let once = pushed(ring, capacity, id);
    law_push_bounded(ring, capacity, id);
    if capacity > 0 {
        lemma_remove_is_without(once, 0, id);
        assert(seq![id] + once.remove(0) =~= once);
    } else {
        law_push_disabled(ring, id);
        law_push_disabled(once, id);
    }
}

/// Observing a memory that is in the ring moves it to the front and pushes
/// nothing out: the ring keeps its length and its ids.
pub proof fn law_push_known(ring: Seq<MemoryId>, capacity: nat, id: MemoryId, x: MemoryId)
    requires
        ring.no_duplicates(),
        ring.len() <= capacity,
        ring.contains(id),
    ensures
        pushed(ring, capacity, id).len() == ring.len(),
        pushed(ring, capacity, id).contains(x) <==> ring.contains(x),
{
    let i = ring.index_of(id);
    lemma_remove_is_without(ring, i, id);
    lemma_without_contains(ring, id, x);
    let w = without(ring, id);
    let p = pushed(ring, capacity, id);
    assert(p == seq![id] + w);
    assert(p[0] == id);
    if w.contains(x) {
        assert(p[w.index_of(x) + 1] == x);
    }
    if p.contains(x) && x != id {
        let k = p.index_of(x);
        assert(w[k - 1] == x);
    }
}

/// Observing a new memory pushes the others back by one place, and out of a
/// full ring it pushes the oldest, and only the oldest.
pub proof fn law_push_new(ring: Seq<MemoryId>, capacity: nat, id: MemoryId)
    requires
        0 < capacity,
        ring.len() <= capacity,
        !ring.contains(id),
    ensures
        pushed(ring, capacity, id) == if ring.len() < capacity {
            seq![id] + ring
        } else {
            seq![id] + ring.drop_last()
        },
{
    lemma_absent(ring, id);
    if ring.len() == capacity {
        assert((seq![id] + ring).take(capacity as int) =~= seq![id] + ring.drop_last());
    }
}

/// A push onto a ring that was cut short gives what a push onto all of it
/// gives.
proof fn lemma_push_cut(s: Seq<MemoryId>, capacity: nat, id: MemoryId)
    requires
        s.no_duplicates(),
    ensures
        pushed(crate::order::at_most(s, capacity), capacity, id) == pushed(s, capacity, id),
{
    if s.len() > capacity {
        let t = s.take(capacity as int);
        if capacity == 0 {
            law_push_disabled(s, id);
            law_push_disabled(t, id);
        } else {
            if s.contains(id) {
                let i = s.index_of(id);
                lemma_remove_is_without(s, i, id);
                if i < capacity {
                    assert(t[i] == id);
                    lemma_remove_is_without(t, i, id);
                } else {
                    assert(!t.contains(id));
                    lemma_absent(t, id);
                }
            } else {
                assert(!t.contains(id)) by {
                    if t.contains(id) {
                        assert(s[t.index_of(id)] == id);
                    }
                }
                lemma_absent(s, id);
                lemma_absent(t, id);
            }
            assert(pushed(t, capacity, id) =~= pushed(s, capacity, id));
        }
    }
}

/// The recent ids of a history are its ids, each once.
pub proof fn law_recent(history: Seq<MemoryId>)
    ensures
        recent(history).no_duplicates(),
        forall|x: MemoryId| #[trigger] recent(history).contains(x) <==> history.contains(x),
    decreases history.len(),
{
    let r = recent(history);
    if history.len() > 0 {
        let (rest, id) = (history.drop_last(), history.last());
        let w = without(recent(rest), id);
        law_recent(rest);
        law_push_bounded(recent(rest), (w.len() + 1) as nat, id);
        assert forall|x: MemoryId| #[trigger] r.contains(x) <==> history.contains(x) by {
            lemma_without_contains(recent(rest), id, x);
            assert(r[0] == id);
            assert(history[history.len() - 1] == id);
            if r.contains(x) && x != id {
                let k = r.index_of(x);
                assert(w[k - 1] == x);
                assert(rest.contains(x));
                assert(history[rest.index_of(x)] == x);
            }
            if history.contains(x) && x != id {
                let k = history.index_of(x);
                assert(rest[k] == x);
                assert(w.contains(x));
                assert(r[w.index_of(x) + 1] == x);
            }
        }
    }
}

/// Whatever has been observed, in whatever order, the ring holds the most
/// recently observed distinct ids, as many as fit, most recent first.
pub proof fn law_ring_is_recent(history: Seq<MemoryId>, capacity: nat)
    ensures
        pushed_all(history, capacity) == crate::order::at_most(recent(history), capacity),
    decreases history.len(),
{
    if history.len() > 0 {
        let (rest, id) = (history.drop_last(), history.last());
        law_ring_is_recent(rest, capacity);
        law_recent(rest);
        lemma_push_cut(recent(rest), capacity, id);
    }
}

/// Whatever is observed, the others keep their order: of two other ids, both
/// still in the ring, the more recent one still is.
pub proof fn law_push_keeps_order(
    ring: Seq<MemoryId>,
    capacity: nat,
    id: MemoryId,
    x: MemoryId,
    y: MemoryId,
)
    requires
        ring.no_duplicates(),
        x != id,
        y != id,
        pushed(ring, capacity, id).contains(x),
        pushed(ring, capacity, id).contains(y),
        pushed(ring, capacity, id).index_of(x) < pushed(ring, capacity, id).index_of(y),
    ensures
        ring.contains(x),
        ring.contains(y),
        ring.index_of(x) < ring.index_of(y),
{
    let p = pushed(ring, capacity, id);
    let w = without(ring, id);
    lemma_without(ring, id);
    let (a, b) = (p.index_of(x), p.index_of(y));
    assert(p[a] == x && p[b] == y);
    assert(w[a - 1] == x && w[b - 1] == y);
    if ring.contains(id) {
        let i = ring.index_of(id);
        lemma_remove_is_without(ring, i, id);
        let c = if a - 1 < i {
            a - 1
        } else {
            a
        };
        let d = if b - 1 < i {
            b - 1
        } else {
            b
        };
        assert(ring[c] == x && ring[d] == y);
    } else {
        lemma_absent(ring, id);
        assert(ring[a - 1] == x && ring[b - 1] == y);
    }
}

/// An id leaves the ring only by being the least recent of one that is full,
/// and only for a new id: any other stays.
pub proof fn law_push_drops_the_oldest(
    ring: Seq<MemoryId>,
    capacity: nat,
    id: MemoryId,
    i: int,
)
    requires
        0 < capacity,
        ring.no_duplicates(),
        ring.len() <= capacity,
        0 <= i < ring.len(),
        i < capacity - 1 || ring.contains(id),
    ensures
        pushed(ring, capacity, id).contains(ring[i]),
{
    assert(ring.contains(ring[i]));
    if ring.contains(id) {
        law_push_known(ring, capacity, id, ring[i]);
    } else {
        law_push_new(ring, capacity, id);
        assert(pushed(ring, capacity, id)[i + 1] == ring[i]);
    }
}

} // verus!
