//! The indirect min-priority queue of the planner: an authoritative
//! key-by-identity table supporting decrease/increase-key by overwriting.
//! A later `push` for the same identity supersedes the earlier key, and
//! `pop`/`peek` always answer from the authoritative records, so a stale
//! key is never returned.

use vstd::prelude::*;
use crate::assoc::{uniq_keys, amap, lemma_amap_contains, lemma_amap_index,
    lemma_amap_push, lemma_amap_update, lemma_amap_remove};
use crate::types::{StarKey, HCoord, ACoord};

verus! {

/// An ordered composite key: a total order given by `le_key`.
pub trait QueueKey: Copy + Sized {
    /// The order the queue pops by, smallest first.
    spec fn le_key(self, other: Self) -> bool;

    /// The order is total.
    proof fn lemma_le_total(a: Self, b: Self)
        ensures
            a.le_key(b) || b.le_key(a),
    ;

    /// The order is transitive.
    proof fn lemma_le_trans(a: Self, b: Self, c: Self)
        requires
            a.le_key(b),
            b.le_key(c),
        ensures
            a.le_key(c),
    ;

    /// Decides the order.
    fn le(self, other: Self) -> (r: bool)
        ensures
            r == self.le_key(other),
    ;
}

/// An identity the queue can index by: decidable equality.
pub trait Identity: Copy + Sized {
    /// Decides equality of identities.
    fn same(self, other: Self) -> (r: bool)
        ensures
            r == (self == other),
    ;
}

impl QueueKey for usize {
    open spec fn le_key(self, other: Self) -> bool {
        self <= other
    }

    proof fn lemma_le_total(a: Self, b: Self) {
    }

    proof fn lemma_le_trans(a: Self, b: Self, c: Self) {
    }

    fn le(self, other: Self) -> (r: bool) {
        self <= other
    }
}

impl QueueKey for StarKey {
    open spec fn le_key(self, other: Self) -> bool {
        self.le_spec(other)
    }

    proof fn lemma_le_total(a: Self, b: Self) {
    }

    proof fn lemma_le_trans(a: Self, b: Self, c: Self) {
    }

    fn le(self, other: Self) -> (r: bool) {
        self.cost_astar < other.cost_astar
            || (self.cost_astar == other.cost_astar && self.cost_dijkstra <= other.cost_dijkstra)
    }
}

impl Identity for usize {
    fn same(self, other: Self) -> (r: bool) {
        self == other
    }
}

impl Identity for HCoord {
    fn same(self, other: Self) -> (r: bool) {
        self.l == other.l && self.x == other.x && self.y == other.y
    }
}

impl Identity for ACoord {
    fn same(self, other: Self) -> (r: bool) {
        self.x == other.x && self.y == other.y
    }
}

/// True when the vector holds the given identity.
#[verifier::loop_isolation(false)]
pub(crate) fn contains_enc<T: Identity>(v: &Vec<T>, x: T) -> (r: bool)
    ensures
        r == v@.contains(x),
{
    let mut i: usize = 0;
    while i < v.len()
        invariant
            i <= v@.len(),
            forall|j: int| 0 <= j < i ==> v@[j] != x,
        decreases v@.len() - i,
    {
        if v[i].same(x) {
            return true;
        }
        i += 1;
    }
    false
}

/// An entry pairing a measure with the identity it was recorded for.
#[derive(Copy, Clone, Debug)]
pub struct IndexNode<M, S> {
    pub measure: M,
    pub identity: S,
}

impl<M: Copy, S: Copy> IndexNode<M, S> {
    pub fn new(measure: M, identity: S) -> (r: Self)
        ensures
            r.measure == measure,
            r.identity == identity,
    {
        Self { measure, identity }
    }
}

/// The indirect priority queue: at most one authoritative
/// `(identity, measure)` record per identity, popped in ascending key
/// order.
pub struct IPQueue<M, S> {
    records: Vec<(S, M)>,
}

impl<M: QueueKey, S: Identity> IPQueue<M, S> {
    /// The authoritative key of each live identity.
    pub closed spec fn as_map(self) -> Map<S, M> {
        amap(self.records@)
    }

    /// At most one record per identity.
    pub closed spec fn wf(self) -> bool {
        uniq_keys(self.records@)
    }

    /// An empty queue.
    pub fn new() -> (r: Self)
        ensures
            r.wf(),
            r.as_map() == Map::<S, M>::empty(),
    {
        let r = Self { records: Vec::new() };
        proof {
            assert(r.records@.len() == 0);
        }
        r
    }

    /// Forgets every record.
    pub fn clear(&mut self)
        ensures
            final(self).wf(),
            final(self).as_map() == Map::<S, M>::empty(),
    {
        self.records.clear();
        proof {
            assert(self.records@.len() == 0);
        }
    }

    /// Position of an identity's record, if one is live.
    fn find_idx(&self, identity: S) -> (r: Option<usize>)
        ensures
            match r {
                Some(i) => i < self.records@.len() && self.records@[i as int].0 == identity,
                None => !self.as_map().contains_key(identity),
            },
    {
        let mut i: usize = 0;
        while i < self.records.len()
            invariant
                i <= self.records@.len(),
                forall|j: int| 0 <= j < i ==> (#[trigger] self.records@[j]).0 != identity,
            decreases self.records@.len() - i,
        {
            let (id, _) = self.records[i];
            if id.same(identity) {
                return Some(i);
            }
            i += 1;
        }
        proof { lemma_amap_contains(self.records@, identity); }
        None
    }

    /// Records `measure` as the authoritative key for `identity`,
    /// superseding any earlier key for it.
    pub fn push(&mut self, identity: S, measure: M)
        requires
            old(self).wf(),
        ensures
            final(self).wf(),
            final(self).as_map() == old(self).as_map().insert(identity, measure),
    {
        match self.find_idx(identity) {
            Some(i) => {
                proof { lemma_amap_update(self.records@, i as int, measure); }
                self.records.set(i, (identity, measure));
            }
            None => {
                proof { lemma_amap_push(self.records@, identity, measure); }
                self.records.push((identity, measure));
            }
        }
    }

    /// Deletes the authoritative record of `identity`; until it is pushed
    /// again, no `pop` or `peek` returns it.
    pub fn remove(&mut self, identity: &S)
        requires
            old(self).wf(),
        ensures
            final(self).wf(),
            final(self).as_map() == old(self).as_map().remove(*identity),
    {
        match self.find_idx(*identity) {
            Some(i) => {
                proof { lemma_amap_remove(self.records@, i as int); }
                let _ = self.records.remove(i);
            }
            None => {
                proof {
                    assert(self.as_map().remove(*identity) =~= self.as_map());
                }
            }
        }
    }

    /// `i` is the position `pop` and `peek` answer from: its key is
    /// minimal, and it is the last position carrying that key.
    pub closed spec fn is_front(self, i: int) -> bool {
        &&& 0 <= i < self.records@.len()
        &&& forall|j: int| 0 <= j < self.records@.len()
            ==> self.records@[i].1.le_key((#[trigger] self.records@[j]).1)
        &&& forall|j: int| i < j < self.records@.len()
            ==> !((#[trigger] self.records@[j]).1.le_key(self.records@[i].1))
    }

    /// The record `pop` removes and `peek` reports: ties on the minimal
    /// key resolve to the same identity for both.
    pub closed spec fn front(self) -> Option<(S, M)> {
        if self.records@.len() == 0 {
            None
        } else {
            let i = choose|i: int| self.is_front(i);
            Some((self.records@[i].0, self.records@[i].1))
        }
    }

    /// The front position is unique, so any position shown to be the
    /// front decides `front`.
    proof fn lemma_front_agrees(self, i: int)
        requires
            self.is_front(i),
        ensures
            self.front() == Some((self.records@[i].0, self.records@[i].1)),
    {
        assert(exists|k: int| self.is_front(k));
        let f = choose|k: int| self.is_front(k);
        assert(self.is_front(f));
        if f < i {
            assert(self.records@[f].1.le_key(self.records@[i].1));
            assert(!(self.records@[f + (i - f)].1.le_key(self.records@[f].1)));
            M::lemma_le_total(self.records@[f].1, self.records@[i].1);
            assert(false);
        }
        if i < f {
            assert(self.records@[i].1.le_key(self.records@[f].1));
            assert(!(self.records@[f].1.le_key(self.records@[i].1)));
            assert(false);
        }
    }

    /// Position of a record of minimum key, when any record is live.
    fn min_idx(&self) -> (r: Option<usize>)
        requires
            self.wf(),
        ensures
            match r {
                Some(i) => {
                    &&& i < self.records@.len()
                    &&& self.is_front(i as int)
                    &&& self.as_map().contains_key(self.records@[i as int].0)
                    &&& self.as_map()[self.records@[i as int].0] == self.records@[i as int].1
                    &&& forall|id: S| #[trigger] self.as_map().contains_key(id)
                        ==> self.records@[i as int].1.le_key(self.as_map()[id])
                },
                None => self.as_map() == Map::<S, M>::empty() && self.records@.len() == 0,
            },
    {
        if self.records.len() == 0 {
            proof {
                assert(self.as_map() =~= Map::<S, M>::empty());
            }
            return None;
        }
        let mut best: usize = 0;
        let mut i: usize = 1;
        proof { M::lemma_le_total(self.records@[0].1, self.records@[0].1); }
        while i < self.records.len()
            invariant
                self.wf(),
                best < i <= self.records@.len(),
                forall|j: int| 0 <= j < i
                    ==> self.records@[best as int].1.le_key((#[trigger] self.records@[j]).1),
                forall|j: int| best < j < i
                    ==> !((#[trigger] self.records@[j]).1.le_key(self.records@[best as int].1)),
            decreases self.records@.len() - i,
        {
            let (_, cur) = self.records[i];
            let (_, best_key) = self.records[best];
            proof { M::lemma_le_total(cur, best_key); }
            if cur.le(best_key) {
                proof {
                    assert forall|j: int| 0 <= j < i + 1
                        implies self.records@[i as int].1.le_key((#[trigger] self.records@[j]).1) by {
                        if j < i {
                            M::lemma_le_trans(cur, best_key, self.records@[j].1);
                        } else {
                            M::lemma_le_total(cur, cur);
                        }
                    }
                }
                best = i;
            }
            i += 1;
        }
        proof {
            lemma_amap_index(self.records@, best as int);
            assert forall|id: S| #[trigger] self.as_map().contains_key(id)
                implies self.records@[best as int].1.le_key(self.as_map()[id]) by {
                lemma_amap_contains(self.records@, id);
                let j = choose|j: int| 0 <= j < self.records@.len()
                    && (#[trigger] self.records@[j]).0 == id;
                lemma_amap_index(self.records@, j);
            }
        }
        Some(best)
    }

    /// The live identity of minimum key together with that key, without
    /// removing it; `None` exactly when no identity is live.
    pub fn peek(&mut self) -> (r: Option<(S, M)>)
        requires
            old(self).wf(),
        ensures
            *final(self) == *old(self),
            final(self).wf(),
            final(self).as_map() == old(self).as_map(),
            r == old(self).front(),
            match r {
                Some(p) => {
                    &&& old(self).as_map().contains_key(p.0)
                    &&& old(self).as_map()[p.0] == p.1
                    &&& forall|id: S| #[trigger] old(self).as_map().contains_key(id)
                        ==> p.1.le_key(old(self).as_map()[id])
                },
                None => old(self).as_map() == Map::<S, M>::empty(),
            },
    {
        match self.min_idx() {
            Some(i) => {
                proof { self.lemma_front_agrees(i as int); }
                let (id, m) = self.records[i];
                Some((id, m))
            }
            None => None,
        }
    }

    /// Removes and returns the live identity of minimum key with that
    /// key; `None` exactly when no identity is live.
    pub fn pop(&mut self) -> (r: Option<(S, M)>)
        requires
            old(self).wf(),
        ensures
            final(self).wf(),
            r == old(self).front(),
            match r {
                Some(p) => {
                    &&& old(self).as_map().contains_key(p.0)
                    &&& old(self).as_map()[p.0] == p.1
                    &&& forall|id: S| #[trigger] old(self).as_map().contains_key(id)
                        ==> p.1.le_key(old(self).as_map()[id])
                    &&& final(self).as_map() == old(self).as_map().remove(p.0)
                },
                None => {
                    &&& old(self).as_map() == Map::<S, M>::empty()
                    &&& final(self).as_map() == old(self).as_map()
                },
            },
    {
        match self.min_idx() {
            Some(i) => {
                proof {
                    self.lemma_front_agrees(i as int);
                    lemma_amap_remove(self.records@, i as int);
                }
                let (id, m) = self.records.remove(i);
                Some((id, m))
            }
            None => None,
        }
    }
}

} // verus!
