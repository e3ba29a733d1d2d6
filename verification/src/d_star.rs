//! The incremental D* Lite planner: per-node `(g, rhs)` cost state, the
//! indirect priority queue ordered by composite keys, and an accumulated
//! key modifier that keeps old queue entries comparable after the start
//! moves. Replanning resumes the previous search instead of restarting.

use vstd::prelude::*;
use crate::types::{ACoord, StarKey, min_usize, sat_add};
use crate::pqueue::{IPQueue, Identity, QueueKey, contains_enc};
use crate::spatial::SpatialMap;
use crate::plan::{Planner, DStarPlan};
use crate::types::Belief;
use crate::assoc::{uniq_keys, amap, lemma_amap_contains, lemma_amap_index,
    lemma_amap_push, lemma_amap_update};

verus! {

/// Bound on the search and reconstruction loops; exceeding it reports
/// failure rather than running unboundedly.
pub const SEARCH_FUEL: usize = 1000000;

/// Strict lexicographic comparison of queue keys.
fn key_lt(a: StarKey, b: StarKey) -> (r: bool)
    ensures
        r == (a.le_spec(b) && a != b),
{
    a.cost_astar < b.cost_astar
        || (a.cost_astar == b.cost_astar && a.cost_dijkstra < b.cost_dijkstra)
}

/// The `g` estimate recorded for a node, infinite when absent.
pub open spec fn g_of<T>(m: Map<T, (usize, usize)>, u: T) -> usize {
    if m.contains_key(u) {
        m[u].0
    } else {
        usize::MAX
    }
}

/// The `rhs` estimate recorded for a node, infinite when absent.
pub open spec fn rhs_of<T>(m: Map<T, (usize, usize)>, u: T) -> usize {
    if m.contains_key(u) {
        m[u].1
    } else {
        usize::MAX
    }
}

/// The queue key a node carries:
/// `(min(g, rhs) + h(u, start) + k, min(g, rhs))`, saturating.
pub open spec fn key_of<S: SpatialMap>(
    env: S,
    m: Map<S::Encoded, (usize, usize)>,
    k: usize,
    source: S::Encoded,
    u: S::Encoded,
) -> StarKey {
    let d = min_usize(g_of(m, u), rhs_of(m, u));
    (StarKey {
        cost_astar: sat_add(sat_add(d as int, env.sm_dist(u, source)) as int, k as int),
        cost_dijkstra: d,
    })
}

/// Cost of reaching the goal through neighbor `n`:
/// `distance(u, n) + g(n)`, saturating.
pub open spec fn cost_via<S: SpatialMap>(
    env: S,
    m: Map<S::Encoded, (usize, usize)>,
    u: S::Encoded,
    n: S::Encoded,
) -> usize {
    sat_add(env.sm_dist(u, n), g_of(m, n) as int)
}

/// A step the lookahead may relax through: a non-occupied listed
/// neighbor of `u` with recorded cost state.
pub open spec fn relax_candidate<S: SpatialMap>(
    env: S,
    m: Map<S::Encoded, (usize, usize)>,
    u: S::Encoded,
    n: S::Encoded,
) -> bool {
    &&& env.sm_enc_in(n)
    &&& env.sm_adjacent(u, n)
    &&& env.sm_belief(n) != Belief::Occupied
    &&& m.contains_key(n)
}

/// `rhs` is the one-step lookahead of `u`: no relax step costs less, and
/// unless infinite it is achieved by some relax step.
pub open spec fn rhs_min<S: SpatialMap>(
    env: S,
    m: Map<S::Encoded, (usize, usize)>,
    u: S::Encoded,
    rhs: usize,
) -> bool {
    &&& (env.sm_node_known(u) ==> forall|n: S::Encoded|
        #[trigger] relax_candidate(env, m, u, n) ==> rhs <= cost_via(env, m, u, n))
    &&& (rhs == usize::MAX || exists|n: S::Encoded|
        #[trigger] relax_candidate(env, m, u, n) && rhs == cost_via(env, m, u, n))
}

/// The lookahead is insensitive to growing the cost state, as long as no
/// `g` estimate changes: fresh records enter with `g` infinite, so they
/// cannot offer a cheaper step.
proof fn lemma_rhs_min_monotone<S: SpatialMap>(
    env: S,
    m1: Map<S::Encoded, (usize, usize)>,
    m2: Map<S::Encoded, (usize, usize)>,
    u: S::Encoded,
    rhs: usize,
)
    requires
        rhs_min(env, m1, u, rhs),
        forall|x: S::Encoded| #[trigger] g_of(m2, x) == g_of(m1, x),
        forall|x: S::Encoded| #[trigger] m1.contains_key(x) ==> m2.contains_key(x),
    ensures
        rhs_min(env, m2, u, rhs),
{
    if env.sm_node_known(u) {
        assert forall|n: S::Encoded| #[trigger] relax_candidate(env, m2, u, n)
            implies rhs <= cost_via(env, m2, u, n) by {
            assert(g_of(m2, n) == g_of(m1, n));
            if m1.contains_key(n) {
                assert(relax_candidate(env, m1, u, n));
            } else {
                env.sm_dist_nonneg(u, n);
                assert(g_of(m1, n) == usize::MAX);
                assert(cost_via(env, m2, u, n) == usize::MAX);
            }
        }
    }
    if rhs != usize::MAX {
        let n = choose|n: S::Encoded|
            #[trigger] relax_candidate(env, m1, u, n) && rhs == cost_via(env, m1, u, n);
        assert(relax_candidate(env, m2, u, n));
        assert(g_of(m2, n) == g_of(m1, n));
        assert(rhs == cost_via(env, m2, u, n));
    }
}

/// A step the greedy walk may take from `c`: an unvisited listed
/// neighbor with recorded cost state.
pub open spec fn walk_candidate<S: SpatialMap>(
    env: S,
    m: Map<S::Encoded, (usize, usize)>,
    visited: Seq<S::Encoded>,
    c: S::Encoded,
    n: S::Encoded,
) -> bool {
    &&& env.sm_enc_in(n)
    &&& env.sm_adjacent(c, n)
    &&& m.contains_key(n)
    &&& !visited.contains(n)
}

/// `n` is a greedy pick at `c`: a finite-cost walk step whose
/// `g + distance` no other walk step undercuts.
pub open spec fn greedy_step<S: SpatialMap>(
    env: S,
    m: Map<S::Encoded, (usize, usize)>,
    visited: Seq<S::Encoded>,
    c: S::Encoded,
    n: S::Encoded,
) -> bool {
    &&& walk_candidate(env, m, visited, c, n)
    &&& cost_via(env, m, c, n) < usize::MAX
    &&& (env.sm_node_known(c) ==> forall|p: S::Encoded|
        #[trigger] walk_candidate(env, m, visited, c, p)
            ==> cost_via(env, m, c, n) <= cost_via(env, m, c, p))
}

/// The walk can go no further from `c`: every remaining step costs
/// infinity.
pub open spec fn walk_stuck<S: SpatialMap>(
    env: S,
    m: Map<S::Encoded, (usize, usize)>,
    visited: Seq<S::Encoded>,
    c: S::Encoded,
) -> bool {
    env.sm_node_known(c) ==> forall|p: S::Encoded|
        #[trigger] walk_candidate(env, m, visited, c, p)
            ==> cost_via(env, m, c, p) == usize::MAX
}

/// Session state of the incremental planner.
pub struct DStarPlanner<S: SpatialMap> {
    pub star: Vec<(S::Encoded, (usize, usize))>,
    pub pqueue: IPQueue<StarKey, S::Encoded>,
    pub origin: Option<S::Encoded>,
    pub source: Option<S::Encoded>,
    pub target: Option<S::Encoded>,
    pub k: usize,
}

impl<S: SpatialMap> DStarPlanner<S> {
    /// The cost state: each visited node's `(g, rhs)` pair.
    pub closed spec fn star_map(self) -> Map<S::Encoded, (usize, usize)> {
        amap(self.star@)
    }

    /// Session consistency with a map: unique cost records, a well-formed
    /// queue, and every recorded node one that the map handles.
    pub open spec fn wf_for(self, env: S) -> bool {
        &&& uniq_keys(self.star@)
        &&& self.pqueue.wf()
        &&& forall|id: S::Encoded| #[trigger] self.star_map().contains_key(id)
            ==> env.sm_enc_in(id)
        &&& forall|id: S::Encoded| #[trigger] self.pqueue.as_map().contains_key(id)
            ==> env.sm_enc_in(id)
        &&& (self.source matches Some(s) ==> env.sm_enc_in(s))
        &&& (self.target matches Some(t) ==> env.sm_enc_in(t))
        &&& (self.origin matches Some(o) ==> env.sm_enc_in(o))
    }

    /// A planner with no session: the first `plan` call creates one.
    pub fn new() -> (r: Self)
        ensures
            forall|e: S| r.wf_for(e),
            r.source is None,
            r.target is None,
    {
        let r = Self {
            star: Vec::new(),
            pqueue: IPQueue::new(),
            origin: None,
            source: None,
            target: None,
            k: 0,
        };
        proof {
            assert(r.star@.len() == 0);
            assert forall|e: S| r.wf_for(e) by {
                assert(forall|id: S::Encoded| !(#[trigger] r.star_map().contains_key(id)));
            }
        }
        r
    }

    /// Position of a node's cost record.
    fn star_find(&self, u: S::Encoded) -> (r: Option<usize>)
        ensures
            match r {
                Some(i) => i < self.star@.len() && self.star@[i as int].0 == u,
                None => !self.star_map().contains_key(u),
            },
    {
        let mut i: usize = 0;
        while i < self.star.len()
            invariant
                i <= self.star@.len(),
                forall|j: int| 0 <= j < i ==> (#[trigger] self.star@[j]).0 != u,
            decreases self.star@.len() - i,
        {
            let (id, _) = self.star[i];
            if id.same(u) {
                return Some(i);
            }
            i += 1;
        }
        proof { lemma_amap_contains(self.star@, u); }
        None
    }

    /// The recorded `(g, rhs)` of a node, if any.
    fn star_get(&self, u: S::Encoded) -> (r: Option<(usize, usize)>)
        requires
            uniq_keys(self.star@),
        ensures
            r == if self.star_map().contains_key(u) {
                Some(self.star_map()[u])
            } else {
                None::<(usize, usize)>
            },
    {
        match self.star_find(u) {
            Some(i) => {
                proof { lemma_amap_index(self.star@, i as int); }
                Some(self.star[i].1)
            }
            None => None,
        }
    }

    /// Records a node's `(g, rhs)` pair.
    fn star_set(&mut self, Ghost(env): Ghost<S>, u: S::Encoded, v: (usize, usize))
        requires
            old(self).wf_for(env),
            env.sm_enc_in(u),
        ensures
            final(self).wf_for(env),
            final(self).star_map() == old(self).star_map().insert(u, v),
            final(self).pqueue == old(self).pqueue,
            final(self).source == old(self).source,
            final(self).target == old(self).target,
            final(self).origin == old(self).origin,
            final(self).k == old(self).k,
    {
        match self.star_find(u) {
            Some(i) => {
                proof { lemma_amap_update(self.star@, i as int, v); }
                self.star.set(i, (u, v));
            }
            None => {
                proof { lemma_amap_push(self.star@, u, v); }
                self.star.push((u, v));
            }
        }
        proof {
            assert forall|id: S::Encoded| #[trigger] self.star_map().contains_key(id)
                implies env.sm_enc_in(id) by {
                if id != u {
                    assert(old(self).star_map().contains_key(id));
                }
            }
        }
    }

    /// Records `key` for `u` in the queue, keeping the session
    /// consistent.
    fn queue_push(&mut self, Ghost(env): Ghost<S>, u: S::Encoded, key: StarKey)
        requires
            old(self).wf_for(env),
            env.sm_enc_in(u),
        ensures
            final(self).wf_for(env),
            final(self).star@ == old(self).star@,
            final(self).pqueue.as_map() == old(self).pqueue.as_map().insert(u, key),
            final(self).source == old(self).source,
            final(self).target == old(self).target,
            final(self).origin == old(self).origin,
            final(self).k == old(self).k,
    {
        self.pqueue.push(u, key);
        proof {
            assert forall|id: S::Encoded| #[trigger] self.pqueue.as_map().contains_key(id)
                implies env.sm_enc_in(id) by {
                if id != u {
                    assert(old(self).pqueue.as_map().contains_key(id));
                }
            }
            assert(self.star_map() == old(self).star_map());
            assert forall|id: S::Encoded| #[trigger] self.star_map().contains_key(id)
                implies env.sm_enc_in(id) by {
                assert(old(self).star_map().contains_key(id));
            }
        }
    }

    /// Drops `u` from the queue, keeping the session consistent.
    fn queue_remove(&mut self, Ghost(env): Ghost<S>, u: S::Encoded)
        requires
            old(self).wf_for(env),
        ensures
            final(self).wf_for(env),
            final(self).star@ == old(self).star@,
            final(self).pqueue.as_map() == old(self).pqueue.as_map().remove(u),
            final(self).source == old(self).source,
            final(self).target == old(self).target,
            final(self).origin == old(self).origin,
            final(self).k == old(self).k,
    {
        self.pqueue.remove(&u);
        proof {
            assert forall|id: S::Encoded| #[trigger] self.pqueue.as_map().contains_key(id)
                implies env.sm_enc_in(id) by {
                assert(old(self).pqueue.as_map().contains_key(id));
            }
            assert(self.star_map() == old(self).star_map());
            assert forall|id: S::Encoded| #[trigger] self.star_map().contains_key(id)
                implies env.sm_enc_in(id) by {
                assert(old(self).star_map().contains_key(id));
            }
        }
    }

    /// Clears the session and seeds a fresh search: `rhs(goal) = 0` with
    /// `g(goal)` unknown, the start unknown on both counts, and the goal
    /// queued under key `(distance(goal, start), 0)`.
    fn initialize(&mut self, env: &S, source: S::Encoded, target: S::Encoded)
        requires
            env.sm_wf(),
            env.sm_enc_in(source),
            env.sm_enc_in(target),
        ensures
            final(self).wf_for(*env),
            final(self).source == Some(source),
            final(self).target == Some(target),
            final(self).origin == Some(source),
            final(self).k == 0,
            final(self).star_map() == Map::<S::Encoded, (usize, usize)>::empty()
                .insert(target, (usize::MAX, 0)).insert(source, (usize::MAX, usize::MAX)),
            final(self).pqueue.as_map() == Map::<S::Encoded, StarKey>::empty()
                .insert(target, (StarKey {
                    cost_astar: env.sm_dist(source, target) as usize,
                    cost_dijkstra: 0,
                })),
    {
        self.star.clear();
        self.pqueue.clear();
        self.k = 0;
        self.origin = Some(source);
        self.source = Some(source);
        self.target = Some(target);
        proof {
            assert(self.star@.len() == 0);
            assert(forall|id: S::Encoded| !(#[trigger] self.star_map().contains_key(id)));
            assert(self.star_map() =~= Map::<S::Encoded, (usize, usize)>::empty());
            assert(self.pqueue.as_map() =~= Map::<S::Encoded, StarKey>::empty());
            assert(self.wf_for(*env));
        }
        let h = env.distance(source, target);
        self.star_set(Ghost(*env), target, (usize::MAX, 0));
        self.star_set(Ghost(*env), source, (usize::MAX, usize::MAX));
        self.queue_push(Ghost(*env), target, StarKey { cost_astar: h, cost_dijkstra: 0 });
    }

    /// The queue key a node should carry now:
    /// `(min(g, rhs) + h(u, start) + k, min(g, rhs))`.
    fn calculate_key(&self, env: &S, u: S::Encoded) -> (r: StarKey)
        requires
            env.sm_wf(),
            self.wf_for(*env),
            env.sm_enc_in(u),
            self.source is Some,
        ensures
            r == key_of(*env, self.star_map(), self.k, self.source.unwrap(), u),
    {
        let source = self.source.unwrap();
        let h = env.distance(u, source);
        let (g, rhs) = match self.star_get(u) {
            Some(v) => v,
            None => (usize::MAX, usize::MAX),
        };
        StarKey::new(g, rhs, h, self.k)
    }

    /// One-step lookahead cost of `u`: the minimum of
    /// `distance(u, n) + g(n)` over its non-occupied neighbors.
    #[verifier::loop_isolation(false)]
    fn find_min_neighbor_g(&self, env: &S, u: S::Encoded) -> (r: usize)
        requires
            env.sm_wf(),
            self.wf_for(*env),
            env.sm_enc_in(u),
        ensures
            env.sm_node_known(u) ==> forall|n: S::Encoded|
                #[trigger] relax_candidate(*env, self.star_map(), u, n)
                    ==> r <= cost_via(*env, self.star_map(), u, n),
            r == usize::MAX || exists|n: S::Encoded|
                #[trigger] relax_candidate(*env, self.star_map(), u, n)
                    && r == cost_via(*env, self.star_map(), u, n),
    {
        let ns = env.neighbors(u);
        let mut min_cost = usize::MAX;
        let mut i: usize = 0;
        while i < ns.len()
            invariant
                env.sm_wf(),
                self.wf_for(*env),
                env.sm_enc_in(u),
                i <= ns@.len(),
                forall|j: int| 0 <= j < ns@.len() ==> env.sm_enc_in(#[trigger] ns@[j]),
                forall|j: int| 0 <= j < ns@.len() ==> env.sm_adjacent(u, #[trigger] ns@[j]),
                forall|n: S::Encoded| env.sm_node_known(u) && env.sm_enc_in(n)
                    && #[trigger] env.sm_adjacent(u, n) ==> ns@.contains(n),
                forall|j: int| 0 <= j < i
                    ==> (env.sm_belief(#[trigger] ns@[j]) != Belief::Occupied
                        && self.star_map().contains_key(ns@[j])
                        ==> min_cost <= cost_via(*env, self.star_map(), u, ns@[j])),
                min_cost == usize::MAX || exists|n: S::Encoded|
                    #[trigger] relax_candidate(*env, self.star_map(), u, n)
                        && min_cost == cost_via(*env, self.star_map(), u, n),
            decreases ns@.len() - i,
        {
            let n = ns[i];
            let b = env.belief(n);
            if b != Belief::Occupied {
                match self.star_get(n) {
                    Some((g_n, _)) => {
                        let c = env.distance(u, n).saturating_add(g_n);
                        proof {
                            assert(c == cost_via(*env, self.star_map(), u, n));
                            assert(relax_candidate(*env, self.star_map(), u, n));
                        }
                        if c < min_cost {
                            min_cost = c;
                        }
                    }
                    None => {}
                }
            }
            i += 1;
        }
        proof {
            if env.sm_node_known(u) {
                assert forall|n: S::Encoded|
                    #[trigger] relax_candidate(*env, self.star_map(), u, n)
                    implies min_cost <= cost_via(*env, self.star_map(), u, n) by {
                    assert(env.sm_adjacent(u, n));
                    assert(ns@.contains(n));
                    let j = choose|j: int| 0 <= j < ns@.len() && ns@[j] == n;
                    assert(env.sm_belief(ns@[j]) != Belief::Occupied
                        && self.star_map().contains_key(ns@[j]));
                }
            }
        }
        min_cost
    }

    /// Recomputes `rhs(u)` from its neighbors; requeues `u` when it is
    /// inconsistent, removes it from the queue when consistent. The goal
    /// keeps `rhs = 0` by convention and is left alone.
    fn update_vertex(&mut self, env: &S, u: S::Encoded)
        requires
            env.sm_wf(),
            old(self).wf_for(*env),
            env.sm_enc_in(u),
            old(self).source is Some,
            old(self).target is Some,
        ensures
            final(self).wf_for(*env),
            final(self).source == old(self).source,
            final(self).target == old(self).target,
            final(self).origin == old(self).origin,
            final(self).k == old(self).k,
            forall|id: S::Encoded| #[trigger] old(self).star_map().contains_key(id)
                ==> final(self).star_map().contains_key(id),
            u == old(self).target.unwrap() ==> final(self).star_map() == old(self).star_map()
                && final(self).pqueue.as_map() == old(self).pqueue.as_map(),
            u != old(self).target.unwrap() ==> ({
                let m = final(self).star_map();
                let rhs = rhs_of(m, u);
                &&& m == old(self).star_map().insert(u, (g_of(old(self).star_map(), u), rhs))
                &&& (env.sm_belief(u) == Belief::Occupied ==> rhs == usize::MAX)
                &&& (env.sm_belief(u) != Belief::Occupied ==> rhs_min(*env, m, u, rhs))
                &&& (g_of(m, u) != rhs ==> final(self).pqueue.as_map()
                    == old(self).pqueue.as_map().insert(
                        u, key_of(*env, m, old(self).k, old(self).source.unwrap(), u)))
                &&& (g_of(m, u) == rhs ==> final(self).pqueue.as_map()
                    == old(self).pqueue.as_map().remove(u))
            }),
    {
        let target = self.target.unwrap();
        if u.same(target) {
            return;
        }
        // a blocked node is unreachable: every edge into it costs infinity
        let rhs = if env.belief(u) == Belief::Occupied {
            usize::MAX
        } else {
            self.find_min_neighbor_g(env, u)
        };
        let g = match self.star_get(u) {
            Some((g, _)) => g,
            None => usize::MAX,
        };
        let ghost m0 = self.star_map();
        self.star_set(Ghost(*env), u, (g, rhs));
        proof {
            let m = self.star_map();
            assert(g == g_of(m0, u));
            assert(rhs_of(m, u) == rhs);
            assert(g_of(m, u) == g);
            if env.sm_belief(u) != Belief::Occupied {
                env.sm_adjacent_irrefl(u);
                assert forall|x: S::Encoded| #[trigger] g_of(m, x) == g_of(m0, x) by {
                    if x != u {
                        assert(m.contains_key(x) == m0.contains_key(x));
                    }
                }
                lemma_rhs_min_monotone(*env, m0, m, u, rhs);
            }
        }
        if g != rhs {
            let ckey = self.calculate_key(env, u);
            self.queue_push(Ghost(*env), u, ckey);
        } else {
            self.queue_remove(Ghost(*env), u);
        }
    }

    /// Runs the search until the start is consistent and no queued key
    /// precedes its own, popping and repairing one node at a time: a
    /// stale key is refreshed, an improvable node settles `g = rhs` and
    /// relaxes its neighbors, an invalidated node resets `g` and requeues
    /// the affected vertices. Returns whether the loop condition became
    /// false — the queue emptied or the start converged — together with
    /// the number of pops spent; only spending the whole stated budget
    /// excuses a run from that outcome.
    #[verifier::loop_isolation(false)]
    fn compute_shortest_path(&mut self, env: &S) -> (r: (bool, usize))
        requires
            env.sm_wf(),
            old(self).wf_for(*env),
            old(self).source is Some,
            old(self).target is Some,
        ensures
            final(self).wf_for(*env),
            final(self).source == old(self).source,
            final(self).target == old(self).target,
            final(self).origin == old(self).origin,
            final(self).k == old(self).k,
            forall|id: S::Encoded| #[trigger] old(self).star_map().contains_key(id)
                ==> final(self).star_map().contains_key(id),
            r.1 <= SEARCH_FUEL,
            !r.0 ==> r.1 == SEARCH_FUEL,
            r.0 ==> final(self).pqueue.as_map() == Map::<S::Encoded, StarKey>::empty()
                || ({
                    let m = final(self).star_map();
                    let q = final(self).pqueue.as_map();
                    let src = old(self).source.unwrap();
                    &&& g_of(m, src) == rhs_of(m, src)
                    &&& forall|id: S::Encoded| #[trigger] q.contains_key(id)
                        ==> key_of(*env, m, old(self).k, src, src).le_spec(q[id])
                }),
    {
        let source = self.source.unwrap();
        let mut fuel: usize = SEARCH_FUEL;
        while fuel > 0
            invariant
                env.sm_wf(),
                self.wf_for(*env),
                self.source == old(self).source,
                self.target == old(self).target,
                self.origin == old(self).origin,
                self.k == old(self).k,
                fuel <= SEARCH_FUEL,
                forall|id: S::Encoded| #[trigger] old(self).star_map().contains_key(id)
                    ==> self.star_map().contains_key(id),
                env.sm_enc_in(source),
            decreases fuel,
        {
            let (g_s, rhs_s) = match self.star_get(source) {
                Some(v) => v,
                None => (usize::MAX, usize::MAX),
            };
            let top = self.pqueue.peek();
            let (u, k_old) = match top {
                Some(p) => p,
                None => {
                    proof {
                        assert(self.pqueue.as_map() =~= Map::<S::Encoded, StarKey>::empty());
                    }
                    return (true, SEARCH_FUEL - fuel);
                }
            };
            let start_key = self.calculate_key(env, source);
            if !(key_lt(k_old, start_key) || g_s != rhs_s) {
                proof {
                    let m = self.star_map();
                    let q = self.pqueue.as_map();
                    assert(g_of(m, source) == rhs_of(m, source));
                    assert(start_key == key_of(*env, m, self.k, source, source));
                    // the peeked key is minimal and does not precede the
                    // start's recomputed key
                    assert(start_key.le_spec(k_old));
                    assert forall|id: S::Encoded| #[trigger] q.contains_key(id)
                        implies start_key.le_spec(q[id]) by {
                        assert(k_old.le_key(q[id]));
                    }
                }
                return (true, SEARCH_FUEL - fuel);
            }
            let popped = self.pqueue.pop();
            let (u, k_old) = match popped {
                Some(p) => p,
                None => {
                    proof { assert(false); }
                    return (false, SEARCH_FUEL);
                }
            };
            let k_new = self.calculate_key(env, u);
            if key_lt(k_old, k_new) {
                // the node changed since it was queued: refresh its key
                self.queue_push(Ghost(*env), u, k_new);
            } else {
                let (g_u, rhs_u) = match self.star_get(u) {
                    Some(v) => v,
                    None => (usize::MAX, usize::MAX),
                };
                if g_u > rhs_u {
                    // improvement: settle the node and relax its neighbors
                    self.star_set(Ghost(*env), u, (rhs_u, rhs_u));
                    let ns = env.neighbors(u);
                    let mut i: usize = 0;
                    while i < ns.len()
                        invariant
                            env.sm_wf(),
                            self.wf_for(*env),
                            self.source == old(self).source,
                            self.target == old(self).target,
                            self.origin == old(self).origin,
                            self.k == old(self).k,
                            self.source is Some,
                            self.target is Some,
                            forall|id: S::Encoded| #[trigger] old(self).star_map().contains_key(id)
                                ==> self.star_map().contains_key(id),
                            i <= ns@.len(),
                            forall|j: int| 0 <= j < ns@.len() ==> env.sm_enc_in(#[trigger] ns@[j]),
                        decreases ns@.len() - i,
                    {
                        let p = ns[i];
                        let b = env.belief(p);
                        if b != Belief::Occupied {
                            self.update_vertex(env, p);
                        }
                        i += 1;
                    }
                } else {
                    // invalidation: forget the optimistic estimate
                    self.star_set(Ghost(*env), u, (usize::MAX, rhs_u));
                    self.update_vertex(env, u);
                    let ns = env.neighbors(u);
                    let mut i: usize = 0;
                    while i < ns.len()
                        invariant
                            env.sm_wf(),
                            self.wf_for(*env),
                            self.source == old(self).source,
                            self.target == old(self).target,
                            self.origin == old(self).origin,
                            self.k == old(self).k,
                            self.source is Some,
                            self.target is Some,
                            forall|id: S::Encoded| #[trigger] old(self).star_map().contains_key(id)
                                ==> self.star_map().contains_key(id),
                            i <= ns@.len(),
                            forall|j: int| 0 <= j < ns@.len() ==> env.sm_enc_in(#[trigger] ns@[j]),
                        decreases ns@.len() - i,
                    {
                        let p = ns[i];
                        let b = env.belief(p);
                        if b != Belief::Occupied {
                            self.update_vertex(env, p);
                        }
                        i += 1;
                    }
                }
            }
            fuel -= 1;
        }
        (false, SEARCH_FUEL)
    }

    /// Reconstructs the route by walking greedily from the start, at each
    /// step choosing the unvisited neighbor minimizing
    /// `g(neighbor) + distance(current, neighbor)`; fails where no
    /// finite-cost neighbor remains. The start itself is not part of the
    /// route; the goal is its last element, and the route is witnessed by
    /// a chain of greedy steps over the map.
    #[verifier::loop_isolation(false)]
    #[verifier::rlimit(60)]
    fn reconstruct_decode(&self, env: &S) -> (r: Option<Vec<ACoord>>)
        requires
            env.sm_wf(),
            self.wf_for(*env),
            self.source is Some,
            self.target is Some,
        ensures
            match r {
                Some(p) => {
                    &&& (p@.len() == 0 ==> self.source == self.target)
                    &&& (p@.len() > 0 ==> p@.last() == env.sm_dec(self.target.unwrap()))
                    &&& exists|chain: Seq<S::Encoded>|
                        #![auto]
                        chain.len() == p@.len() + 1
                        && chain[0] == self.source.unwrap()
                        && chain[chain.len() - 1] == self.target.unwrap()
                        && (forall|i: int| 0 <= i < chain.len() - 1
                            ==> greedy_step(*env, self.star_map(), chain.subrange(0, i + 1),
                                #[trigger] chain[i], chain[i + 1]))
                        && (forall|i: int| 0 <= i < p@.len()
                            ==> #[trigger] p@[i] == env.sm_dec(chain[i + 1]))
                },
                None => exists|chain: Seq<S::Encoded>|
                    #![auto]
                    chain.len() >= 1
                    && chain[0] == self.source.unwrap()
                    && (forall|i: int| 0 <= i < chain.len() - 1
                        ==> greedy_step(*env, self.star_map(), chain.subrange(0, i + 1),
                            #[trigger] chain[i], chain[i + 1]))
                    && (forall|i: int| 0 <= i < chain.len() - 1
                        ==> #[trigger] chain[i] != self.target.unwrap())
                    && (chain.len() > SEARCH_FUEL
                        || (chain[chain.len() - 1] != self.target.unwrap()
                            && walk_stuck(*env, self.star_map(), chain, chain[chain.len() - 1]))),
            },
    {
        let source = self.source.unwrap();
        let target = self.target.unwrap();
        let mut plan: Vec<ACoord> = Vec::new();
        let mut visited: Vec<S::Encoded> = Vec::new();
        let mut current = source;
        let ghost mut chain: Seq<S::Encoded> = seq![source];
        let mut fuel: usize = SEARCH_FUEL;
        while fuel > 0
            invariant
                env.sm_wf(),
                self.wf_for(*env),
                self.source == Some(source),
                self.target == Some(target),
                env.sm_enc_in(current),
                chain.len() == plan@.len() + 1,
                chain.len() + fuel == SEARCH_FUEL + 1,
                chain[0] == source,
                chain[chain.len() - 1] == current,
                visited@ == chain.drop_last(),
                forall|i: int| 0 <= i < chain.len() - 1
                    ==> greedy_step(*env, self.star_map(), chain.subrange(0, i + 1),
                        #[trigger] chain[i], chain[i + 1]),
                forall|i: int| 0 <= i < chain.len() - 1 ==> #[trigger] chain[i] != target,
                forall|i: int| 0 <= i < plan@.len()
                    ==> #[trigger] plan@[i] == env.sm_dec(chain[i + 1]),
            decreases fuel,
        {
            if current.same(target) {
                proof {
                    if plan@.len() > 0 {
                        assert(plan@.last() == env.sm_dec(chain[chain.len() - 1]));
                    }
                }
                return Some(plan);
            }
            visited.push(current);
            proof {
                assert(visited@ =~= chain);
            }
            let ns = env.neighbors(current);
            let mut best: Option<S::Encoded> = None;
            let mut best_cost: usize = usize::MAX;
            let mut i: usize = 0;
            while i < ns.len()
                invariant
                    env.sm_wf(),
                    self.wf_for(*env),
                    env.sm_enc_in(current),
                    visited@ == chain,
                    i <= ns@.len(),
                    forall|j: int| 0 <= j < ns@.len() ==> env.sm_enc_in(#[trigger] ns@[j]),
                    forall|j: int| 0 <= j < ns@.len()
                        ==> env.sm_adjacent(current, #[trigger] ns@[j]),
                    forall|n: S::Encoded| env.sm_node_known(current) && env.sm_enc_in(n)
                        && #[trigger] env.sm_adjacent(current, n) ==> ns@.contains(n),
                    best is None ==> best_cost == usize::MAX,
                    best matches Some(b) ==> ({
                        &&& walk_candidate(*env, self.star_map(), chain, current, b)
                        &&& best_cost == cost_via(*env, self.star_map(), current, b)
                        &&& best_cost < usize::MAX
                    }),
                    forall|j: int| 0 <= j < i
                        ==> (walk_candidate(*env, self.star_map(), chain, current,
                                #[trigger] ns@[j])
                            ==> best_cost <= cost_via(*env, self.star_map(), current, ns@[j])),
                decreases ns@.len() - i,
            {
                let n = ns[i];
                if !contains_enc(&visited, n) {
                    match self.star_get(n) {
                        Some((g_n, _)) => {
                            let c = env.distance(current, n).saturating_add(g_n);
                            proof {
                                assert(c == cost_via(*env, self.star_map(), current, n));
                                assert(walk_candidate(*env, self.star_map(), chain, current, n));
                            }
                            if c < best_cost {
                                best_cost = c;
                                best = Some(n);
                            }
                        }
                        None => {}
                    }
                }
                i += 1;
            }
            proof {
                // every walk step is a listed neighbor, so the scan saw it
                if env.sm_node_known(current) {
                    assert forall|p: S::Encoded|
                        #[trigger] walk_candidate(*env, self.star_map(), chain, current, p)
                        implies (exists|j: int| 0 <= j < ns@.len() && ns@[j] == p) by {
                        assert(env.sm_adjacent(current, p));
                        assert(ns@.contains(p));
                    }
                }
            }
            match best {
                Some(n) => {
                    plan.push(env.decode(n));
                    proof {
                        let prev = chain;
                        chain = chain.push(n);
                        assert(chain.drop_last() =~= prev);
                        assert(chain.subrange(0, chain.len() - 1) =~= prev);
                        assert(greedy_step(*env, self.star_map(),
                            chain.subrange(0, chain.len() - 1),
                            chain[chain.len() - 2], chain[chain.len() - 1])) by {
                            if env.sm_node_known(current) {
                                assert forall|p: S::Encoded|
                                    #[trigger] walk_candidate(*env, self.star_map(), prev,
                                        current, p)
                                    implies cost_via(*env, self.star_map(), current, n)
                                        <= cost_via(*env, self.star_map(), current, p) by {
                                    let j = choose|j: int| 0 <= j < ns@.len() && ns@[j] == p;
                                    assert(walk_candidate(*env, self.star_map(), prev,
                                        current, ns@[j]));
                                }
                            }
                        }
                        assert forall|i2: int| 0 <= i2 < chain.len() - 1
                            implies greedy_step(*env, self.star_map(),
                                chain.subrange(0, i2 + 1), #[trigger] chain[i2],
                                chain[i2 + 1]) by {
                            if i2 < chain.len() - 2 {
                                assert(chain.subrange(0, i2 + 1) =~= prev.subrange(0, i2 + 1));
                                assert(chain[i2] == prev[i2] && chain[i2 + 1] == prev[i2 + 1]);
                            }
                        }
                    }
                    current = n;
                }
                None => {
                    proof {
                        assert(walk_stuck(*env, self.star_map(), chain, current)) by {
                            if env.sm_node_known(current) {
                                assert forall|p: S::Encoded|
                                    #[trigger] walk_candidate(*env, self.star_map(), chain,
                                        current, p)
                                    implies cost_via(*env, self.star_map(), current, p)
                                        == usize::MAX by {
                                    let j = choose|j: int| 0 <= j < ns@.len() && ns@[j] == p;
                                    assert(walk_candidate(*env, self.star_map(), chain,
                                        current, ns@[j]));
                                }
                            }
                        }
                    }
                    return None;
                }
            }
            fuel -= 1;
        }
        proof {
            assert(chain.len() > SEARCH_FUEL);
        }
        None
    }

    /// Starts a fresh session from `source` to `target` and converges it.
    fn new_plan(&mut self, env: &S, source: ACoord, target: ACoord) -> (r: (bool, usize))
        requires
            env.sm_wf(),
            env.sm_coord_in(source),
            env.sm_coord_in(target),
        ensures
            final(self).wf_for(*env),
            final(self).source == Some(env.sm_enc(source)),
            final(self).target == Some(env.sm_enc(target)),
            !r.0 ==> r.1 == SEARCH_FUEL,
            r.0 ==> final(self).pqueue.as_map() == Map::<S::Encoded, StarKey>::empty()
                || ({
                    let m = final(self).star_map();
                    let q = final(self).pqueue.as_map();
                    let src = env.sm_enc(source);
                    &&& g_of(m, src) == rhs_of(m, src)
                    &&& forall|id: S::Encoded| #[trigger] q.contains_key(id)
                        ==> key_of(*env, m, final(self).k, src, src).le_spec(q[id])
                }),
    {
        let s = env.encode(source);
        let t = env.encode(target);
        self.initialize(env, s, t);
        self.compute_shortest_path(env)
    }

    /// Resumes the existing session after the start moved.
    fn revise_plan(&mut self, env: &S) -> (r: (bool, usize))
        requires
            env.sm_wf(),
            old(self).wf_for(*env),
            old(self).source is Some,
            old(self).target is Some,
        ensures
            final(self).wf_for(*env),
            final(self).source == old(self).source,
            final(self).target == old(self).target,
            final(self).origin == old(self).origin,
            final(self).k == old(self).k,
            forall|id: S::Encoded| #[trigger] old(self).star_map().contains_key(id)
                ==> final(self).star_map().contains_key(id),
            !r.0 ==> r.1 == SEARCH_FUEL,
            r.0 ==> final(self).pqueue.as_map() == Map::<S::Encoded, StarKey>::empty()
                || ({
                    let m = final(self).star_map();
                    let q = final(self).pqueue.as_map();
                    let src = old(self).source.unwrap();
                    &&& g_of(m, src) == rhs_of(m, src)
                    &&& forall|id: S::Encoded| #[trigger] q.contains_key(id)
                        ==> key_of(*env, m, final(self).k, src, src).le_spec(q[id])
                }),
    {
        let source = self.source.unwrap();
        self.update_vertex(env, source);
        self.compute_shortest_path(env)
    }
}

impl<S: SpatialMap> Planner<S> for DStarPlanner<S> {
    type Plan = DStarPlan;

    open spec fn pl_wf(&self, env: &S) -> bool {
        self.wf_for(*env)
    }

    proof fn pl_wf_stable(&self, e1: &S, e2: &S) {
    }

    /// Creates a session on the first call; afterwards accumulates the
    /// key modifier by the heuristic distance the start moved and resumes
    /// the same search. Returns no route when the goal is believed
    /// occupied or the search cannot connect start to goal.
    fn plan(&mut self, env: &S, source: ACoord, target: ACoord) -> (r: Option<DStarPlan>)
        ensures
            env.sm_obstructed(target) ==> r is None,
            (old(self).source is None || old(self).target is None || old(self).origin is None)
                && !env.sm_obstructed(target)
                ==> final(self).source == Some(env.sm_enc(source))
                    && final(self).target == Some(env.sm_enc(target)),
            (old(self).source is Some && old(self).target is Some
                && old(self).origin is Some && !env.sm_obstructed(target)) ==> ({
                &&& final(self).source == Some(env.sm_enc(source))
                &&& final(self).target == old(self).target
                &&& final(self).origin == old(self).origin
                &&& final(self).k == sat_add(old(self).k as int,
                    env.sm_dist(old(self).source.unwrap(), env.sm_enc(source)))
                &&& forall|id: S::Encoded| #[trigger] old(self).star_map().contains_key(id)
                    ==> final(self).star_map().contains_key(id)
            }),
            match r {
                Some(p) => {
                    &&& !env.sm_obstructed(target)
                    &&& (p.plan@.len() == 0 ==> final(self).source == final(self).target)
                    &&& (p.plan@.len() > 0
                        ==> p.plan@.last() == env.sm_dec(final(self).target.unwrap()))
                    &&& exists|chain: Seq<S::Encoded>|
                        #![auto]
                        chain.len() == p.plan@.len() + 1
                        && chain[0] == final(self).source.unwrap()
                        && chain[chain.len() - 1] == final(self).target.unwrap()
                        && (forall|i: int| 0 <= i < chain.len() - 1
                            ==> greedy_step(*env, final(self).star_map(),
                                chain.subrange(0, i + 1), #[trigger] chain[i], chain[i + 1]))
                        && (forall|i: int| 0 <= i < p.plan@.len()
                            ==> #[trigger] p.plan@[i] == env.sm_dec(chain[i + 1]))
                },
                None => env.sm_obstructed(target)
                    || (final(self).source is Some && final(self).target is Some
                        && exists|chain: Seq<S::Encoded>|
                            #![auto]
                            chain.len() >= 1
                            && chain[0] == final(self).source.unwrap()
                            && (forall|i: int| 0 <= i < chain.len() - 1
                                ==> greedy_step(*env, final(self).star_map(),
                                    chain.subrange(0, i + 1), #[trigger] chain[i], chain[i + 1]))
                            && (forall|i: int| 0 <= i < chain.len() - 1
                                ==> #[trigger] chain[i] != final(self).target.unwrap())
                            && (chain.len() > SEARCH_FUEL
                                || (chain[chain.len() - 1] != final(self).target.unwrap()
                                    && walk_stuck(*env, final(self).star_map(), chain,
                                        chain[chain.len() - 1])))),
            },
    {
        if env.obstructed(target) {
            return None;
        }
        if self.source.is_none() || self.target.is_none() || self.origin.is_none() {
            let _outcome = self.new_plan(env, source, target);
        } else {
            let s_enc = env.encode(source);
            let prev = self.source.unwrap();
            let moved = env.distance(prev, s_enc);
            self.k = self.k.saturating_add(moved);
            self.source = Some(s_enc);
            proof {
                assert forall|id: S::Encoded| #[trigger] self.star_map().contains_key(id)
                    implies env.sm_enc_in(id) by {
                    assert(old(self).star_map().contains_key(id));
                }
                assert forall|id: S::Encoded| #[trigger] self.pqueue.as_map().contains_key(id)
                    implies env.sm_enc_in(id) by {
                    assert(old(self).pqueue.as_map().contains_key(id));
                }
                assert(self.wf_for(*env));
            }
            let ghost mid = *self;
            let _outcome = self.revise_plan(env);
            proof {
                assert(mid.star_map() == old(self).star_map());
                assert forall|id: S::Encoded| #[trigger] old(self).star_map().contains_key(id)
                    implies self.star_map().contains_key(id) by {
                    assert(mid.star_map().contains_key(id));
                }
            }
        }
        match self.reconstruct_decode(env) {
            Some(plan) => Some(DStarPlan { plan }),
            None => None,
        }
    }

    /// Folds a discovered obstacle into the session: resets its cost
    /// entry to infinity, recomputes its lookahead, and recomputes each
    /// non-occupied neighbor, marking the session stale; the next `plan`
    /// call re-converges incrementally.
    #[verifier::loop_isolation(false)]
    #[verifier::rlimit(60)]
    fn update(&mut self, env: &S, position: ACoord, obstacle: ACoord)
        ensures
            final(self).source == old(self).source,
            final(self).target == old(self).target,
            (old(self).source is None || old(self).target is None)
                ==> final(self).star_map() == old(self).star_map()
                    && final(self).pqueue.as_map() == old(self).pqueue.as_map(),
            (old(self).source is Some && old(self).target is Some) ==> ({
                let m = final(self).star_map();
                let node = env.sm_enc(obstacle);
                let tgt = old(self).target.unwrap();
                &&& g_of(m, node) == usize::MAX
                &&& (node != tgt && env.sm_belief(node) == Belief::Occupied
                    ==> rhs_of(m, node) == usize::MAX)
                &&& (node != tgt && env.sm_belief(node) != Belief::Occupied
                    ==> rhs_min(*env, m, node, rhs_of(m, node)))
                &&& (env.sm_node_known(node) ==> forall|p: S::Encoded|
                    env.sm_enc_in(p) && #[trigger] env.sm_adjacent(node, p)
                        && env.sm_belief(p) != Belief::Occupied && p != tgt
                        ==> rhs_min(*env, m, p, rhs_of(m, p)))
            }),
    {
        if self.source.is_none() || self.target.is_none() {
            return;
        }
        let ghost tgt = self.target.unwrap();
        let node = env.encode(obstacle);
        self.star_set(Ghost(*env), node, (usize::MAX, usize::MAX));
        self.update_vertex(env, node);
        let ghost m_mid = self.star_map();
        proof {
            assert(m_mid.contains_key(node));
            assert(m_mid[node].0 == usize::MAX);
        }
        let ns = env.neighbors(node);
        let mut i: usize = 0;
        while i < ns.len()
            invariant
                env.sm_wf(),
                self.wf_for(*env),
                self.source == old(self).source,
                self.target == old(self).target,
                self.source is Some,
                self.target is Some,
                tgt == old(self).target.unwrap(),
                env.sm_enc_in(node),
                i <= ns@.len(),
                forall|j: int| 0 <= j < ns@.len() ==> env.sm_enc_in(#[trigger] ns@[j]),
                forall|j: int| 0 <= j < ns@.len()
                    ==> env.sm_adjacent(node, #[trigger] ns@[j]),
                forall|n: S::Encoded| env.sm_node_known(node) && env.sm_enc_in(n)
                    && #[trigger] env.sm_adjacent(node, n) ==> ns@.contains(n),
                forall|x: S::Encoded| #[trigger] g_of(self.star_map(), x) == g_of(m_mid, x),
                forall|x: S::Encoded| #[trigger] m_mid.contains_key(x)
                    ==> self.star_map().contains_key(x),
                self.star_map().contains_key(node),
                self.star_map()[node] == m_mid[node],
                m_mid[node].0 == usize::MAX,
                node != tgt && env.sm_belief(node) == Belief::Occupied
                    ==> rhs_of(self.star_map(), node) == usize::MAX,
                node != tgt && env.sm_belief(node) != Belief::Occupied
                    ==> rhs_min(*env, self.star_map(), node,
                        rhs_of(self.star_map(), node)),
                forall|j: int| 0 <= j < i
                    ==> ((env.sm_belief(#[trigger] ns@[j]) != Belief::Occupied
                            && ns@[j] != tgt)
                        ==> rhs_min(*env, self.star_map(), ns@[j],
                            rhs_of(self.star_map(), ns@[j]))),
            decreases ns@.len() - i,
        {
            let p = ns[i];
            let b = env.belief(p);
            if b != Belief::Occupied {
                let ghost m_pre = self.star_map();
                self.update_vertex(env, p);
                proof {
                    let m_post = self.star_map();
                    env.sm_adjacent_irrefl(node);
                    assert(p != node);
                    if p != tgt {
                        assert(m_post == m_pre.insert(p, (g_of(m_pre, p), rhs_of(m_post, p))));
                    }
                    assert forall|x: S::Encoded| #[trigger] g_of(m_post, x) == g_of(m_mid, x) by {
                        if p == tgt {
                            assert(m_post == m_pre);
                        } else if x == p {
                            assert(m_post[p].0 == g_of(m_pre, p));
                            assert(g_of(m_post, p) == g_of(m_pre, p));
                        } else {
                            assert(m_post.contains_key(x) == m_pre.contains_key(x));
                            if m_pre.contains_key(x) {
                                assert(m_post[x] == m_pre[x]);
                            }
                        }
                        assert(g_of(m_pre, x) == g_of(m_mid, x));
                    }
                    if node != tgt && env.sm_belief(node) != Belief::Occupied {
                        lemma_rhs_min_monotone(*env, m_pre, m_post, node,
                            rhs_of(m_pre, node));
                    }
                    assert forall|j: int| 0 <= j < i + 1
                        implies ((env.sm_belief(#[trigger] ns@[j]) != Belief::Occupied
                                && ns@[j] != tgt)
                            ==> rhs_min(*env, m_post, ns@[j], rhs_of(m_post, ns@[j]))) by {
                        if env.sm_belief(ns@[j]) != Belief::Occupied && ns@[j] != tgt {
                            if j < i && ns@[j] != p {
                                assert(rhs_of(m_post, ns@[j]) == rhs_of(m_pre, ns@[j]));
                                lemma_rhs_min_monotone(*env, m_pre, m_post, ns@[j],
                                    rhs_of(m_pre, ns@[j]));
                            }
                        }
                    }
                }
            }
            i += 1;
        }
        proof {
            if env.sm_node_known(node) {
                assert forall|p: S::Encoded|
                    env.sm_enc_in(p) && #[trigger] env.sm_adjacent(node, p)
                        && env.sm_belief(p) != Belief::Occupied && p != tgt
                    implies rhs_min(*env, self.star_map(), p,
                        rhs_of(self.star_map(), p)) by {
                    assert(ns@.contains(p));
                    let j = choose|j: int| 0 <= j < ns@.len() && ns@[j] == p;
                    assert(env.sm_belief(ns@[j]) != Belief::Occupied && ns@[j] != tgt);
                }
            }
        }
    }
}

} // verus!
