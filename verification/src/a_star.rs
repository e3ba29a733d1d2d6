//! The A* oracle planner over the occupancy map, used with full
//! information as a correctness reference: standard best-first search on
//! `g + h` with the centroid distance as both edge cost and heuristic.

use vstd::prelude::*;
use crate::types::{ACoord, HCoord, Belief};
use crate::quad::QuadTree;
use crate::hier::{addr_ok, dist_spec, center_x, center_y};
use crate::proximity::edge_neighbors;
use crate::pqueue::{IPQueue, Identity};
use crate::plan::AStarPlan;
use crate::spatial::SpatialMap;
use crate::d_star::SEARCH_FUEL;

verus! {

/// The doubled centroid of an address, the point its distances are
/// measured from.
pub fn point(m_coord: HCoord) -> (r: ACoord)
    requires
        addr_ok(m_coord),
    ensures
        r.x == center_x(m_coord),
        r.y == center_y(m_coord),
{
    crate::hier::point(m_coord)
}

/// Manhattan distance between two addresses' doubled centroids.
pub fn centroid_estimate(sm_coord: HCoord, tm_coord: HCoord) -> (r: usize)
    requires
        addr_ok(sm_coord),
        addr_ok(tm_coord),
    ensures
        r == dist_spec(sm_coord, tm_coord),
{
    crate::hier::distance(sm_coord, tm_coord)
}

/// Looks a key up in an address-keyed association vector.
fn assoc_get(v: &Vec<(HCoord, usize)>, k: HCoord) -> (r: Option<usize>)
    ensures
        r is Some ==> exists|i: int| 0 <= i < v@.len() && (#[trigger] v@[i]).0 == k,
{
    let mut i: usize = 0;
    while i < v.len()
        invariant
            i <= v@.len(),
        decreases v@.len() - i,
    {
        let (key, val) = v[i];
        if key.same(k) {
            return Some(val);
        }
        i += 1;
    }
    None
}

/// Overwrites or appends a key's value in an address-keyed association
/// vector.
fn assoc_put(v: &mut Vec<(HCoord, usize)>, k: HCoord, val: usize) {
    let mut i: usize = 0;
    while i < v.len()
        invariant
            i <= v@.len(),
        decreases v@.len() - i,
    {
        let (key, _) = v[i];
        if key.same(k) {
            v.set(i, (k, val));
            return;
        }
        i += 1;
    }
    v.push((k, val));
}

/// Searches from `source` toward `target` over the stored regions of the
/// map and returns the best-known precursor edge of every explored
/// region: each edge leads one step back toward the source.
#[verifier::loop_isolation(false)]
pub fn astar_precursor(quad: &QuadTree, source: HCoord, target: HCoord) -> (r: Vec<(HCoord, HCoord)>)
    requires
        quad.wf(),
        addr_ok(source),
        source.l < quad.levels,
        addr_ok(target),
        target.l < quad.levels,
    ensures
        forall|i: int| 0 <= i < r@.len()
            ==> addr_ok((#[trigger] r@[i]).0) && r@[i].0.l < quad.levels
                && addr_ok(r@[i].1) && r@[i].1.l < quad.levels,
{
    let mut pqueue: IPQueue<usize, HCoord> = IPQueue::new();
    let mut adjacency: Vec<(HCoord, HCoord)> = Vec::new();
    let mut best_cost: Vec<(HCoord, usize)> = Vec::new();
    assoc_put(&mut best_cost, source, 0);
    adjacency.push((source, source));
    let h0 = centroid_estimate(source, target);
    pqueue.push(source, h0);
    let mut fuel: usize = SEARCH_FUEL;
    while fuel > 0
        invariant
            pqueue.wf(),
            forall|id: HCoord| #[trigger] pqueue.as_map().contains_key(id)
                ==> addr_ok(id) && id.l < quad.levels,
            forall|i: int| 0 <= i < adjacency@.len()
                ==> addr_ok((#[trigger] adjacency@[i]).0) && adjacency@[i].0.l < quad.levels
                    && addr_ok(adjacency@[i].1) && adjacency@[i].1.l < quad.levels,
        decreases fuel,
    {
        let popped = pqueue.pop();
        let (node, _) = match popped {
            Some(p) => p,
            None => {
                return adjacency;
            }
        };
        if node.same(target) {
            return adjacency;
        }
        let incurred = match assoc_get(&best_cost, node) {
            Some(c) => c,
            None => 0,
        };
        let ns = edge_neighbors(quad, node);
        let mut i: usize = 0;
        while i < ns.len()
            invariant
                pqueue.wf(),
                addr_ok(node),
                node.l < quad.levels,
                forall|id: HCoord| #[trigger] pqueue.as_map().contains_key(id)
                    ==> addr_ok(id) && id.l < quad.levels,
                forall|j: int| 0 <= j < adjacency@.len()
                    ==> addr_ok((#[trigger] adjacency@[j]).0) && adjacency@[j].0.l < quad.levels
                        && addr_ok(adjacency@[j].1) && adjacency@[j].1.l < quad.levels,
                i <= ns@.len(),
                forall|j: int| 0 <= j < ns@.len()
                    ==> quad.as_map().contains_key(#[trigger] ns@[j]),
            decreases ns@.len() - i,
        {
            let new_coord = ns[i];
            proof {
                assert(quad.as_map().contains_key(new_coord));
            }
            let b = match quad.lookup(new_coord) {
                Some(n) => n.belief,
                None => Belief::Unknown,
            };
            if b != Belief::Occupied {
                let known_cost = incurred.saturating_add(centroid_estimate(new_coord, node));
                let heuristic = centroid_estimate(new_coord, target);
                let prior = match assoc_get(&best_cost, new_coord) {
                    Some(c) => c,
                    None => usize::MAX,
                };
                if known_cost < prior {
                    assoc_put(&mut best_cost, new_coord, known_cost);
                    let ghost pre = pqueue.as_map();
                    pqueue.push(new_coord, known_cost.saturating_add(heuristic));
                    proof {
                        assert forall|id: HCoord| #[trigger] pqueue.as_map().contains_key(id)
                            implies addr_ok(id) && id.l < quad.levels by {
                            if id != new_coord {
                                assert(pre.contains_key(id));
                            }
                        }
                    }
                    adjacency.push((new_coord, node));
                }
            }
            i += 1;
        }
        fuel -= 1;
    }
    adjacency
}

/// Walks precursor edges from the target back toward the source; the
/// returned addresses read goal to start, the source itself excluded.
#[verifier::loop_isolation(false)]
pub fn reconstruct(precursor: &Vec<(HCoord, HCoord)>, source: HCoord, target: HCoord) -> (r: Vec<HCoord>)
    ensures
        r@.len() > 0 ==> r@[0] == target,
{
    let mut plan: Vec<HCoord> = Vec::new();
    let mut node = target;
    let mut fuel: usize = SEARCH_FUEL;
    while fuel > 0
        invariant
            plan@.len() == 0 ==> node == target,
            plan@.len() > 0 ==> plan@[0] == target,
        decreases fuel,
    {
        if node.same(source) {
            return plan;
        }
        plan.push(node);
        let mut next: Option<HCoord> = None;
        let mut i: usize = 0;
        while i < precursor.len()
            invariant
                i <= precursor@.len(),
            decreases precursor@.len() - i,
        {
            let (k, v) = precursor[i];
            if k.same(node) {
                next = Some(v);
            }
            i += 1;
        }
        match next {
            Some(n) => {
                node = n;
            }
            None => {
                return plan;
            }
        }
        fuel -= 1;
    }
    plan
}

/// Plans on the map with whatever it currently believes, returning the
/// route goal to start as world coordinates of region centers' origins.
pub fn astar(quad: &QuadTree, source: ACoord, target: ACoord) -> (r: AStarPlan)
    requires
        quad.wf(),
        crate::quad::coord_ok(source),
        crate::quad::coord_ok(target),
    ensures
        r.plan@.len() > 0 ==> r.plan@[0] == quad.sm_dec(quad.sm_enc(target)),
{
    let s_enc = quad.encode(source);
    let t_enc = quad.encode(target);
    let precursor = astar_precursor(quad, s_enc, t_enc);
    let nodes = reconstruct(&precursor, s_enc, t_enc);
    let mut plan: Vec<ACoord> = Vec::new();
    let mut i: usize = 0;
    while i < nodes.len()
        invariant
            i <= nodes@.len(),
            plan@.len() == i,
            nodes@.len() > 0 && i > 0
                ==> plan@[0] == (ACoord { x: nodes@[0].x, y: nodes@[0].y }),
        decreases nodes@.len() - i,
    {
        let n = nodes[i];
        plan.push(ACoord { x: n.x, y: n.y });
        i += 1;
    }
    AStarPlan { plan }
}

} // verus!
