//! The best-first oracle planner: a greedy search ordered purely by
//! heuristic distance to the target, used as a simple correctness
//! reference beside the incremental planner.

use vstd::prelude::*;
use crate::types::{ACoord, Belief};
use crate::pqueue::{IPQueue, Identity};
use crate::spatial::SpatialMap;
use crate::plan::{Planner, BestFirstPlan};
use crate::d_star::SEARCH_FUEL;
use crate::pqueue::contains_enc;

verus! {

/// The stateless best-first planner.
pub struct BestFirstPlanner;

impl BestFirstPlanner {
    /// Runs the greedy search and returns the precursor edges of the
    /// explored region, or `None` when the target was not reached.
    #[verifier::loop_isolation(false)]
    fn encode_plan<S: SpatialMap>(
        &self,
        env: &S,
        source: S::Encoded,
        target: S::Encoded,
    ) -> (r: Option<Vec<(S::Encoded, S::Encoded)>>)
        requires
            env.sm_wf(),
            env.sm_enc_in(source),
            env.sm_enc_in(target),
        ensures
            match r {
                Some(prec) => forall|i: int| 0 <= i < prec@.len()
                    ==> env.sm_enc_in((#[trigger] prec@[i]).0)
                        && env.sm_enc_in(prec@[i].1),
                None => true,
            },
    {
        let mut p_queue: IPQueue<usize, S::Encoded> = IPQueue::new();
        let mut enqueue: Vec<S::Encoded> = Vec::new();
        let mut precursor: Vec<(S::Encoded, S::Encoded)> = Vec::new();
        p_queue.push(source, 0);
        enqueue.push(source);
        let mut fuel: usize = SEARCH_FUEL;
        while fuel > 0
            invariant
                p_queue.wf(),
                forall|id: S::Encoded| #[trigger] p_queue.as_map().contains_key(id)
                    ==> env.sm_enc_in(id),
                forall|i: int| 0 <= i < precursor@.len()
                    ==> env.sm_enc_in((#[trigger] precursor@[i]).0)
                        && env.sm_enc_in(precursor@[i].1),
            decreases fuel,
        {
            let popped = p_queue.pop();
            let (node, _) = match popped {
                Some(p) => p,
                None => {
                    return None;
                }
            };
            if node.same(target) {
                return Some(precursor);
            }
            let ns = env.neighbors(node);
            let mut i: usize = 0;
            while i < ns.len()
                invariant
                    p_queue.wf(),
                    env.sm_enc_in(node),
                    forall|id: S::Encoded| #[trigger] p_queue.as_map().contains_key(id)
                        ==> env.sm_enc_in(id),
                    forall|j: int| 0 <= j < precursor@.len()
                        ==> env.sm_enc_in((#[trigger] precursor@[j]).0)
                            && env.sm_enc_in(precursor@[j].1),
                    i <= ns@.len(),
                    forall|j: int| 0 <= j < ns@.len() ==> env.sm_enc_in(#[trigger] ns@[j]),
                decreases ns@.len() - i,
            {
                let n_xy = ns[i];
                if !contains_enc(&enqueue, n_xy) {
                    enqueue.push(n_xy);
                    let b = env.belief(n_xy);
                    if b != Belief::Occupied {
                        precursor.push((n_xy, node));
                        let cost = env.distance(n_xy, target);
                        let ghost pre = p_queue.as_map();
                        p_queue.push(n_xy, cost);
                        proof {
                            assert forall|id: S::Encoded|
                                #[trigger] p_queue.as_map().contains_key(id)
                                implies env.sm_enc_in(id) by {
                                if id != n_xy {
                                    assert(pre.contains_key(id));
                                }
                            }
                        }
                    }
                }
                i += 1;
            }
            fuel -= 1;
        }
        None
    }

    /// Walks the precursor edges from the target back toward the source,
    /// decoding each node: the returned route reads goal to start.
    #[verifier::loop_isolation(false)]
    pub fn reconstruct_decode<S: SpatialMap>(
        &self,
        env: &S,
        precursor: &Vec<(S::Encoded, S::Encoded)>,
        source: S::Encoded,
        target: S::Encoded,
    ) -> (r: Vec<ACoord>)
        requires
            env.sm_wf(),
            env.sm_enc_in(source),
            env.sm_enc_in(target),
            forall|i: int| 0 <= i < precursor@.len()
                ==> env.sm_enc_in((#[trigger] precursor@[i]).0)
                    && env.sm_enc_in(precursor@[i].1),
        ensures
            r@.len() > 0 ==> r@[0] == env.sm_dec(target),
    {
        let mut plan: Vec<ACoord> = Vec::new();
        let mut node = target;
        let mut fuel: usize = SEARCH_FUEL;
        while fuel > 0
            invariant
                env.sm_enc_in(node),
                plan@.len() == 0 ==> node == target,
                plan@.len() > 0 ==> plan@[0] == env.sm_dec(target),
            decreases fuel,
        {
            if node.same(source) {
                return plan;
            }
            plan.push(env.decode(node));
            let mut next: Option<S::Encoded> = None;
            let mut i: usize = 0;
            while i < precursor.len()
                invariant
                    i <= precursor@.len(),
                    next matches Some(n) ==> env.sm_enc_in(n),
                decreases precursor@.len() - i,
            {
                let (k, v) = precursor[i];
                if k.same(node) {
                    next = Some(v);
                }
                i += 1;
            }
            match next {
                Some(n) => {
                    node = n;
                }
                None => {
                    return plan;
                }
            }
            fuel -= 1;
        }
        plan
    }
}

impl<S: SpatialMap> Planner<S> for BestFirstPlanner {
    type Plan = BestFirstPlan;

    open spec fn pl_wf(&self, env: &S) -> bool {
        true
    }

    proof fn pl_wf_stable(&self, e1: &S, e2: &S) {
    }

    /// Searches greedily toward the target; returns no route when the
    /// target is believed occupied or was not reached.
    fn plan(&mut self, env: &S, source: ACoord, target: ACoord) -> (r: Option<BestFirstPlan>)
        ensures
            env.sm_obstructed(target) ==> r is None,
            match r {
                Some(p) => {
                    &&& !env.sm_obstructed(target)
                    &&& (p.plan@.len() > 0
                        ==> p.plan@[0] == env.sm_dec(env.sm_enc(target)))
                },
                None => true,
            },
    {
        if env.obstructed(target) {
            return None;
        }
        let s_encode = env.encode(source);
        let t_encode = env.encode(target);
        match self.encode_plan(env, s_encode, t_encode) {
            Some(map) => {
                let plan = self.reconstruct_decode(env, &map, s_encode, t_encode);
                Some(BestFirstPlan { plan })
            }
            None => None,
        }
    }

    /// The oracle planner keeps no session state.
    fn update(&mut self, env: &S, position: ACoord, obstacle: ACoord) {
    }
}

} // verus!
