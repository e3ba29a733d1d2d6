//! Route types produced by the planners, together with the iteration
//! order each provides: the D* Lite route reads start to goal, the
//! oracle planners' routes goal to start.

use vstd::prelude::*;
use crate::types::ACoord;
use crate::spatial::SpatialMap;

verus! {

/// A route from the A* oracle planner, stored goal to start.
#[derive(Debug)]
pub struct AStarPlan {
    pub plan: Vec<ACoord>,
}

/// A route from the D* Lite planner, stored start to goal.
#[derive(Debug)]
pub struct DStarPlan {
    pub plan: Vec<ACoord>,
}

/// A route from the best-first planner, stored goal to start.
#[derive(Debug)]
pub struct BestFirstPlan {
    pub plan: Vec<ACoord>,
}

/// Read-only access to a route's coordinates, and which direction they
/// should be walked in.
pub trait PlanIter {
    /// The stored coordinates.
    spec fn nodes_spec(&self) -> Seq<ACoord>;

    /// The stored coordinates, in storage order.
    fn nodes(&self) -> (r: &Vec<ACoord>)
        ensures
            r@ == self.nodes_spec(),
    ;

    /// Whether storage order already reads start to goal; a route stored
    /// goal to start is walked backward.
    fn forward_order(&self) -> bool;
}

impl PlanIter for AStarPlan {
    open spec fn nodes_spec(&self) -> Seq<ACoord> {
        self.plan@
    }

    fn nodes(&self) -> (r: &Vec<ACoord>) {
        &self.plan
    }

    fn forward_order(&self) -> bool {
        false
    }
}

impl PlanIter for DStarPlan {
    open spec fn nodes_spec(&self) -> Seq<ACoord> {
        self.plan@
    }

    fn nodes(&self) -> (r: &Vec<ACoord>) {
        &self.plan
    }

    fn forward_order(&self) -> bool {
        true
    }
}

impl PlanIter for BestFirstPlan {
    open spec fn nodes_spec(&self) -> Seq<ACoord> {
        self.plan@
    }

    fn nodes(&self) -> (r: &Vec<ACoord>) {
        &self.plan
    }

    fn forward_order(&self) -> bool {
        false
    }
}

/// Walks a stored route from its first coordinate to its last.
pub struct ForwardIter<'a> {
    pub nodes: &'a Vec<ACoord>,
    pub length: usize,
    pub index: usize,
}

/// Walks a stored route from its last coordinate to its first.
pub struct BackwardIter<'a> {
    pub nodes: &'a Vec<ACoord>,
    pub aug_index: usize,
}

impl<'a> ForwardIter<'a> {
    pub fn new(nodes: &'a Vec<ACoord>) -> (r: Self)
        ensures
            r.nodes@ == nodes@,
            r.length == nodes@.len(),
            r.index == 0,
    {
        Self { nodes, length: nodes.len(), index: 0 }
    }

    /// The next coordinate in forward order, `None` once exhausted.
    pub fn next(&mut self) -> (r: Option<ACoord>)
        requires
            old(self).length == old(self).nodes@.len(),
        ensures
            final(self).nodes@ == old(self).nodes@,
            final(self).length == old(self).length,
            old(self).index < old(self).nodes@.len() ==> {
                &&& r == Some(old(self).nodes@[old(self).index as int])
                &&& final(self).index == old(self).index + 1
            },
            old(self).index >= old(self).nodes@.len() ==> {
                &&& r == None::<ACoord>
                &&& final(self).index == old(self).index
            },
    {
        let index = self.index;
        if index < self.length {
            self.index = index + 1;
            return Some(self.nodes[index]);
        }
        None
    }
}

impl<'a> BackwardIter<'a> {
    pub fn new(nodes: &'a Vec<ACoord>) -> (r: Self)
        ensures
            r.nodes@ == nodes@,
            r.aug_index == nodes@.len(),
    {
        Self { nodes, aug_index: nodes.len() }
    }

    /// The next coordinate in backward order, `None` once exhausted.
    pub fn next(&mut self) -> (r: Option<ACoord>)
        requires
            old(self).aug_index <= old(self).nodes@.len(),
        ensures
            final(self).nodes@ == old(self).nodes@,
            old(self).aug_index > 0 ==> {
                &&& r == Some(old(self).nodes@[old(self).aug_index - 1])
                &&& final(self).aug_index == old(self).aug_index - 1
            },
            old(self).aug_index == 0 ==> {
                &&& r == None::<ACoord>
                &&& final(self).aug_index == 0
            },
    {
        if self.aug_index > 0 {
            self.aug_index = self.aug_index - 1;
            return Some(self.nodes[self.aug_index]);
        }
        None
    }
}

/// The planner capability the agent loop consumes: produce a route, and
/// fold a discovered obstacle into the session state.
pub trait Planner<S: SpatialMap>: Sized {
    type Plan: PlanIter;

    /// The planner's session state is consistent with the given map.
    spec fn pl_wf(&self, env: &S) -> bool;

    /// Session consistency depends on the map only through which nodes it
    /// handles.
    proof fn pl_wf_stable(&self, e1: &S, e2: &S)
        requires
            self.pl_wf(e1),
            forall|n: S::Encoded| e1.sm_enc_in(n) == e2.sm_enc_in(n),
        ensures
            self.pl_wf(e2),
    ;

    /// Produces a route from `source` to `target` on `env`, or reports
    /// that none is available.
    fn plan(&mut self, env: &S, source: ACoord, target: ACoord) -> (r: Option<Self::Plan>)
        requires
            env.sm_wf(),
            env.sm_coord_in(source),
            env.sm_coord_in(target),
            old(self).pl_wf(env),
        ensures
            final(self).pl_wf(env),
    ;

    /// Folds a newly discovered obstacle into the session state.
    fn update(&mut self, env: &S, position: ACoord, obstacle: ACoord)
        requires
            env.sm_wf(),
            env.sm_coord_in(position),
            env.sm_coord_in(obstacle),
            old(self).pl_wf(env),
        ensures
            final(self).pl_wf(env),
    ;
}

} // verus!
