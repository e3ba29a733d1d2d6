//! The agent loop: scan, fold discoveries into the map and the planner,
//! request a route, and walk it one cell at a time, rescanning after
//! every step.

use vstd::prelude::*;
use crate::types::{ACoord, Status};
use crate::spatial::SpatialMap;
use crate::plan::{Planner, PlanIter};
use crate::lidar::Lidar;
use crate::grid::GRID_OFFSET;
use crate::hier::abs_i;

verus! {

/// Bound on replanning rounds in one navigation.
pub const NAVIGATE_FUEL: usize = 1000;

/// The agent: its map of the world, its sensor, its planner, and where
/// it stands.
pub struct Sabrina<S: SpatialMap, P: Planner<S>> {
    pub environment: S,
    pub lidar: Lidar,
    pub planner: P,
    pub position: ACoord,
}

impl<S: SpatialMap, P: Planner<S>> Sabrina<S, P> {
    /// The map is well formed, the planner session is consistent with
    /// it, the sensor is usable, and the agent stands on the map.
    pub open spec fn wf(self) -> bool {
        &&& self.environment.sm_wf()
        &&& self.planner.pl_wf(&self.environment)
        &&& self.lidar.wf()
        &&& self.environment.sm_coord_in(self.position)
    }

    pub fn new(position: ACoord, environment: S, lidar: Lidar, planner: P) -> (r: Self)
        requires
            environment.sm_wf(),
            planner.pl_wf(&environment),
            lidar.wf(),
            environment.sm_coord_in(position),
        ensures
            r.wf(),
            r.position == position,
    {
        Self { environment, lidar, planner, position }
    }

    /// Takes one measurement and folds every hit into the planner's
    /// session and the map.
    pub fn scan(&mut self)
        requires
            old(self).wf(),
        ensures
            final(self).wf(),
            final(self).position == old(self).position,
            forall|c: ACoord| final(self).environment.sm_coord_in(c) == old(self).environment.sm_coord_in(c),
    {
        if self.position.x < -GRID_OFFSET || self.position.x >= GRID_OFFSET
            || self.position.y < -GRID_OFFSET || self.position.y >= GRID_OFFSET {
            return;
        }
        let measure = self.lidar.measure(self.position);
        let mut h: usize = 0;
        while h < measure.data.len()
            invariant
                self.wf(),
                self.position == old(self).position,
                self.lidar == old(self).lidar,
                forall|c: ACoord| self.environment.sm_coord_in(c) == old(self).environment.sm_coord_in(c),
                h <= measure.data@.len(),
            decreases measure.data@.len() - h,
        {
            match measure.data[h] {
                Some(n) => {
                    let ox = n.x.checked_add(self.position.x);
                    let oy = n.y.checked_add(self.position.y);
                    match (ox, oy) {
                        (Some(obs_x), Some(obs_y)) => {
                            let obstacle = ACoord { x: obs_x, y: obs_y };
                            if self.environment.coord_check(obstacle) {
                                // fold the discovery in on both sides of the
                                // map change, so the planner's cost state sees
                                // both the invalidated coarse region and the
                                // refined cells that replace it
                                self.planner.update(&self.environment, self.position, obstacle);
                                let ghost before = self.environment;
                                self.environment.insert_ray(self.position, obstacle);
                                proof {
                                    self.planner.pl_wf_stable(&before, &self.environment);
                                }
                                self.planner.update(&self.environment, self.position, obstacle);
                            }
                        }
                        _ => {}
                    }
                }
                None => {}
            }
            h += 1;
        }
    }

    /// Walks the route one coordinate at a time; reports `Blocked` as a
    /// distinct status the moment a step is discovered to be barred, so
    /// the caller can replan rather than give up.
    pub fn action<Q: PlanIter>(&mut self, plan: &Q) -> (r: Status)
        requires
            old(self).wf(),
        ensures
            final(self).wf(),
            forall|c: ACoord| final(self).environment.sm_coord_in(c) == old(self).environment.sm_coord_in(c),
    {
        let forward = plan.forward_order();
        let nodes = plan.nodes();
        let length = nodes.len();
        let mut i: usize = 0;
        while i < length
            invariant
                self.wf(),
                length == nodes@.len(),
                forall|c: ACoord| self.environment.sm_coord_in(c) == old(self).environment.sm_coord_in(c),
            decreases length - i,
        {
            let tgt = if forward { nodes[i] } else { nodes[length - 1 - i] };
            if !self.environment.coord_check(tgt) {
                return Status::Blocked;
            }
            let status = self.control(tgt);
            if status == Status::Blocked {
                return Status::Blocked;
            }
            i += 1;
        }
        Status::Complete
    }

    /// Steps cell by cell toward `tgt`, scanning after every step;
    /// reports `Blocked` when the next cell is believed occupied.
    #[verifier::loop_isolation(false)]
    pub fn control(&mut self, tgt: ACoord) -> (r: Status)
        requires
            old(self).wf(),
        ensures
            final(self).wf(),
            forall|c: ACoord| final(self).environment.sm_coord_in(c) == old(self).environment.sm_coord_in(c),
    {
        while self.position.x != tgt.x || self.position.y != tgt.y
            invariant
                self.wf(),
                forall|c: ACoord| self.environment.sm_coord_in(c) == old(self).environment.sm_coord_in(c),
            decreases
                abs_i(tgt.x - self.position.x) + abs_i(tgt.y - self.position.y),
        {
            let mut next = self.position;
            if next.x < tgt.x {
                next.x = next.x + 1;
            } else if next.x > tgt.x {
                next.x = next.x - 1;
            } else if next.y < tgt.y {
                next.y = next.y + 1;
            } else {
                next.y = next.y - 1;
            }
            if !self.environment.coord_check(next) {
                return Status::Blocked;
            }
            if self.environment.obstructed(next) {
                return Status::Blocked;
            }
            self.position = next;
            self.scan();
        }
        Status::Enroute
    }

    /// The navigation loop: scan, plan, walk; replans after a blocked
    /// step, and reports `Impossible` when the planner finds no route.
    pub fn navigate(&mut self, target: ACoord) -> (r: Status)
        requires
            old(self).wf(),
            old(self).environment.sm_coord_in(target),
        ensures
            final(self).wf(),
    {
        self.scan();
        let mut fuel: usize = NAVIGATE_FUEL;
        while fuel > 0
            invariant
                self.wf(),
                self.environment.sm_coord_in(target),
            decreases fuel,
        {
            let plan = self.planner.plan(&self.environment, self.position, target);
            let status = match plan {
                Some(p) => self.action(&p),
                None => Status::Impossible,
            };
            if status == Status::Complete || status == Status::Impossible {
                return status;
            }
            fuel -= 1;
        }
        Status::Impossible
    }
}

} // verus!
