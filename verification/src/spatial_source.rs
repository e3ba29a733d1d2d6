//! The cell-level source interface a simulated world offers: bounds,
//! per-cell reads and writes, and ray casting — what the sensor is built
//! against.

use vstd::prelude::*;
use crate::types::{ACoord, Belief, Bounds};
use crate::grid::{Grid, grid_coord_ok, translate, GRID_OFFSET};

verus! {

/// A world of cells holding values of type `T`.
pub trait SpatialSource<T>: Sized {
    /// Coordinates the source can answer for.
    spec fn ss_coord_in(&self, c: ACoord) -> bool;

    /// Structural well-formedness.
    spec fn ss_wf(&self) -> bool;

    /// The box around everything recorded so far.
    fn get_bounds(&self) -> Bounds
        requires
            self.ss_wf(),
    ;

    /// Reads one cell.
    fn get_cell(&self, coord: &ACoord) -> T
        requires
            self.ss_wf(),
            self.ss_coord_in(*coord),
    ;

    /// Writes one cell.
    fn set_cell(&mut self, coord: &ACoord, object: T)
        requires
            old(self).ss_wf(),
            old(self).ss_coord_in(*coord),
        ensures
            final(self).ss_wf(),
            forall|c: ACoord| final(self).ss_coord_in(c) == old(self).ss_coord_in(c),
    ;

    /// Walks from `position` by `delta` steps and reports the offset of
    /// the first recorded cell within range.
    fn raycast(&self, position: ACoord, delta: ACoord, max_range: usize) -> Option<ACoord>
        requires
            self.ss_wf(),
            self.ss_coord_in(position),
            -1 <= delta.x <= 1,
            -1 <= delta.y <= 1,
            max_range <= GRID_OFFSET,
    ;
}

impl SpatialSource<Belief> for Grid {
    open spec fn ss_coord_in(&self, c: ACoord) -> bool {
        grid_coord_ok(c)
    }

    open spec fn ss_wf(&self) -> bool {
        self.wf()
    }

    fn get_bounds(&self) -> Bounds {
        self.bounds
    }

    fn get_cell(&self, coord: &ACoord) -> Belief {
        self.belief(translate(*coord))
    }

    fn set_cell(&mut self, coord: &ACoord, object: Belief) {
        let node = translate(*coord);
        self.put(node, object);
    }

    fn raycast(&self, position: ACoord, delta: ACoord, max_range: usize) -> Option<ACoord> {
        Grid::raycast(self, position, delta, max_range)
    }
}

} // verus!
