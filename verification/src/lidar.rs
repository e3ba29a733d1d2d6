//! The simulated range sensor: four cardinal beams cast against an
//! oracle grid, reporting the relative offset of the first blocked cell
//! within range along each beam.

use vstd::prelude::*;
use crate::types::ACoord;
use crate::grid::{Grid, grid_coord_ok, beam_hit_ok, GRID_OFFSET};

verus! {

/// The sensor: a maximum range and the oracle world it measures.
pub struct Lidar {
    pub max_range: usize,
    pub oracle: Grid,
}

/// One scan: the closest hit per cardinal beam, as relative offsets.
pub struct Measurement {
    pub data: Vec<Option<ACoord>>,
}

impl Lidar {
    /// The sensor's oracle is well formed and its range bounded.
    pub open spec fn wf(self) -> bool {
        &&& self.oracle.wf()
        &&& self.max_range <= GRID_OFFSET as usize
    }

    pub fn new(max_range: usize, oracle: Grid) -> (r: Self)
        ensures
            r.max_range == max_range,
            r.oracle == oracle,
    {
        Self { max_range, oracle }
    }

    /// Casts one beam and reports the offset of the first hit in range.
    fn beam(&self, position: ACoord, delta: ACoord) -> (r: Option<ACoord>)
        requires
            self.wf(),
            grid_coord_ok(position),
            -1 <= delta.x <= 1,
            -1 <= delta.y <= 1,
        ensures
            beam_hit_ok(self.oracle, position, delta, self.max_range, r),
    {
        self.oracle.raycast(position, delta, self.max_range)
    }

    /// Scans the four cardinal directions in polar order: east, north,
    /// west, south.
    pub fn measure(&self, position: ACoord) -> (r: Measurement)
        requires
            self.wf(),
            grid_coord_ok(position),
        ensures
            r.data@.len() == 4,
            beam_hit_ok(self.oracle, position, (ACoord { x: 1, y: 0 }), self.max_range, r.data@[0]),
            beam_hit_ok(self.oracle, position, (ACoord { x: 0, y: 1 }), self.max_range, r.data@[1]),
            beam_hit_ok(self.oracle, position, (ACoord { x: -1isize, y: 0 }), self.max_range, r.data@[2]),
            beam_hit_ok(self.oracle, position, (ACoord { x: 0, y: -1isize }), self.max_range, r.data@[3]),
    {
        let mut data: Vec<Option<ACoord>> = Vec::new();
        data.push(self.beam(position, ACoord { x: 1, y: 0 }));
        data.push(self.beam(position, ACoord { x: 0, y: 1 }));
        data.push(self.beam(position, ACoord { x: -1, y: 0 }));
        data.push(self.beam(position, ACoord { x: 0, y: -1 }));
        Measurement { data }
    }
}

} // verus!
