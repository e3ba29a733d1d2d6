//! A labelled object store over world coordinates with a bounding box:
//! the representation the display layer and parsers work against.

use vstd::prelude::*;
use crate::types::{ACoord, Bounds};
use crate::assoc::{uniq_keys, amap, lemma_amap_contains, lemma_amap_index,
    lemma_amap_push, lemma_amap_update};

verus! {

/// What a map file can place at a coordinate.
#[derive(PartialEq, Eq, Structural, Copy, Clone, Debug)]
pub enum Object {
    Doorway,
    Obstacle,
    Corner,
    Wall,
    Unknown,
}

/// A plain world model: objects by coordinate, and the box around them.
pub struct Environment {
    pub information: Vec<(ACoord, Object)>,
    pub bounds: Bounds,
}

impl Environment {
    /// The mapping from coordinate to placed object.
    pub open spec fn as_map(self) -> Map<ACoord, Object> {
        amap(self.information@)
    }

    /// Each coordinate holds at most one object.
    pub open spec fn wf(self) -> bool {
        uniq_keys(self.information@)
    }

    pub fn new(information: Vec<(ACoord, Object)>, bounds: Bounds) -> (r: Self)
        requires
            uniq_keys(information@),
        ensures
            r.wf(),
            r.information@ == information@,
            r.bounds == bounds,
    {
        Self { information, bounds }
    }

    /// Finds the position of a coordinate's entry.
    fn find_idx(&self, a: ACoord) -> (r: Option<usize>)
        ensures
            match r {
                Some(i) => i < self.information@.len() && self.information@[i as int].0 == a,
                None => !self.as_map().contains_key(a),
            },
    {
        let mut i: usize = 0;
        while i < self.information.len()
            invariant
                i <= self.information@.len(),
                forall|j: int| 0 <= j < i ==> (#[trigger] self.information@[j]).0 != a,
            decreases self.information@.len() - i,
        {
            let (k, _) = self.information[i];
            if k.x == a.x && k.y == a.y {
                return Some(i);
            }
            i += 1;
        }
        proof { lemma_amap_contains(self.information@, a); }
        None
    }

    /// True when nothing is placed at the coordinate.
    pub fn path_clear(&self, xy: &ACoord) -> (r: bool)
        requires
            self.wf(),
        ensures
            r == !self.as_map().contains_key(*xy),
    {
        match self.find_idx(*xy) {
            Some(i) => {
                proof { lemma_amap_index(self.information@, i as int); }
                false
            }
            None => true,
        }
    }

    /// Places an object, growing the bounding box around it.
    pub fn insert_object(&mut self, coord: ACoord, obj: Object)
        requires
            old(self).wf(),
        ensures
            final(self).wf(),
            final(self).as_map() == old(self).as_map().insert(coord, obj),
            final(self).bounds.min_x <= coord.x <= final(self).bounds.max_x,
            final(self).bounds.min_y <= coord.y <= final(self).bounds.max_y,
    {
        if coord.x < self.bounds.min_x { self.bounds.min_x = coord.x; }
        if coord.y < self.bounds.min_y { self.bounds.min_y = coord.y; }
        if coord.x > self.bounds.max_x { self.bounds.max_x = coord.x; }
        if coord.y > self.bounds.max_y { self.bounds.max_y = coord.y; }
        match self.find_idx(coord) {
            Some(i) => {
                proof { lemma_amap_update(self.information@, i as int, obj); }
                self.information.set(i, (coord, obj));
            }
            None => {
                proof { lemma_amap_push(self.information@, coord, obj); }
                self.information.push((coord, obj));
            }
        }
    }
}

} // verus!
