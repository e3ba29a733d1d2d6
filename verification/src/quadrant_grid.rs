//! A full-plane grid that folds the four Euclidean quadrants into
//! non-negative storage coordinates; the fold and its inverse are proved
//! to round-trip.

use vstd::prelude::*;
use crate::types::{ACoord, Belief};
use crate::assoc::{uniq_keys, amap, lemma_amap_contains, lemma_amap_index,
    lemma_amap_push, lemma_amap_update};
use crate::spatial::SpatialMap;
use crate::hier::abs_i;

verus! {

/// Coordinates the quadrant grid handles.
pub const QUADRANT_LIMIT: isize = 0x10_0000;

/// A storage position: quadrant index and non-negative offsets into it.
#[derive(PartialEq, Eq, Structural, Copy, Clone, Debug)]
pub struct QPoint {
    pub q: usize,
    pub x: usize,
    pub y: usize,
}

/// Belief storage for the whole plane, quadrant by quadrant.
pub struct QuadrantGrid {
    pub information: Vec<(QPoint, Belief)>,
}

/// World coordinates the quadrant grid handles.
pub open spec fn quadrant_coord_ok(c: ACoord) -> bool {
    &&& -QUADRANT_LIMIT < c.x < QUADRANT_LIMIT
    &&& -QUADRANT_LIMIT < c.y < QUADRANT_LIMIT
}

/// The quadrant fold of a world coordinate:
/// quadrant 0 holds `x >= 0, y >= 0`; 1 holds `x < 0, y > 0`;
/// 2 holds `x <= 0, y <= 0`; 3 holds `x > 0, y < 0`.
pub open spec fn transform_spec(c: ACoord) -> QPoint {
    if c.x >= 0 && c.y >= 0 {
        QPoint { q: 0, x: c.x as usize, y: c.y as usize }
    } else if c.x < 0 && c.y > 0 {
        QPoint { q: 1, x: (-c.x - 1) as usize, y: (c.y - 1) as usize }
    } else if c.x <= 0 && c.y <= 0 {
        QPoint { q: 2, x: (-c.x) as usize, y: (-c.y) as usize }
    } else {
        QPoint { q: 3, x: (c.x - 1) as usize, y: (-c.y - 1) as usize }
    }
}

/// The inverse fold, from storage position back to the plane.
pub open spec fn untransform_spec(s: QPoint) -> ACoord {
    if s.q == 0 {
        ACoord { x: s.x as isize, y: s.y as isize }
    } else if s.q == 1 {
        ACoord { x: (-1 - (s.x as int)) as isize, y: (s.y + 1) as isize }
    } else if s.q == 2 {
        ACoord { x: (-(s.x as int)) as isize, y: (-(s.y as int)) as isize }
    } else {
        ACoord { x: (s.x + 1) as isize, y: (-1 - (s.y as int)) as isize }
    }
}

/// Unfolding a folded coordinate gives the coordinate back.
pub proof fn lemma_quadrant_round_trip(c: ACoord)
    requires
        quadrant_coord_ok(c),
    ensures
        untransform_spec(transform_spec(c)) == c,
{
}

impl QuadrantGrid {
    /// The mapping from storage position to recorded belief.
    pub open spec fn as_map(self) -> Map<QPoint, Belief> {
        amap(self.information@)
    }

    /// Key uniqueness and offsets inside the quadrant span.
    pub open spec fn wf(self) -> bool {
        &&& uniq_keys(self.information@)
        &&& forall|i: int| 0 <= i < self.information@.len()
            ==> qpoint_ok((#[trigger] self.information@[i]).0)
    }

    /// An empty plane.
    pub fn new() -> (r: Self)
        ensures
            r.wf(),
            r.as_map() == Map::<QPoint, Belief>::empty(),
    {
        let r = Self { information: Vec::new() };
        proof {
            assert(r.information@.len() == 0);
        }
        r
    }

    /// Folds a world coordinate into its storage position.
    pub fn transform(&self, coord: ACoord) -> (r: QPoint)
        requires
            quadrant_coord_ok(coord),
        ensures
            r == transform_spec(coord),
            qpoint_ok(r),
    {
        if coord.x >= 0 && coord.y >= 0 {
            QPoint { q: 0, x: coord.x as usize, y: coord.y as usize }
        } else if coord.x < 0 && coord.y > 0 {
            QPoint { q: 1, x: (-coord.x - 1) as usize, y: (coord.y - 1) as usize }
        } else if coord.x <= 0 && coord.y <= 0 {
            QPoint { q: 2, x: (-coord.x) as usize, y: (-coord.y) as usize }
        } else {
            QPoint { q: 3, x: (coord.x - 1) as usize, y: (-coord.y - 1) as usize }
        }
    }

    /// Unfolds a storage position back to its world coordinate.
    pub fn untransform(&self, node: QPoint) -> (r: ACoord)
        requires
            qpoint_ok(node),
        ensures
            r == untransform_spec(node),
    {
        if node.q == 0 {
            ACoord { x: node.x as isize, y: node.y as isize }
        } else if node.q == 1 {
            ACoord { x: -1 - (node.x as isize), y: node.y as isize + 1 }
        } else if node.q == 2 {
            ACoord { x: -(node.x as isize), y: -(node.y as isize) }
        } else {
            ACoord { x: node.x as isize + 1, y: -1 - (node.y as isize) }
        }
    }

    /// Finds the position of a storage key.
    fn find_idx(&self, a: QPoint) -> (r: Option<usize>)
        ensures
            match r {
                Some(i) => i < self.information@.len() && self.information@[i as int].0 == a,
                None => !self.as_map().contains_key(a),
            },
    {
        let mut i: usize = 0;
        while i < self.information.len()
            invariant
                i <= self.information@.len(),
                forall|j: int| 0 <= j < i ==> (#[trigger] self.information@[j]).0 != a,
            decreases self.information@.len() - i,
        {
            let (k, _) = self.information[i];
            if k.q == a.q && k.x == a.x && k.y == a.y {
                return Some(i);
            }
            i += 1;
        }
        proof { lemma_amap_contains(self.information@, a); }
        None
    }

    /// Records the belief observed at a world coordinate.
    pub fn update_belief(&mut self, coord: ACoord, belief: Belief)
        requires
            old(self).wf(),
            quadrant_coord_ok(coord),
        ensures
            final(self).wf(),
            final(self).as_map()
                == old(self).as_map().insert(transform_spec(coord), belief),
    {
        let s = self.transform(coord);
        match self.find_idx(s) {
            Some(i) => {
                proof { lemma_amap_update(self.information@, i as int, belief); }
                self.information.set(i, (s, belief));
            }
            None => {
                proof { lemma_amap_push(self.information@, s, belief); }
                self.information.push((s, belief));
            }
        }
    }
}

/// Storage positions inside the quadrant span.
pub open spec fn qpoint_ok(s: QPoint) -> bool {
    &&& s.q < 4
    &&& s.x < QUADRANT_LIMIT
    &&& s.y < QUADRANT_LIMIT
}

impl SpatialMap for QuadrantGrid {
    type Encoded = ACoord;

    open spec fn sm_wf(&self) -> bool {
        self.wf()
    }

    open spec fn sm_coord_in(&self, c: ACoord) -> bool {
        quadrant_coord_ok(c)
    }

    open spec fn sm_enc_in(&self, n: ACoord) -> bool {
        -QUADRANT_LIMIT - 1 <= n.x <= QUADRANT_LIMIT && -QUADRANT_LIMIT - 1 <= n.y <= QUADRANT_LIMIT
    }

    open spec fn sm_belief(&self, n: ACoord) -> Belief {
        if quadrant_coord_ok(n) && self.as_map().contains_key(transform_spec(n)) {
            self.as_map()[transform_spec(n)]
        } else {
            Belief::Unknown
        }
    }

    open spec fn sm_obstructed(&self, c: ACoord) -> bool {
        self.sm_belief(c) == Belief::Occupied
    }

    open spec fn sm_enc(&self, c: ACoord) -> ACoord {
        c
    }

    open spec fn sm_dec(&self, n: ACoord) -> ACoord {
        n
    }

    open spec fn sm_dist(&self, a: ACoord, b: ACoord) -> int {
        abs_i(a.x - b.x) + abs_i(a.y - b.y)
    }

    open spec fn sm_adjacent(&self, a: ACoord, b: ACoord) -> bool {
        abs_i(a.x - b.x) + abs_i(a.y - b.y) == 1
    }

    open spec fn sm_node_known(&self, n: ACoord) -> bool {
        true
    }

    proof fn sm_adjacent_irrefl(&self, n: ACoord) {
    }

    proof fn sm_dist_nonneg(&self, a: ACoord, b: ACoord) {
    }

    /// Marks the cells stepped through on the way to `hit` as free and
    /// `hit` itself as occupied.
    #[verifier::loop_isolation(false)]
    fn insert_ray(&mut self, pos: ACoord, hit: ACoord)
        ensures
            final(self).as_map().contains_key(transform_spec(hit)),
            final(self).as_map()[transform_spec(hit)] == Belief::Occupied,
    {
        let mut cur = pos;
        while cur.x != hit.x || cur.y != hit.y
            invariant
                self.wf(),
                quadrant_coord_ok(cur),
                quadrant_coord_ok(hit),
            decreases
                abs_i(hit.x - cur.x) + abs_i(hit.y - cur.y),
        {
            if cur.x < hit.x {
                cur.x = cur.x + 1;
            } else if cur.x > hit.x {
                cur.x = cur.x - 1;
            }
            if cur.y < hit.y {
                cur.y = cur.y + 1;
            } else if cur.y > hit.y {
                cur.y = cur.y - 1;
            }
            if cur.x != hit.x || cur.y != hit.y {
                self.update_belief(cur, Belief::Free);
            }
        }
        self.update_belief(hit, Belief::Occupied);
    }

    fn coord_check(&self, c: ACoord) -> (r: bool) {
        -QUADRANT_LIMIT < c.x && c.x < QUADRANT_LIMIT && -QUADRANT_LIMIT < c.y && c.y < QUADRANT_LIMIT
    }

    fn obstructed(&self, coord: ACoord) -> (r: bool) {
        let b = self.belief(coord);
        b == Belief::Occupied
    }

    fn belief(&self, node: ACoord) -> (r: Belief) {
        if node.x <= -QUADRANT_LIMIT || node.x >= QUADRANT_LIMIT
            || node.y <= -QUADRANT_LIMIT || node.y >= QUADRANT_LIMIT {
            return Belief::Unknown;
        }
        let s = self.transform(node);
        match self.find_idx(s) {
            Some(i) => {
                proof { lemma_amap_index(self.information@, i as int); }
                self.information[i].1
            }
            None => Belief::Unknown,
        }
    }

    /// The four cardinal cells around `node`, structurally, unfiltered by
    /// belief and clipped to the coordinate space.
    fn neighbors(&self, node: ACoord) -> (v: Vec<ACoord>) {
        let mut v: Vec<ACoord> = Vec::new();
        let candidates = [
            ACoord { x: node.x + 1, y: node.y },
            ACoord { x: node.x, y: node.y + 1 },
            ACoord { x: node.x - 1, y: node.y },
            ACoord { x: node.x, y: node.y - 1 },
        ];
        let mut i: usize = 0;
        while i < 4
            invariant
                -QUADRANT_LIMIT - 1 <= node.x <= QUADRANT_LIMIT,
                -QUADRANT_LIMIT - 1 <= node.y <= QUADRANT_LIMIT,
                candidates@.len() == 4,
                candidates@[0] == (ACoord { x: (node.x + 1) as isize, y: node.y }),
                candidates@[1] == (ACoord { x: node.x, y: (node.y + 1) as isize }),
                candidates@[2] == (ACoord { x: (node.x - 1) as isize, y: node.y }),
                candidates@[3] == (ACoord { x: node.x, y: (node.y - 1) as isize }),
                forall|j: int| 0 <= j < v@.len() ==> self.sm_enc_in(#[trigger] v@[j]),
                forall|j: int| 0 <= j < v@.len() ==> self.sm_adjacent(node, #[trigger] v@[j]),
                forall|j: int| 0 <= j < i ==> (self.sm_enc_in(#[trigger] candidates@[j])
                    ==> v@.contains(candidates@[j])),
            decreases 4 - i,
        {
            let c = candidates[i];
            if c.x >= -QUADRANT_LIMIT - 1 && c.x <= QUADRANT_LIMIT
                && c.y >= -QUADRANT_LIMIT - 1 && c.y <= QUADRANT_LIMIT {
                let ghost held = v@;
                v.push(c);
                proof {
                    assert(v@[v@.len() - 1] == c);
                    assert(v@.contains(c));
                    assert forall|x: ACoord| held.contains(x) implies v@.contains(x) by {
                        let j = choose|j: int| 0 <= j < held.len() && held[j] == x;
                        assert(v@[j] == x);
                    }
                }
            }
            i += 1;
        }
        proof {
            assert forall|n: ACoord| self.sm_enc_in(n) && #[trigger] self.sm_adjacent(node, n)
                implies v@.contains(n) by {
                // a cell at unit distance is one of the four candidates
                if n.x == node.x + 1 && n.y == node.y {
                    assert(n == candidates@[0]);
                } else if n.x == node.x && n.y == node.y + 1 {
                    assert(n == candidates@[1]);
                } else if n.x == node.x - 1 && n.y == node.y {
                    assert(n == candidates@[2]);
                } else {
                    assert(n == candidates@[3]);
                }
            }
        }
        v
    }

    fn distance(&self, a: ACoord, b: ACoord) -> (r: usize) {
        let dx = if a.x >= b.x { a.x - b.x } else { b.x - a.x };
        let dy = if a.y >= b.y { a.y - b.y } else { b.y - a.y };
        (dx + dy) as usize
    }

    fn encode(&self, coord: ACoord) -> (r: ACoord) {
        coord
    }

    fn decode(&self, node: ACoord) -> (r: ACoord) {
        node
    }
}

} // verus!
