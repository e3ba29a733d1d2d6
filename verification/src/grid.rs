//! The flat-grid spatial map: a simpler reference implementation of the
//! same spatial-index capability, keyed by offset-translated coordinates.
//! Cells never recorded are assumed free by the planner-facing belief and
//! unknown by the display-facing one.

use vstd::prelude::*;
use crate::types::{ACoord, Belief, Bounds};
use crate::assoc::{uniq_keys, amap, lemma_amap_contains, lemma_amap_index,
    lemma_amap_push, lemma_amap_update, lemma_amap_remove};
use crate::spatial::SpatialMap;
use crate::hier::{abs_i, on_ray, step_toward, lemma_on_ray_closer, lemma_on_ray_empty,
    lemma_on_ray_unfold, lemma_on_ray_step};

verus! {

/// Offset added to world coordinates so that stored keys are
/// non-negative.
pub const GRID_OFFSET: isize = 0x10_0000;

/// Translated coordinates stay below this bound.
pub const GRID_SPAN: isize = 0x20_0000;

/// Shifts a world coordinate into the stored, non-negative key space.
pub fn translate(xy: ACoord) -> (r: ACoord)
    requires
        -GRID_OFFSET <= xy.x < GRID_OFFSET,
        -GRID_OFFSET <= xy.y < GRID_OFFSET,
    ensures
        r.x == xy.x + GRID_OFFSET,
        r.y == xy.y + GRID_OFFSET,
{
    ACoord { x: xy.x + GRID_OFFSET, y: xy.y + GRID_OFFSET }
}

/// The flat occupancy grid: recorded beliefs by translated coordinate,
/// and the bounding boxes of what was seen and what is displayed.
pub struct Grid {
    pub information: Vec<(ACoord, Belief)>,
    pub seen: Bounds,
    pub bounds: Bounds,
}

impl Grid {
    /// The mapping from translated coordinate to recorded belief.
    pub open spec fn as_map(self) -> Map<ACoord, Belief> {
        amap(self.information@)
    }

    /// Key uniqueness and keys inside the translated coordinate space.
    pub open spec fn wf(self) -> bool {
        &&& uniq_keys(self.information@)
        &&& forall|i: int| 0 <= i < self.information@.len()
            ==> grid_enc_ok((#[trigger] self.information@[i]).0)
    }

    /// An empty grid with a small initial display box.
    pub fn new() -> (r: Self)
        ensures
            r.wf(),
            r.as_map() == Map::<ACoord, Belief>::empty(),
    {
        let seen = Bounds { min_x: isize::MAX, min_y: isize::MAX, max_x: 0, max_y: 0 };
        let bounds = Bounds { min_x: 0, min_y: 0, max_x: 4, max_y: 4 };
        let r = Self { information: Vec::new(), seen, bounds };
        proof {
            assert(r.information@.len() == 0);
        }
        r
    }

    /// Finds the position of a translated coordinate.
    fn find_idx(&self, a: ACoord) -> (r: Option<usize>)
        ensures
            match r {
                Some(i) => i < self.information@.len() && self.information@[i as int].0 == a,
                None => !self.as_map().contains_key(a),
            },
    {
        let mut i: usize = 0;
        while i < self.information.len()
            invariant
                i <= self.information@.len(),
                forall|j: int| 0 <= j < i ==> (#[trigger] self.information@[j]).0 != a,
            decreases self.information@.len() - i,
        {
            let (k, _) = self.information[i];
            if k.x == a.x && k.y == a.y {
                return Some(i);
            }
            i += 1;
        }
        proof { lemma_amap_contains(self.information@, a); }
        None
    }

    /// Records a belief for a translated coordinate.
    pub fn put(&mut self, a: ACoord, b: Belief)
        requires
            old(self).wf(),
            grid_enc_ok(a),
        ensures
            final(self).wf(),
            final(self).as_map() == old(self).as_map().insert(a, b),
    {
        match self.find_idx(a) {
            Some(i) => {
                proof { lemma_amap_update(self.information@, i as int, b); }
                self.information.set(i, (a, b));
            }
            None => {
                proof { lemma_amap_push(self.information@, a, b); }
                self.information.push((a, b));
            }
        }
    }

    /// Forgets any belief recorded for a translated coordinate.
    pub(crate) fn del(&mut self, a: ACoord)
        requires
            old(self).wf(),
        ensures
            final(self).wf(),
            final(self).as_map() == old(self).as_map().remove(a),
    {
        match self.find_idx(a) {
            Some(i) => {
                proof { lemma_amap_remove(self.information@, i as int); }
                let _ = self.information.remove(i);
            }
            None => {
                proof {
                    assert(self.as_map().remove(a) =~= self.as_map());
                }
            }
        }
    }

    /// Grows both bounding boxes to include a translated coordinate.
    pub fn update_bounds(&mut self, node: ACoord)
        requires
            old(self).wf(),
        ensures
            final(self).wf(),
            final(self).information@ == old(self).information@,
    {
        if node.x < self.seen.min_x { self.seen.min_x = node.x; }
        if node.y < self.seen.min_y { self.seen.min_y = node.y; }
        if node.x > self.seen.max_x { self.seen.max_x = node.x; }
        if node.y > self.seen.max_y { self.seen.max_y = node.y; }
        if node.x < self.bounds.min_x { self.bounds.min_x = node.x; }
        if node.y < self.bounds.min_y { self.bounds.min_y = node.y; }
        if node.x > self.bounds.max_x { self.bounds.max_x = node.x; }
        if node.y > self.bounds.max_y { self.bounds.max_y = node.y; }
    }

    /// True when no belief is recorded at the world coordinate: the cell
    /// was never seen to be blocked.
    pub fn path_clear(&self, xy: ACoord) -> (r: bool)
        requires
            self.wf(),
            grid_coord_ok(xy),
        ensures
            r == !self.as_map().contains_key(
                ACoord { x: (xy.x + GRID_OFFSET) as isize, y: (xy.y + GRID_OFFSET) as isize }),
    {
        match self.find_idx(translate(xy)) {
            Some(i) => {
                proof { lemma_amap_index(self.information@, i as int); }
                false
            }
            None => true,
        }
    }

    /// The recorded belief of a translated coordinate, `Unknown` where
    /// nothing was recorded.
    pub fn belief(&self, xy: ACoord) -> (r: Belief)
        requires
            self.wf(),
        ensures
            r == if self.as_map().contains_key(xy) {
                self.as_map()[xy]
            } else {
                Belief::Unknown
            },
    {
        match self.find_idx(xy) {
            Some(i) => {
                proof { lemma_amap_index(self.information@, i as int); }
                self.information[i].1
            }
            None => Belief::Unknown,
        }
    }

    /// Walks from `position` one `delta` step at a time, up to
    /// `max_range` cells, and returns the offset of the first recorded
    /// cell hit, if any: the grid doubling as a range-sensor oracle.
    #[verifier::loop_isolation(false)]
    pub fn raycast(&self, position: ACoord, delta: ACoord, max_range: usize) -> (r: Option<ACoord>)
        requires
            self.wf(),
            grid_coord_ok(position),
            -1 <= delta.x <= 1,
            -1 <= delta.y <= 1,
            max_range <= GRID_OFFSET,
        ensures
            beam_hit_ok(*self, position, delta, max_range, r),
    {
        let mut n_xy = position;
        let mut step: usize = 1;
        while step < max_range
            invariant
                1 <= step,
                n_xy.x as int == position.x + delta.x * (step - 1),
                n_xy.y as int == position.y + delta.y * (step - 1),
                -2 * GRID_OFFSET <= n_xy.x <= 2 * GRID_OFFSET,
                -2 * GRID_OFFSET <= n_xy.y <= 2 * GRID_OFFSET,
                forall|j2: int| 1 <= j2 < step
                    ==> !self.as_map().contains_key(#[trigger] beam_cell(position, delta, j2)),
            decreases max_range - step,
        {
            n_xy = ACoord { x: n_xy.x + delta.x, y: n_xy.y + delta.y };
            proof {
                assert(delta.x * step == delta.x * (step - 1) + delta.x) by (nonlinear_arith);
                assert(delta.y * step == delta.y * (step - 1) + delta.y) by (nonlinear_arith);
                assert(n_xy.x as int == position.x + delta.x * step);
                assert(n_xy.y as int == position.y + delta.y * step);
            }
            if n_xy.x < -GRID_OFFSET || n_xy.x >= GRID_OFFSET
                || n_xy.y < -GRID_OFFSET || n_xy.y >= GRID_OFFSET {
                proof {
                    // once a beam leaves the space it cannot re-enter:
                    // each axis moves in one direction only
                    assert forall|j: int| 1 <= j < max_range
                        implies beam_out(position, delta, j)
                            || !self.as_map().contains_key(
                                #[trigger] beam_cell(position, delta, j)) by {
                        if j >= step {
                            if n_xy.x >= GRID_OFFSET {
                                assert(delta.x * (step as int) > 0);
                                assert(delta.x == 1) by (nonlinear_arith)
                                    requires
                                        delta.x * (step as int) > 0,
                                        -1 <= delta.x <= 1,
                                        step >= 1;
                                assert(delta.x * j >= delta.x * (step as int)) by (nonlinear_arith)
                                    requires delta.x == 1 && j >= step;
                            } else if n_xy.x < -GRID_OFFSET {
                                assert(delta.x * (step as int) < 0);
                                assert(delta.x == -1) by (nonlinear_arith)
                                    requires
                                        delta.x * (step as int) < 0,
                                        -1 <= delta.x <= 1,
                                        step >= 1;
                                assert(delta.x * j <= delta.x * (step as int)) by (nonlinear_arith)
                                    requires delta.x == -1 && j >= step;
                            } else if n_xy.y >= GRID_OFFSET {
                                assert(delta.y * (step as int) > 0);
                                assert(delta.y == 1) by (nonlinear_arith)
                                    requires
                                        delta.y * (step as int) > 0,
                                        -1 <= delta.y <= 1,
                                        step >= 1;
                                assert(delta.y * j >= delta.y * (step as int)) by (nonlinear_arith)
                                    requires delta.y == 1 && j >= step;
                            } else {
                                assert(delta.y * (step as int) < 0);
                                assert(delta.y == -1) by (nonlinear_arith)
                                    requires
                                        delta.y * (step as int) < 0,
                                        -1 <= delta.y <= 1,
                                        step >= 1;
                                assert(delta.y * j <= delta.y * (step as int)) by (nonlinear_arith)
                                    requires delta.y == -1 && j >= step;
                            }
                            assert(beam_out(position, delta, j));
                        }
                    }
                }
                return None;
            }
            if !self.path_clear(n_xy) {
                proof {
                    let d = ACoord {
                        x: (n_xy.x - position.x) as isize,
                        y: (n_xy.y - position.y) as isize,
                    };
                    let hit = ACoord {
                        x: (position.x + d.x) as isize,
                        y: (position.y + d.y) as isize,
                    };
                    assert(hit == n_xy);
                    assert(d.x == delta.x * (step as int) && d.y == delta.y * (step as int));
                    assert(beam_cell(position, delta, step as int) == (ACoord {
                        x: (hit.x + GRID_OFFSET) as isize,
                        y: (hit.y + GRID_OFFSET) as isize,
                    }));
                    assert(1 <= step < max_range);
                }
                return Some(ACoord { x: n_xy.x - position.x, y: n_xy.y - position.y });
            }
            proof {
                assert(!self.as_map().contains_key(beam_cell(position, delta, step as int)));
            }
            step += 1;
        }
        None
    }
}

/// The stored key of the `j`-th cell along a beam from `position` in
/// direction `delta`.
pub open spec fn beam_cell(position: ACoord, delta: ACoord, j: int) -> ACoord {
    (ACoord {
        x: (position.x + delta.x * j + GRID_OFFSET) as isize,
        y: (position.y + delta.y * j + GRID_OFFSET) as isize,
    })
}

/// The `j`-th cell along a beam leaves the coordinate space.
pub open spec fn beam_out(position: ACoord, delta: ACoord, j: int) -> bool {
    ||| position.x + delta.x * j < -GRID_OFFSET
    ||| position.x + delta.x * j >= GRID_OFFSET
    ||| position.y + delta.y * j < -GRID_OFFSET
    ||| position.y + delta.y * j >= GRID_OFFSET
}

/// What a cast beam reports: a returned offset names a recorded cell in
/// range, reached by whole `delta` steps, with every earlier step clear;
/// no report means every step in range is unrecorded or out of bounds.
pub open spec fn beam_hit_ok(
    g: Grid,
    position: ACoord,
    delta: ACoord,
    max_range: usize,
    r: Option<ACoord>,
) -> bool {
    match r {
        Some(d) => {
            let hit = ACoord { x: (position.x + d.x) as isize, y: (position.y + d.y) as isize };
            &&& grid_coord_ok(hit)
            &&& g.as_map().contains_key(
                (ACoord { x: (hit.x + GRID_OFFSET) as isize, y: (hit.y + GRID_OFFSET) as isize }))
            &&& exists|j: int| 1 <= j < max_range
                && d.x == delta.x * j && d.y == delta.y * j
                && #[trigger] beam_cell(position, delta, j) == (ACoord {
                    x: (hit.x + GRID_OFFSET) as isize,
                    y: (hit.y + GRID_OFFSET) as isize,
                })
                && (forall|j2: int| 1 <= j2 < j
                    ==> !g.as_map().contains_key(#[trigger] beam_cell(position, delta, j2)))
        },
        None => forall|j: int| 1 <= j < max_range
            ==> beam_out(position, delta, j)
                || !g.as_map().contains_key(#[trigger] beam_cell(position, delta, j)),
    }
}

/// World coordinates the flat grid handles.
pub open spec fn grid_coord_ok(c: ACoord) -> bool {
    &&& -GRID_OFFSET <= c.x < GRID_OFFSET
    &&& -GRID_OFFSET <= c.y < GRID_OFFSET
}

/// Translated coordinates the flat grid stores.
pub open spec fn grid_enc_ok(n: ACoord) -> bool {
    &&& 0 <= n.x < GRID_SPAN
    &&& 0 <= n.y < GRID_SPAN
}

/// One probe of the neighbour walk: the cell itself when it lies in the
/// stored space and is not believed `Occupied`, else nothing.
pub open spec fn keep_cell(g: Grid, c: ACoord) -> Seq<ACoord> {
    if grid_enc_ok(c) && g.sm_belief(c) != Belief::Occupied {
        seq![c]
    } else {
        Seq::<ACoord>::empty()
    }
}

/// The first `i` probes of the neighbour walk over `cs`, in order.
pub open spec fn row_prefix(g: Grid, cs: Seq<ACoord>, i: int) -> Seq<ACoord>
    decreases i,
{
    if i <= 0 {
        Seq::<ACoord>::empty()
    } else {
        row_prefix(g, cs, i - 1) + keep_cell(g, cs[i - 1])
    }
}

/// The neighbour row of a node, in probe order: east, north, west, south.
pub open spec fn neighbor_row(g: Grid, node: ACoord) -> Seq<ACoord> {
    keep_cell(g, ACoord { x: (node.x + 1) as isize, y: node.y })
        + keep_cell(g, ACoord { x: node.x, y: (node.y + 1) as isize })
        + keep_cell(g, ACoord { x: (node.x - 1) as isize, y: node.y })
        + keep_cell(g, ACoord { x: node.x, y: (node.y - 1) as isize })
}

impl SpatialMap for Grid {
    type Encoded = ACoord;

    open spec fn sm_wf(&self) -> bool {
        self.wf()
    }

    open spec fn sm_coord_in(&self, c: ACoord) -> bool {
        grid_coord_ok(c)
    }

    open spec fn sm_enc_in(&self, n: ACoord) -> bool {
        grid_enc_ok(n)
    }

    open spec fn sm_belief(&self, n: ACoord) -> Belief {
        if self.as_map().contains_key(n) {
            self.as_map()[n]
        } else {
            Belief::Free
        }
    }

    open spec fn sm_obstructed(&self, c: ACoord) -> bool {
        self.sm_belief(self.sm_enc(c)) == Belief::Occupied
    }

    open spec fn sm_enc(&self, c: ACoord) -> ACoord {
        ACoord { x: (c.x + GRID_OFFSET) as isize, y: (c.y + GRID_OFFSET) as isize }
    }

    open spec fn sm_dec(&self, n: ACoord) -> ACoord {
        ACoord { x: (n.x - GRID_OFFSET) as isize, y: (n.y - GRID_OFFSET) as isize }
    }

    open spec fn sm_dist(&self, a: ACoord, b: ACoord) -> int {
        abs_i(a.x - b.x) + abs_i(a.y - b.y)
    }

    open spec fn sm_adjacent(&self, a: ACoord, b: ACoord) -> bool {
        abs_i(a.x - b.x) + abs_i(a.y - b.y) == 1 && self.sm_belief(b) != Belief::Occupied
    }

    open spec fn sm_node_known(&self, n: ACoord) -> bool {
        true
    }

    proof fn sm_adjacent_irrefl(&self, n: ACoord) {
    }

    proof fn sm_dist_nonneg(&self, a: ACoord, b: ACoord) {
    }

    /// Clears the recorded beliefs along the stepped path to `hit` and
    /// records `hit` as occupied.
    #[verifier::loop_isolation(false)]
    #[verifier::rlimit(100)]
    fn insert_ray(&mut self, pos: ACoord, hit: ACoord)
        ensures
            final(self).as_map().contains_key(old(self).sm_enc(hit)),
            final(self).as_map()[old(self).sm_enc(hit)] == Belief::Occupied,
            forall|c: ACoord| on_ray(c.x as int, c.y as int,
                    pos.x + GRID_OFFSET, pos.y + GRID_OFFSET,
                    hit.x + GRID_OFFSET, hit.y + GRID_OFFSET)
                ==> !final(self).as_map().contains_key(c),
            forall|c: ACoord| !(#[trigger] on_ray(c.x as int, c.y as int,
                    pos.x + GRID_OFFSET, pos.y + GRID_OFFSET,
                    hit.x + GRID_OFFSET, hit.y + GRID_OFFSET))
                && c != old(self).sm_enc(hit)
                ==> final(self).as_map().contains_key(c)
                        == old(self).as_map().contains_key(c)
                    && (old(self).as_map().contains_key(c)
                        ==> final(self).as_map()[c] == old(self).as_map()[c]),
    {
        let e_hit = translate(hit);
        let mut cur = translate(pos);
        let ghost px = pos.x + GRID_OFFSET;
        let ghost py = pos.y + GRID_OFFSET;
        let ghost hx = hit.x + GRID_OFFSET;
        let ghost hy = hit.y + GRID_OFFSET;
        self.update_bounds(e_hit);
        while cur.x != e_hit.x || cur.y != e_hit.y
            invariant
                self.wf(),
                grid_enc_ok(cur),
                grid_enc_ok(e_hit),
                e_hit.x as int == hx && e_hit.y as int == hy,
                (cur.x == e_hit.x && cur.y == e_hit.y)
                    || (cur.x as int == px && cur.y as int == py)
                    || on_ray(cur.x as int, cur.y as int, px, py, hx, hy),
                (cur.x as int != px || cur.y as int != py)
                    && (cur.x != e_hit.x || cur.y != e_hit.y)
                    ==> !self.as_map().contains_key(cur),
                forall|c: ACoord| on_ray(c.x as int, c.y as int, px, py, hx, hy)
                    ==> (c == cur
                        || on_ray(c.x as int, c.y as int, cur.x as int, cur.y as int, hx, hy)
                        || !self.as_map().contains_key(c)),
                forall|c: ACoord| !(#[trigger] on_ray(c.x as int, c.y as int, px, py, hx, hy))
                    && c != e_hit
                    ==> self.as_map().contains_key(c)
                            == old(self).as_map().contains_key(c)
                        && (old(self).as_map().contains_key(c)
                            ==> self.as_map()[c] == old(self).as_map()[c]),
            decreases
                abs_i(e_hit.x - cur.x) + abs_i(e_hit.y - cur.y),
        {
            let ghost ocx = cur.x as int;
            let ghost ocy = cur.y as int;
            let ghost ocur = cur;
            if cur.x < e_hit.x {
                cur.x = cur.x + 1;
            } else if cur.x > e_hit.x {
                cur.x = cur.x - 1;
            }
            if cur.y < e_hit.y {
                cur.y = cur.y + 1;
            } else if cur.y > e_hit.y {
                cur.y = cur.y - 1;
            }
            proof {
                assert(cur.x as int == step_toward(ocx, hx));
                assert(cur.y as int == step_toward(ocy, hy));
            }
            if cur.x != e_hit.x || cur.y != e_hit.y {
                proof {
                    lemma_on_ray_step(px, py, ocx, ocy, hx, hy);
                }
                let ghost pre = *self;
                self.del(cur);
                proof {
                    assert(on_ray(cur.x as int, cur.y as int, px, py, hx, hy));
                    assert(!self.as_map().contains_key(cur));
                    assert forall|c: ACoord|
                        !(#[trigger] on_ray(c.x as int, c.y as int, px, py, hx, hy))
                        && c != e_hit
                        implies self.as_map().contains_key(c)
                                == old(self).as_map().contains_key(c)
                            && (old(self).as_map().contains_key(c)
                                ==> self.as_map()[c] == old(self).as_map()[c]) by {
                        assert(c != cur);
                        assert(self.as_map().contains_key(c) == pre.as_map().contains_key(c));
                        if pre.as_map().contains_key(c) {
                            assert(self.as_map()[c] == pre.as_map()[c]);
                        }
                    }
                    assert forall|c: ACoord| on_ray(c.x as int, c.y as int, px, py, hx, hy)
                        implies (c == cur
                            || on_ray(c.x as int, c.y as int, cur.x as int, cur.y as int, hx, hy)
                            || !self.as_map().contains_key(c)) by {
                        lemma_on_ray_closer(c.x as int, c.y as int, px, py, hx, hy);
                        if c != cur {
                            if c == ocur {
                                assert(!pre.as_map().contains_key(c));
                            } else if on_ray(c.x as int, c.y as int, ocx, ocy, hx, hy) {
                                lemma_on_ray_unfold(c.x as int, c.y as int, ocx, ocy, hx, hy);
                                assert(on_ray(c.x as int, c.y as int,
                                    cur.x as int, cur.y as int, hx, hy));
                            } else {
                                assert(!pre.as_map().contains_key(c));
                            }
                        }
                    }
                }
            } else {
                proof {
                    assert forall|c: ACoord| on_ray(c.x as int, c.y as int, px, py, hx, hy)
                        implies (c == cur
                            || on_ray(c.x as int, c.y as int, cur.x as int, cur.y as int, hx, hy)
                            || !self.as_map().contains_key(c)) by {
                        lemma_on_ray_closer(c.x as int, c.y as int, px, py, hx, hy);
                        if c == ocur {
                            assert(!self.as_map().contains_key(c));
                        } else if on_ray(c.x as int, c.y as int, ocx, ocy, hx, hy) {
                            // the next step is the hit itself, so no cell
                            // remains on the path
                            lemma_on_ray_empty(c.x as int, c.y as int, ocx, ocy, hx, hy);
                            assert(false);
                        }
                    }
                }
            }
        }
        let ghost pre = *self;
        self.put(e_hit, Belief::Occupied);
        proof {
            assert forall|c: ACoord| on_ray(c.x as int, c.y as int, px, py, hx, hy)
                implies !self.as_map().contains_key(c) by {
                lemma_on_ray_closer(c.x as int, c.y as int, px, py, hx, hy);
                lemma_on_ray_empty(c.x as int, c.y as int, hx, hy, hx, hy);
                assert(c != e_hit);
                assert(!pre.as_map().contains_key(c));
            }
            assert forall|c: ACoord|
                !(#[trigger] on_ray(c.x as int, c.y as int, px, py, hx, hy))
                && c != e_hit
                implies self.as_map().contains_key(c)
                        == old(self).as_map().contains_key(c)
                    && (old(self).as_map().contains_key(c)
                        ==> self.as_map()[c] == old(self).as_map()[c]) by {
                assert(self.as_map().contains_key(c) == pre.as_map().contains_key(c));
                if pre.as_map().contains_key(c) {
                    assert(self.as_map()[c] == pre.as_map()[c]);
                }
            }
        }
    }

    fn coord_check(&self, c: ACoord) -> (r: bool) {
        -GRID_OFFSET <= c.x && c.x < GRID_OFFSET && -GRID_OFFSET <= c.y && c.y < GRID_OFFSET
    }

    fn obstructed(&self, coord: ACoord) -> (r: bool) {
        let b = self.belief(translate(coord));
        proof {
            assert(translate_matches(self.sm_enc(coord), coord));
        }
        b == Belief::Occupied
    }

    fn belief(&self, node: ACoord) -> (r: Belief) {
        match self.find_idx(node) {
            Some(i) => {
                proof { lemma_amap_index(self.information@, i as int); }
                self.information[i].1
            }
            None => Belief::Free,
        }
    }

    /// The four cardinal cells around `node` whose recorded belief is not
    /// `Occupied`, clipped to the stored coordinate space.
    fn neighbors(&self, node: ACoord) -> (v: Vec<ACoord>)
        ensures
            v@ == neighbor_row(*self, node),
    {
        let mut v: Vec<ACoord> = Vec::new();
        let candidates = [
            ACoord { x: node.x + 1, y: node.y },
            ACoord { x: node.x, y: node.y + 1 },
            ACoord { x: node.x - 1, y: node.y },
            ACoord { x: node.x, y: node.y - 1 },
        ];
        let mut i: usize = 0;
        while i < 4
            invariant
                self.wf(),
                grid_enc_ok(node),
                candidates@.len() == 4,
                candidates@[0] == (ACoord { x: (node.x + 1) as isize, y: node.y }),
                candidates@[1] == (ACoord { x: node.x, y: (node.y + 1) as isize }),
                candidates@[2] == (ACoord { x: (node.x - 1) as isize, y: node.y }),
                candidates@[3] == (ACoord { x: node.x, y: (node.y - 1) as isize }),
                forall|j: int| 0 <= j < v@.len() ==> grid_enc_ok(#[trigger] v@[j]),
                forall|j: int| 0 <= j < v@.len() ==> self.sm_adjacent(node, #[trigger] v@[j]),
                forall|j: int| 0 <= j < i ==> (grid_enc_ok(#[trigger] candidates@[j])
                    && self.sm_belief(candidates@[j]) != Belief::Occupied
                    ==> v@.contains(candidates@[j])),
                i <= 4,
                v@ == row_prefix(*self, candidates@, i as int),
            decreases 4 - i,
        {
            let c = candidates[i];
            let ghost held = v@;
            if c.x >= 0 && c.x < GRID_SPAN && c.y >= 0 && c.y < GRID_SPAN {
                let b = self.belief(c);
                if b != Belief::Occupied {
                    v.push(c);
                    proof {
                        assert(v@[v@.len() - 1] == c);
                        assert(v@.contains(c));
                        assert forall|x: ACoord| held.contains(x) implies v@.contains(x) by {
                            let j = choose|j: int| 0 <= j < held.len() && held[j] == x;
                            assert(v@[j] == x);
                        }
                        assert(self.sm_belief(c) != Belief::Occupied);
                        assert(keep_cell(*self, c) == seq![c]);
                        assert(v@ =~= held + keep_cell(*self, c));
                    }
                } else {
                    proof {
                        assert(self.as_map().contains_key(c));
                        assert(self.sm_belief(c) == Belief::Occupied);
                        assert(keep_cell(*self, c) == Seq::<ACoord>::empty());
                        assert(v@ =~= held + keep_cell(*self, c));
                    }
                }
            } else {
                proof {
                    assert(!grid_enc_ok(c));
                    assert(keep_cell(*self, c) == Seq::<ACoord>::empty());
                    assert(v@ =~= held + keep_cell(*self, c));
                }
            }
            proof {
                assert(v@ == row_prefix(*self, candidates@, i as int) + keep_cell(
                    *self,
                    candidates@[i as int],
                ));
                assert(v@ == row_prefix(*self, candidates@, i as int + 1));
            }
            i += 1;
        }
        proof {
            assert forall|n: ACoord| self.sm_enc_in(n) && #[trigger] self.sm_adjacent(node, n)
                implies v@.contains(n) by {
                // a cell at unit distance is one of the four candidates
                if n.x == node.x + 1 && n.y == node.y {
                    assert(n == candidates@[0]);
                } else if n.x == node.x && n.y == node.y + 1 {
                    assert(n == candidates@[1]);
                } else if n.x == node.x - 1 && n.y == node.y {
                    assert(n == candidates@[2]);
                } else {
                    assert(n == candidates@[3]);
                }
            }
            reveal_with_fuel(row_prefix, 5);
            assert(v@ =~= neighbor_row(*self, node));
        }
        v
    }

    fn distance(&self, a: ACoord, b: ACoord) -> (r: usize) {
        let dx = if a.x >= b.x { a.x - b.x } else { b.x - a.x };
        let dy = if a.y >= b.y { a.y - b.y } else { b.y - a.y };
        (dx + dy) as usize
    }

    fn encode(&self, coord: ACoord) -> (r: ACoord) {
        translate(coord)
    }

    fn decode(&self, node: ACoord) -> (r: ACoord) {
        ACoord { x: node.x - GRID_OFFSET, y: node.y - GRID_OFFSET }
    }
}

/// Helper relating the spec-level encoding to the translation.
pub open spec fn translate_matches(n: ACoord, c: ACoord) -> bool {
    n.x == c.x + GRID_OFFSET && n.y == c.y + GRID_OFFSET
}

/// Round-trip addressing on the flat grid: decoding an encoded world
/// coordinate gives the coordinate back, for every coordinate the grid
/// handles.
pub proof fn lemma_grid_round_trip(g: Grid, c: ACoord)
    requires
        grid_coord_ok(c),
    ensures
        g.sm_dec(g.sm_enc(c)) == c,
{
}

} // verus!
