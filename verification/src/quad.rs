//! The sparse hierarchical occupancy map: a region quadtree holding one
//! entry per maximal homogeneous region, kept structurally compressed
//! under arbitrary point updates.
//!
//! The stored-set invariant — no two stored addresses ever stand in an
//! ancestor/descendant relationship — is part of `wf` and is proved to be
//! preserved by every mutation.
//!
//! The hierarchical map's domain is the non-negative quadrant
//! `[0, COORD_LIMIT)` on both axes; the full plane is served by folding
//! coordinates through the quadrant grid, whose fold is proved to
//! round-trip.

use vstd::prelude::*;
use crate::types::{ACoord, HCoord, Belief, Bounds};
use crate::hier::{
    COORD_LIMIT, LEVEL_LIMIT, pow2i, align_spec, aligned, encloses, addr_ok,
    lemma_align_window, lemma_align_range, lemma_align_half, lemma_align_basics,
    lemma_align_zero, lemma_aligned_coarse_to_fine, lemma_align_refine, lemma_nesting,
    lemma_coord_cell_in_limit, pow2_exec, encode, child_hier, grid_hier,
};
use crate::assoc::{uniq_keys, amap, lemma_amap_contains, lemma_amap_index,
    lemma_amap_push, lemma_amap_update, lemma_amap_remove};
use crate::spatial::SpatialMap;
use crate::hier::{dist_spec, abs_i, transform, on_ray, step_toward, lemma_on_ray_closer,
    lemma_on_ray_step, lemma_on_ray_empty, lemma_on_ray_unfold};
use vstd::arithmetic::div_mod::lemma_mod_division_less_than_divisor;
use vstd::arithmetic::power2::{lemma_pow2_pos, lemma_pow2_adds, lemma2_to64};

verus! {

/// Default number of levels of a freshly built map.
pub const LEVELS: usize = 3;

/// A stored region: uniformly of `belief` over the whole address.
#[derive(PartialEq, Eq, Structural, Copy, Clone, Debug)]
pub struct QuadNode {
    pub homogenous: bool,
    pub belief: Belief,
}

/// The occupancy map: a keyed mapping from hierarchical address to node,
/// the bounding box of observed coordinates, and the number of levels.
pub struct QuadTree {
    pub information: Vec<(HCoord, QuadNode)>,
    pub bounds: Bounds,
    pub levels: usize,
}

/// A world coordinate the hierarchical map can hold: its domain is the
/// non-negative quadrant, bounded so that centroid and distance
/// arithmetic stays overflow-free.
pub open spec fn coord_ok(c: ACoord) -> bool {
    &&& 0 <= c.x < COORD_LIMIT
    &&& 0 <= c.y < COORD_LIMIT
}

/// The walked prefix of a ray insertion from `(px, py)` toward
/// `(hx, hy)`, standing at `(cx, cy)`: the walker is on the stepped
/// path, everything strictly behind it reads free, and nothing off the
/// path (nor the hit) has changed.
#[verifier::opaque]
spec fn ray_progress(
    o: QuadTree,
    s: QuadTree,
    px: int,
    py: int,
    hx: int,
    hy: int,
    cx: int,
    cy: int,
) -> bool {
    &&& ((cx == px && cy == py) || on_ray(cx, cy, px, py, hx, hy))
    &&& ((cx != px || cy != py) && (cx != hx || cy != hy)
        ==> s.belief_at(cx, cy) == Belief::Free)
    &&& forall|ax: int, ay: int| on_ray(ax, ay, px, py, hx, hy)
        ==> ((ax == cx && ay == cy) || on_ray(ax, ay, cx, cy, hx, hy)
            || s.belief_at(ax, ay) == Belief::Free)
    &&& forall|ax: int, ay: int| !on_ray(ax, ay, px, py, hx, hy) && !(ax == hx && ay == hy)
        ==> s.belief_at(ax, ay) == o.belief_at(ax, ay)
}

/// A walk that has not moved yet has made full progress trivially.
proof fn lemma_ray_begin(o: QuadTree, px: int, py: int, hx: int, hy: int)
    ensures
        ray_progress(o, o, px, py, hx, hy, px, py),
{
    reveal(ray_progress);
}

/// One marking step: stepping to the next path cell and marking it free
/// carries the walked prefix forward.
proof fn lemma_ray_mark_step(
    o: QuadTree,
    pre: QuadTree,
    s: QuadTree,
    px: int,
    py: int,
    hx: int,
    hy: int,
    ocx: int,
    ocy: int,
    ncx: int,
    ncy: int,
)
    requires
        ray_progress(o, pre, px, py, hx, hy, ocx, ocy),
        ncx == step_toward(ocx, hx),
        ncy == step_toward(ocy, hy),
        ocx != hx || ocy != hy,
        ncx != hx || ncy != hy,
        forall|ax: int, ay: int| #[trigger] s.belief_at(ax, ay)
            == (if ax == ncx && ay == ncy { Belief::Free } else { pre.belief_at(ax, ay) }),
    ensures
        ray_progress(o, s, px, py, hx, hy, ncx, ncy),
{
    reveal(ray_progress);
    lemma_on_ray_step(px, py, ocx, ocy, hx, hy);
    assert forall|ax: int, ay: int| on_ray(ax, ay, px, py, hx, hy)
        implies ((ax == ncx && ay == ncy) || on_ray(ax, ay, ncx, ncy, hx, hy)
            || s.belief_at(ax, ay) == Belief::Free) by {
        lemma_on_ray_closer(ax, ay, px, py, hx, hy);
        if !(ax == ncx && ay == ncy) {
            if ax == ocx && ay == ocy {
                assert(s.belief_at(ax, ay) == pre.belief_at(ax, ay));
            } else if on_ray(ax, ay, ocx, ocy, hx, hy) {
                lemma_on_ray_unfold(ax, ay, ocx, ocy, hx, hy);
                assert(on_ray(ax, ay, ncx, ncy, hx, hy));
            } else {
                assert(s.belief_at(ax, ay) == pre.belief_at(ax, ay));
            }
        }
    }
    assert forall|ax: int, ay: int| !on_ray(ax, ay, px, py, hx, hy)
        && !(ax == hx && ay == hy)
        implies s.belief_at(ax, ay) == o.belief_at(ax, ay) by {
        assert(!(ax == ncx && ay == ncy));
        assert(s.belief_at(ax, ay) == pre.belief_at(ax, ay));
    }
}

/// The walk's final step lands on the hit: progress carries to the hit
/// cell without any further marking.
proof fn lemma_ray_last_step(
    o: QuadTree,
    s: QuadTree,
    px: int,
    py: int,
    hx: int,
    hy: int,
    ocx: int,
    ocy: int,
)
    requires
        ray_progress(o, s, px, py, hx, hy, ocx, ocy),
        step_toward(ocx, hx) == hx && step_toward(ocy, hy) == hy,
        ocx != hx || ocy != hy,
    ensures
        forall|ax: int, ay: int| on_ray(ax, ay, px, py, hx, hy)
            ==> s.belief_at(ax, ay) == Belief::Free,
        forall|ax: int, ay: int| !on_ray(ax, ay, px, py, hx, hy) && !(ax == hx && ay == hy)
            ==> s.belief_at(ax, ay) == o.belief_at(ax, ay),
{
    reveal(ray_progress);
    assert forall|ax: int, ay: int| on_ray(ax, ay, px, py, hx, hy)
        implies s.belief_at(ax, ay) == Belief::Free by {
        lemma_on_ray_closer(ax, ay, px, py, hx, hy);
        if ax == ocx && ay == ocy {
            assert(s.belief_at(ax, ay) == Belief::Free);
        } else if on_ray(ax, ay, ocx, ocy, hx, hy) {
            // the next step is the hit itself: nothing remains on the path
            lemma_on_ray_empty(ax, ay, ocx, ocy, hx, hy);
            assert(false);
        }
    }
}

/// Recording the hit as occupied leaves the cleared path free and every
/// coordinate off the ray untouched.
proof fn lemma_ray_finish(
    o: QuadTree,
    pre: QuadTree,
    s: QuadTree,
    px: int,
    py: int,
    hx: int,
    hy: int,
)
    requires
        forall|ax: int, ay: int| on_ray(ax, ay, px, py, hx, hy)
            ==> pre.belief_at(ax, ay) == Belief::Free,
        forall|ax: int, ay: int| !on_ray(ax, ay, px, py, hx, hy) && !(ax == hx && ay == hy)
            ==> pre.belief_at(ax, ay) == o.belief_at(ax, ay),
        forall|ax: int, ay: int| #[trigger] s.belief_at(ax, ay)
            == (if ax == hx && ay == hy { Belief::Occupied } else { pre.belief_at(ax, ay) }),
    ensures
        s.belief_at(hx, hy) == Belief::Occupied,
        forall|ax: int, ay: int| on_ray(ax, ay, px, py, hx, hy)
            ==> s.belief_at(ax, ay) == Belief::Free,
        forall|ax: int, ay: int| !on_ray(ax, ay, px, py, hx, hy) && !(ax == hx && ay == hy)
            ==> s.belief_at(ax, ay) == o.belief_at(ax, ay),
{
    assert forall|ax: int, ay: int| on_ray(ax, ay, px, py, hx, hy)
        implies s.belief_at(ax, ay) == Belief::Free by {
        lemma_on_ray_closer(ax, ay, px, py, hx, hy);
        assert(s.belief_at(ax, ay) == pre.belief_at(ax, ay));
    }
}

impl QuadTree {
    /// The mapping from stored address to node that the entry vector
    /// denotes.
    pub open spec fn as_map(self) -> Map<HCoord, QuadNode> {
        amap(self.information@)
    }

    /// Level of the coarsest addresses, the "supercells" tiling the world.
    pub open spec fn top_level(self) -> nat {
        (self.levels - 1) as nat
    }

    /// Some stored region contains the point.
    pub open spec fn covered(self, px: int, py: int) -> bool {
        exists|b: HCoord| #[trigger] self.as_map().contains_key(b) && encloses(b, px, py)
    }

    /// The stored region containing the point (unique under `wf`).
    pub open spec fn encloser(self, px: int, py: int) -> HCoord {
        choose|b: HCoord| #[trigger] self.as_map().contains_key(b) && encloses(b, px, py)
    }

    /// The belief the map reports for a point: the belief of its stored
    /// region, or `Unknown` where nothing was ever observed.
    pub open spec fn belief_at(self, px: int, py: int) -> Belief {
        if self.covered(px, py) {
            self.as_map()[self.encloser(px, py)].belief
        } else {
            Belief::Unknown
        }
    }

    /// Every stored address is valid, below the top level bound, and
    /// marked homogeneous.
    pub open spec fn stored_ok(self) -> bool {
        forall|a: HCoord| #[trigger] self.as_map().contains_key(a) ==>
            addr_ok(a) && a.l < self.levels && self.as_map()[a].homogenous
    }

    /// No stored address contains another stored address's origin; with
    /// nesting of aligned squares this means no ancestor/descendant pair
    /// is ever stored, and stored regions are pairwise disjoint.
    pub open spec fn disjoint(self) -> bool {
        forall|a: HCoord, b: HCoord|
            #![trigger self.as_map().contains_key(a), self.as_map().contains_key(b)]
            self.as_map().contains_key(a) && self.as_map().contains_key(b) && a != b
                ==> !encloses(a, b.x as int, b.y as int)
    }

    /// Coverage is granted a whole supercell at a time: two points whose
    /// top-level alignments agree are either both covered or neither.
    pub open spec fn granular(self) -> bool {
        forall|px: int, py: int, qx: int, qy: int|
            #![trigger self.covered(px, py), self.covered(qx, qy)]
            align_spec(px, self.top_level()) == align_spec(qx, self.top_level())
                && align_spec(py, self.top_level()) == align_spec(qy, self.top_level())
                && self.covered(px, py)
                ==> self.covered(qx, qy)
    }

    /// Well-formedness: the stored-set invariant, key uniqueness, and
    /// supercell-granular coverage.
    pub open spec fn wf(self) -> bool {
        &&& 1 <= self.levels <= LEVEL_LIMIT
        &&& uniq_keys(self.information@)
        &&& self.stored_ok()
        &&& self.disjoint()
        &&& self.granular()
    }

    /// Under `wf`, a stored region containing a point is the unique one,
    /// and it decides `belief_at`.
    pub proof fn lemma_belief_witness(self, px: int, py: int, b: HCoord)
        requires
            self.wf(),
            self.as_map().contains_key(b),
            encloses(b, px, py),
        ensures
            self.covered(px, py),
            self.encloser(px, py) == b,
            self.belief_at(px, py) == self.as_map()[b].belief,
    {
        assert(self.covered(px, py));
        let e = self.encloser(px, py);
        assert(self.as_map().contains_key(e) && encloses(e, px, py));
        if e != b {
            lemma_pow2_pos(e.l as nat);
            lemma_pow2_pos(b.l as nat);
            if e.l <= b.l {
                lemma_nesting(e, b, px, py);
                assert(encloses(b, e.x as int, e.y as int));
            } else {
                lemma_nesting(b, e, px, py);
                assert(encloses(e, b.x as int, b.y as int));
            }
            assert(false);
        }
    }

    /// Finds the position of an address in the entry vector.
    fn find_idx(&self, a: HCoord) -> (r: Option<usize>)
        ensures
            match r {
                Some(i) => i < self.information@.len() && self.information@[i as int].0 == a,
                None => !self.as_map().contains_key(a),
            },
    {
        let mut i: usize = 0;
        while i < self.information.len()
            invariant
                i <= self.information@.len(),
                forall|j: int| 0 <= j < i ==> (#[trigger] self.information@[j]).0 != a,
            decreases self.information@.len() - i,
        {
            let (k, _) = self.information[i];
            if k.l == a.l && k.x == a.x && k.y == a.y {
                return Some(i);
            }
            i += 1;
        }
        proof { lemma_amap_contains(self.information@, a); }
        None
    }

    /// Looks an address up in the stored mapping.
    pub(crate) fn lookup(&self, a: HCoord) -> (r: Option<QuadNode>)
        requires
            uniq_keys(self.information@),
        ensures
            r == if self.as_map().contains_key(a) { Some(self.as_map()[a]) } else { None::<QuadNode> },
    {
        match self.find_idx(a) {
            Some(i) => {
                proof { lemma_amap_index(self.information@, i as int); }
                Some(self.information[i].1)
            }
            None => None,
        }
    }

    /// Inserts or overwrites an entry; the stored mapping gains exactly
    /// that key.
    fn put(&mut self, a: HCoord, n: QuadNode)
        requires
            uniq_keys(old(self).information@),
        ensures
            uniq_keys(final(self).information@),
            final(self).as_map() == old(self).as_map().insert(a, n),
            final(self).levels == old(self).levels,
            final(self).bounds == old(self).bounds,
    {
        match self.find_idx(a) {
            Some(i) => {
                proof { lemma_amap_update(self.information@, i as int, n); }
                self.information.set(i, (a, n));
            }
            None => {
                proof { lemma_amap_push(self.information@, a, n); }
                self.information.push((a, n));
            }
        }
    }

    /// Deletes an entry if present; the stored mapping loses exactly that
    /// key.
    fn del(&mut self, a: HCoord)
        requires
            uniq_keys(old(self).information@),
        ensures
            uniq_keys(final(self).information@),
            final(self).as_map() == old(self).as_map().remove(a),
            final(self).levels == old(self).levels,
            final(self).bounds == old(self).bounds,
    {
        match self.find_idx(a) {
            Some(i) => {
                proof { lemma_amap_remove(self.information@, i as int); }
                let _ = self.information.remove(i);
            }
            None => {
                proof {
                    assert(self.as_map().remove(a) =~= self.as_map());
                }
            }
        }
    }

    /// Searches the addresses enclosing `coord` from level 0 upward and
    /// returns the level and belief of the stored region containing it,
    /// or `None` where the point was never observed.
    pub fn get_coord(&self, coord: ACoord) -> (r: Option<(usize, Belief)>)
        requires
            self.wf(),
            coord_ok(coord),
        ensures
            match r {
                Some(res) => {
                    &&& self.covered(coord.x as int, coord.y as int)
                    &&& self.encloser(coord.x as int, coord.y as int).l == res.0
                    &&& self.belief_at(coord.x as int, coord.y as int) == res.1
                },
                None => !self.covered(coord.x as int, coord.y as int),
            },
    {
        let ghost cx = coord.x as int;
        let ghost cy = coord.y as int;
        let mut lvl: usize = 0;
        while lvl < self.levels
            invariant
                self.wf(),
                coord_ok(coord),
                cx == coord.x as int,
                cy == coord.y as int,
                lvl <= self.levels,
                forall|a: HCoord| #[trigger] self.as_map().contains_key(a) && encloses(a, cx, cy)
                    ==> a.l >= lvl,
            decreases self.levels - lvl,
        {
            let node = encode(coord, lvl);
            match self.lookup(node) {
                Some(n) => {
                    if n.homogenous {
                        proof { self.lemma_belief_witness(cx, cy, node); }
                        return Some((lvl, n.belief));
                    }
                    // unreachable under wf: every stored node is homogeneous
                    proof { assert(false); }
                }
                None => {
                    proof {
                        assert forall|a: HCoord| #[trigger] self.as_map().contains_key(a)
                            && encloses(a, cx, cy) implies a.l >= lvl + 1 by {
                            if a.l == lvl {
                                lemma_align_range(cx, lvl as nat, a.x as int);
                                lemma_align_range(cy, lvl as nat, a.y as int);
                                assert(a.x == align_spec(cx, lvl as nat));
                                assert(a.y == align_spec(cy, lvl as nat));
                                assert(a == node);
                            }
                        }
                    }
                }
            }
            lvl += 1;
        }
        proof {
            if self.covered(cx, cy) {
                let b = self.encloser(cx, cy);
                assert(self.as_map().contains_key(b) && encloses(b, cx, cy));
                assert(b.l >= self.levels);
                assert(false);
            }
        }
        None
    }

    /// Builds a map of `levels` levels holding a single unknown supercell
    /// at the origin.
    pub fn init(levels: usize) -> (r: Self)
        requires
            1 <= levels <= LEVEL_LIMIT,
        ensures
            r.wf(),
            r.levels == levels,
            r.information@.len() == 1,
            forall|px: int, py: int| r.belief_at(px, py) == Belief::Unknown,
            r.as_map() == Map::<HCoord, QuadNode>::empty().insert(
                (HCoord { l: (levels - 1) as usize, x: 0, y: 0 }),
                (QuadNode { homogenous: true, belief: Belief::Unknown })),
            forall|px: int, py: int|
                0 <= px < pow2i((levels - 1) as nat) && 0 <= py < pow2i((levels - 1) as nat)
                    ==> r.covered(px, py),
            r.bounds.min_x == 0 && r.bounds.min_y == 0,
            r.bounds.max_x == pow2i((levels - 1) as nat) - 1,
            r.bounds.max_y == pow2i((levels - 1) as nat) - 1,
    {
        let top = levels - 1;
        let node = encode(ACoord { x: 0, y: 0 }, top);
        let span = pow2_exec(top);
        let mut information: Vec<(HCoord, QuadNode)> = Vec::new();
        information.push((node, QuadNode { homogenous: true, belief: Belief::Unknown }));
        let bounds = Bounds {
            min_x: 0,
            min_y: 0,
            max_x: span as isize - 1,
            max_y: span as isize - 1,
        };
        let r = Self { information, bounds, levels };
        proof {
            let s = r.information@;
            assert(s.len() == 1);
            assert(s.drop_last() =~= Seq::<(HCoord, QuadNode)>::empty());
            assert(amap(Seq::<(HCoord, QuadNode)>::empty()) == Map::<HCoord, QuadNode>::empty());
            assert(s.last() == (node, QuadNode { homogenous: true, belief: Belief::Unknown }));
            assert(r.as_map() =~= Map::empty().insert(node, QuadNode { homogenous: true, belief: Belief::Unknown }));
            assert(align_spec(0, top as nat) == 0) by {
                lemma_align_range(0, top as nat, 0);
                lemma_pow2_pos(top as nat);
                assert(aligned(0, top as nat)) by {
                    lemma_pow2_pos(top as nat);
                }
            }
            assert(node.x == 0 && node.y == 0 && node.l == top);
            assert forall|px: int, py: int, qx: int, qy: int|
                align_spec(px, r.top_level()) == align_spec(qx, r.top_level())
                    && align_spec(py, r.top_level()) == align_spec(qy, r.top_level())
                    && #[trigger] r.covered(px, py) implies #[trigger] r.covered(qx, qy) by {
                let b = choose|b: HCoord| #[trigger] r.as_map().contains_key(b) && encloses(b, px, py);
                assert(b == node);
                lemma_align_range(px, r.top_level(), 0);
                lemma_align_range(py, r.top_level(), 0);
                lemma_align_range(qx, r.top_level(), 0);
                lemma_align_range(qy, r.top_level(), 0);
                assert(encloses(node, qx, qy));
            }
            assert forall|px: int, py: int| r.belief_at(px, py) == Belief::Unknown by {
                if r.covered(px, py) {
                    let e = r.encloser(px, py);
                    assert(r.as_map().contains_key(e));
                    assert(e == node);
                }
            }
            assert forall|px: int, py: int|
                0 <= px < pow2i((levels - 1) as nat) && 0 <= py < pow2i((levels - 1) as nat)
                implies r.covered(px, py) by {
                assert(r.as_map().contains_key(node) && encloses(node, px, py));
            }
        }
        r
    }

    /// Builds a map of `levels` levels; a synonym of `init` kept for
    /// callers using the longer name.
    pub fn initialize(levels: usize) -> (r: Self)
        requires
            1 <= levels <= LEVEL_LIMIT,
        ensures
            r.wf(),
            r.levels == levels,
            r.information@.len() == 1,
            forall|px: int, py: int| r.belief_at(px, py) == Belief::Unknown,
            r.as_map() == Map::<HCoord, QuadNode>::empty().insert(
                (HCoord { l: (levels - 1) as usize, x: 0, y: 0 }),
                (QuadNode { homogenous: true, belief: Belief::Unknown })),
            forall|px: int, py: int|
                0 <= px < pow2i((levels - 1) as nat) && 0 <= py < pow2i((levels - 1) as nat)
                    ==> r.covered(px, py),
            r.bounds.min_x == 0 && r.bounds.min_y == 0,
            r.bounds.max_x == pow2i((levels - 1) as nat) - 1,
            r.bounds.max_y == pow2i((levels - 1) as nat) - 1,
    {
        Self::init(levels)
    }

    /// Builds a map with the default number of levels.
    pub fn new() -> (r: Self)
        ensures
            r.wf(),
            r.levels == LEVELS,
            forall|px: int, py: int| r.belief_at(px, py) == Belief::Unknown,
            r.as_map() == Map::<HCoord, QuadNode>::empty().insert(
                (HCoord { l: (LEVELS - 1) as usize, x: 0, y: 0 }),
                (QuadNode { homogenous: true, belief: Belief::Unknown })),
    {
        Self::init(LEVELS)
    }

    /// Compression invariant: however the map was built, it never
    /// simultaneously stores two addresses where one encloses the other —
    /// in particular, never an ancestor together with a descendant.
    pub proof fn lemma_no_nested_regions(self, a: HCoord, b: HCoord)
        requires
            self.wf(),
            self.as_map().contains_key(a),
            self.as_map().contains_key(b),
            a != b,
        ensures
            !encloses(a, b.x as int, b.y as int),
            !encloses(b, a.x as int, a.y as int),
            !(a.l >= b.l && encloses(a, b.x as int, b.y as int)),
    {
    }

    /// Two stored regions sharing a point are the same region.
    pub proof fn lemma_stored_unique(self, a: HCoord, b: HCoord, px: int, py: int)
        requires
            self.wf(),
            self.as_map().contains_key(a),
            self.as_map().contains_key(b),
            encloses(a, px, py),
            encloses(b, px, py),
        ensures
            a == b,
    {
        if a != b {
            lemma_pow2_pos(a.l as nat);
            lemma_pow2_pos(b.l as nat);
            if a.l <= b.l {
                lemma_nesting(a, b, px, py);
                assert(encloses(b, a.x as int, a.y as int));
            } else {
                lemma_nesting(b, a, px, py);
                assert(encloses(a, b.x as int, b.y as int));
            }
            assert(false);
        }
    }

    /// The address of `(cx, cy)`'s cell at level `l`.
    pub open spec fn col_addr(cx: int, cy: int, l: nat) -> HCoord {
        (HCoord {
            l: l as usize,
            x: align_spec(cx, l) as isize,
            y: align_spec(cy, l) as isize,
        })
    }

    /// All four grid siblings of `(cx, cy)` at level `l` are stored and
    /// share one belief: the configuration a bubble-merge removes.
    pub open spec fn group_merged(self, cx: int, cy: int, l: nat) -> bool {
        let px = align_spec(cx, (l + 1) as nat);
        let py = align_spec(cy, (l + 1) as nat);
        let dh = pow2i(l);
        let g0 = (HCoord { l: l as usize, x: px as isize, y: py as isize });
        let g1 = (HCoord { l: l as usize, x: (px + dh) as isize, y: py as isize });
        let g2 = (HCoord { l: l as usize, x: px as isize, y: (py + dh) as isize });
        let g3 = (HCoord { l: l as usize, x: (px + dh) as isize, y: (py + dh) as isize });
        &&& self.as_map().contains_key(g0)
        &&& self.as_map().contains_key(g1)
        &&& self.as_map().contains_key(g2)
        &&& self.as_map().contains_key(g3)
        &&& self.as_map()[g1].belief == self.as_map()[g0].belief
        &&& self.as_map()[g2].belief == self.as_map()[g0].belief
        &&& self.as_map()[g3].belief == self.as_map()[g0].belief
    }

    /// The coordinate's own cell at level `l` is one of the four grid
    /// siblings, so a merged group stores it, at the group's shared
    /// belief.
    pub proof fn lemma_column_in_group(self, cx: int, cy: int, l: nat)
        requires
            0 <= cx < COORD_LIMIT as int,
            0 <= cy < COORD_LIMIT as int,
            l + 1 <= LEVEL_LIMIT,
        ensures
            self.group_merged(cx, cy, l)
                ==> self.as_map().contains_key(Self::col_addr(cx, cy, l))
                    && self.as_map()[Self::col_addr(cx, cy, l)].belief
                        == self.as_map()[(HCoord {
                            l: l as usize,
                            x: align_spec(cx, (l + 1) as nat) as isize,
                            y: align_spec(cy, (l + 1) as nat) as isize,
                        })].belief,
    {
        lemma_align_half(cx, (l + 1) as nat);
        lemma_align_half(cy, (l + 1) as nat);
        lemma_align_basics(cx, l);
        lemma_align_basics(cy, l);
        lemma_align_basics(cx, (l + 1) as nat);
        lemma_align_basics(cy, (l + 1) as nat);
    }

    /// When the coordinate's region sits at `lvl` and nothing of its
    /// column is stored below, no other level of the column can hold a
    /// merged sibling group.
    proof fn lemma_no_merged_groups(self, cx: int, cy: int, lvl: nat)
        requires
            self.wf(),
            0 <= cx < COORD_LIMIT as int,
            0 <= cy < COORD_LIMIT as int,
            lvl < self.levels,
            self.covered(cx, cy),
            self.encloser(cx, cy) == Self::col_addr(cx, cy, lvl),
            forall|l2: nat| l2 < lvl
                ==> !self.as_map().contains_key(#[trigger] Self::col_addr(cx, cy, l2)),
        ensures
            forall|l: nat| l + 1 < self.levels && l != lvl
                ==> !self.group_merged(cx, cy, l),
    {
        assert forall|l: nat| l + 1 < self.levels && l != lvl
            implies !self.group_merged(cx, cy, l) by {
            self.lemma_column_in_group(cx, cy, l);
            if l < lvl {
                assert(!self.as_map().contains_key(Self::col_addr(cx, cy, l)));
            } else {
                if self.as_map().contains_key(Self::col_addr(cx, cy, l)) {
                    let c2 = Self::col_addr(cx, cy, l);
                    lemma_align_window(cx, l);
                    lemma_align_window(cy, l);
                    lemma_align_basics(cx, l);
                    lemma_align_basics(cy, l);
                    assert(encloses(c2, cx, cy));
                    self.lemma_belief_witness(cx, cy, c2);
                    assert(c2 == Self::col_addr(cx, cy, lvl));
                    assert(false);
                }
            }
        }
    }

    /// After a merge, the coordinate's region is the inserted parent and
    /// nothing of its column survives below it.
    proof fn lemma_column_after_merge(
        mid: QuadTree,
        s: QuadTree,
        coord: ACoord,
        belief: Belief,
        lvl: usize,
        g0: HCoord,
        g1: HCoord,
        g2: HCoord,
        g3: HCoord,
        parent: HCoord,
    )
        requires
            s.wf(),
            coord_ok(coord),
            lvl < s.levels - 1,
            ({
                let cx = coord.x as int;
                let cy = coord.y as int;
                let px = align_spec(cx, (lvl + 1) as nat);
                let py = align_spec(cy, (lvl + 1) as nat);
                let dh = pow2i(lvl as nat);
                &&& g0 == (HCoord { l: lvl, x: px as isize, y: py as isize })
                &&& g1 == (HCoord { l: lvl, x: (px + dh) as isize, y: py as isize })
                &&& g2 == (HCoord { l: lvl, x: px as isize, y: (py + dh) as isize })
                &&& g3 == (HCoord { l: lvl, x: (px + dh) as isize, y: (py + dh) as isize })
                &&& parent.l == lvl + 1
                &&& parent.x as int == px
                &&& parent.y as int == py
            }),
            s.as_map() == mid.as_map().remove(g0).remove(g1).remove(g2)
                .remove(g3).insert(parent, (QuadNode { homogenous: true, belief })),
            forall|l2: nat| l2 < lvl
                ==> !mid.as_map().contains_key(#[trigger] QuadTree::col_addr(
                    coord.x as int, coord.y as int, l2)),
        ensures
            s.covered(coord.x as int, coord.y as int),
            s.encloser(coord.x as int, coord.y as int)
                == Self::col_addr(coord.x as int, coord.y as int, (lvl + 1) as nat),
            s.as_map()[Self::col_addr(coord.x as int, coord.y as int, (lvl + 1) as nat)].belief
                == belief,
            forall|l2: nat| l2 < lvl + 1
                ==> !s.as_map().contains_key(#[trigger] Self::col_addr(
                    coord.x as int, coord.y as int, l2)),
    {
        let cx = coord.x as int;
        let cy = coord.y as int;
        let lh1 = (lvl + 1) as nat;
        lemma_align_window(cx, lh1);
        lemma_align_window(cy, lh1);
        lemma_align_basics(cx, lh1);
        lemma_align_basics(cy, lh1);
        lemma_align_basics(cx, lvl as nat);
        lemma_align_basics(cy, lvl as nat);
        assert(encloses(parent, cx, cy));
        assert(s.as_map().contains_key(parent));
        s.lemma_belief_witness(cx, cy, parent);
        assert(parent == Self::col_addr(cx, cy, lh1));
        lemma_align_half(cx, lh1);
        lemma_align_half(cy, lh1);
        let col = Self::col_addr(cx, cy, lvl as nat);
        assert(col == g0 || col == g1 || col == g2 || col == g3);
        assert forall|l2: nat| l2 < lvl + 1
            implies !s.as_map().contains_key(#[trigger] Self::col_addr(cx, cy, l2)) by {
            let c2 = Self::col_addr(cx, cy, l2);
            assert(c2.l == l2 && parent.l == lvl + 1);
            if s.as_map().contains_key(c2) {
                if l2 < lvl {
                    assert(!mid.as_map().contains_key(c2));
                }
                assert(c2 == parent);
                assert(false);
            }
        }
    }

    /// Every address stored now but not in `prev` lies inside the
    /// supercell of `(cx, cy)`: updates touch at most one supercell of
    /// the stored set.
    pub open spec fn grows_within(self, prev: QuadTree, cx: int, cy: int) -> bool {
        forall|a: HCoord| #[trigger] self.as_map().contains_key(a)
            && !prev.as_map().contains_key(a)
            ==> encloses(Self::col_addr(cx, cy, (prev.levels - 1) as nat),
                a.x as int, a.y as int)
    }

    /// Growth bounds compose across successive states of one update.
    proof fn lemma_grows_trans(a: QuadTree, b: QuadTree, c: QuadTree, cx: int, cy: int)
        requires
            c.grows_within(b, cx, cy),
            b.grows_within(a, cx, cy),
            b.levels == a.levels,
        ensures
            c.grows_within(a, cx, cy),
    {
        assert forall|x: HCoord| #[trigger] c.as_map().contains_key(x)
            && !a.as_map().contains_key(x)
            implies encloses(Self::col_addr(cx, cy, (a.levels - 1) as nat),
                x.x as int, x.y as int) by {
            if b.as_map().contains_key(x) {
                assert(b.as_map().contains_key(x) && !a.as_map().contains_key(x));
            } else {
                assert(c.as_map().contains_key(x) && !b.as_map().contains_key(x));
            }
        }
    }

    /// The coordinate's cell at any admissible level is a valid address
    /// inside the coordinate's supercell.
    proof fn lemma_col_in_supercell(cx: int, cy: int, l: nat, top: nat, qx: int, qy: int)
        requires
            0 <= cx < COORD_LIMIT as int,
            0 <= cy < COORD_LIMIT as int,
            l <= top,
            top <= LEVEL_LIMIT,
            encloses(Self::col_addr(cx, cy, l), qx, qy),
        ensures
            encloses(Self::col_addr(cx, cy, top), qx, qy),
    {
        let fine = Self::col_addr(cx, cy, l);
        let sup = Self::col_addr(cx, cy, top);
        lemma_align_basics(cx, l);
        lemma_align_basics(cy, l);
        lemma_align_basics(cx, top);
        lemma_align_basics(cy, top);
        lemma_coord_cell_in_limit(cx, l);
        lemma_coord_cell_in_limit(cy, l);
        lemma_coord_cell_in_limit(cx, top);
        lemma_coord_cell_in_limit(cy, top);
        assert(addr_ok(fine) && addr_ok(sup));
        lemma_nesting(fine, sup, cx, cy);
    }

    /// Beliefs reported by `self` and `other` agree at every point.
    pub open spec fn same_beliefs(self, other: QuadTree) -> bool {
        forall|px: int, py: int| #[trigger] self.belief_at(px, py) == other.belief_at(px, py)
    }

    /// Coverage by `self` and `other` agrees at every point.
    pub open spec fn same_coverage(self, other: QuadTree) -> bool {
        forall|px: int, py: int| #[trigger] self.covered(px, py) == other.covered(px, py)
    }

    /// `self` reports `belief` at `(cx, cy)` and agrees with `prev`
    /// everywhere else.
    pub open spec fn updated_at(self, prev: QuadTree, cx: int, cy: int, belief: Belief) -> bool {
        forall|px: int, py: int| #[trigger] self.belief_at(px, py)
            == (if px == cx && py == cy { belief } else { prev.belief_at(px, py) })
    }

    /// Records that `coord` has been observed: if no stored region
    /// contains it, its whole supercell is inserted as `Unknown`, growing
    /// the bounding box; reported beliefs do not change.
    #[verifier::loop_isolation(false)]
    #[verifier::rlimit(30)]
    fn update_seen(&mut self, coord: ACoord)
        requires
            old(self).wf(),
            coord_ok(coord),
        ensures
            final(self).wf(),
            final(self).levels == old(self).levels,
            final(self).covered(coord.x as int, coord.y as int),
            final(self).same_beliefs(*old(self)),
            final(self).grows_within(*old(self), coord.x as int, coord.y as int),
            forall|px: int, py: int| old(self).covered(px, py) ==> final(self).covered(px, py),
            old(self).covered(coord.x as int, coord.y as int)
                ==> final(self).information@ == old(self).information@,
    {
        let ghost cx = coord.x as int;
        let ghost cy = coord.y as int;
        if self.get_coord(coord).is_some() {
            return;
        }
        let top = self.levels - 1;
        let node = encode(coord, top);
        let span = pow2_exec(top) as isize;
        if node.x < self.bounds.min_x { self.bounds.min_x = node.x; }
        if node.y < self.bounds.min_y { self.bounds.min_y = node.y; }
        if node.x + span - 1 > self.bounds.max_x { self.bounds.max_x = node.x + span - 1; }
        if node.y + span - 1 > self.bounds.max_y { self.bounds.max_y = node.y + span - 1; }
        let ghost o = *old(self);
        self.put(node, QuadNode { homogenous: true, belief: Belief::Unknown });
        proof {
            let m0 = o.as_map();
            let m1 = self.as_map();
            let s = *self;
            assert(m1 == m0.insert(node, QuadNode { homogenous: true, belief: Belief::Unknown }));
            assert(!o.covered(cx, cy));
            // no stored region of the old map meets the new supercell
            assert forall|d: HCoord, px: int, py: int|
                m0.contains_key(d) && #[trigger] encloses(d, px, py) implies !(#[trigger] encloses(node, px, py)) by {
                if encloses(node, px, py) {
                    lemma_pow2_pos(d.l as nat);
                    assert(d.l <= node.l);
                    lemma_nesting(d, node, px, py);
                    assert(encloses(node, d.x as int, d.y as int));
                    assert(o.covered(d.x as int, d.y as int));
                    lemma_align_range(d.x as int, o.top_level(), node.x as int);
                    lemma_align_range(d.y as int, o.top_level(), node.y as int);
                    lemma_align_range(cx, o.top_level(), node.x as int);
                    lemma_align_range(cy, o.top_level(), node.y as int);
                    assert(align_spec(d.x as int, o.top_level()) == align_spec(cx, o.top_level()));
                    assert(align_spec(d.y as int, o.top_level()) == align_spec(cy, o.top_level()));
                    assert(o.covered(cx, cy));
                    assert(false);
                }
            }
            assert(!m0.contains_key(node)) by {
                if m0.contains_key(node) {
                    lemma_pow2_pos(node.l as nat);
                    assert(encloses(node, cx, cy));
                    assert(o.covered(cx, cy));
                }
            }
            // well-formedness of the grown map
            assert(uniq_keys(self.information@));
            assert(s.stored_ok()) by {
                assert forall|a: HCoord| #[trigger] m1.contains_key(a)
                    implies addr_ok(a) && a.l < s.levels && m1[a].homogenous by {
                    if a != node {
                        assert(m0.contains_key(a));
                    }
                }
            }
            assert(s.disjoint()) by {
                assert forall|a: HCoord, b: HCoord|
                    #![trigger m1.contains_key(a), m1.contains_key(b)]
                    m1.contains_key(a) && m1.contains_key(b) && a != b
                    implies !encloses(a, b.x as int, b.y as int) by {
                    lemma_pow2_pos(a.l as nat);
                    lemma_pow2_pos(b.l as nat);
                    if a == node {
                        assert(m0.contains_key(b));
                        assert(encloses(b, b.x as int, b.y as int));
                    } else if b == node {
                        assert(m0.contains_key(a));
                        assert(encloses(a, a.x as int, a.y as int));
                        if encloses(a, node.x as int, node.y as int) {
                            assert(encloses(node, node.x as int, node.y as int));
                            assert(false);
                        }
                    } else {
                        assert(m0.contains_key(a) && m0.contains_key(b));
                    }
                }
            }
            assert(s.granular()) by {
                assert forall|px: int, py: int, qx: int, qy: int|
                    align_spec(px, s.top_level()) == align_spec(qx, s.top_level())
                        && align_spec(py, s.top_level()) == align_spec(qy, s.top_level())
                        && #[trigger] s.covered(px, py) implies #[trigger] s.covered(qx, qy) by {
                    let b = choose|b: HCoord| #[trigger] m1.contains_key(b) && encloses(b, px, py);
                    if b == node {
                        lemma_align_range(px, s.top_level(), node.x as int);
                        lemma_align_range(py, s.top_level(), node.y as int);
                        lemma_align_range(qx, s.top_level(), node.x as int);
                        lemma_align_range(qy, s.top_level(), node.y as int);
                        assert(encloses(node, qx, qy));
                        assert(m1.contains_key(node));
                        assert(s.covered(qx, qy));
                    } else {
                        assert(m0.contains_key(b));
                        assert(o.covered(px, py));
                        assert(o.covered(qx, qy));
                        let w = choose|w: HCoord| #[trigger] m0.contains_key(w) && encloses(w, qx, qy);
                        assert(m1.contains_key(w));
                        assert(s.covered(qx, qy));
                    }
                }
            }
            assert(s.wf());
            // coverage only grows, and reported beliefs are unchanged
            assert forall|px: int, py: int| o.covered(px, py) implies #[trigger] s.covered(px, py) by {
                let b = choose|b: HCoord| #[trigger] m0.contains_key(b) && encloses(b, px, py);
                assert(m1.contains_key(b));
            }
            assert(s.covered(cx, cy)) by {
                assert(m1.contains_key(node));
                assert(encloses(node, cx, cy));
            }
            assert forall|px: int, py: int| #[trigger] s.belief_at(px, py) == o.belief_at(px, py) by {
                if o.covered(px, py) {
                    let b = o.encloser(px, py);
                    assert(m0.contains_key(b) && encloses(b, px, py));
                    o.lemma_belief_witness(px, py, b);
                    assert(m1.contains_key(b) && m1[b] == m0[b]);
                    s.lemma_belief_witness(px, py, b);
                } else {
                    if s.covered(px, py) {
                        let b = s.encloser(px, py);
                        assert(m1.contains_key(b) && encloses(b, px, py));
                        if b != node {
                            assert(m0.contains_key(b));
                            assert(o.covered(px, py));
                            assert(false);
                        }
                        s.lemma_belief_witness(px, py, b);
                        assert(s.belief_at(px, py) == Belief::Unknown);
                    }
                }
            }
            assert forall|a: HCoord| #[trigger] s.as_map().contains_key(a)
                && !o.as_map().contains_key(a)
                implies encloses(Self::col_addr(cx, cy, (o.levels - 1) as nat),
                    a.x as int, a.y as int) by {
                assert(a == node);
                lemma_pow2_pos(node.l as nat);
                assert(node == Self::col_addr(cx, cy, (o.levels - 1) as nat));
            }
        }
    }

    /// Replaces a stored region by its four children at the same belief;
    /// reported beliefs and coverage do not change.
    #[verifier::loop_isolation(false)]
    #[verifier::rlimit(60)]
    fn split_cell(&mut self, node: HCoord)
        requires
            old(self).wf(),
            addr_ok(node),
            1 <= node.l,
        ensures
            final(self).wf(),
            final(self).levels == old(self).levels,
            final(self).same_beliefs(*old(self)),
            final(self).same_coverage(*old(self)),
            !old(self).as_map().contains_key(node)
                ==> final(self).information@ == old(self).information@,
            old(self).as_map().contains_key(node) ==> ({
                let v = old(self).as_map()[node];
                let lh = (node.l - 1) as usize;
                let dh = pow2i((node.l - 1) as nat);
                final(self).as_map() == old(self).as_map().remove(node)
                    .insert(HCoord { l: lh, x: node.x, y: node.y }, v)
                    .insert(HCoord { l: lh, x: (node.x + dh) as isize, y: node.y }, v)
                    .insert(HCoord { l: lh, x: node.x, y: (node.y + dh) as isize }, v)
                    .insert(HCoord { l: lh, x: (node.x + dh) as isize, y: (node.y + dh) as isize }, v)
            }),
    {
        let v = match self.lookup(node) {
            Some(v) => v,
            None => {
                return;
            }
        };
        let ghost o = *old(self);
        let cs = child_hier(&node);
        self.del(node);
        self.put(cs.0, v);
        self.put(cs.1, v);
        self.put(cs.2, v);
        self.put(cs.3, v);
        proof {
            let m0 = o.as_map();
            let m1 = self.as_map();
            let s = *self;
            let lh = (node.l - 1) as nat;
            let dh = pow2i(lh);
            lemma_pow2_pos(lh);
            lemma_pow2_pos(node.l as nat);
            lemma_pow2_adds(lh, 1);
            lemma2_to64();
            assert(pow2i(node.l as nat) == 2 * dh);
            let c0 = cs.0;
            let c1 = cs.1;
            let c2 = cs.2;
            let c3 = cs.3;
            assert(m1 == m0.remove(node).insert(c0, v).insert(c1, v).insert(c2, v).insert(c3, v));
            // children are valid addresses
            lemma_aligned_coarse_to_fine(node.x as int, node.l as nat);
            lemma_aligned_coarse_to_fine(node.y as int, node.l as nat);
            assert(addr_ok(c0) && addr_ok(c1) && addr_ok(c2) && addr_ok(c3));
            assert(node.l < o.levels);
            // the children partition the parent region
            assert forall|px: int, py: int| #[trigger] encloses(node, px, py)
                implies (encloses(c0, px, py) || encloses(c1, px, py)
                    || encloses(c2, px, py) || encloses(c3, px, py)) by {}
            assert(forall|px: int, py: int|
                (encloses(c0, px, py) || encloses(c1, px, py)
                    || encloses(c2, px, py) || encloses(c3, px, py))
                ==> #[trigger] encloses(node, px, py));
            // no other stored region meets the parent region
            assert forall|d: HCoord, px: int, py: int|
                m0.contains_key(d) && d != node && #[trigger] encloses(d, px, py)
                implies !(#[trigger] encloses(node, px, py)) by {
                if encloses(node, px, py) {
                    o.lemma_stored_unique(d, node, px, py);
                }
            }
            assert(uniq_keys(self.information@));
            assert(s.stored_ok()) by {
                assert forall|a: HCoord| #[trigger] m1.contains_key(a)
                    implies addr_ok(a) && a.l < s.levels && m1[a].homogenous by {
                    if a == c0 || a == c1 || a == c2 || a == c3 {
                        assert(m0.contains_key(node));
                        assert(m0[node].homogenous);
                    } else {
                        assert(m0.contains_key(a));
                    }
                }
            }
            assert(s.disjoint()) by {
                assert forall|a: HCoord, b: HCoord|
                    #![trigger m1.contains_key(a), m1.contains_key(b)]
                    m1.contains_key(a) && m1.contains_key(b) && a != b
                    implies !encloses(a, b.x as int, b.y as int) by {
                    let child_a = a == c0 || a == c1 || a == c2 || a == c3;
                    let child_b = b == c0 || b == c1 || b == c2 || b == c3;
                    lemma_pow2_pos(a.l as nat);
                    lemma_pow2_pos(b.l as nat);
                    if child_a && child_b {
                        assert(!encloses(a, b.x as int, b.y as int));
                    } else if child_a && !child_b {
                        // b is an old region other than node
                        assert(m0.contains_key(b) && b != node);
                        assert(encloses(b, b.x as int, b.y as int));
                        if encloses(a, b.x as int, b.y as int) {
                            assert(encloses(node, b.x as int, b.y as int));
                            assert(false);
                        }
                    } else if !child_a && child_b {
                        assert(m0.contains_key(a) && a != node);
                        assert(encloses(node, b.x as int, b.y as int));
                        if encloses(a, b.x as int, b.y as int) {
                            assert(false);
                        }
                    } else {
                        assert(m0.contains_key(a) && m0.contains_key(b));
                    }
                }
            }
            // coverage is unchanged at every point
            assert forall|px: int, py: int| #[trigger] s.covered(px, py) == o.covered(px, py) by {
                if o.covered(px, py) {
                    let b = choose|b: HCoord| #[trigger] m0.contains_key(b) && encloses(b, px, py);
                    if b == node {
                        assert(encloses(c0, px, py) || encloses(c1, px, py)
                            || encloses(c2, px, py) || encloses(c3, px, py));
                        assert(m1.contains_key(c0) && m1.contains_key(c1)
                            && m1.contains_key(c2) && m1.contains_key(c3));
                        assert(s.covered(px, py));
                    } else {
                        assert(m1.contains_key(b));
                        assert(s.covered(px, py));
                    }
                }
                if s.covered(px, py) {
                    let b = choose|b: HCoord| #[trigger] m1.contains_key(b) && encloses(b, px, py);
                    if b == c0 || b == c1 || b == c2 || b == c3 {
                        assert(encloses(node, px, py));
                        assert(m0.contains_key(node));
                        assert(o.covered(px, py));
                    } else {
                        assert(m0.contains_key(b));
                        assert(o.covered(px, py));
                    }
                }
            }
            assert(s.granular()) by {
                assert forall|px: int, py: int, qx: int, qy: int|
                    align_spec(px, s.top_level()) == align_spec(qx, s.top_level())
                        && align_spec(py, s.top_level()) == align_spec(qy, s.top_level())
                        && #[trigger] s.covered(px, py) implies #[trigger] s.covered(qx, qy) by {
                    assert(o.covered(px, py));
                    assert(o.covered(qx, qy));
                    assert(s.covered(qx, qy));
                }
            }
            assert(s.wf());
            assert forall|px: int, py: int| #[trigger] s.belief_at(px, py) == o.belief_at(px, py) by {
                if encloses(node, px, py) {
                    assert(m0.contains_key(node));
                    o.lemma_belief_witness(px, py, node);
                    if encloses(c0, px, py) {
                        s.lemma_belief_witness(px, py, c0);
                    } else if encloses(c1, px, py) {
                        s.lemma_belief_witness(px, py, c1);
                    } else if encloses(c2, px, py) {
                        s.lemma_belief_witness(px, py, c2);
                    } else {
                        assert(encloses(c3, px, py));
                        s.lemma_belief_witness(px, py, c3);
                    }
                } else if o.covered(px, py) {
                    let b = o.encloser(px, py);
                    o.lemma_belief_witness(px, py, b);
                    assert(m0.contains_key(b) && encloses(b, px, py));
                    assert(b != node);
                    assert(!(b == c0 || b == c1 || b == c2 || b == c3)) by {
                        lemma_pow2_pos(b.l as nat);
                        if b == c0 || b == c1 || b == c2 || b == c3 {
                            assert(encloses(b, b.x as int, b.y as int));
                            assert(encloses(node, b.x as int, b.y as int));
                            assert(false);
                        }
                    }
                    assert(m1.contains_key(b) && m1[b] == m0[b]);
                    s.lemma_belief_witness(px, py, b);
                } else {
                    assert(!s.covered(px, py));
                }
            }
        }
    }

    /// Splitting the region at `coord`'s cell one level moves the
    /// coordinate's enclosing region one level finer and adds only
    /// entries inside the coordinate's supercell.
    proof fn lemma_split_step(mid: QuadTree, s: QuadTree, coord: ACoord, node: HCoord, lvl: usize)
        requires
            s.wf(),
            coord_ok(coord),
            1 <= lvl,
            lvl < mid.levels,
            s.levels == mid.levels,
            node == (HCoord {
                l: lvl,
                x: align_spec(coord.x as int, lvl as nat) as isize,
                y: align_spec(coord.y as int, lvl as nat) as isize,
            }),
            addr_ok(node),
            mid.as_map().contains_key(node),
            s.as_map() == mid.as_map().remove(node)
                .insert((HCoord { l: (lvl - 1) as usize, x: node.x, y: node.y }),
                    mid.as_map()[node])
                .insert((HCoord { l: (lvl - 1) as usize,
                    x: (node.x + pow2i((lvl - 1) as nat)) as isize, y: node.y }),
                    mid.as_map()[node])
                .insert((HCoord { l: (lvl - 1) as usize, x: node.x,
                    y: (node.y + pow2i((lvl - 1) as nat)) as isize }),
                    mid.as_map()[node])
                .insert((HCoord { l: (lvl - 1) as usize,
                    x: (node.x + pow2i((lvl - 1) as nat)) as isize,
                    y: (node.y + pow2i((lvl - 1) as nat)) as isize }),
                    mid.as_map()[node]),
        ensures
            s.covered(coord.x as int, coord.y as int),
            s.encloser(coord.x as int, coord.y as int).l == lvl - 1,
            s.grows_within(mid, coord.x as int, coord.y as int),
    {
        let cx = coord.x as int;
        let cy = coord.y as int;
        let lh = (lvl - 1) as nat;
        let dh = pow2i(lh);
        lemma_pow2_pos(lh);
        lemma_align_half(cx, lvl as nat);
        lemma_align_half(cy, lvl as nat);
        let chx = align_spec(cx, lh) as isize;
        let chy = align_spec(cy, lh) as isize;
        lemma_align_window(cx, lh);
        lemma_align_window(cy, lh);
        lemma_align_basics(cx, lvl as nat);
        lemma_align_basics(cy, lvl as nat);
        let child = HCoord { l: (lvl - 1) as usize, x: chx, y: chy };
        assert(s.as_map().contains_key(child));
        assert(encloses(child, cx, cy));
        s.lemma_belief_witness(cx, cy, child);
        assert(s.encloser(cx, cy).l == lvl - 1);
        // new entries stay inside the split region, hence inside the
        // coordinate's supercell
        assert forall|a: HCoord| #[trigger] s.as_map().contains_key(a)
            && !mid.as_map().contains_key(a)
            implies encloses(Self::col_addr(cx, cy, (mid.levels - 1) as nat),
                a.x as int, a.y as int) by {
            assert(encloses(node, a.x as int, a.y as int)) by {
                lemma_pow2_adds(lh, 1);
                lemma2_to64();
            }
            assert(node == Self::col_addr(cx, cy, lvl as nat));
            Self::lemma_col_in_supercell(cx, cy, lvl as nat,
                (mid.levels - 1) as nat, a.x as int, a.y as int);
        }
    }

    /// Overwriting the stored level-0 cell of `coord` changes the
    /// reported belief at exactly that coordinate and keeps the map well
    /// formed, its coverage, and its stored domain.
    proof fn lemma_set_level0(mid: QuadTree, s: QuadTree, coord: ACoord, belief: Belief)
        requires
            mid.wf(),
            coord_ok(coord),
            uniq_keys(s.information@),
            s.levels == mid.levels,
            mid.as_map().contains_key((HCoord { l: 0, x: coord.x, y: coord.y })),
            s.as_map() == mid.as_map().insert(
                (HCoord { l: 0, x: coord.x, y: coord.y }),
                (QuadNode { homogenous: true, belief })),
        ensures
            s.wf(),
            s.same_coverage(mid),
            s.grows_within(mid, coord.x as int, coord.y as int),
            s.covered(coord.x as int, coord.y as int),
            s.encloser(coord.x as int, coord.y as int)
                == (HCoord { l: 0, x: coord.x, y: coord.y }),
            forall|px: int, py: int| #[trigger] s.belief_at(px, py)
                == (if px == coord.x as int && py == coord.y as int {
                    belief
                } else {
                    mid.belief_at(px, py)
                }),
    {
        let cx = coord.x as int;
        let cy = coord.y as int;
        let z = HCoord { l: 0, x: coord.x, y: coord.y };
        let m0 = mid.as_map();
        let m1 = s.as_map();
        assert(forall|k: HCoord| m1.contains_key(k) <==> #[trigger] m0.contains_key(k));
        assert(s.stored_ok()) by {
            assert forall|a: HCoord| #[trigger] m1.contains_key(a)
                implies addr_ok(a) && a.l < s.levels && m1[a].homogenous by {
                assert(m0.contains_key(a));
                if a != z {
                    assert(m1[a] == m0[a]);
                }
            }
        }
        assert(s.disjoint()) by {
            assert forall|a: HCoord, b: HCoord|
                #![trigger m1.contains_key(a), m1.contains_key(b)]
                m1.contains_key(a) && m1.contains_key(b) && a != b
                implies !encloses(a, b.x as int, b.y as int) by {
                assert(m0.contains_key(a) && m0.contains_key(b));
            }
        }
        assert forall|px: int, py: int| #[trigger] s.covered(px, py) == mid.covered(px, py) by {
            if mid.covered(px, py) {
                let b = choose|b: HCoord| #[trigger] m0.contains_key(b) && encloses(b, px, py);
                assert(m1.contains_key(b));
            }
            if s.covered(px, py) {
                let b = choose|b: HCoord| #[trigger] m1.contains_key(b) && encloses(b, px, py);
                assert(m0.contains_key(b));
            }
        }
        assert(s.granular()) by {
            assert forall|px: int, py: int, qx: int, qy: int|
                align_spec(px, s.top_level()) == align_spec(qx, s.top_level())
                    && align_spec(py, s.top_level()) == align_spec(qy, s.top_level())
                    && #[trigger] s.covered(px, py) implies #[trigger] s.covered(qx, qy) by {
                assert(mid.covered(px, py));
                assert(mid.covered(qx, qy));
                assert(s.covered(qx, qy));
            }
        }
        assert(s.wf());
        assert(s.grows_within(mid, cx, cy)) by {
            assert forall|a: HCoord| #[trigger] s.as_map().contains_key(a)
                && !mid.as_map().contains_key(a)
                implies encloses(Self::col_addr(cx, cy, (mid.levels - 1) as nat),
                    a.x as int, a.y as int) by {
                assert(m0.contains_key(a));
                assert(false);
            }
        }
        lemma2_to64();
        assert(pow2i(0) == 1);
        assert(encloses(z, cx, cy));
        s.lemma_belief_witness(cx, cy, z);
        assert forall|px: int, py: int| #[trigger] s.belief_at(px, py)
            == (if px == cx && py == cy { belief } else { mid.belief_at(px, py) }) by {
            if px == cx && py == cy {
                assert(encloses(z, px, py));
                s.lemma_belief_witness(px, py, z);
            } else {
                if mid.covered(px, py) {
                    let b = mid.encloser(px, py);
                    mid.lemma_belief_witness(px, py, b);
                    assert(m0.contains_key(b) && encloses(b, px, py));
                    if b == z {
                        assert(px == cx && py == cy);
                        assert(false);
                    }
                    assert(m1.contains_key(b) && m1[b] == m0[b]);
                    s.lemma_belief_witness(px, py, b);
                } else {
                    assert(!s.covered(px, py));
                }
            }
        }
    }

    /// Splits the stored region containing `coord` down to level 0 and
    /// sets that single cell to `belief`; every other point keeps its
    /// reported belief.
    #[verifier::loop_isolation(false)]
    #[verifier::rlimit(100)]
    fn set_cell(&mut self, coord: &ACoord, belief: Belief)
        requires
            old(self).wf(),
            coord_ok(*coord),
            old(self).covered(coord.x as int, coord.y as int),
        ensures
            final(self).wf(),
            final(self).levels == old(self).levels,
            final(self).same_coverage(*old(self)),
            final(self).updated_at(*old(self), coord.x as int, coord.y as int, belief),
            final(self).grows_within(*old(self), coord.x as int, coord.y as int),
            old(self).belief_at(coord.x as int, coord.y as int) != belief
                ==> final(self).covered(coord.x as int, coord.y as int)
                    && final(self).encloser(coord.x as int, coord.y as int).l == 0,
    {
        let ghost cx = coord.x as int;
        let ghost cy = coord.y as int;
        let ghost o = *old(self);
        let found = match self.get_coord(*coord) {
            Some(t) => t,
            None => {
                proof { assert(false); }
                (0, belief)
            }
        };
        let (found_level, h_belief) = found;
        if h_belief == belief {
            proof {
                assert(o.belief_at(cx, cy) == belief);
            }
            return;
        }
        let mut lvl = found_level;
        proof {
            assert(self.encloser(cx, cy).l == lvl);
            assert(lvl < self.levels) by {
                let e = self.encloser(cx, cy);
                assert(self.as_map().contains_key(e));
            }
        }
        while lvl >= 1
            invariant
                self.wf(),
                self.levels == o.levels,
                lvl < self.levels,
                self.covered(cx, cy),
                self.encloser(cx, cy).l == lvl,
                self.same_coverage(o),
                self.same_beliefs(o),
                self.grows_within(o, cx, cy),
            decreases lvl,
        {
            let node = encode(*coord, lvl);
            proof {
                let e = self.encloser(cx, cy);
                assert(self.as_map().contains_key(e) && encloses(e, cx, cy));
                lemma_align_range(cx, lvl as nat, e.x as int);
                lemma_align_range(cy, lvl as nat, e.y as int);
                assert(e == node);
                assert(self.as_map().contains_key(node));
            }
            let ghost mid = *self;
            self.split_cell(node);
            proof {
                Self::lemma_split_step(mid, *self, *coord, node, lvl);
                Self::lemma_grows_trans(o, mid, *self, cx, cy);
            }
            lvl -= 1;
        }
        // the enclosing region is now the single cell at coord itself
        let z = HCoord { l: 0, x: coord.x, y: coord.y };
        proof {
            lemma2_to64();
            let e = self.encloser(cx, cy);
            assert(self.as_map().contains_key(e) && encloses(e, cx, cy) && e.l == 0);
            assert(pow2i(0) == 1);
            assert(e.x == coord.x && e.y == coord.y);
            assert(e == z);
        }
        let ghost mid = *self;
        self.put(z, QuadNode { homogenous: true, belief });
        proof {
            Self::lemma_set_level0(mid, *self, *coord, belief);
            Self::lemma_grows_trans(o, mid, *self, cx, cy);
            assert forall|px: int, py: int| #[trigger] self.belief_at(px, py)
                == (if px == cx && py == cy { belief } else { o.belief_at(px, py) }) by {
                if !(px == cx && py == cy) {
                    assert(self.belief_at(px, py) == mid.belief_at(px, py));
                    assert(mid.belief_at(px, py) == o.belief_at(px, py));
                }
            }
        }
    }

    /// Replaces four same-belief grid siblings by their parent region;
    /// reported beliefs and coverage do not change.
    #[verifier::loop_isolation(false)]
    #[verifier::rlimit(100)]
    fn merge_group(
        &mut self,
        coord: ACoord,
        belief: Belief,
        lvl: usize,
        g0: HCoord,
        g1: HCoord,
        g2: HCoord,
        g3: HCoord,
        parent: HCoord,
    )
        requires
            old(self).wf(),
            coord_ok(coord),
            lvl < old(self).levels - 1,
            ({
                let px = align_spec(coord.x as int, (lvl + 1) as nat);
                let py = align_spec(coord.y as int, (lvl + 1) as nat);
                let dh = pow2i(lvl as nat);
                &&& g0 == (HCoord { l: lvl, x: px as isize, y: py as isize })
                &&& g1 == (HCoord { l: lvl, x: (px + dh) as isize, y: py as isize })
                &&& g2 == (HCoord { l: lvl, x: px as isize, y: (py + dh) as isize })
                &&& g3 == (HCoord { l: lvl, x: (px + dh) as isize, y: (py + dh) as isize })
                &&& parent.l == lvl + 1
                &&& parent.x as int == px
                &&& parent.y as int == py
                &&& addr_ok(parent)
            }),
            old(self).as_map().contains_key(g0),
            old(self).as_map().contains_key(g1),
            old(self).as_map().contains_key(g2),
            old(self).as_map().contains_key(g3),
            old(self).as_map()[g0].belief == belief,
            old(self).as_map()[g1].belief == belief,
            old(self).as_map()[g2].belief == belief,
            old(self).as_map()[g3].belief == belief,
        ensures
            final(self).wf(),
            final(self).levels == old(self).levels,
            final(self).same_coverage(*old(self)),
            final(self).same_beliefs(*old(self)),
            final(self).grows_within(*old(self), coord.x as int, coord.y as int),
            final(self).as_map() == old(self).as_map().remove(g0).remove(g1).remove(g2)
                .remove(g3).insert(parent, (QuadNode { homogenous: true, belief })),
    {
        let ghost cx = coord.x as int;
        let ghost cy = coord.y as int;
            self.del(g0);
            self.del(g1);
            self.del(g2);
            self.del(g3);
            self.put(parent, QuadNode { homogenous: true, belief });
            proof {
                let m0 = old(self).as_map();
                let m1 = self.as_map();
                let s = *self;
                let dh = pow2i(lvl as nat);
                lemma_pow2_pos(lvl as nat);
                lemma_pow2_pos((lvl + 1) as nat);
                lemma_pow2_adds(lvl as nat, 1);
                lemma2_to64();
                assert(pow2i((lvl + 1) as nat) == 2 * dh);
                assert(m1 == m0.remove(g0).remove(g1).remove(g2).remove(g3)
                    .insert(parent, QuadNode { homogenous: true, belief }));
                assert(m0.contains_key(g0) && m0.contains_key(g1)
                    && m0.contains_key(g2) && m0.contains_key(g3));
                assert(m0[g0].belief == belief && m0[g1].belief == belief
                    && m0[g2].belief == belief && m0[g3].belief == belief);
                // the parent region is the union of the four sibling regions
                assert forall|px: int, py: int| #[trigger] encloses(parent, px, py)
                    implies (encloses(g0, px, py) || encloses(g1, px, py)
                        || encloses(g2, px, py) || encloses(g3, px, py)) by {}
                assert(forall|px: int, py: int|
                    (encloses(g0, px, py) || encloses(g1, px, py)
                        || encloses(g2, px, py) || encloses(g3, px, py))
                    ==> #[trigger] encloses(parent, px, py));
                // no other stored region meets the parent region
                assert forall|d: HCoord, px: int, py: int|
                    m0.contains_key(d) && d != g0 && d != g1 && d != g2 && d != g3
                        && #[trigger] encloses(d, px, py)
                    implies !(#[trigger] encloses(parent, px, py)) by {
                    if encloses(parent, px, py) {
                        if encloses(g0, px, py) {
                            old(self).lemma_stored_unique(d, g0, px, py);
                        } else if encloses(g1, px, py) {
                            old(self).lemma_stored_unique(d, g1, px, py);
                        } else if encloses(g2, px, py) {
                            old(self).lemma_stored_unique(d, g2, px, py);
                        } else {
                            old(self).lemma_stored_unique(d, g3, px, py);
                        }
                        assert(false);
                    }
                }
                assert(s.stored_ok()) by {
                    assert forall|a: HCoord| #[trigger] m1.contains_key(a)
                        implies addr_ok(a) && a.l < s.levels && m1[a].homogenous by {
                        if a != parent {
                            assert(m0.contains_key(a));
                        }
                    }
                }
                assert(s.disjoint()) by {
                    assert forall|a: HCoord, b: HCoord|
                        #![trigger m1.contains_key(a), m1.contains_key(b)]
                        m1.contains_key(a) && m1.contains_key(b) && a != b
                        implies !encloses(a, b.x as int, b.y as int) by {
                        lemma_pow2_pos(a.l as nat);
                        lemma_pow2_pos(b.l as nat);
                        if a == parent {
                            assert(m0.contains_key(b) && b != g0 && b != g1 && b != g2 && b != g3);
                            assert(encloses(b, b.x as int, b.y as int));
                            if encloses(parent, b.x as int, b.y as int) {
                                assert(false);
                            }
                        } else if b == parent {
                            assert(m0.contains_key(a) && a != g0 && a != g1 && a != g2 && a != g3);
                            assert(encloses(parent, parent.x as int, parent.y as int)) by {
                                assert(encloses(g0, g0.x as int, g0.y as int));
                            }
                            if encloses(a, parent.x as int, parent.y as int) {
                                assert(encloses(a, b.x as int, b.y as int));
                                // a meets the parent region at the parent origin
                                assert(false);
                            }
                        } else {
                            assert(m0.contains_key(a) && m0.contains_key(b));
                        }
                    }
                }
                assert forall|px: int, py: int| #[trigger] s.covered(px, py) == old(self).covered(px, py) by {
                    if old(self).covered(px, py) {
                        let b = choose|b: HCoord| #[trigger] m0.contains_key(b) && encloses(b, px, py);
                        if b == g0 || b == g1 || b == g2 || b == g3 {
                            assert(encloses(parent, px, py));
                            assert(m1.contains_key(parent));
                            assert(s.covered(px, py));
                        } else {
                            assert(m1.contains_key(b));
                            assert(s.covered(px, py));
                        }
                    }
                    if s.covered(px, py) {
                        let b = choose|b: HCoord| #[trigger] m1.contains_key(b) && encloses(b, px, py);
                        if b == parent {
                            assert(encloses(g0, px, py) || encloses(g1, px, py)
                                || encloses(g2, px, py) || encloses(g3, px, py));
                            assert(old(self).covered(px, py));
                        } else {
                            assert(m0.contains_key(b));
                            assert(old(self).covered(px, py));
                        }
                    }
                }
                assert(s.granular()) by {
                    assert forall|px: int, py: int, qx: int, qy: int|
                        align_spec(px, s.top_level()) == align_spec(qx, s.top_level())
                            && align_spec(py, s.top_level()) == align_spec(qy, s.top_level())
                            && #[trigger] s.covered(px, py) implies #[trigger] s.covered(qx, qy) by {
                        assert(old(self).covered(px, py));
                        assert(old(self).covered(qx, qy));
                        assert(s.covered(qx, qy));
                    }
                }
                assert(s.wf());
                assert forall|px: int, py: int| #[trigger] s.belief_at(px, py) == old(self).belief_at(px, py) by {
                    if encloses(parent, px, py) {
                        s.lemma_belief_witness(px, py, parent);
                        if encloses(g0, px, py) {
                            old(self).lemma_belief_witness(px, py, g0);
                        } else if encloses(g1, px, py) {
                            old(self).lemma_belief_witness(px, py, g1);
                        } else if encloses(g2, px, py) {
                            old(self).lemma_belief_witness(px, py, g2);
                        } else {
                            assert(encloses(g3, px, py));
                            old(self).lemma_belief_witness(px, py, g3);
                        }
                    } else if old(self).covered(px, py) {
                        let b = old(self).encloser(px, py);
                        old(self).lemma_belief_witness(px, py, b);
                        assert(m0.contains_key(b) && encloses(b, px, py));
                        assert(b != g0 && b != g1 && b != g2 && b != g3) by {
                            lemma_pow2_pos(b.l as nat);
                            if b == g0 || b == g1 || b == g2 || b == g3 {
                                assert(encloses(parent, px, py));
                                assert(false);
                            }
                        }
                        assert(m1.contains_key(b) && m1[b] == m0[b]);
                        s.lemma_belief_witness(px, py, b);
                    } else {
                        assert(!s.covered(px, py));
                    }
                }
                assert forall|a: HCoord| #[trigger] s.as_map().contains_key(a)
                    && !m0.contains_key(a)
                    implies encloses(Self::col_addr(cx, cy, (old(self).levels - 1) as nat),
                        a.x as int, a.y as int) by {
                    assert(a == parent);
                    lemma_pow2_pos(parent.l as nat);
                    lemma_align_basics(cx, (lvl + 1) as nat);
                    lemma_align_basics(cy, (lvl + 1) as nat);
                    assert(parent == Self::col_addr(cx, cy, (lvl + 1) as nat));
                    assert(encloses(parent, parent.x as int, parent.y as int));
                    Self::lemma_col_in_supercell(cx, cy, (lvl + 1) as nat,
                        (old(self).levels - 1) as nat, a.x as int, a.y as int);
                }
            }
    }

    /// Bubble-merge: wherever all four grid siblings of `coord` carry
    /// `belief`, they are replaced by their single parent region, level by
    /// level, until siblings are missing or disagree; reported beliefs and
    /// coverage do not change.
    ///
    /// The four siblings are removed in the same step that inserts their
    /// parent, so no finer-grained entry ever survives under a coarser
    /// one and no separate cleansing descent is needed afterwards: the
    /// stored-set invariant says there is nothing such a pass could find.
    #[verifier::loop_isolation(false)]
    #[verifier::rlimit(100)]
    fn bubble_belief(&mut self, coord: ACoord, belief: Belief)
        requires
            old(self).wf(),
            coord_ok(coord),
        ensures
            final(self).wf(),
            final(self).levels == old(self).levels,
            final(self).same_coverage(*old(self)),
            final(self).same_beliefs(*old(self)),
            final(self).grows_within(*old(self), coord.x as int, coord.y as int),
            (old(self).covered(coord.x as int, coord.y as int)
                && old(self).encloser(coord.x as int, coord.y as int).l == 0
                && old(self).belief_at(coord.x as int, coord.y as int) == belief)
                ==> forall|l: nat| l + 1 < final(self).levels
                    ==> !final(self).group_merged(coord.x as int, coord.y as int, l),
    {
        let ghost cx = coord.x as int;
        let ghost cy = coord.y as int;
        let ghost o = *old(self);
        let ghost guard = o.covered(cx, cy) && o.encloser(cx, cy).l == 0
            && o.belief_at(cx, cy) == belief;
        proof {
            if guard {
                let e = o.encloser(cx, cy);
                assert(o.as_map().contains_key(e) && encloses(e, cx, cy) && e.l == 0);
                lemma2_to64();
                assert(pow2i(0) == 1);
                assert(e.x == coord.x && e.y == coord.y);
                lemma_align_zero(cx);
                lemma_align_zero(cy);
                assert(e == Self::col_addr(cx, cy, 0));
            }
        }
        let mut lvl: usize = 0;
        while lvl < self.levels - 1
            invariant
                self.wf(),
                self.levels == o.levels,
                lvl <= self.levels - 1,
                self.same_coverage(o),
                self.same_beliefs(o),
                self.grows_within(o, cx, cy),
                guard ==> self.covered(cx, cy)
                    && self.encloser(cx, cy) == Self::col_addr(cx, cy, lvl as nat)
                    && self.as_map()[Self::col_addr(cx, cy, lvl as nat)].belief == belief,
                guard ==> forall|l2: nat| l2 < lvl
                    ==> !self.as_map().contains_key(#[trigger] Self::col_addr(cx, cy, l2)),
            decreases self.levels - 1 - lvl,
        {
            let g = grid_hier(&coord, lvl);
            let all = match (self.lookup(g.0), self.lookup(g.1), self.lookup(g.2), self.lookup(g.3)) {
                (Some(n0), Some(n1), Some(n2), Some(n3)) => {
                    n0.belief == belief && n1.belief == belief && n2.belief == belief
                        && n3.belief == belief
                }
                _ => false,
            };
            if !all {
                proof {
                    if guard {
                        self.lemma_no_merged_groups(cx, cy, lvl as nat);
                        if self.group_merged(cx, cy, lvl as nat) {
                            // the column's own cell carries `belief`, so a
                            // merged group would have made every sibling read
                            // `belief` and the check pass
                            self.lemma_column_in_group(cx, cy, lvl as nat);
                            assert(self.as_map()[Self::col_addr(cx, cy, lvl as nat)].belief
                                == belief);
                            assert(false);
                        }
                    }
                }
                return;
            }
            let parent = encode(coord, lvl + 1);
            let ghost mid = *self;
            proof {
                lemma_align_refine(cx, lvl as nat, (lvl + 1) as nat);
                lemma_align_refine(cy, lvl as nat, (lvl + 1) as nat);
            }
            self.merge_group(coord, belief, lvl, g.0, g.1, g.2, g.3, parent);
            proof {
                let s = *self;
                assert forall|px: int, py: int| #[trigger] s.covered(px, py) == o.covered(px, py) by {
                    assert(s.covered(px, py) == mid.covered(px, py));
                }
                assert forall|px: int, py: int| #[trigger] s.belief_at(px, py) == o.belief_at(px, py) by {
                    assert(s.belief_at(px, py) == mid.belief_at(px, py));
                }
                Self::lemma_grows_trans(o, mid, s, cx, cy);
            }
            proof {
                if guard {
                    Self::lemma_column_after_merge(mid, *self, coord, belief, lvl,
                        g.0, g.1, g.2, g.3, parent);
                }
            }
            lvl += 1;
        }
        proof {
            if guard {
                self.lemma_no_merged_groups(cx, cy, lvl as nat);
            }
        }
    }

    /// True when the maximal stored region containing `coord` already
    /// carries `belief`, in which case the update is a no-op.
    fn insert_known(&self, coord: ACoord, belief: Belief) -> (r: bool)
        requires
            self.wf(),
            coord_ok(coord),
        ensures
            r == (self.covered(coord.x as int, coord.y as int)
                && self.belief_at(coord.x as int, coord.y as int) == belief),
    {
        match self.get_coord(coord) {
            Some((_, b)) => b == belief,
            None => false,
        }
    }

    /// Records a fresh observation: covers the supercell if needed,
    /// splits down to the single cell, sets it, and bubble-merges.
    fn insert_unknown(&mut self, coord: ACoord, belief: Belief)
        requires
            old(self).wf(),
            coord_ok(coord),
        ensures
            final(self).wf(),
            final(self).levels == old(self).levels,
            final(self).covered(coord.x as int, coord.y as int),
            final(self).updated_at(*old(self), coord.x as int, coord.y as int, belief),
            final(self).grows_within(*old(self), coord.x as int, coord.y as int),
            old(self).belief_at(coord.x as int, coord.y as int) != belief
                ==> forall|l: nat| l + 1 < final(self).levels
                    ==> !final(self).group_merged(coord.x as int, coord.y as int, l),
    {
        let ghost o = *old(self);
        let ghost cx = coord.x as int;
        let ghost cy = coord.y as int;
        self.update_seen(coord);
        let ghost m1 = *self;
        self.set_cell(&coord, belief);
        let ghost m2 = *self;
        proof {
            if o.belief_at(cx, cy) != belief {
                assert(m1.belief_at(cx, cy) == o.belief_at(cx, cy));
                assert(m2.covered(cx, cy) && m2.encloser(cx, cy).l == 0);
                assert(m2.belief_at(cx, cy) == belief);
            }
        }
        self.bubble_belief(coord, belief);
        proof {
            assert(self.covered(cx, cy)) by {
                assert(m2.covered(cx, cy) == m1.covered(cx, cy));
            }
            Self::lemma_grows_trans(o, m1, m2, cx, cy);
            Self::lemma_grows_trans(o, m2, *self, cx, cy);
            assert forall|px: int, py: int| #[trigger] self.belief_at(px, py)
                == (if px == cx && py == cy { belief } else { o.belief_at(px, py) }) by {
                assert(self.belief_at(px, py) == m2.belief_at(px, py));
                assert(m2.belief_at(px, py)
                    == (if px == cx && py == cy { belief } else { m1.belief_at(px, py) }));
                assert(m1.belief_at(px, py) == o.belief_at(px, py));
            }
        }
    }

    /// Ensures the supercell holding `coord` is covered, growing the
    /// bounding box; reported beliefs do not change.
    pub fn populate_edge(&mut self, coord: ACoord)
        requires
            old(self).wf(),
            coord_ok(coord),
        ensures
            final(self).wf(),
            final(self).levels == old(self).levels,
            final(self).covered(coord.x as int, coord.y as int),
            final(self).same_beliefs(*old(self)),
            final(self).grows_within(*old(self), coord.x as int, coord.y as int),
    {
        self.update_seen(coord);
    }

    /// Sets the belief observed at a single world coordinate.
    ///
    /// The map stays well formed (in particular it never stores two
    /// addresses in an ancestor/descendant relationship), the reported
    /// belief changes at exactly this coordinate, and repeating an update
    /// whose belief is already reported leaves the stored set untouched.
    pub fn update_belief(&mut self, coord: &ACoord, belief: Belief)
        requires
            old(self).wf(),
            coord_ok(*coord),
        ensures
            final(self).wf(),
            final(self).levels == old(self).levels,
            final(self).covered(coord.x as int, coord.y as int),
            final(self).updated_at(*old(self), coord.x as int, coord.y as int, belief),
            final(self).grows_within(*old(self), coord.x as int, coord.y as int),
            (old(self).covered(coord.x as int, coord.y as int)
                && old(self).belief_at(coord.x as int, coord.y as int) == belief)
                ==> final(self).information@ == old(self).information@,
            old(self).belief_at(coord.x as int, coord.y as int) != belief
                ==> forall|l: nat| l + 1 < final(self).levels
                    ==> !final(self).group_merged(coord.x as int, coord.y as int, l),
    {
        if self.insert_known(*coord, belief) {
            return;
        }
        self.insert_unknown(*coord, belief);
    }

    /// Level and belief of the stored region containing `coord`, or
    /// `None` where the point was never observed.
    pub fn get_cell(&self, coord: ACoord) -> (r: Option<(usize, Belief)>)
        requires
            self.wf(),
            coord_ok(coord),
        ensures
            match r {
                Some(res) => {
                    &&& self.covered(coord.x as int, coord.y as int)
                    &&& self.encloser(coord.x as int, coord.y as int).l == res.0
                    &&& self.belief_at(coord.x as int, coord.y as int) == res.1
                },
                None => !self.covered(coord.x as int, coord.y as int),
            },
    {
        self.get_coord(coord)
    }

    /// True exactly when the map believes the coordinate is occupied.
    pub fn obstructed(&self, coord: ACoord) -> (r: bool)
        requires
            self.wf(),
            coord_ok(coord),
        ensures
            r == (self.belief_at(coord.x as int, coord.y as int) == Belief::Occupied),
    {
        match self.get_coord(coord) {
            Some((_, b)) => b == Belief::Occupied,
            None => false,
        }
    }

    /// Searches the stored regions enclosing the origin of `node` from
    /// its own level upward; a region finer than `node` is not reported.
    #[verifier::loop_isolation(false)]
    pub fn get_node(&self, node: HCoord) -> (r: Option<(usize, Belief)>)
        requires
            self.wf(),
            addr_ok(node),
            node.l < self.levels,
        ensures
            match r {
                Some(res) => {
                    &&& self.covered(node.x as int, node.y as int)
                    &&& self.encloser(node.x as int, node.y as int).l == res.0
                    &&& res.0 >= node.l
                    &&& self.belief_at(node.x as int, node.y as int) == res.1
                },
                None => !self.covered(node.x as int, node.y as int)
                    || self.encloser(node.x as int, node.y as int).l < node.l,
            },
    {
        let ghost nx = node.x as int;
        let ghost ny = node.y as int;
        let mut lvl = node.l;
        while lvl < self.levels
            invariant
                node.l <= lvl <= self.levels,
                forall|a: HCoord| #[trigger] self.as_map().contains_key(a) && encloses(a, nx, ny)
                    ==> a.l < node.l || a.l >= lvl,
            decreases self.levels - lvl,
        {
            let probe = transform(&node, lvl);
            match self.lookup(probe) {
                Some(n) => {
                    proof {
                        lemma_pow2_pos(node.l as nat);
                        assert(encloses(probe, nx, ny)) by {
                            lemma_align_window(nx, lvl as nat);
                            lemma_align_window(ny, lvl as nat);
                        }
                        self.lemma_belief_witness(nx, ny, probe);
                    }
                    return Some((lvl, n.belief));
                }
                None => {
                    proof {
                        assert forall|a: HCoord| #[trigger] self.as_map().contains_key(a)
                            && encloses(a, nx, ny) implies a.l < node.l || a.l >= lvl + 1 by {
                            if a.l == lvl {
                                lemma_align_range(nx, lvl as nat, a.x as int);
                                lemma_align_range(ny, lvl as nat, a.y as int);
                                assert(a == probe);
                            }
                        }
                    }
                    lvl += 1;
                }
            }
        }
        proof {
            if self.covered(nx, ny) {
                let e = self.encloser(nx, ny);
                assert(self.as_map().contains_key(e) && encloses(e, nx, ny));
                assert(e.l < self.levels);
            }
        }
        None
    }

    /// Same search as `get_node`; a synonym kept for callers using the
    /// older name.
    pub fn retrieve_node(&self, node: HCoord) -> (r: Option<(usize, Belief)>)
        requires
            self.wf(),
            addr_ok(node),
            node.l < self.levels,
        ensures
            match r {
                Some(res) => {
                    &&& self.covered(node.x as int, node.y as int)
                    &&& self.encloser(node.x as int, node.y as int).l == res.0
                    &&& res.0 >= node.l
                    &&& self.belief_at(node.x as int, node.y as int) == res.1
                },
                None => !self.covered(node.x as int, node.y as int)
                    || self.encloser(node.x as int, node.y as int).l < node.l,
            },
    {
        self.get_node(node)
    }

    /// Records one cell of a ray, exposing only the pointwise belief
    /// change the ray insertion reasons with.
    fn mark_cell(&mut self, coord: &ACoord, belief: Belief)
        requires
            old(self).wf(),
            coord_ok(*coord),
        ensures
            final(self).wf(),
            final(self).levels == old(self).levels,
            final(self).updated_at(*old(self), coord.x as int, coord.y as int, belief),
    {
        self.update_belief(coord, belief);
    }

    /// Steps from `pos` to `hit`, marking every strictly intermediate
    /// cell of the path as free and touching nothing else.
    #[verifier::rlimit(100)]
    fn clear_path(&mut self, pos: ACoord, hit: ACoord)
        requires
            old(self).wf(),
            coord_ok(pos),
            coord_ok(hit),
        ensures
            final(self).wf(),
            final(self).levels == old(self).levels,
            forall|ax: int, ay: int|
                on_ray(ax, ay, pos.x as int, pos.y as int, hit.x as int, hit.y as int)
                    ==> final(self).belief_at(ax, ay) == Belief::Free,
            forall|ax: int, ay: int|
                !on_ray(ax, ay, pos.x as int, pos.y as int, hit.x as int, hit.y as int)
                    && !(ax == hit.x as int && ay == hit.y as int)
                    ==> final(self).belief_at(ax, ay) == old(self).belief_at(ax, ay),
    {
        let ghost px = pos.x as int;
        let ghost py = pos.y as int;
        let ghost hx = hit.x as int;
        let ghost hy = hit.y as int;
        let mut cur = pos;
        let ghost mut walked = false;
        proof {
            lemma_ray_begin(*old(self), px, py, hx, hy);
        }
        while cur.x != hit.x || cur.y != hit.y
            invariant
                px == pos.x as int && py == pos.y as int,
                hx == hit.x as int && hy == hit.y as int,
                coord_ok(hit),
                self.wf(),
                self.levels == old(self).levels,
                coord_ok(cur),
                !walked ==> ray_progress(*old(self), *self, px, py, hx, hy,
                    cur.x as int, cur.y as int),
                walked ==> forall|ax: int, ay: int| on_ray(ax, ay, px, py, hx, hy)
                    ==> self.belief_at(ax, ay) == Belief::Free,
                walked ==> forall|ax: int, ay: int| !on_ray(ax, ay, px, py, hx, hy)
                    && !(ax == hit.x as int && ay == hit.y as int)
                    ==> self.belief_at(ax, ay) == old(self).belief_at(ax, ay),
                walked ==> cur.x == hit.x && cur.y == hit.y,
            decreases
                abs_i(hit.x - cur.x) + abs_i(hit.y - cur.y),
        {
            let ghost ocx = cur.x as int;
            let ghost ocy = cur.y as int;
            if cur.x < hit.x {
                cur.x = cur.x + 1;
            } else if cur.x > hit.x {
                cur.x = cur.x - 1;
            }
            if cur.y < hit.y {
                cur.y = cur.y + 1;
            } else if cur.y > hit.y {
                cur.y = cur.y - 1;
            }
            proof {
                assert(cur.x as int == step_toward(ocx, hx));
                assert(cur.y as int == step_toward(ocy, hy));
            }
            if cur.x != hit.x || cur.y != hit.y {
                let ghost pre = *self;
                self.mark_cell(&cur, Belief::Free);
                proof {
                    lemma_ray_mark_step(*old(self), pre, *self, px, py, hx, hy,
                        ocx, ocy, cur.x as int, cur.y as int);
                }
            } else {
                proof {
                    lemma_ray_last_step(*old(self), *self, px, py, hx, hy, ocx, ocy);
                    walked = true;
                }
            }
        }
        proof {
            if !walked {
                // the walk never moved: origin and hit coincide, and the
                // path is empty
                reveal(ray_progress);
                if cur.x as int != px || cur.y as int != py {
                    lemma_on_ray_closer(cur.x as int, cur.y as int, px, py, hx, hy);
                    assert(false);
                }
                assert(px == hx && py == hy);
                assert forall|ax: int, ay: int| on_ray(ax, ay, px, py, hx, hy)
                    implies self.belief_at(ax, ay) == Belief::Free by {
                    lemma_on_ray_empty(ax, ay, px, py, hx, hy);
                }
            }
        }
    }

    /// Round-trip addressing: where the stored region containing `c` is a
    /// single cell — in particular for any coordinate just observed — the
    /// coordinate encodes to that cell and decodes back to itself; an
    /// unobserved coordinate round-trips through its level-0 address.
    pub proof fn lemma_round_trip(self, c: ACoord)
        requires
            self.wf(),
            coord_ok(c),
            !self.covered(c.x as int, c.y as int)
                || self.encloser(c.x as int, c.y as int).l == 0,
        ensures
            self.sm_dec(self.sm_enc(c)) == c,
    {
        if self.covered(c.x as int, c.y as int) {
            let e = self.encloser(c.x as int, c.y as int);
            assert(self.as_map().contains_key(e) && encloses(e, c.x as int, c.y as int));
            lemma2_to64();
            assert(pow2i(0) == 1);
            assert(e.x == c.x && e.y == c.y);
        }
    }
}

impl SpatialMap for QuadTree {
    type Encoded = HCoord;

    open spec fn sm_wf(&self) -> bool {
        self.wf()
    }

    open spec fn sm_coord_in(&self, c: ACoord) -> bool {
        coord_ok(c)
    }

    open spec fn sm_enc_in(&self, n: HCoord) -> bool {
        addr_ok(n) && n.l < self.levels
    }

    open spec fn sm_belief(&self, n: HCoord) -> Belief {
        if self.as_map().contains_key(n) {
            self.as_map()[n].belief
        } else {
            Belief::Unknown
        }
    }

    open spec fn sm_obstructed(&self, c: ACoord) -> bool {
        self.belief_at(c.x as int, c.y as int) == Belief::Occupied
    }

    open spec fn sm_enc(&self, c: ACoord) -> HCoord {
        if self.covered(c.x as int, c.y as int) {
            self.encloser(c.x as int, c.y as int)
        } else {
            HCoord { l: 0, x: c.x, y: c.y }
        }
    }

    open spec fn sm_dec(&self, n: HCoord) -> ACoord {
        ACoord { x: n.x, y: n.y }
    }

    open spec fn sm_dist(&self, a: HCoord, b: HCoord) -> int {
        dist_spec(a, b)
    }

    open spec fn sm_adjacent(&self, a: HCoord, b: HCoord) -> bool {
        self.as_map().contains_key(b) && crate::hier::adjacent(a, b)
    }

    open spec fn sm_node_known(&self, n: HCoord) -> bool {
        self.as_map().contains_key(n)
    }

    proof fn sm_adjacent_irrefl(&self, n: HCoord) {
        lemma_pow2_pos(n.l as nat);
    }

    proof fn sm_dist_nonneg(&self, a: HCoord, b: HCoord) {
    }

    /// Marks every cell stepped through on the way to `hit` as free and
    /// `hit` itself as occupied; every other coordinate keeps its
    /// reported belief.
    fn insert_ray(&mut self, pos: ACoord, hit: ACoord)
        ensures
            final(self).levels == old(self).levels,
            final(self).belief_at(hit.x as int, hit.y as int) == Belief::Occupied,
            forall|ax: int, ay: int|
                on_ray(ax, ay, pos.x as int, pos.y as int, hit.x as int, hit.y as int)
                    ==> final(self).belief_at(ax, ay) == Belief::Free,
            forall|ax: int, ay: int|
                !on_ray(ax, ay, pos.x as int, pos.y as int, hit.x as int, hit.y as int)
                    && !(ax == hit.x as int && ay == hit.y as int)
                    ==> final(self).belief_at(ax, ay) == old(self).belief_at(ax, ay),
    {
        self.clear_path(pos, hit);
        let ghost pre = *self;
        self.mark_cell(&hit, Belief::Occupied);
        proof {
            lemma_ray_finish(*old(self), pre, *self,
                pos.x as int, pos.y as int, hit.x as int, hit.y as int);
        }
    }

    fn coord_check(&self, c: ACoord) -> (r: bool) {
        0 <= c.x && c.x < COORD_LIMIT && 0 <= c.y && c.y < COORD_LIMIT
    }

    fn obstructed(&self, coord: ACoord) -> (r: bool) {
        match self.get_coord(coord) {
            Some((_, b)) => b == Belief::Occupied,
            None => false,
        }
    }

    fn belief(&self, node: HCoord) -> (r: Belief) {
        match self.lookup(node) {
            Some(n) => n.belief,
            None => Belief::Unknown,
        }
    }

    fn neighbors(&self, node: HCoord) -> (v: Vec<HCoord>) {
        let v = crate::proximity::edge_neighbors(self, node);
        proof {
            assert forall|i: int| 0 <= i < v@.len()
                implies self.sm_enc_in(#[trigger] v@[i]) by {
                assert(self.as_map().contains_key(v@[i]));
            }
        }
        v
    }

    fn distance(&self, a: HCoord, b: HCoord) -> (r: usize) {
        crate::hier::distance(a, b)
    }

    #[verifier::loop_isolation(false)]
    fn encode(&self, coord: ACoord) -> (r: HCoord) {
        let ghost cx = coord.x as int;
        let ghost cy = coord.y as int;
        let mut lvl: usize = 0;
        while lvl < self.levels
            invariant
                lvl <= self.levels,
                forall|a: HCoord| #[trigger] self.as_map().contains_key(a) && encloses(a, cx, cy)
                    ==> a.l >= lvl,
            decreases self.levels - lvl,
        {
            let node = crate::hier::encode(coord, lvl);
            match self.lookup(node) {
                Some(_) => {
                    proof { self.lemma_belief_witness(cx, cy, node); }
                    return node;
                }
                None => {
                    proof {
                        assert forall|a: HCoord| #[trigger] self.as_map().contains_key(a)
                            && encloses(a, cx, cy) implies a.l >= lvl + 1 by {
                            if a.l == lvl {
                                lemma_align_range(cx, lvl as nat, a.x as int);
                                lemma_align_range(cy, lvl as nat, a.y as int);
                                assert(a == node);
                            }
                        }
                    }
                }
            }
            lvl += 1;
        }
        proof {
            if self.covered(cx, cy) {
                let b = self.encloser(cx, cy);
                assert(self.as_map().contains_key(b) && encloses(b, cx, cy));
                assert(b.l >= self.levels);
                assert(false);
            }
            lemma2_to64();
            assert(pow2i(0) == 1);
            assert(aligned(cx, 0) && aligned(cy, 0)) by {
                lemma_mod_division_less_than_divisor(cx, 1);
                lemma_mod_division_less_than_divisor(cy, 1);
            }
        }
        HCoord { l: 0, x: coord.x, y: coord.y }
    }

    fn decode(&self, node: HCoord) -> (r: ACoord) {
        ACoord { x: node.x, y: node.y }
    }
}

} // verus!
