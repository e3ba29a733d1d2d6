//! Edge-neighbor resolution on the occupancy map: for each cardinal
//! direction, either a same-or-coarser stored region bordering the
//! address is found by walking levels upward, or the finer stored regions
//! along the shared edge are collected by a bordering-half descent.
//!
//! Every address returned is proved to be stored and edge-adjacent to
//! the queried address, each listed once; for a stored address, every
//! stored neighbor is proved to be returned.

use vstd::prelude::*;
use crate::types::HCoord;
use crate::quad::QuadTree;
use crate::pqueue::contains_enc;
use crate::hier::{
    COORD_LIMIT, pow2i, align_spec, aligned, addr_ok, adjacent, ranges_overlap, encloses,
    lemma_axis_nesting, lemma_align_refine, lemma_aligned_step,
    lemma_align_window, lemma_align_range, lemma_aligned_weaken, lemma_aligned_gap,
    lemma_aligned_coarse_to_fine, lemma_limit_aligned, pow2_exec, transform,
};
use vstd::arithmetic::power::{pow, lemma_pow_positive, lemma_pow_adds, lemma_pow1};
use vstd::arithmetic::power2::{lemma_pow2_pos, lemma_pow2_adds, lemma2_to64};
use vstd::arithmetic::div_mod::lemma_mod_multiples_basic;

verus! {

/// `b` is stored in the map and borders `a` along an edge.
pub open spec fn neighbor_ok(quad: QuadTree, a: HCoord, b: HCoord) -> bool {
    &&& quad.as_map().contains_key(b)
    &&& adjacent(a, b)
}

/// Aligning the east face of an `l`-cell to a coarser level `L` either
/// keeps the face or lands on the block holding the cell itself.
proof fn lemma_face_up(n: int, l: nat, big: nat)
    requires
        aligned(n, l),
        l <= big,
    ensures
        align_spec(n + pow2i(l), big) == n + pow2i(l)
            || align_spec(n + pow2i(l), big) == align_spec(n, big),
{
    let c = n + pow2i(l);
    let a = align_spec(c, big);
    lemma_pow2_pos(l);
    lemma_pow2_pos(big);
    lemma_align_window(c, big);
    lemma_aligned_step(n, l);
    if a != c {
        assert(a < c);
        lemma_aligned_weaken(a, l, big);
        lemma_aligned_gap(c, a, l);
        assert(a + pow2i(l) <= c);
        assert(a <= n);
        assert(n < a + pow2i(big));
        lemma_align_range(n, big, a);
    }
}

/// Aligning the west face of an `l`-cell to a coarser level `L` either
/// puts the block flush against the cell or on the block holding the
/// cell itself.
proof fn lemma_face_down(n: int, l: nat, big: nat)
    requires
        aligned(n, l),
        l <= big,
    ensures
        align_spec(n - pow2i(l), big) + pow2i(big) == n
            || align_spec(n - pow2i(l), big) == align_spec(n, big),
{
    let c = n - pow2i(l);
    let a = align_spec(c, big);
    lemma_pow2_pos(l);
    lemma_pow2_pos(big);
    lemma_align_window(c, big);
    lemma_aligned_step(n, l);
    if a + pow2i(big) != n {
        assert(aligned(a + pow2i(big), big)) by {
            lemma_aligned_step(a, big);
        }
        lemma_aligned_weaken(a + pow2i(big), l, big);
        assert(c < a + pow2i(big));
        lemma_aligned_gap(a + pow2i(big), c, l);
        assert(c + pow2i(l) <= a + pow2i(big));
        assert(n <= a + pow2i(big));
        assert(n != a + pow2i(big));
        assert(a <= c < n);
        lemma_align_range(n, big, a);
    }
}

/// The four same-level cardinal candidates of an address, in the order
/// east, north, west, south.
pub fn find_cardinals(node: HCoord) -> (r: (HCoord, HCoord, HCoord, HCoord))
    requires
        addr_ok(node),
    ensures
        ({
            let dh = pow2i(node.l as nat);
            &&& r.0 == (HCoord { l: node.l, x: (node.x + dh) as isize, y: node.y })
            &&& r.1 == (HCoord { l: node.l, x: node.x, y: (node.y + dh) as isize })
            &&& r.2 == (HCoord { l: node.l, x: (node.x - dh) as isize, y: node.y })
            &&& r.3 == (HCoord { l: node.l, x: node.x, y: (node.y - dh) as isize })
        }),
{
    let dh = pow2_exec(node.l) as isize;
    (
        HCoord { l: node.l, x: node.x + dh, y: node.y },
        HCoord { l: node.l, x: node.x, y: node.y + dh },
        HCoord { l: node.l, x: node.x - dh, y: node.y },
        HCoord { l: node.l, x: node.x, y: node.y - dh },
    )
}

/// The two children on the east half of a split address.
pub fn east_hier(node: HCoord) -> (r: (HCoord, HCoord))
    requires
        addr_ok(node),
        node.l >= 1,
    ensures
        ({
            let dh = pow2i((node.l - 1) as nat);
            &&& r.0 == (HCoord { l: (node.l - 1) as usize, x: (node.x + dh) as isize, y: node.y })
            &&& r.1 == (HCoord { l: (node.l - 1) as usize, x: (node.x + dh) as isize, y: (node.y + dh) as isize })
        }),
{
    let l = node.l - 1;
    let dh = pow2_exec(l) as isize;
    proof {
        lemma_pow2_adds((node.l - 1) as nat, 1);
        lemma2_to64();
    }
    (
        HCoord { l, x: node.x + dh, y: node.y },
        HCoord { l, x: node.x + dh, y: node.y + dh },
    )
}

/// The two children on the north half of a split address.
pub fn north_hier(node: HCoord) -> (r: (HCoord, HCoord))
    requires
        addr_ok(node),
        node.l >= 1,
    ensures
        ({
            let dh = pow2i((node.l - 1) as nat);
            &&& r.0 == (HCoord { l: (node.l - 1) as usize, x: (node.x + dh) as isize, y: (node.y + dh) as isize })
            &&& r.1 == (HCoord { l: (node.l - 1) as usize, x: node.x, y: (node.y + dh) as isize })
        }),
{
    let l = node.l - 1;
    let dh = pow2_exec(l) as isize;
    proof {
        lemma_pow2_adds((node.l - 1) as nat, 1);
        lemma2_to64();
    }
    (
        HCoord { l, x: node.x + dh, y: node.y + dh },
        HCoord { l, x: node.x, y: node.y + dh },
    )
}

/// The two children on the west half of a split address.
pub fn west_hier(node: HCoord) -> (r: (HCoord, HCoord))
    requires
        addr_ok(node),
        node.l >= 1,
    ensures
        ({
            let dh = pow2i((node.l - 1) as nat);
            &&& r.0 == (HCoord { l: (node.l - 1) as usize, x: node.x, y: (node.y + dh) as isize })
            &&& r.1 == (HCoord { l: (node.l - 1) as usize, x: node.x, y: node.y })
        }),
{
    let l = node.l - 1;
    let dh = pow2_exec(l) as isize;
    proof {
        lemma_pow2_adds((node.l - 1) as nat, 1);
        lemma2_to64();
    }
    (
        HCoord { l, x: node.x, y: node.y + dh },
        HCoord { l, x: node.x, y: node.y },
    )
}

/// The two children on the south half of a split address.
pub fn south_hier(node: HCoord) -> (r: (HCoord, HCoord))
    requires
        addr_ok(node),
        node.l >= 1,
    ensures
        ({
            let dh = pow2i((node.l - 1) as nat);
            &&& r.0 == (HCoord { l: (node.l - 1) as usize, x: node.x, y: node.y })
            &&& r.1 == (HCoord { l: (node.l - 1) as usize, x: (node.x + dh) as isize, y: node.y })
        }),
{
    let l = node.l - 1;
    let dh = pow2_exec(l) as isize;
    proof {
        lemma_pow2_adds((node.l - 1) as nat, 1);
        lemma2_to64();
    }
    (
        HCoord { l, x: node.x, y: node.y },
        HCoord { l, x: node.x + dh, y: node.y },
    )
}

/// The candidate address sits flush against the queried address on the
/// side named by `dir` (0 east, 1 north, 2 west, 3 south), within the
/// span of its edge.
pub open spec fn on_border(dir: int, node: HCoord, s: HCoord) -> bool {
    let nh = pow2i(node.l as nat);
    let sh = pow2i(s.l as nat);
    &&& addr_ok(s)
    &&& s.l <= node.l
    &&& if dir == 0 {
        s.x == node.x + nh && node.y <= s.y && s.y + sh <= node.y + nh
    } else if dir == 1 {
        s.y == node.y + nh && node.x <= s.x && s.x + sh <= node.x + nh
    } else if dir == 2 {
        s.x + sh == node.x && node.y <= s.y && s.y + sh <= node.y + nh
    } else {
        s.y + sh == node.y && node.x <= s.x && s.x + sh <= node.x + nh
    }
}

/// A bordering candidate, when stored, is an edge neighbor.
proof fn lemma_border_adjacent(dir: int, node: HCoord, s: HCoord)
    requires
        0 <= dir < 4,
        addr_ok(node),
        on_border(dir, node, s),
    ensures
        adjacent(node, s),
{
    lemma_pow2_pos(node.l as nat);
    lemma_pow2_pos(s.l as nat);
}

/// `s` lies flush against the side of `node` named by `dir`, at any
/// level, with overlapping edge spans: one direction's worth of the
/// adjacency relation.
pub open spec fn side_adj(dir: int, node: HCoord, s: HCoord) -> bool {
    let nh = pow2i(node.l as nat);
    let sh = pow2i(s.l as nat);
    if dir == 0 {
        s.x == node.x + nh && ranges_overlap(node.y as int, nh, s.y as int, sh)
    } else if dir == 1 {
        s.y == node.y + nh && ranges_overlap(node.x as int, nh, s.x as int, sh)
    } else if dir == 2 {
        s.x + sh == node.x && ranges_overlap(node.y as int, nh, s.y as int, sh)
    } else {
        s.y + sh == node.y && ranges_overlap(node.x as int, nh, s.x as int, sh)
    }
}

/// Edge adjacency is exactly flush contact on one of the four sides.
pub proof fn lemma_adjacent_sides(node: HCoord, s: HCoord)
    ensures
        adjacent(node, s) <==> (side_adj(0, node, s) || side_adj(1, node, s)
            || side_adj(2, node, s) || side_adj(3, node, s)),
{
}

/// Position of an address along the edge axis of a direction: `y` for
/// east/west sides, `x` for north/south sides.
pub open spec fn eaxis(dir: int, s: HCoord) -> int {
    if dir == 0 || dir == 2 {
        s.y as int
    } else {
        s.x as int
    }
}

/// `s` sits on the same side as `t` with its edge span contained in
/// `t`'s.
pub open spec fn edge_within(dir: int, s: HCoord, t: HCoord) -> bool {
    &&& s.l <= t.l
    &&& eaxis(dir, t) <= eaxis(dir, s)
    &&& eaxis(dir, s) + pow2i(s.l as nat) <= eaxis(dir, t) + pow2i(t.l as nat)
}

/// Two bordering candidates with overlapping edge spans share a point of
/// the plane.
proof fn lemma_border_overlap(dir: int, node: HCoord, s: HCoord, t: HCoord)
    requires
        0 <= dir < 4,
        addr_ok(node),
        on_border(dir, node, s),
        on_border(dir, node, t),
        eaxis(dir, t) < eaxis(dir, s) + pow2i(s.l as nat),
        eaxis(dir, s) < eaxis(dir, t) + pow2i(t.l as nat),
    ensures
        exists|px: int, py: int| encloses(s, px, py) && #[trigger] encloses(t, px, py),
{
    lemma_pow2_pos(node.l as nat);
    lemma_pow2_pos(s.l as nat);
    lemma_pow2_pos(t.l as nat);
    let q = if eaxis(dir, s) >= eaxis(dir, t) { eaxis(dir, s) } else { eaxis(dir, t) };
    if dir == 0 {
        let px = node.x + pow2i(node.l as nat);
        assert(encloses(s, px, q) && encloses(t, px, q));
    } else if dir == 1 {
        let py = node.y + pow2i(node.l as nat);
        assert(encloses(s, q, py) && encloses(t, q, py));
    } else if dir == 2 {
        let px = node.x - 1;
        assert(encloses(s, px, q) && encloses(t, px, q));
    } else {
        let py = node.y - 1;
        assert(encloses(s, q, py) && encloses(t, q, py));
    }
}

/// A flush candidate at the queried address's level or coarser encloses
/// the cardinal point on that side.
proof fn lemma_big_side_encloses(dir: int, node: HCoord, s: HCoord, cpx: int, cpy: int)
    requires
        0 <= dir < 4,
        addr_ok(node),
        addr_ok(s),
        side_adj(dir, node, s),
        s.l >= node.l,
        dir == 0 ==> cpx == node.x + pow2i(node.l as nat) && cpy == node.y as int,
        dir == 1 ==> cpx == node.x as int && cpy == node.y + pow2i(node.l as nat),
        dir == 2 ==> cpx == node.x - pow2i(node.l as nat) && cpy == node.y as int,
        dir == 3 ==> cpx == node.x as int && cpy == node.y - pow2i(node.l as nat),
    ensures
        encloses(s, cpx, cpy),
{
    lemma_pow2_pos(node.l as nat);
    lemma_pow2_pos(s.l as nat);
    if dir == 0 || dir == 2 {
        // the edge spans overlap, so they are nested: s covers node's span
        let q = if node.y >= s.y { node.y as int } else { s.y as int };
        lemma_axis_nesting(node.y as int, node.l as nat, s.y as int, s.l as nat, q);
        assert(s.y <= node.y);
        if dir == 2 {
            assert(aligned(s.x as int, s.l as nat));
        }
    } else {
        let q = if node.x >= s.x { node.x as int } else { s.x as int };
        lemma_axis_nesting(node.x as int, node.l as nat, s.x as int, s.l as nat, q);
        assert(s.x <= node.x);
    }
}

/// Weight of the descent stack, decreasing under both popping and
/// splitting into two finer candidates.
pub open spec fn stack_measure(s: Seq<HCoord>) -> int
    decreases s.len(),
{
    if s.len() == 0 {
        0
    } else {
        stack_measure(s.drop_last()) + pow(3, (s.last().l + 1) as nat)
    }
}

proof fn lemma_stack_measure_nonneg(s: Seq<HCoord>)
    ensures
        stack_measure(s) >= 0,
    decreases s.len(),
{
    if s.len() > 0 {
        lemma_stack_measure_nonneg(s.drop_last());
        lemma_pow_positive(3, (s.last().l + 1) as nat);
    }
}

proof fn lemma_stack_measure_push(s: Seq<HCoord>, e: HCoord)
    ensures
        stack_measure(s.push(e)) == stack_measure(s) + pow(3, (e.l + 1) as nat),
{
    assert(s.push(e).drop_last() =~= s);
    assert(s.push(e).last() == e);
}

/// Collects the stored edge neighbors of `node` on one side: sound
/// (everything emitted is stored and adjacent) and, when `node` itself
/// is stored, complete (every stored flush region on that side is
/// emitted).
#[verifier::loop_isolation(false)]
#[verifier::rlimit(100)]
fn search_dir(quad: &QuadTree, node: HCoord, dir: usize, out: &mut Vec<HCoord>)
    requires
        quad.wf(),
        addr_ok(node),
        node.l < quad.levels,
        dir < 4,
        forall|i: int| 0 <= i < old(out)@.len()
            ==> neighbor_ok(*quad, node, #[trigger] old(out)@[i]),
    ensures
        forall|i: int| 0 <= i < final(out)@.len()
            ==> neighbor_ok(*quad, node, #[trigger] final(out)@[i]),
        final(out)@.len() >= old(out)@.len(),
        forall|i: int| 0 <= i < old(out)@.len() ==> final(out)@[i] == old(out)@[i],
        quad.as_map().contains_key(node) ==> forall|s: HCoord|
            quad.as_map().contains_key(s) && #[trigger] side_adj(dir as int, node, s)
                ==> final(out)@.contains(s),
{
    let ghost m = quad.as_map();
    let ghost nh = pow2i(node.l as nat);
    let span = pow2_exec(node.l) as isize;
    proof { lemma_pow2_pos(node.l as nat); }
    // a candidate outside the coordinate range can never be stored
    if dir == 0 && node.x + span >= COORD_LIMIT {
        proof {
            assert forall|s: HCoord| m.contains_key(s) && #[trigger] side_adj(0, node, s)
                implies out@.contains(s) by {
                lemma_pow2_pos(s.l as nat);
                assert(s.x + pow2i(s.l as nat) <= COORD_LIMIT);
                assert(false);
            }
        }
        return;
    }
    if dir == 1 && node.y + span >= COORD_LIMIT {
        proof {
            assert forall|s: HCoord| m.contains_key(s) && #[trigger] side_adj(1, node, s)
                implies out@.contains(s) by {
                lemma_pow2_pos(s.l as nat);
                assert(false);
            }
        }
        return;
    }
    if dir == 2 && node.x == 0 {
        proof {
            assert forall|s: HCoord| m.contains_key(s) && #[trigger] side_adj(2, node, s)
                implies out@.contains(s) by {
                lemma_pow2_pos(s.l as nat);
                assert(false);
            }
        }
        return;
    }
    if dir == 3 && node.y == 0 {
        proof {
            assert forall|s: HCoord| m.contains_key(s) && #[trigger] side_adj(3, node, s)
                implies out@.contains(s) by {
                lemma_pow2_pos(s.l as nat);
                assert(false);
            }
        }
        return;
    }
    let cardinals = find_cardinals(node);
    let cardinal = if dir == 0 {
        cardinals.0
    } else if dir == 1 {
        cardinals.1
    } else if dir == 2 {
        cardinals.2
    } else {
        cardinals.3
    };
    let ghost cpx = cardinal.x as int;
    let ghost cpy = cardinal.y as int;
    proof {
        lemma_aligned_step(node.x as int, node.l as nat);
        lemma_aligned_step(node.y as int, node.l as nat);
        lemma_limit_aligned(node.l as nat);
        if dir == 0 {
            lemma_aligned_gap(COORD_LIMIT as int, node.x + pow2i(node.l as nat), node.l as nat);
        }
        if dir == 1 {
            lemma_aligned_gap(COORD_LIMIT as int, node.y + pow2i(node.l as nat), node.l as nat);
        }
        assert(aligned(0, node.l as nat)) by {
            lemma_mod_multiples_basic(0, pow2i(node.l as nat));
        }
        if dir == 2 {
            lemma_aligned_gap(node.x as int, 0, node.l as nat);
        }
        if dir == 3 {
            lemma_aligned_gap(node.y as int, 0, node.l as nat);
        }
        assert(addr_ok(cardinal));
        assert(on_border(dir as int, node, cardinal));
    }
    // walk upward: a stored region at or above this level that holds the
    // candidate but not the address itself borders the whole edge
    let mut lvl = node.l;
    let mut found = false;
    let mut stop = false;
    while lvl < quad.levels && !stop
        invariant
            node.l <= lvl <= quad.levels,
            found ==> stop,
            out@.len() >= old(out)@.len(),
            forall|i: int| 0 <= i < old(out)@.len() ==> out@[i] == old(out)@[i],
            forall|i: int| 0 <= i < out@.len()
                ==> neighbor_ok(*quad, node, #[trigger] out@[i]),
            !stop ==> forall|e: HCoord| m.contains_key(e)
                && #[trigger] encloses(e, cpx, cpy) && e.l >= node.l ==> e.l >= lvl,
            (stop && !found && m.contains_key(node)) ==> forall|e: HCoord|
                m.contains_key(e) && #[trigger] encloses(e, cpx, cpy) ==> e.l < node.l,
            (found && m.contains_key(node)) ==> forall|s: HCoord|
                m.contains_key(s) && #[trigger] side_adj(dir as int, node, s)
                    ==> out@.contains(s),
        decreases 2 * (quad.levels - lvl) + (if stop { 0int } else { 1 }),
    {
        let e = transform(&cardinal, lvl);
        let h = transform(&node, lvl);
        if e.l == h.l && e.x == h.x && e.y == h.y {
            proof {
                if m.contains_key(node) {
                    assert forall|ec: HCoord| m.contains_key(ec)
                        && #[trigger] encloses(ec, cpx, cpy) implies ec.l < node.l by {
                        if ec.l >= node.l {
                            let big = ec.l as nat;
                            lemma_pow2_pos(big);
                            lemma_align_range(cpx, big, ec.x as int);
                            lemma_align_range(cpy, big, ec.y as int);
                            // ec is the level-`big` block around the cardinal,
                            // which coincides with the block around the node
                            lemma_align_refine(cpx, lvl as nat, big);
                            lemma_align_refine(cpy, lvl as nat, big);
                            lemma_align_refine(node.x as int, lvl as nat, big);
                            lemma_align_refine(node.y as int, lvl as nat, big);
                            assert(ec.x == align_spec(node.x as int, big));
                            assert(ec.y == align_spec(node.y as int, big));
                            lemma_align_window(node.x as int, big);
                            lemma_align_window(node.y as int, big);
                            assert(encloses(ec, node.x as int, node.y as int));
                            assert(encloses(node, node.x as int, node.y as int));
                            quad.lemma_stored_unique(ec, node, node.x as int, node.y as int);
                            assert(ec == node);
                            assert(false);
                        }
                    }
                }
            }
            stop = true;
        } else {
            match quad.lookup(e) {
                Some(_) => {
                    proof {
                        let big = lvl as nat;
                        let l = node.l as nat;
                        lemma_pow2_pos(big);
                        lemma_pow2_pos(l);
                        if dir == 0 {
                            lemma_face_up(node.x as int, l, big);
                            if e.x as int == align_spec(node.x as int, big) {
                                assert(e == h);
                                assert(false);
                            }
                            assert(e.x == node.x + pow2i(l));
                            lemma_align_window(node.y as int, big);
                        } else if dir == 1 {
                            lemma_face_up(node.y as int, l, big);
                            if e.y as int == align_spec(node.y as int, big) {
                                assert(e == h);
                                assert(false);
                            }
                            assert(e.y == node.y + pow2i(l));
                            lemma_align_window(node.x as int, big);
                        } else if dir == 2 {
                            lemma_face_down(node.x as int, l, big);
                            if e.x as int == align_spec(node.x as int, big) {
                                assert(e == h);
                                assert(false);
                            }
                            assert(e.x + pow2i(big) == node.x);
                            lemma_align_window(node.y as int, big);
                        } else {
                            lemma_face_down(node.y as int, l, big);
                            if e.y as int == align_spec(node.y as int, big) {
                                assert(e == h);
                                assert(false);
                            }
                            assert(e.y + pow2i(big) == node.y);
                            lemma_align_window(node.x as int, big);
                        }
                        assert(adjacent(node, e));
                    }
                    out.push(e);
                    proof {
                        let big = lvl as nat;
                        let l = node.l as nat;
                        assert(out@[out@.len() - 1] == e);
                        assert(out@.contains(e));
                        if m.contains_key(node) {
                            // the emitted region covers the whole edge, so it
                            // is the one and only flush region on this side
                            if dir == 0 || dir == 2 {
                                lemma_axis_nesting(node.y as int, l, e.y as int, big, node.y as int);
                            } else {
                                lemma_axis_nesting(node.x as int, l, e.x as int, big, node.x as int);
                            }
                            assert forall|s: HCoord| m.contains_key(s)
                                && #[trigger] side_adj(dir as int, node, s)
                                implies out@.contains(s) by {
                                lemma_pow2_pos(s.l as nat);
                                if dir == 0 || dir == 2 {
                                    let qy = if s.y >= node.y { s.y as int } else { node.y as int };
                                    let px = if dir == 0 { node.x + nh } else { node.x - 1 };
                                    assert(encloses(s, px, qy));
                                    assert(encloses(e, px, qy));
                                    quad.lemma_stored_unique(s, e, px, qy);
                                } else {
                                    let qx = if s.x >= node.x { s.x as int } else { node.x as int };
                                    let py = if dir == 1 { node.y + nh } else { node.y - 1 };
                                    assert(encloses(s, qx, py));
                                    assert(encloses(e, qx, py));
                                    quad.lemma_stored_unique(s, e, qx, py);
                                }
                                assert(s == e);
                            }
                        }
                    }
                    found = true;
                    stop = true;
                }
                None => {
                    proof {
                        assert forall|ec: HCoord| m.contains_key(ec)
                            && #[trigger] encloses(ec, cpx, cpy) && ec.l >= node.l
                            implies ec.l >= lvl + 1 by {
                            if ec.l == lvl {
                                lemma_align_range(cpx, lvl as nat, ec.x as int);
                                lemma_align_range(cpy, lvl as nat, ec.y as int);
                                assert(ec == e);
                            }
                        }
                    }
                    lvl += 1;
                }
            }
        }
    }
    if found {
        return;
    }
    proof {
        // no stored region at the node's level or above holds the
        // cardinal point: every flush region on this side is finer and
        // sits inside the edge span
        if m.contains_key(node) {
            assert forall|ec: HCoord| m.contains_key(ec)
                && #[trigger] encloses(ec, cpx, cpy) implies ec.l < node.l by {
                if !stop {
                    assert(ec.l < quad.levels);
                    if ec.l >= node.l {
                        assert(ec.l >= lvl);
                        assert(false);
                    }
                }
            }
        }
    }
    // descend: collect the finer stored regions along the shared edge
    let mut stack: Vec<HCoord> = Vec::new();
    stack.push(cardinal);
    proof {
        lemma_stack_measure_push(Seq::<HCoord>::empty(), cardinal);
        lemma_stack_measure_nonneg(stack@);
        if m.contains_key(node) {
            assert forall|s: HCoord| m.contains_key(s)
                && #[trigger] side_adj(dir as int, node, s)
                implies on_border(dir as int, node, s)
                    && edge_within(dir as int, s, cardinal) by {
                lemma_pow2_pos(s.l as nat);
                if s.l >= node.l {
                    lemma_big_side_encloses(dir as int, node, s, cpx, cpy);
                    assert(false);
                }
                if dir == 0 || dir == 2 {
                    let q = if s.y >= node.y { s.y as int } else { node.y as int };
                    lemma_axis_nesting(s.y as int, s.l as nat, node.y as int, node.l as nat, q);
                } else {
                    let q = if s.x >= node.x { s.x as int } else { node.x as int };
                    lemma_axis_nesting(s.x as int, s.l as nat, node.x as int, node.l as nat, q);
                }
            }
            assert(stack@[0] == cardinal);
        }
    }
    while stack.len() != 0
        invariant
            out@.len() >= old(out)@.len(),
            forall|i: int| 0 <= i < old(out)@.len() ==> out@[i] == old(out)@[i],
            forall|i: int| 0 <= i < stack@.len()
                ==> on_border(dir as int, node, #[trigger] stack@[i]),
            forall|i: int| 0 <= i < out@.len()
                ==> neighbor_ok(*quad, node, #[trigger] out@[i]),
            m.contains_key(node) ==> forall|s: HCoord|
                m.contains_key(s) && #[trigger] side_adj(dir as int, node, s)
                    ==> out@.contains(s)
                        || exists|i: int| 0 <= i < stack@.len()
                            && edge_within(dir as int, s, #[trigger] stack@[i]),
        decreases stack_measure(stack@),
    {
        let ghost pre = stack@;
        let p = match stack.pop() {
            Some(p) => p,
            None => {
                proof { assert(false); }
                node
            }
        };
        proof {
            assert(pre.drop_last() =~= stack@);
            lemma_stack_measure_nonneg(stack@);
            lemma_pow_positive(3, (p.l + 1) as nat);
        }
        match quad.lookup(p) {
            Some(_) => {
                proof { lemma_border_adjacent(dir as int, node, p); }
                let ghost held = out@;
                out.push(p);
                proof {
                    assert(out@[out@.len() - 1] == p);
                    assert(out@.contains(p));
                    assert forall|x: HCoord| held.contains(x) implies out@.contains(x) by {
                        let j = choose|j: int| 0 <= j < held.len() && held[j] == x;
                        assert(out@[j] == x);
                    }
                    if m.contains_key(node) {
                        assert forall|s: HCoord| m.contains_key(s)
                            && #[trigger] side_adj(dir as int, node, s)
                            implies out@.contains(s)
                                || exists|i: int| 0 <= i < stack@.len()
                                    && edge_within(dir as int, s, #[trigger] stack@[i]) by {
                            if !out@.contains(s) {
                                assert(!held.contains(s));
                                // the old witness was the popped candidate or
                                // sits lower in the stack
                                let i = choose|i: int| 0 <= i < pre.len()
                                    && edge_within(dir as int, s, #[trigger] pre[i]);
                                if 0 <= i < pre.len() && edge_within(dir as int, s, pre[i]) {
                                    if i < pre.len() - 1 {
                                        assert(stack@[i] == pre[i]);
                                    } else {
                                        assert(pre[i] == p);
                                        lemma_pow2_pos(s.l as nat);
                                        lemma_pow2_pos(p.l as nat);
                                        lemma_border_overlap(dir as int, node, s, p);
                                        let (px, py) = choose|px: int, py: int|
                                            encloses(s, px, py) && #[trigger] encloses(p, px, py);
                                        quad.lemma_stored_unique(s, p, px, py);
                                        assert(s == p);
                                        assert(false);
                                    }
                                }
                            }
                        }
                    }
                }
            }
            None => {
                if p.l >= 1 {
                    let halves = if dir == 0 {
                        west_hier(p)
                    } else if dir == 1 {
                        south_hier(p)
                    } else if dir == 2 {
                        east_hier(p)
                    } else {
                        north_hier(p)
                    };
                    proof {
                        lemma_pow2_pos(p.l as nat);
                        lemma_pow2_pos((p.l - 1) as nat);
                        lemma_pow2_adds((p.l - 1) as nat, 1);
                        lemma2_to64();
                        lemma_aligned_coarse_to_fine(p.x as int, p.l as nat);
                        lemma_aligned_coarse_to_fine(p.y as int, p.l as nat);
                        assert(on_border(dir as int, node, halves.0));
                        assert(on_border(dir as int, node, halves.1));
                        lemma_stack_measure_push(stack@, halves.0);
                        lemma_stack_measure_push(stack@.push(halves.0), halves.1);
                        lemma_pow_adds(3, (p.l - 1 + 1) as nat, 1);
                        lemma_pow1(3);
                        lemma_pow_positive(3, (p.l - 1 + 1) as nat);
                    }
                    stack.push(halves.0);
                    stack.push(halves.1);
                    proof {
                        let base = pre.drop_last();
                        assert(stack@ =~= base.push(halves.0).push(halves.1));
                        if m.contains_key(node) {
                            let dh = pow2i((p.l - 1) as nat);
                            assert forall|s: HCoord| m.contains_key(s)
                                && #[trigger] side_adj(dir as int, node, s)
                                implies out@.contains(s)
                                    || exists|i: int| 0 <= i < stack@.len()
                                        && edge_within(dir as int, s, #[trigger] stack@[i]) by {
                                if !out@.contains(s) {
                                    let i = choose|i: int| 0 <= i < pre.len()
                                        && edge_within(dir as int, s, #[trigger] pre[i]);
                                    if 0 <= i < pre.len() && edge_within(dir as int, s, pre[i]) {
                                        if i < pre.len() - 1 {
                                            assert(stack@[i] == base[i]);
                                            assert(edge_within(dir as int, s, stack@[i]));
                                        } else {
                                            // split the popped span in half and
                                            // place the flush region in one side
                                            assert(pre[i] == p);
                                            lemma_pow2_pos(s.l as nat);
                                            assert(s.l < p.l) by {
                                                if s.l == p.l {
                                                    assert(eaxis(dir as int, s) == eaxis(dir as int, p));
                                                    assert(s == p);
                                                    assert(m.contains_key(p));
                                                    assert(false);
                                                }
                                            }
                                            let q = eaxis(dir as int, s);
                                            let base_pos = eaxis(dir as int, p);
                                            let low = if dir == 0 {
                                                halves.1
                                            } else if dir == 1 {
                                                halves.0
                                            } else if dir == 2 {
                                                halves.0
                                            } else {
                                                halves.1
                                            };
                                            let high = if dir == 0 {
                                                halves.0
                                            } else if dir == 1 {
                                                halves.1
                                            } else if dir == 2 {
                                                halves.1
                                            } else {
                                                halves.0
                                            };
                                            assert(eaxis(dir as int, low) == base_pos);
                                            assert(eaxis(dir as int, high) == base_pos + dh);
                                            if dir == 0 || dir == 2 {
                                                lemma_aligned_coarse_to_fine(p.y as int, p.l as nat);
                                                if q < base_pos + dh {
                                                    lemma_axis_nesting(q, s.l as nat, base_pos, (p.l - 1) as nat, q);
                                                    assert(edge_within(dir as int, s, low));
                                                } else {
                                                    lemma_axis_nesting(q, s.l as nat, base_pos + dh, (p.l - 1) as nat, q);
                                                    assert(edge_within(dir as int, s, high));
                                                }
                                            } else {
                                                lemma_aligned_coarse_to_fine(p.x as int, p.l as nat);
                                                if q < base_pos + dh {
                                                    lemma_axis_nesting(q, s.l as nat, base_pos, (p.l - 1) as nat, q);
                                                    assert(edge_within(dir as int, s, low));
                                                } else {
                                                    lemma_axis_nesting(q, s.l as nat, base_pos + dh, (p.l - 1) as nat, q);
                                                    assert(edge_within(dir as int, s, high));
                                                }
                                            }
                                            assert(stack@[stack@.len() - 2] == halves.0);
                                            assert(stack@[stack@.len() - 1] == halves.1);
                                            assert(exists|j: int| 0 <= j < stack@.len()
                                                && edge_within(dir as int, s, #[trigger] stack@[j]));
                                        }
                                    }
                                }
                            }
                        }
                    }
                } else {
                    proof {
                        if m.contains_key(node) {
                            assert forall|s: HCoord| m.contains_key(s)
                                && #[trigger] side_adj(dir as int, node, s)
                                implies out@.contains(s)
                                    || exists|i: int| 0 <= i < stack@.len()
                                        && edge_within(dir as int, s, #[trigger] stack@[i]) by {
                                if !out@.contains(s) {
                                    let i = choose|i: int| 0 <= i < pre.len()
                                        && edge_within(dir as int, s, #[trigger] pre[i]);
                                    if 0 <= i < pre.len() && edge_within(dir as int, s, pre[i]) {
                                        if i < pre.len() - 1 {
                                            assert(stack@[i] == pre[i]);
                                        } else {
                                            // a width-one span admits only the
                                            // candidate itself, which is absent
                                            assert(pre[i] == p);
                                            lemma_pow2_pos(s.l as nat);
                                            assert(s.l == 0 && p.l == 0);
                                            assert(eaxis(dir as int, s) == eaxis(dir as int, p));
                                            assert(s == p);
                                            assert(m.contains_key(p));
                                            assert(false);
                                        }
                                    }
                                }
                            }
                        }
                    }
                }
            }
        }
    }
}

/// Every stored address directly bordering `node`, each listed once, at
/// whatever level each happens to be stored: a same-or-coarser neighbor
/// per direction where one exists, else the finer regions along that
/// edge. Each returned address is stored and edge-adjacent; when `node`
/// itself is stored, every stored address adjacent to it is returned, so
/// neighbor listing is symmetric between stored addresses.
pub fn edge_neighbors(quad: &QuadTree, node: HCoord) -> (r: Vec<HCoord>)
    requires
        quad.wf(),
        addr_ok(node),
        node.l < quad.levels,
    ensures
        forall|i: int| 0 <= i < r@.len()
            ==> neighbor_ok(*quad, node, #[trigger] r@[i]),
        r@.no_duplicates(),
        quad.as_map().contains_key(node) ==> forall|s: HCoord|
            quad.as_map().contains_key(s) && #[trigger] adjacent(node, s)
                ==> r@.contains(s),
{
    let mut out: Vec<HCoord> = Vec::new();
    let ghost o0 = out@;
    search_dir(quad, node, 0, &mut out);
    let ghost o1 = out@;
    search_dir(quad, node, 1, &mut out);
    let ghost o2 = out@;
    search_dir(quad, node, 2, &mut out);
    let ghost o3 = out@;
    search_dir(quad, node, 3, &mut out);
    proof {
        if quad.as_map().contains_key(node) {
            assert forall|s: HCoord| quad.as_map().contains_key(s)
                && #[trigger] adjacent(node, s) implies out@.contains(s) by {
                lemma_adjacent_sides(node, s);
                if side_adj(0, node, s) {
                    let i = choose|i: int| 0 <= i < o1.len() && o1[i] == s;
                    assert(out@[i] == s);
                } else if side_adj(1, node, s) {
                    let i = choose|i: int| 0 <= i < o2.len() && o2[i] == s;
                    assert(out@[i] == s);
                } else if side_adj(2, node, s) {
                    let i = choose|i: int| 0 <= i < o3.len() && o3[i] == s;
                    assert(out@[i] == s);
                }
            }
        }
    }
    // a region bordering on two sides would be found twice: list each
    // neighbor once
    let mut uniq: Vec<HCoord> = Vec::new();
    let mut i: usize = 0;
    while i < out.len()
        invariant
            i <= out@.len(),
            uniq@.no_duplicates(),
            forall|j: int| 0 <= j < uniq@.len() ==> out@.contains(#[trigger] uniq@[j]),
            forall|j: int| 0 <= j < i ==> uniq@.contains(#[trigger] out@[j]),
        decreases out@.len() - i,
    {
        let c = out[i];
        if !contains_enc(&uniq, c) {
            let ghost held = uniq@;
            uniq.push(c);
            proof {
                assert(uniq@[uniq@.len() - 1] == c);
                assert(uniq@.contains(c));
                assert(out@.contains(c)) by {
                    assert(out@[i as int] == c);
                }
                assert forall|x: HCoord| held.contains(x) implies uniq@.contains(x) by {
                    let j = choose|j: int| 0 <= j < held.len() && held[j] == x;
                    assert(uniq@[j] == x);
                }
                assert(uniq@.no_duplicates()) by {
                    assert forall|p: int, q: int| 0 <= p < q < uniq@.len()
                        implies uniq@[p] != uniq@[q] by {
                        if q == uniq@.len() - 1 {
                            assert(held[p] == uniq@[p]);
                            assert(!held.contains(c));
                        } else {
                            assert(held[p] == uniq@[p] && held[q] == uniq@[q]);
                        }
                    }
                }
            }
        }
        i += 1;
    }
    proof {
        assert forall|j: int| 0 <= j < uniq@.len()
            implies neighbor_ok(*quad, node, #[trigger] uniq@[j]) by {
            let k = choose|k: int| 0 <= k < out@.len() && out@[k] == uniq@[j];
            assert(neighbor_ok(*quad, node, out@[k]));
        }
        if quad.as_map().contains_key(node) {
            assert forall|s: HCoord| quad.as_map().contains_key(s)
                && #[trigger] adjacent(node, s) implies uniq@.contains(s) by {
                assert(out@.contains(s));
                let k = choose|k: int| 0 <= k < out@.len() && out@[k] == s;
                assert(uniq@.contains(out@[k]));
            }
        }
    }
    uniq
}

} // verus!
