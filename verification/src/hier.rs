//! Hierarchical addressing: pure functions from world coordinates to
//! aligned addresses, parents, children, grid siblings, and the
//! centroid-based distance used uniformly as heuristic and edge cost.

use vstd::prelude::*;
use vstd::arithmetic::div_mod::{
    lemma_fundamental_div_mod, lemma_fundamental_div_mod_converse,
    lemma_mod_division_less_than_divisor, lemma_mod_multiples_basic,
    lemma_div_denominator, lemma_div_multiples_vanish, lemma_div_pos_is_pos,
};
use vstd::arithmetic::power2::{pow2, lemma_pow2_pos, lemma_pow2_adds, lemma_pow2_strictly_increases, lemma2_to64};
use crate::types::{ACoord, HCoord};

verus! {

/// Coordinates handled by the hierarchical map stay below this bound
/// (2^20), so that doubled centroids and summed distances fit the machine
/// integers even on 32-bit targets.
pub const COORD_LIMIT: isize = 0x10_0000;

/// Largest admissible address level.
pub const LEVEL_LIMIT: usize = 20;

/// `2^l` as a mathematical integer.
pub open spec fn pow2i(l: nat) -> int {
    pow2(l) as int
}

/// `x` rounded down to the nearest multiple of `2^l`.
pub open spec fn align_spec(x: int, l: nat) -> int {
    pow2i(l) * (x / pow2i(l))
}

/// `x` is a multiple of `2^l`.
pub open spec fn aligned(x: int, l: nat) -> bool {
    x % pow2i(l) == 0
}

/// The point `(px, py)` lies in the square region named by `a`.
pub open spec fn encloses(a: HCoord, px: int, py: int) -> bool {
    &&& a.x <= px < a.x + pow2i(a.l as nat)
    &&& a.y <= py < a.y + pow2i(a.l as nat)
}

/// A structurally valid address: aligned origin, both axes inside the
/// coordinate bound, level at most `LEVEL_LIMIT`.
pub open spec fn addr_ok(a: HCoord) -> bool {
    &&& a.l <= LEVEL_LIMIT
    &&& aligned(a.x as int, a.l as nat)
    &&& aligned(a.y as int, a.l as nat)
    &&& 0 <= a.x && a.x + pow2i(a.l as nat) <= COORD_LIMIT
    &&& 0 <= a.y && a.y + pow2i(a.l as nat) <= COORD_LIMIT
}

/// Doubled centroid of `a` along the x axis: `2*x + 2^l`.
pub open spec fn center_x(a: HCoord) -> int {
    2 * a.x + pow2i(a.l as nat)
}

/// Doubled centroid of `a` along the y axis.
pub open spec fn center_y(a: HCoord) -> int {
    2 * a.y + pow2i(a.l as nat)
}

/// Absolute value of a mathematical integer.
pub open spec fn abs_i(v: int) -> int {
    if v < 0 { -v } else { v }
}

/// Manhattan distance between the doubled centroids of two addresses.
pub open spec fn dist_spec(a: HCoord, b: HCoord) -> int {
    abs_i(center_x(a) - center_x(b)) + abs_i(center_y(a) - center_y(b))
}

/// Alignment stays within `[0, x]` for non-negative `x`, lands on a
/// multiple of `2^l`, and the aligned cell of width `2^l` contains `x`.
pub proof fn lemma_align_basics(x: int, l: nat)
    requires
        0 <= x,
    ensures
        aligned(align_spec(x, l), l),
        0 <= align_spec(x, l) <= x < align_spec(x, l) + pow2i(l),
{
    let m = pow2i(l);
    lemma_pow2_pos(l);
    lemma_fundamental_div_mod(x, m);
    lemma_mod_division_less_than_divisor(x, m);
    lemma_div_pos_is_pos(x, m);
    lemma_mod_multiples_basic(x / m, m);
    assert(align_spec(x, l) % m == 0);
}

/// Whatever its sign, `x` lies in the aligned window of width `2^l`
/// starting at `align_spec(x, l)`.
pub proof fn lemma_align_window(x: int, l: nat)
    ensures
        aligned(align_spec(x, l), l),
        align_spec(x, l) <= x < align_spec(x, l) + pow2i(l),
{
    let m = pow2i(l);
    lemma_pow2_pos(l);
    lemma_fundamental_div_mod(x, m);
    lemma_mod_division_less_than_divisor(x, m);
    lemma_mod_multiples_basic(x / m, m);
}

/// For an `l`-aligned base `a`, `align_spec(x, l) == a` exactly when `x`
/// falls inside the cell `[a, a + 2^l)`.
pub proof fn lemma_align_range(x: int, l: nat, a: int)
    requires
        aligned(a, l),
    ensures
        align_spec(x, l) == a <==> (a <= x < a + pow2i(l)),
{
    let m = pow2i(l);
    lemma_pow2_pos(l);
    lemma_fundamental_div_mod(a, m);
    let q = a / m;
    if a <= x < a + m {
        lemma_fundamental_div_mod_converse(x, m, q, x - a);
        assert(align_spec(x, l) == m * q == a);
    }
    if align_spec(x, l) == a {
        lemma_align_window(x, l);
    }
}

/// A multiple of `2^l` is also a multiple of `2^(l-1)`, as is its
/// midpoint shifted by `2^(l-1)`.
pub proof fn lemma_aligned_coarse_to_fine(x: int, l: nat)
    requires
        l >= 1,
        aligned(x, l),
    ensures
        aligned(x, (l - 1) as nat),
        aligned(x + pow2i((l - 1) as nat), (l - 1) as nat),
{
    let lh = (l - 1) as nat;
    let m = pow2i(l);
    let mh = pow2i(lh);
    lemma_pow2_pos(l);
    lemma_pow2_pos(lh);
    lemma_pow2_adds(lh, 1);
    lemma2_to64();
    assert(m == mh * 2);
    lemma_fundamental_div_mod(x, m);
    let q = x / m;
    assert(x == m * q);
    lemma_mod_multiples_basic(2 * q, mh);
    assert(x == mh * (2 * q)) by (nonlinear_arith)
        requires x == m * q && m == mh * 2;
    assert((2 * q) * mh == mh * (2 * q)) by (nonlinear_arith);
    lemma_mod_multiples_basic(2 * q + 1, mh);
    assert((2 * q + 1) * mh == mh * (2 * q) + mh) by (nonlinear_arith);
}

/// Aligning first to a finer level and then to a coarser one is the same
/// as aligning directly to the coarser level.
pub proof fn lemma_align_refine(x: int, l1: nat, l2: nat)
    requires
        0 <= x,
        l1 <= l2,
    ensures
        align_spec(align_spec(x, l1), l2) == align_spec(x, l2),
{
    let m1 = pow2i(l1);
    let m2 = pow2i(l2);
    let k = pow2i((l2 - l1) as nat);
    lemma_pow2_pos(l1);
    lemma_pow2_pos(l2);
    lemma_pow2_pos((l2 - l1) as nat);
    lemma_pow2_adds(l1, (l2 - l1) as nat);
    assert(m2 == m1 * k);
    let q = x / m1;
    lemma_div_pos_is_pos(x, m1);
    // x / m2 == (x / m1) / k
    lemma_div_denominator(x, m1, k);
    // (m1 * q) / m2 == ((m1 * q) / m1) / k == q / k
    lemma_align_basics(x, l1);
    lemma_div_denominator(m1 * q, m1, k);
    lemma_div_multiples_vanish(q, m1);
    assert((m1 * q) / m1 == q);
    assert(align_spec(align_spec(x, l1), l2) == m2 * ((m1 * q) / (m1 * k)));
    assert((m1 * q) / (m1 * k) == q / k);
    assert(align_spec(x, l2) == m2 * (x / (m1 * k)));
    assert(x / (m1 * k) == q / k);
}

/// Refining by one level: the `l`-aligned cell containing `x` splits into
/// two halves at level `l - 1`, and `x` aligns to one of them.
pub proof fn lemma_align_half(x: int, l: nat)
    requires
        0 <= x,
        l >= 1,
    ensures
        align_spec(x, (l - 1) as nat) == align_spec(x, l)
            || align_spec(x, (l - 1) as nat) == align_spec(x, l) + pow2i((l - 1) as nat),
        aligned(align_spec(x, l), (l - 1) as nat),
        aligned(align_spec(x, l) + pow2i((l - 1) as nat), (l - 1) as nat),
{
    let lh = (l - 1) as nat;
    let m = pow2i(l);
    let mh = pow2i(lh);
    lemma_pow2_pos(l);
    lemma_pow2_pos(lh);
    lemma_pow2_adds(lh, 1);
    lemma2_to64();
    assert(m == mh * 2);
    let a = align_spec(x, l);
    lemma_align_basics(x, l);
    // a is a multiple of 2^l, hence of 2^(l-1)
    let q = a / m;
    lemma_fundamental_div_mod(a, m);
    lemma_mod_multiples_basic(2 * q, mh);
    assert(a == m * q);
    assert(a == mh * (2 * q)) by (nonlinear_arith)
        requires a == m * q && m == mh * 2;
    assert((2 * q) * mh == mh * (2 * q)) by (nonlinear_arith);
    assert(aligned(a, lh));
    lemma_mod_multiples_basic(2 * q + 1, mh);
    assert((2 * q + 1) * mh == mh * (2 * q) + mh) by (nonlinear_arith);
    assert(aligned(a + mh, lh));
    if x < a + mh {
        lemma_align_range(x, lh, a);
    } else {
        lemma_align_range(x, lh, a + mh);
    }
}

/// Alignment is preserved by stepping one cell width in either
/// direction.
pub proof fn lemma_aligned_step(x: int, l: nat)
    requires
        aligned(x, l),
    ensures
        aligned(x + pow2i(l), l),
        aligned(x - pow2i(l), l),
{
    let m = pow2i(l);
    lemma_pow2_pos(l);
    lemma_fundamental_div_mod(x, m);
    let q = x / m;
    lemma_mod_multiples_basic(q + 1, m);
    lemma_mod_multiples_basic(q - 1, m);
    assert((q + 1) * m == m * q + m) by (nonlinear_arith);
    assert((q - 1) * m == m * q - m) by (nonlinear_arith);
}

/// At level 0 alignment is the identity: every integer is a multiple of
/// one.
pub proof fn lemma_align_zero(x: int)
    ensures
        align_spec(x, 0) == x,
{
    lemma2_to64();
    assert(pow2i(0) == 1);
    lemma_mod_division_less_than_divisor(x, 1);
    assert(aligned(x, 0));
    lemma_align_range(x, 0, x);
}

/// A multiple of a coarser power of two is a multiple of any finer one.
pub proof fn lemma_aligned_weaken(x: int, l1: nat, l2: nat)
    requires
        l1 <= l2,
        aligned(x, l2),
    ensures
        aligned(x, l1),
{
    let m1 = pow2i(l1);
    let m2 = pow2i(l2);
    let k = pow2i((l2 - l1) as nat);
    lemma_pow2_pos(l1);
    lemma_pow2_pos(l2);
    lemma_pow2_pos((l2 - l1) as nat);
    lemma_pow2_adds(l1, (l2 - l1) as nat);
    lemma_fundamental_div_mod(x, m2);
    let q = x / m2;
    assert(x == m2 * q);
    assert(x == m1 * (k * q)) by (nonlinear_arith)
        requires x == m2 * q && m2 == m1 * k;
    lemma_mod_multiples_basic(k * q, m1);
    assert((k * q) * m1 == m1 * (k * q)) by (nonlinear_arith);
}

/// Distinct multiples of `2^l` are at least `2^l` apart.
pub proof fn lemma_aligned_gap(v: int, w: int, l: nat)
    requires
        aligned(v, l),
        aligned(w, l),
        w < v,
    ensures
        w + pow2i(l) <= v,
{
    let m = pow2i(l);
    lemma_pow2_pos(l);
    lemma_fundamental_div_mod(v, m);
    lemma_fundamental_div_mod(w, m);
    let qv = v / m;
    let qw = w / m;
    assert(v == m * qv && w == m * qw);
    assert(qw < qv) by (nonlinear_arith)
        requires v == m * qv && w == m * qw && w < v && m > 0;
    assert(m * (qw + 1) <= m * qv) by (nonlinear_arith)
        requires qw + 1 <= qv && m > 0;
    assert(m * (qw + 1) == m * qw + m) by (nonlinear_arith);
}

/// Two half-open intervals `[s1, s1 + w1)` and `[s2, s2 + w2)` intersect.
pub open spec fn ranges_overlap(s1: int, w1: int, s2: int, w2: int) -> bool {
    s1 < s2 + w2 && s2 < s1 + w1
}

/// The regions of `a` and `b` share an edge segment: they touch along one
/// axis and overlap along the other.
pub open spec fn adjacent(a: HCoord, b: HCoord) -> bool {
    let ah = pow2i(a.l as nat);
    let bh = pow2i(b.l as nat);
    ||| ((b.x == a.x + ah || a.x == b.x + bh)
        && ranges_overlap(a.y as int, ah, b.y as int, bh))
    ||| ((b.y == a.y + ah || a.y == b.y + bh)
        && ranges_overlap(a.x as int, ah, b.x as int, bh))
}

/// Edge adjacency is symmetric.
pub proof fn lemma_adjacent_symm(a: HCoord, b: HCoord)
    ensures
        adjacent(a, b) == adjacent(b, a),
{
}

/// Two valid addresses whose regions share a point are nested: the
/// coarser one encloses the finer one's whole region.
pub proof fn lemma_nesting(a: HCoord, b: HCoord, px: int, py: int)
    requires
        addr_ok(a),
        addr_ok(b),
        a.l <= b.l,
        encloses(a, px, py),
        encloses(b, px, py),
    ensures
        b.x <= a.x && a.x + pow2i(a.l as nat) <= b.x + pow2i(b.l as nat),
        b.y <= a.y && a.y + pow2i(a.l as nat) <= b.y + pow2i(b.l as nat),
        forall|qx: int, qy: int| encloses(a, qx, qy) ==> encloses(b, qx, qy),
{
    lemma_axis_nesting(a.x as int, a.l as nat, b.x as int, b.l as nat, px);
    lemma_axis_nesting(a.y as int, a.l as nat, b.y as int, b.l as nat, py);
}

/// One-axis version of the nesting argument: two aligned intervals that
/// overlap are nested.
pub proof fn lemma_axis_nesting(ax: int, al: nat, bx: int, bl: nat, p: int)
    requires
        al <= bl,
        aligned(ax, al),
        aligned(bx, bl),
        0 <= ax,
        0 <= bx,
        ax <= p < ax + pow2i(al),
        bx <= p < bx + pow2i(bl),
    ensures
        bx <= ax && ax + pow2i(al) <= bx + pow2i(bl),
{
    lemma_pow2_pos(al);
    lemma_pow2_pos(bl);
    assert(0 <= p);
    lemma_align_range(p, bl, bx);
    assert(align_spec(p, bl) == bx);
    lemma_align_range(p, al, ax);
    assert(align_spec(p, al) == ax);
    lemma_align_refine(p, al, bl);
    assert(align_spec(ax, bl) == bx);
    lemma_align_basics(ax, bl);
    assert(bx <= ax);
    // ax + 2^al <= bx + 2^bl: ax < bx + 2^bl and both multiples of 2^al
    let mh = pow2i(al);
    let m = pow2i(bl);
    lemma_pow2_adds(al, (bl - al) as nat);
    let k = pow2i((bl - al) as nat);
    lemma_pow2_pos((bl - al) as nat);
    assert(m == mh * k);
    // ax - bx is a multiple of 2^al, and less than 2^bl
    let qa = ax / mh;
    let qb = bx / m;
    lemma_fundamental_div_mod(ax, mh);
    lemma_fundamental_div_mod(bx, m);
    assert(ax == mh * qa);
    assert(bx == m * qb);
    assert(bx == mh * (k * qb)) by (nonlinear_arith)
        requires bx == m * qb && m == mh * k;
    assert(ax - bx == mh * (qa - k * qb)) by (nonlinear_arith)
        requires ax == mh * qa && bx == mh * (k * qb);
    let d = qa - k * qb;
    assert(mh * d < mh * k) by { assert(ax - bx < m); }
    assert(d < k) by (nonlinear_arith)
        requires mh * d < mh * k && mh > 0;
    assert(d + 1 <= k);
    assert(mh * (d + 1) <= mh * k) by (nonlinear_arith)
        requires d + 1 <= k && mh > 0;
    assert(ax + mh - bx == mh * (d + 1)) by (nonlinear_arith)
        requires ax - bx == mh * d;
}

/// The coordinate bound is itself a multiple of every admissible cell
/// width.
pub proof fn lemma_limit_aligned(l: nat)
    requires
        l <= LEVEL_LIMIT,
    ensures
        aligned(COORD_LIMIT as int, l),
{
    lemma2_to64();
    lemma_pow2_adds(l, (20 - l) as nat);
    let k = pow2i((20 - l) as nat);
    lemma_pow2_pos(l);
    lemma_pow2_pos((20 - l) as nat);
    assert(COORD_LIMIT as int == pow2i(l) * k);
    lemma_mod_multiples_basic(k, pow2i(l));
    assert(k * pow2i(l) == pow2i(l) * k) by (nonlinear_arith);
}

/// One step of the diagonal walk: move one cell toward `b` along an
/// axis that still differs.
pub open spec fn step_toward(a: int, b: int) -> int {
    if a < b {
        a + 1
    } else if a > b {
        a - 1
    } else {
        a
    }
}

/// `(cx, cy)` lies strictly between the origin and the hit on the
/// stepped path from `(px, py)` to `(hx, hy)`: the cells a ray insertion
/// marks passable.
#[verifier::opaque]
pub open spec fn on_ray(cx: int, cy: int, px: int, py: int, hx: int, hy: int) -> bool
    decreases abs_i(hx - px) + abs_i(hy - py),
{
    (px != hx || py != hy) && {
        let nx = step_toward(px, hx);
        let ny = step_toward(py, hy);
        (nx != hx || ny != hy) && ((cx == nx && cy == ny) || on_ray(cx, cy, nx, ny, hx, hy))
    }
}

/// Every cell on the stepped path is strictly closer to the hit than the
/// walk's origin; in particular neither endpoint lies on the path.
pub proof fn lemma_on_ray_closer(cx: int, cy: int, px: int, py: int, hx: int, hy: int)
    requires
        on_ray(cx, cy, px, py, hx, hy),
    ensures
        abs_i(hx - cx) + abs_i(hy - cy) < abs_i(hx - px) + abs_i(hy - py),
        cx != hx || cy != hy,
        cx != px || cy != py,
    decreases abs_i(hx - px) + abs_i(hy - py),
{
    reveal(on_ray);
    let nx = step_toward(px, hx);
    let ny = step_toward(py, hy);
    if cx == nx && cy == ny {
    } else {
        lemma_on_ray_closer(cx, cy, nx, ny, hx, hy);
    }
}

/// Nothing lies on a path that starts at its own hit, and a path whose
/// first step reaches the hit is empty.
pub proof fn lemma_on_ray_empty(cx: int, cy: int, px: int, py: int, hx: int, hy: int)
    ensures
        px == hx && py == hy ==> !on_ray(cx, cy, px, py, hx, hy),
        step_toward(px, hx) == hx && step_toward(py, hy) == hy
            ==> !on_ray(cx, cy, px, py, hx, hy),
{
    reveal(on_ray);
}

/// Unfolding the path one step: a cell is on the path exactly when it is
/// the first step or on the path from there.
pub proof fn lemma_on_ray_unfold(cx: int, cy: int, px: int, py: int, hx: int, hy: int)
    requires
        px != hx || py != hy,
        step_toward(px, hx) != hx || step_toward(py, hy) != hy,
    ensures
        on_ray(cx, cy, px, py, hx, hy)
            <==> ((cx == step_toward(px, hx) && cy == step_toward(py, hy))
                || on_ray(cx, cy, step_toward(px, hx), step_toward(py, hy), hx, hy)),
{
    reveal(on_ray);
}

/// Taking one more step extends the stepped path.
pub proof fn lemma_on_ray_step(px: int, py: int, cx: int, cy: int, hx: int, hy: int)
    requires
        (cx == px && cy == py) || on_ray(cx, cy, px, py, hx, hy),
        cx != hx || cy != hy,
        step_toward(cx, hx) != hx || step_toward(cy, hy) != hy,
    ensures
        on_ray(step_toward(cx, hx), step_toward(cy, hy), px, py, hx, hy),
    decreases abs_i(hx - px) + abs_i(hy - py),
{
    reveal(on_ray);
    if cx == px && cy == py {
    } else {
        let nx = step_toward(px, hx);
        let ny = step_toward(py, hy);
        lemma_on_ray_step(nx, ny, cx, cy, hx, hy);
    }
}

/// Computes `2^l` for small `l`.
pub fn pow2_exec(l: usize) -> (r: usize)
    requires
        l <= 20,
    ensures
        r == pow2(l as nat),
        r >= 1,
{
    let mut r: usize = 1;
    let mut i: usize = 0;
    proof { lemma2_to64(); }
    while i < l
        invariant
            i <= l,
            l <= 20,
            r == pow2(i as nat),
        decreases l - i,
    {
        proof {
            lemma_pow2_adds(i as nat, 1);
            lemma2_to64();
            if i < 20 {
                lemma_pow2_strictly_increases(i as nat, 20);
            }
        }
        r = r * 2;
        i = i + 1;
    }
    r
}

/// Rounds `x` down to the nearest multiple of `2^l`.
pub fn align_down(x: isize, l: usize) -> (r: isize)
    requires
        0 <= x,
        x < COORD_LIMIT,
        l <= LEVEL_LIMIT,
    ensures
        r == align_spec(x as int, l as nat),
{
    let m = pow2_exec(l);
    let xu = x as usize;
    let rem = xu % m;
    proof {
        lemma_pow2_pos(l as nat);
        lemma_fundamental_div_mod(xu as int, m as int);
        lemma_mod_division_less_than_divisor(xu as int, m as int);
        lemma_div_pos_is_pos(xu as int, m as int);
    }
    let r = xu - rem;
    r as isize
}

/// Aligns a world coordinate to the grid of the given level, producing
/// the address whose region contains it.
pub fn encode(coord: ACoord, level: usize) -> (r: HCoord)
    requires
        0 <= coord.x < COORD_LIMIT,
        0 <= coord.y < COORD_LIMIT,
        level <= LEVEL_LIMIT,
    ensures
        r.l == level,
        r.x == align_spec(coord.x as int, level as nat),
        r.y == align_spec(coord.y as int, level as nat),
        addr_ok(r),
        encloses(r, coord.x as int, coord.y as int),
{
    let x = align_down(coord.x, level);
    let y = align_down(coord.y, level);
    proof {
        lemma_align_basics(coord.x as int, level as nat);
        lemma_align_basics(coord.y as int, level as nat);
        lemma_coord_cell_in_limit(coord.x as int, level as nat);
        lemma_coord_cell_in_limit(coord.y as int, level as nat);
    }
    HCoord { l: level, x, y }
}

/// The aligned cell containing a coordinate below `COORD_LIMIT` ends at
/// or before `COORD_LIMIT` itself, because the bound is a power of two.
pub proof fn lemma_coord_cell_in_limit(x: int, l: nat)
    requires
        0 <= x < COORD_LIMIT,
        l <= LEVEL_LIMIT,
    ensures
        align_spec(x, l) + pow2i(l) <= COORD_LIMIT,
{
    lemma2_to64();
    assert(pow2(20) == 0x10_0000) by {
        lemma2_to64();
    }
    assert(aligned(COORD_LIMIT as int, l)) by {
        lemma_pow2_adds(l, (20 - l) as nat);
        let k = pow2i((20 - l) as nat);
        lemma_pow2_pos(l);
        lemma_pow2_pos((20 - l) as nat);
        assert(COORD_LIMIT as int == pow2i(l) * k);
        lemma_mod_multiples_basic(k, pow2i(l));
        assert(k * pow2i(l) == pow2i(l) * k) by (nonlinear_arith);
    }
    lemma_align_basics(x, l);
    let a = align_spec(x, l);
    if a + pow2i(l) > COORD_LIMIT {
        // then COORD_LIMIT would fall strictly inside the cell [a, a + 2^l)
        lemma_align_range(COORD_LIMIT as int, l, a);
        assert(align_spec(COORD_LIMIT as int, l) == a);
        lemma_align_range(COORD_LIMIT as int, l, COORD_LIMIT as int);
        lemma_pow2_pos(l);
        assert(align_spec(COORD_LIMIT as int, l) == COORD_LIMIT as int);
        assert(a == COORD_LIMIT as int);
        assert(a <= x);
        assert(false);
    }
}

/// The address one level coarser whose region contains `addr`'s region.
pub fn parent(addr: &HCoord) -> (r: HCoord)
    requires
        addr_ok(*addr),
        addr.l + 1 <= LEVEL_LIMIT,
    ensures
        r.l == addr.l + 1,
        r.x == align_spec(addr.x as int, (addr.l + 1) as nat),
        r.y == align_spec(addr.y as int, (addr.l + 1) as nat),
        addr_ok(r),
        forall|px: int, py: int| encloses(*addr, px, py) ==> encloses(r, px, py),
{
    proof { lemma_pow2_pos(addr.l as nat); }
    let r = encode(ACoord { x: addr.x, y: addr.y }, addr.l + 1);
    proof {
        let lp = (addr.l + 1) as nat;
        let l = addr.l as nat;
        lemma_align_window(addr.x as int, lp);
        lemma_align_window(addr.y as int, lp);
        lemma_pow2_adds(l, 1);
        lemma2_to64();
        assert(aligned(r.x + pow2i(lp), l) && aligned(r.y + pow2i(lp), l)) by {
            lemma_aligned_weaken(r.x as int, l, lp);
            lemma_aligned_weaken(r.y as int, l, lp);
            lemma_aligned_step(r.x as int, l);
            lemma_aligned_step(r.x + pow2i(l), l);
            lemma_aligned_step(r.y as int, l);
            lemma_aligned_step(r.y + pow2i(l), l);
        }
        if addr.x < r.x + pow2i(lp) {
            lemma_aligned_gap(r.x + pow2i(lp), addr.x as int, l);
        }
        if addr.y < r.y + pow2i(lp) {
            lemma_aligned_gap(r.y + pow2i(lp), addr.y as int, l);
        }
        assert forall|px: int, py: int| encloses(*addr, px, py)
            implies encloses(r, px, py) by {}
    }
    r
}

/// Re-aligns an address to a coarser level; at a level finer than its
/// own, the address is returned unchanged.
pub fn transform(coord: &HCoord, level: usize) -> (r: HCoord)
    requires
        addr_ok(*coord),
        level <= LEVEL_LIMIT,
    ensures
        level < coord.l ==> r == *coord,
        level >= coord.l ==> {
            &&& r.l == level
            &&& r.x == align_spec(coord.x as int, level as nat)
            &&& r.y == align_spec(coord.y as int, level as nat)
        },
        addr_ok(r),
{
    if level < coord.l {
        return *coord;
    }
    proof { lemma_pow2_pos(coord.l as nat); }
    encode(ACoord { x: coord.x, y: coord.y }, level)
}

/// Doubled centroid of an address, used only for distance computation;
/// doubling avoids fractional centers while keeping relative distances
/// exact.
pub fn point(h_coord: HCoord) -> (r: ACoord)
    requires
        addr_ok(h_coord),
    ensures
        r.x == center_x(h_coord),
        r.y == center_y(h_coord),
{
    let span = pow2_exec(h_coord.l) as isize;
    ACoord { x: 2 * h_coord.x + span, y: 2 * h_coord.y + span }
}

/// Manhattan distance between the doubled centroids of two addresses: a
/// consistent ranking and cost proxy across levels, not a metric between
/// world points.
pub fn distance(a: HCoord, b: HCoord) -> (r: usize)
    requires
        addr_ok(a),
        addr_ok(b),
    ensures
        r == dist_spec(a, b),
{
    let pa = point(a);
    let pb = point(b);
    let dx = if pa.x >= pb.x { pa.x - pb.x } else { pb.x - pa.x };
    let dy = if pa.y >= pb.y { pa.y - pb.y } else { pb.y - pa.y };
    (dx + dy) as usize
}

/// The four children of an address, each one level finer, partitioning
/// its region; in grid order (low, east, north, east-north).
pub fn child_hier(hier: &HCoord) -> (r: (HCoord, HCoord, HCoord, HCoord))
    requires
        addr_ok(*hier),
        hier.l >= 1,
    ensures
        ({
            let lh = (hier.l - 1) as nat;
            let dh = pow2i(lh);
            &&& r.0 == (HCoord { l: (hier.l - 1) as usize, x: hier.x, y: hier.y })
            &&& r.1 == (HCoord { l: (hier.l - 1) as usize, x: (hier.x + dh) as isize, y: hier.y })
            &&& r.2 == (HCoord { l: (hier.l - 1) as usize, x: hier.x, y: (hier.y + dh) as isize })
            &&& r.3 == (HCoord { l: (hier.l - 1) as usize, x: (hier.x + dh) as isize, y: (hier.y + dh) as isize })
        }),
{
    let l = hier.l - 1;
    let dh = pow2_exec(l) as isize;
    proof {
        lemma_pow2_pos((hier.l - 1) as nat);
        lemma_pow2_adds((hier.l - 1) as nat, 1);
        lemma2_to64();
    }
    (
        HCoord { l, x: hier.x, y: hier.y },
        HCoord { l, x: hier.x + dh, y: hier.y },
        HCoord { l, x: hier.x, y: hier.y + dh },
        HCoord { l, x: hier.x + dh, y: hier.y + dh },
    )
}

/// The 2x2 group of level-`level` addresses that share the level-`level + 1`
/// parent of `node`: the grid siblings that bubble-merge together.
pub fn grid_hier(node: &ACoord, level: usize) -> (r: (HCoord, HCoord, HCoord, HCoord))
    requires
        0 <= node.x < COORD_LIMIT,
        0 <= node.y < COORD_LIMIT,
        level + 1 <= LEVEL_LIMIT,
    ensures
        ({
            let px = align_spec(node.x as int, (level + 1) as nat);
            let py = align_spec(node.y as int, (level + 1) as nat);
            let dh = pow2i(level as nat);
            &&& r.0 == (HCoord { l: level, x: px as isize, y: py as isize })
            &&& r.1 == (HCoord { l: level, x: (px + dh) as isize, y: py as isize })
            &&& r.2 == (HCoord { l: level, x: px as isize, y: (py + dh) as isize })
            &&& r.3 == (HCoord { l: level, x: (px + dh) as isize, y: (py + dh) as isize })
        }),
{
    let dh = pow2_exec(level) as isize;
    let x = align_down(node.x, level + 1);
    let y = align_down(node.y, level + 1);
    proof {
        lemma_align_basics(node.x as int, (level + 1) as nat);
        lemma_align_basics(node.y as int, (level + 1) as nat);
        lemma_coord_cell_in_limit(node.x as int, (level + 1) as nat);
        lemma_coord_cell_in_limit(node.y as int, (level + 1) as nat);
        lemma_pow2_adds(level as nat, 1);
        lemma2_to64();
    }
    (
        HCoord { l: level, x, y },
        HCoord { l: level, x: x + dh, y },
        HCoord { l: level, x, y: y + dh },
        HCoord { l: level, x: x + dh, y: y + dh },
    )
}

} // verus!
