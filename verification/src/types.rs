//! Shared value types: world coordinates, hierarchical addresses, beliefs,
//! bounding boxes, agent status, and the node types of the priority queues.

use vstd::prelude::*;

verus! {

/// A world coordinate in integer units.
#[derive(PartialEq, Eq, Structural, Copy, Clone, Debug, Hash)]
pub struct ACoord {
    pub x: isize,
    pub y: isize,
}

/// A hierarchical address: the square region
/// `[x, x + 2^l) x [y, y + 2^l)`, with `x` and `y` aligned to `2^l`.
#[derive(PartialEq, Eq, Structural, Copy, Clone, Debug, Hash)]
pub struct HCoord {
    pub l: usize,
    pub x: isize,
    pub y: isize,
}

/// Three-valued occupancy classification of a region.
#[derive(PartialEq, Eq, Structural, Copy, Clone, Debug)]
pub enum Belief {
    Free,
    Occupied,
    Unknown,
}

/// Outcome of one leg of navigation.
#[derive(PartialEq, Eq, Structural, Copy, Clone, Debug)]
pub enum Status {
    Enroute,
    Blocked,
    Impossible,
    Complete,
}

/// An axis-aligned bounding box of observed coordinates.
#[derive(Copy, Clone, Debug)]
pub struct Bounds {
    pub min_x: isize,
    pub min_y: isize,
    pub max_x: isize,
    pub max_y: isize,
}

impl Bounds {
    pub fn new(min_x: isize, min_y: isize, max_x: isize, max_y: isize) -> (r: Self)
        ensures
            r.min_x == min_x,
            r.min_y == min_y,
            r.max_x == max_x,
            r.max_y == max_y,
    {
        Self { min_x, min_y, max_x, max_y }
    }
}

/// A plain cost-tagged entry for a min-priority search frontier.
#[derive(PartialEq, Eq, Structural, Copy, Clone, Debug)]
pub struct MinNode<T> {
    pub cost: usize,
    pub coord: T,
}

impl<T: Copy> MinNode<T> {
    pub fn new(cost: usize, coord: T) -> (r: Self)
        ensures
            r.cost == cost,
            r.coord == coord,
    {
        Self { cost, coord }
    }
}

/// The ordered composite key of the D* Lite queue: lexicographic on
/// `(cost_astar, cost_dijkstra)`, where `cost_dijkstra = min(g, rhs)` and
/// `cost_astar = cost_dijkstra + heuristic + key modifier`.
#[derive(PartialEq, Eq, Structural, Copy, Clone, Debug)]
pub struct StarKey {
    pub cost_astar: usize,
    pub cost_dijkstra: usize,
}

impl StarKey {
    /// Builds the key from `g`, `rhs`, the heuristic distance to the start,
    /// and the accumulated key modifier, saturating on overflow.
    pub fn new(g: usize, rhs: usize, h: usize, k: usize) -> (r: Self)
        ensures
            r.cost_dijkstra == min_usize(g, rhs),
            r.cost_astar == sat_add(sat_add(min_usize(g, rhs) as int, h as int) as int, k as int),
    {
        let cost_dijkstra = if g < rhs { g } else { rhs };
        let cost_astar = cost_dijkstra.saturating_add(h).saturating_add(k);
        Self { cost_astar, cost_dijkstra }
    }

    /// Lexicographic "at most" on `(cost_astar, cost_dijkstra)`.
    pub open spec fn le_spec(self, other: Self) -> bool {
        self.cost_astar < other.cost_astar
            || (self.cost_astar == other.cost_astar && self.cost_dijkstra <= other.cost_dijkstra)
    }
}

/// The minimum of two `usize` values, as a spec-level function.
pub open spec fn min_usize(a: usize, b: usize) -> usize {
    if a < b { a } else { b }
}

/// Unsigned saturating addition, as a spec-level function.
pub open spec fn sat_add(a: int, b: int) -> usize {
    if a + b > usize::MAX { usize::MAX as usize } else { (a + b) as usize }
}

/// A queue entry with an identity ordered by a composite key.
#[derive(PartialEq, Eq, Structural, Copy, Clone, Debug)]
pub struct KeyNode<T> {
    pub star_key: StarKey,
    pub coord: T,
}

impl<T: Copy> KeyNode<T> {
    pub fn new(coord: T, g: usize, rhs: usize, h: usize, k: usize) -> (r: Self)
        ensures
            r.coord == coord,
            r.star_key.cost_dijkstra == min_usize(g, rhs),
            r.star_key.cost_astar == sat_add(sat_add(min_usize(g, rhs) as int, h as int) as int, k as int),
    {
        let star_key = StarKey::new(g, rhs, h, k);
        Self { star_key, coord }
    }
}

/// A frontier entry carrying both the heuristic-augmented priority and the
/// cost incurred so far.
#[derive(PartialEq, Eq, Structural, Copy, Clone, Debug)]
pub struct HeurMinNode<T> {
    pub coord: T,
    pub cost: usize,
    pub incurred: usize,
}

impl<T: Copy> HeurMinNode<T> {
    pub fn new(cost: usize, coord: T) -> (r: Self)
        ensures
            r.cost == cost,
            r.coord == coord,
            r.incurred == 0,
    {
        Self { cost, coord, incurred: 0 }
    }
}

} // verus!
