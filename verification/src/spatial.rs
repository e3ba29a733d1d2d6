//! The spatial-map capability the planners consume: encoding between
//! world coordinates and a map's node space, beliefs, structural
//! neighbors, and the distance used as heuristic and edge cost.

use vstd::prelude::*;
use crate::types::{ACoord, Belief};
use crate::pqueue::Identity;

verus! {

/// A spatial index over a partially known world.
///
/// `sm_wf` is the map's well-formedness, preserved by every operation;
/// `sm_coord_in` and `sm_enc_in` delimit the world coordinates and
/// encoded nodes the map can answer for, and neither ever shrinks.
pub trait SpatialMap: Sized {
    type Encoded: Identity;

    /// Structural well-formedness.
    spec fn sm_wf(&self) -> bool;

    /// World coordinates the map handles.
    spec fn sm_coord_in(&self, c: ACoord) -> bool;

    /// Encoded nodes the map handles.
    spec fn sm_enc_in(&self, n: Self::Encoded) -> bool;

    /// The belief reported for an encoded node.
    spec fn sm_belief(&self, n: Self::Encoded) -> Belief;

    /// Whether a world coordinate is believed blocked.
    spec fn sm_obstructed(&self, c: ACoord) -> bool;

    /// The node a world coordinate encodes to.
    spec fn sm_enc(&self, c: ACoord) -> Self::Encoded;

    /// The world coordinate a node decodes to.
    spec fn sm_dec(&self, n: Self::Encoded) -> ACoord;

    /// The cost/heuristic distance between two nodes.
    spec fn sm_dist(&self, a: Self::Encoded, b: Self::Encoded) -> int;

    /// Distances are never negative.
    proof fn sm_dist_nonneg(&self, a: Self::Encoded, b: Self::Encoded)
        ensures
            self.sm_dist(a, b) >= 0,
    ;

    /// One-step reachability: what the map guarantees of every listed
    /// neighbor.
    spec fn sm_adjacent(&self, a: Self::Encoded, b: Self::Encoded) -> bool;

    /// The map can enumerate the neighbors of this node exhaustively.
    spec fn sm_node_known(&self, n: Self::Encoded) -> bool;

    /// No node is its own neighbor.
    proof fn sm_adjacent_irrefl(&self, n: Self::Encoded)
        ensures
            !self.sm_adjacent(n, n),
    ;

    /// Marks the cells leading up to `hit` as passable and `hit` itself
    /// as occupied.
    fn insert_ray(&mut self, pos: ACoord, hit: ACoord)
        requires
            old(self).sm_wf(),
            old(self).sm_coord_in(pos),
            old(self).sm_coord_in(hit),
        ensures
            final(self).sm_wf(),
            forall|c: ACoord| final(self).sm_coord_in(c) == old(self).sm_coord_in(c),
            forall|n: Self::Encoded| final(self).sm_enc_in(n) == old(self).sm_enc_in(n),
    ;

    /// Decides whether the map handles a world coordinate.
    fn coord_check(&self, c: ACoord) -> (r: bool)
        ensures
            r == self.sm_coord_in(c),
    ;

    /// Whether the map believes the world coordinate is blocked.
    fn obstructed(&self, coord: ACoord) -> (r: bool)
        requires
            self.sm_wf(),
            self.sm_coord_in(coord),
        ensures
            r == self.sm_obstructed(coord),
    ;

    /// The belief reported for a node.
    fn belief(&self, node: Self::Encoded) -> (r: Belief)
        requires
            self.sm_wf(),
            self.sm_enc_in(node),
        ensures
            r == self.sm_belief(node),
    ;

    /// The nodes reachable in one step from `node`: each listed node is a
    /// neighbor, and for a known node every neighbor is listed.
    fn neighbors(&self, node: Self::Encoded) -> (v: Vec<Self::Encoded>)
        requires
            self.sm_wf(),
            self.sm_enc_in(node),
        ensures
            forall|i: int| 0 <= i < v@.len() ==> self.sm_enc_in(#[trigger] v@[i]),
            forall|i: int| 0 <= i < v@.len() ==> self.sm_adjacent(node, #[trigger] v@[i]),
            forall|n: Self::Encoded| self.sm_node_known(node) && self.sm_enc_in(n)
                && #[trigger] self.sm_adjacent(node, n) ==> v@.contains(n),
    ;

    /// The cost/heuristic distance between two nodes.
    fn distance(&self, a: Self::Encoded, b: Self::Encoded) -> (r: usize)
        requires
            self.sm_wf(),
            self.sm_enc_in(a),
            self.sm_enc_in(b),
        ensures
            r == self.sm_dist(a, b),
    ;

    /// Encodes a world coordinate.
    fn encode(&self, coord: ACoord) -> (r: Self::Encoded)
        requires
            self.sm_wf(),
            self.sm_coord_in(coord),
        ensures
            r == self.sm_enc(coord),
            self.sm_enc_in(r),
    ;

    /// Decodes a node back to a world coordinate.
    fn decode(&self, node: Self::Encoded) -> (r: ACoord)
        requires
            self.sm_wf(),
            self.sm_enc_in(node),
        ensures
            r == self.sm_dec(node),
    ;
}

} // verus!
