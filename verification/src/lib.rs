//! An incremental path-planning core for an agent exploring a partially
//! known 2-D world: hierarchical addressing over a region quadtree, a sparse
//! occupancy map kept structurally compressed under point updates, an
//! indirect min-priority queue with authoritative keys, and a D* Lite
//! planner with an A*/best-first oracle beside it.

pub mod types;
pub mod hier;
pub mod assoc;
pub mod quad;
pub mod pqueue;
pub mod proximity;
pub mod spatial;
pub mod grid;
pub mod quadrant_grid;
pub mod plan;
pub mod d_star;
pub mod best_first;
pub mod a_star;
pub mod lidar;
pub mod sabrina;
pub mod representation;
pub mod spatial_source;
