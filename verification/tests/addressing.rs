use sabrina::hier::{encode, point, distance, child_hier, grid_hier, transform};
use sabrina::proximity::edge_neighbors;
use sabrina::quad::QuadTree;
use sabrina::spatial::SpatialMap;
use sabrina::grid::Grid;
use sabrina::types::{ACoord, Belief, HCoord};

#[test]
fn encode_aligns() {
    let e = encode(ACoord { x: 5, y: 6 }, 2);
    assert_eq!(e, HCoord { l: 2, x: 4, y: 4 });
    let e0 = encode(ACoord { x: 5, y: 6 }, 0);
    assert_eq!(e0, HCoord { l: 0, x: 5, y: 6 });
    let t = transform(&e0, 3);
    assert_eq!(t, HCoord { l: 3, x: 0, y: 0 });
}

#[test]
fn centers_and_distance() {
    // doubled centroids avoid fractional centers
    let a = HCoord { l: 0, x: 1, y: 1 };
    let p = point(a);
    assert_eq!(p, ACoord { x: 3, y: 3 });
    let b = HCoord { l: 1, x: 2, y: 0 };
    let q = point(b);
    assert_eq!(q, ACoord { x: 6, y: 2 });
    assert_eq!(distance(a, b), 4);
    assert_eq!(distance(b, a), 4);
}

#[test]
fn children_partition() {
    let parent = HCoord { l: 1, x: 2, y: 0 };
    let cs = child_hier(&parent);
    assert_eq!(cs.0, HCoord { l: 0, x: 2, y: 0 });
    assert_eq!(cs.1, HCoord { l: 0, x: 3, y: 0 });
    assert_eq!(cs.2, HCoord { l: 0, x: 2, y: 1 });
    assert_eq!(cs.3, HCoord { l: 0, x: 3, y: 1 });
    let g = grid_hier(&ACoord { x: 3, y: 1 }, 0);
    assert_eq!(g.0, HCoord { l: 0, x: 2, y: 0 });
    assert_eq!(g.3, HCoord { l: 0, x: 3, y: 1 });
}

#[test]
fn round_trip_addressing() {
    // level-0 encoding is exact for every observed coordinate
    let mut map = QuadTree::init(3);
    map.update_belief(&ACoord { x: 2, y: 3 }, Belief::Occupied);
    let e = map.encode(ACoord { x: 2, y: 3 });
    assert_eq!(e.l, 0);
    assert_eq!(map.decode(e), ACoord { x: 2, y: 3 });
    // the flat grid round-trips every coordinate
    let g = Grid::new();
    let c = ACoord { x: -7, y: 11 };
    assert_eq!(g.decode(g.encode(c)), c);
}

#[test]
fn neighbor_symmetry() {
    let mut map = QuadTree::init(2);
    map.update_belief(&ACoord { x: 0, y: 0 }, Belief::Occupied);
    // the supercell split into four level-0 regions
    assert_eq!(map.information.len(), 4);
    let a = HCoord { l: 0, x: 0, y: 0 };
    let b = HCoord { l: 0, x: 1, y: 0 };
    let na = edge_neighbors(&map, a);
    let nb = edge_neighbors(&map, b);
    assert!(na.contains(&b));
    assert!(nb.contains(&a));
    // an asymmetric pair never appears: every listed neighbor lists back
    for n in na.iter() {
        assert!(edge_neighbors(&map, *n).contains(&a));
    }
}

#[test]
fn heterogeneous_neighbors() {
    let mut map = QuadTree::init(3);
    // refine the south-west corner, keep the rest coarse
    map.update_belief(&ACoord { x: 0, y: 0 }, Belief::Occupied);
    let fine = HCoord { l: 0, x: 0, y: 0 };
    let n = edge_neighbors(&map, fine);
    // east and north neighbors exist at level 0; nothing to the west or south
    assert!(n.contains(&HCoord { l: 0, x: 1, y: 0 }));
    assert!(n.contains(&HCoord { l: 0, x: 0, y: 1 }));
    assert_eq!(n.len(), 2);
}
