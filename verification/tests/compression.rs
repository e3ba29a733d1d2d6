use sabrina::quad::QuadTree;
use sabrina::types::{ACoord, Belief};

#[test]
fn test_compression() {
    let levels = 2;
    let mut map = QuadTree::init(levels);
    map.update_belief(&ACoord { x: 1, y: 1 }, Belief::Occupied);
    assert_eq!(map.information.len(), 4);
    map.update_belief(&ACoord { x: 1, y: 0 }, Belief::Occupied);
    assert_eq!(map.information.len(), 4);
    map.update_belief(&ACoord { x: 0, y: 0 }, Belief::Occupied);
    assert_eq!(map.information.len(), 4);
    map.update_belief(&ACoord { x: 0, y: 1 }, Belief::Occupied);
    assert_eq!(
        map.get_coord(ACoord { x: 1, y: 1 }),
        Some((1, Belief::Occupied))
    );
    assert_eq!(map.information.len(), 1);
    map.update_belief(&ACoord { x: 1, y: 1 }, Belief::Free);
    assert_eq!(map.information.len(), 4);
    map.update_belief(&ACoord { x: 1, y: 0 }, Belief::Free);
    map.update_belief(&ACoord { x: 0, y: 0 }, Belief::Free);
    map.update_belief(&ACoord { x: 0, y: 1 }, Belief::Free);
    assert_eq!(map.information.len(), 1);
    assert_eq!(map.get_coord(ACoord { x: 1, y: 1 }), Some((1, Belief::Free)));
}

#[test]
fn idempotence() {
    let mut map = QuadTree::init(3);
    map.update_belief(&ACoord { x: 2, y: 1 }, Belief::Occupied);
    let snapshot = map.information.clone();
    map.update_belief(&ACoord { x: 2, y: 1 }, Belief::Occupied);
    assert_eq!(snapshot, map.information);
    map.update_belief(&ACoord { x: 2, y: 1 }, Belief::Occupied);
    assert_eq!(snapshot, map.information);
}

#[test]
fn belief_queries() {
    let mut map = QuadTree::init(3);
    assert_eq!(map.get_coord(ACoord { x: 1, y: 2 }), Some((2, Belief::Unknown)));
    map.update_belief(&ACoord { x: 1, y: 2 }, Belief::Occupied);
    assert!(map.obstructed(ACoord { x: 1, y: 2 }));
    assert!(!map.obstructed(ACoord { x: 0, y: 0 }));
    assert_eq!(map.get_coord(ACoord { x: 1, y: 2 }), Some((0, Belief::Occupied)));
    // a point outside every stored supercell is unknown and gets covered
    let far = ACoord { x: 100, y: 100 };
    assert_eq!(map.get_coord(far), None);
    map.update_belief(&far, Belief::Free);
    assert_eq!(map.get_coord(far), Some((0, Belief::Free)));
}
