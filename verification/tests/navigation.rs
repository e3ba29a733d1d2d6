use sabrina::best_first::BestFirstPlanner;
use sabrina::d_star::DStarPlanner;
use sabrina::grid::Grid;
use sabrina::lidar::Lidar;
use sabrina::quadrant_grid::{QuadrantGrid, QPoint};
use sabrina::representation::{Environment, Object};
use sabrina::sabrina::Sabrina;
use sabrina::spatial::SpatialMap;
use sabrina::types::{ACoord, Belief, Bounds, Status};

fn oracle_with_wall() -> Grid {
    // a 6 x 4 room: wall column at x = 3 with a gap at the top row
    let mut g = Grid::new();
    for y in 0..3isize {
        let c = ACoord { x: 3, y };
        let node = g.encode(c);
        g.put(node, Belief::Occupied);
        g.update_bounds(node);
    }
    g
}

#[test]
fn discovering_navigation() {
    let oracle = oracle_with_wall();
    let source = ACoord { x: 1, y: 1 };
    let target = ACoord { x: 5, y: 1 };
    let environment = Grid::new();
    let lidar = Lidar::new(50, oracle);
    let planner: DStarPlanner<Grid> = DStarPlanner::new();
    let mut sabby = Sabrina::new(source, environment, lidar, planner);
    assert_eq!(Status::Complete, sabby.navigate(target));
    assert_eq!(sabby.position, target);
}

#[test]
fn corridor_navigation() {
    // a 19 x 4 corridor with a single interior wall column at x = 9,
    // open only at the top row, crossed with the best-first planner
    let mut oracle = Grid::new();
    for y in 0..3isize {
        let c = ACoord { x: 9, y };
        let node = oracle.encode(c);
        oracle.put(node, Belief::Occupied);
        oracle.update_bounds(node);
    }
    let source = ACoord { x: 1, y: 1 };
    let target = ACoord { x: 18, y: 3 };
    let environment = Grid::new();
    let lidar = Lidar::new(100, oracle);
    let mut sabby = Sabrina::new(source, environment, lidar, BestFirstPlanner);
    assert_eq!(Status::Complete, sabby.navigate(target));
    assert_eq!(sabby.position, target);
}

#[test]
fn quadrant_round_trip() {
    let g = QuadrantGrid::new();
    for &(x, y) in &[(0isize, 0isize), (5, 3), (-4, 7), (-2, -9), (6, -1)] {
        let c = ACoord { x, y };
        let folded: QPoint = g.transform(c);
        assert_eq!(g.untransform(folded), c);
    }
}

#[test]
fn environment_objects() {
    let bounds = Bounds::new(0, 0, 0, 0);
    let mut env = Environment::new(Vec::new(), bounds);
    let c = ACoord { x: 2, y: 5 };
    assert!(env.path_clear(&c));
    env.insert_object(c, Object::Wall);
    assert!(!env.path_clear(&c));
    assert!(env.path_clear(&ACoord { x: 1, y: 1 }));
}

#[test]
fn raycast_reports_nearest_hit() {
    let oracle = oracle_with_wall();
    // from (1, 1) looking east the wall column at x = 3 is two cells away
    let hit = oracle.raycast(ACoord { x: 1, y: 1 }, ACoord { x: 1, y: 0 }, 50);
    assert_eq!(hit, Some(ACoord { x: 2, y: 0 }));
    // looking west there is nothing recorded within range
    let miss = oracle.raycast(ACoord { x: 1, y: 1 }, ACoord { x: -1, y: 0 }, 10);
    assert_eq!(miss, None);
}
