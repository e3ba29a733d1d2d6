use sabrina::a_star::astar;
use sabrina::d_star::DStarPlanner;
use sabrina::plan::Planner;
use sabrina::quad::QuadTree;
use sabrina::types::{ACoord, Belief};

fn maze() -> QuadTree {
    // a 4 x 4 world: two free corridors joined only on the east side
    let mut map = QuadTree::init(3);
    let rows: [[Belief; 4]; 4] = [
        [Belief::Free, Belief::Free, Belief::Free, Belief::Free],
        [Belief::Occupied, Belief::Occupied, Belief::Occupied, Belief::Free],
        [Belief::Free, Belief::Free, Belief::Free, Belief::Free],
        [Belief::Occupied, Belief::Occupied, Belief::Free, Belief::Free],
    ];
    for y in 0..4isize {
        for x in 0..4isize {
            map.update_belief(&ACoord { x, y }, rows[y as usize][x as usize]);
        }
    }
    map
}

#[test]
fn planner_oracle_agreement() {
    // on a fixed known map the D* Lite route and the A* route agree in
    // length and visit the same coordinates
    let map = maze();
    let source = ACoord { x: 0, y: 0 };
    let target = ACoord { x: 0, y: 2 };
    let mut dstar: DStarPlanner<QuadTree> = DStarPlanner::new();
    let d_plan = dstar.plan(&map, source, target).expect("dstar found no route");
    let a_plan = astar(&map, source, target);
    assert_eq!(d_plan.plan.len(), a_plan.plan.len());
    let mut d_sorted: Vec<ACoord> = d_plan.plan.clone();
    let mut a_sorted: Vec<ACoord> = a_plan.plan.clone();
    d_sorted.sort_by_key(|c| (c.x, c.y));
    a_sorted.sort_by_key(|c| (c.x, c.y));
    assert_eq!(d_sorted, a_sorted);
    // the D* route reads start to goal
    assert_eq!(*d_plan.plan.last().unwrap(), target);
    // the A* oracle route reads goal to start
    assert_eq!(a_plan.plan[0], target);
}

#[test]
fn occupied_goal_is_no_route() {
    let map = maze();
    let mut dstar: DStarPlanner<QuadTree> = DStarPlanner::new();
    let r = dstar.plan(&map, ACoord { x: 0, y: 0 }, ACoord { x: 0, y: 1 });
    assert!(r.is_none());
}

#[test]
fn incremental_vs_fresh() {
    // replanning via update + plan after one discovery equals a fresh
    // plan on the same map
    let mut map = QuadTree::init(3);
    for y in 0..4isize {
        for x in 0..4isize {
            let b = if y == 1 && (x == 0 || x == 1) {
                Belief::Occupied
            } else {
                Belief::Free
            };
            map.update_belief(&ACoord { x, y }, b);
        }
    }
    let source = ACoord { x: 0, y: 0 };
    let target = ACoord { x: 0, y: 2 };
    let mut incremental: DStarPlanner<QuadTree> = DStarPlanner::new();
    let first = incremental.plan(&map, source, target);
    assert!(first.is_some());
    // discover that (2, 1) is blocked after all: the discovery is folded
    // in on both sides of the map change, covering the invalidated coarse
    // region and the refined cells that replace it
    let obstacle = ACoord { x: 2, y: 1 };
    incremental.update(&map, source, obstacle);
    map.update_belief(&obstacle, Belief::Occupied);
    incremental.update(&map, source, obstacle);
    let revised = incremental
        .plan(&map, source, target)
        .expect("revised plan missing");
    let mut fresh: DStarPlanner<QuadTree> = DStarPlanner::new();
    let clean = fresh.plan(&map, source, target).expect("fresh plan missing");
    assert_eq!(revised.plan, clean.plan);
}
