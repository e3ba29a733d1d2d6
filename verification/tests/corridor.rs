use sabrina::a_star::astar;
use sabrina::d_star::DStarPlanner;
use sabrina::plan::Planner;
use sabrina::quad::QuadTree;
use sabrina::types::{ACoord, Belief};

// A 19 x 4 corridor with a single interior wall: the wall column leaves a
// passage only along the bottom row.
fn corridor() -> QuadTree {
    let mut map = QuadTree::init(6);
    for y in 0..4isize {
        for x in 0..19isize {
            let wall = x == 9 && y >= 1;
            let b = if wall { Belief::Occupied } else { Belief::Free };
            map.update_belief(&ACoord { x, y }, b);
        }
    }
    map
}

#[test]
fn corridor_agreement() {
    let map = corridor();
    let source = ACoord { x: 1, y: 1 };
    let target = ACoord { x: 18, y: 3 };
    let mut dstar: DStarPlanner<QuadTree> = DStarPlanner::new();
    let d_plan = dstar.plan(&map, source, target).expect("dstar found no route");
    let a_plan = astar(&map, source, target);
    // both planners produce a route of identical total step count
    assert_eq!(d_plan.plan.len(), a_plan.plan.len());
    let mut d_sorted: Vec<ACoord> = d_plan.plan.clone();
    let mut a_sorted: Vec<ACoord> = a_plan.plan.clone();
    d_sorted.sort_by_key(|c| (c.x, c.y));
    a_sorted.sort_by_key(|c| (c.x, c.y));
    assert_eq!(d_sorted, a_sorted);
}
