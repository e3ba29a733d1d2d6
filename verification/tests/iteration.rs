use sabrina::plan::{BackwardIter, ForwardIter};
use sabrina::types::ACoord;

#[test]
fn test_plan_iteration() {
    let x = vec![
        ACoord { x: 1, y: 1 },
        ACoord { x: 2, y: 2 },
        ACoord { x: 3, y: 3 },
    ];
    let mut forward_plan = ForwardIter::new(&x);
    let mut i = 0;
    while let Some(a) = forward_plan.next() {
        assert!(a == x[i]);
        i += 1;
    }
    assert!(i == x.len());
    let mut reference_plan = ForwardIter::new(&x);
    let y = vec![
        ACoord { x: 3, y: 3 },
        ACoord { x: 2, y: 2 },
        ACoord { x: 1, y: 1 },
    ];
    let mut backward_plan = BackwardIter::new(&y);
    loop {
        match (reference_plan.next(), backward_plan.next()) {
            (Some(a), Some(d)) => assert!(a == d),
            (None, None) => break,
            _ => panic!("iterators disagreed in length"),
        }
    }
}
