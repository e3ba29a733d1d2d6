use sabrina::pqueue::IPQueue;
use sabrina::types::StarKey;

#[test]
fn test_push_pop() {
    let mut h: IPQueue<usize, usize> = IPQueue::new();

    h.push(5, 10);
    h.push(1, 20);
    assert_eq!(Some((5, 10)), h.pop());
    h.clear();
    assert_eq!(None, h.pop());

    h.push(2, 10);
    h.push(1, 20);
    h.push(2, 30);

    assert_eq!(Some((1, 20)), h.pop());
    assert_eq!(Some((2, 30)), h.pop());
    assert_eq!(None, h.pop());
}

#[test]
fn test_peek() {
    let mut h: IPQueue<usize, usize> = IPQueue::new();

    h.push(5, 10);
    h.push(1, 20);
    assert_eq!(Some((5, 10)), h.peek());
    h.clear();
    assert_eq!(None, h.pop());

    h.push(5, 10);
    h.push(2, 30);

    assert_eq!(Some((5, 10)), h.peek());
    assert_eq!(Some((5, 10)), h.pop());
    assert_eq!(Some((2, 30)), h.peek());
    assert_eq!(Some((2, 30)), h.pop());
    assert_eq!(None, h.pop());
}

#[test]
fn ordering() {
    let mut pqueue: IPQueue<StarKey, usize> = IPQueue::new();
    pqueue.push(
        1,
        StarKey {
            cost_astar: 0,
            cost_dijkstra: 0,
        },
    );
    pqueue.push(
        0,
        StarKey {
            cost_astar: 20,
            cost_dijkstra: 20,
        },
    );
    let (identity, _) = pqueue.pop().unwrap();
    assert_eq!(1, identity)
}

#[test]
fn removed_identity_stays_out() {
    let mut h: IPQueue<usize, usize> = IPQueue::new();
    h.push(2, 5);
    h.push(7, 1);
    h.remove(&7);
    assert_eq!(Some((2, 5)), h.peek());
    assert_eq!(Some((2, 5)), h.pop());
    assert_eq!(None, h.pop());
    h.push(7, 3);
    assert_eq!(Some((7, 3)), h.pop());
}

#[test]
fn star_key_saturates() {
    let k = StarKey::new(usize::MAX, 7, usize::MAX, 3);
    assert_eq!(k.cost_dijkstra, 7);
    assert_eq!(k.cost_astar, usize::MAX);
    let k2 = StarKey::new(4, 9, 10, 1);
    assert_eq!(k2.cost_dijkstra, 4);
    assert_eq!(k2.cost_astar, 15);
}
