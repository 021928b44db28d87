use astar::astar;
use astar::point::{IsolatedPoint, Point};
use astar::AStarPoint;

#[test]
fn diag() {
    let a = Point::new(0, 0);
    let b = Point::new(3, 2);
    let path = astar(a, b);
    assert_eq!(path.len(), 6);
    assert_eq!(path.front(), Some(&a));
    assert_eq!(path.back(), Some(&b));
}

#[test]
fn same_start_and_goal() {
    let a = Point::new(5, 5);
    let path = astar(a, a);
    assert_eq!(path.len(), 1);
    assert_eq!(path.front(), Some(&a));
}

#[test]
fn long_diagonal() {
    let a = Point::new(0, 0);
    let b = Point::new(64, 64);
    let path = astar(a, b);
    assert_eq!(path.len(), 129);
    assert_eq!(path.front(), Some(&a));
    assert_eq!(path.back(), Some(&b));
    // The cost recorded along the route grows by exactly one move per step:
    // every consecutive pair is one four-directional move apart.
    for i in 0..path.len() - 1 {
        let p = path[i];
        let q = path[i + 1];
        let d = (p.x - q.x).abs() + (p.y - q.y).abs();
        assert_eq!(d, 1);
    }
}

#[test]
fn neighbors_are_mutual_along_route() {
    let a = Point::new(-2, 3);
    let b = Point::new(4, -1);
    let path = astar(a, b);
    assert!(path.len() > 0);
    for i in 0..path.len() - 1 {
        let p = path[i];
        let q = path[i + 1];
        assert!(p.neighbors().contains(&q));
        assert!(q.neighbors().contains(&p));
    }
}

#[test]
fn unreachable_goal_yields_empty_route() {
    let a = IsolatedPoint { id: 0 };
    let b = IsolatedPoint { id: 7 };
    let path = astar(a, b);
    assert_eq!(path.len(), 0);
}

#[test]
fn isolated_point_still_finds_itself() {
    let a = IsolatedPoint { id: 3 };
    let path = astar(a, a);
    assert_eq!(path.len(), 1);
    assert_eq!(path.front(), Some(&a));
}

#[test]
fn search_is_deterministic() {
    let a = Point::new(0, 0);
    let b = Point::new(3, 2);
    let first = astar(a, b);
    let second = astar(a, b);
    assert_eq!(first, second);
    let c = Point::new(-4, 7);
    let d = Point::new(2, -5);
    assert_eq!(astar(c, d), astar(c, d));
}

#[test]
fn route_never_repeats_a_point() {
    let a = Point::new(0, 0);
    let b = Point::new(5, -3);
    let path = astar(a, b);
    assert!(path.len() > 0);
    for i in 0..path.len() {
        for j in i + 1..path.len() {
            assert_ne!(path[i], path[j]);
        }
    }
}

#[test]
fn route_with_negative_coordinates() {
    let a = Point::new(-2, -2);
    let b = Point::new(1, -2);
    let path = astar(a, b);
    assert_eq!(path.len(), 4);
    assert_eq!(path.front(), Some(&a));
    assert_eq!(path.back(), Some(&b));
}

#[test]
fn manhattan_heuristic_values() {
    let p = Point::new(1, 2);
    let q = Point::new(4, -2);
    assert_eq!(p.heuristic(&q), 7);
    assert_eq!(q.heuristic(&p), 7);
    assert_eq!(p.heuristic(&p), 0);
}

#[test]
fn manhattan_heuristic_saturates() {
    let p = Point::new(i32::MIN, 0);
    let q = Point::new(i32::MAX, 1);
    assert_eq!(p.heuristic(&q), u32::MAX);
}

#[test]
fn grid_move_cost_is_one() {
    assert_eq!(<Point as AStarPoint>::move_cost(), 1);
}

#[test]
fn neighbor_enumeration_order() {
    let p = Point::new(2, 3);
    let n = p.neighbors();
    assert_eq!(
        n,
        vec![
            Point::new(2, 4),
            Point::new(2, 2),
            Point::new(3, 3),
            Point::new(1, 3),
        ]
    );
}

#[test]
fn neighbor_enumeration_at_the_edge_of_range() {
    let p = Point::new(i32::MAX, 5);
    let n = p.neighbors();
    assert_eq!(
        n,
        vec![
            Point::new(i32::MAX, 6),
            Point::new(i32::MAX, 4),
            Point::new(i32::MAX - 1, 5),
        ]
    );
    let q = IsolatedPoint { id: 1 };
    assert_eq!(q.neighbors().len(), 0);
}
