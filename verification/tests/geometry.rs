use invariant_sets::geometry::{distance_sq, inside, midpoint, neat_uniq, Point};

fn pt(x: i64, y: i64) -> Point {
    Point { x, y }
}

#[test]
fn distance_sq_exact() {
    assert_eq!(distance_sq(pt(1, 2), pt(4, 6)), 25);
    assert_eq!(distance_sq(pt(-3, 0), pt(3, 0)), 36);
    assert_eq!(distance_sq(pt(7, -7), pt(7, -7)), 0);
}

#[test]
fn midpoint_rounds_toward_smaller_endpoint() {
    assert_eq!(midpoint(pt(-3, 0), pt(0, 7)), pt(-2, 3));
    assert_eq!(midpoint(pt(0, 7), pt(-3, 0)), pt(-2, 3));
    assert_eq!(midpoint(pt(2, 2), pt(2, 2)), pt(2, 2));
    assert_eq!(midpoint(pt(0, 0), pt(1, 1)), pt(0, 0));
}

#[test]
fn inside_is_inclusive() {
    let min = pt(-2, -2);
    let max = pt(2, 2);
    assert!(inside(pt(0, 0), min, max));
    assert!(inside(pt(-2, 2), min, max));
    assert!(inside(pt(2, -2), min, max));
    assert!(!inside(pt(3, 0), min, max));
    assert!(!inside(pt(0, -3), min, max));
}

#[test]
fn neat_uniq_collapses_adjacent_runs() {
    let a = pt(1, 1);
    let b = pt(2, 2);
    let v = vec![a, a, b, b, b, a];
    assert_eq!(neat_uniq(v), vec![a, b, a]);
    let empty: Vec<Point> = Vec::new();
    assert_eq!(neat_uniq(empty), Vec::<Point>::new());
    assert_eq!(neat_uniq(vec![a, a, a]), vec![a]);
}
