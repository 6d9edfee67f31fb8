use convex_hull::scan::graham_scan;
use convex_hull::sort::{comes_before, sort_around};
use convex_hull::Point;

fn pt(x: i32, y: i32) -> Point {
    Point { x, y }
}

fn pts(coordinates: &[(i32, i32)]) -> Vec<Point> {
    coordinates.iter().map(|c| pt(c.0, c.1)).collect()
}

#[test]
fn direction_to_the_right_comes_before_direction_upwards() {
    let pivot = pt(0, 0);
    assert!(comes_before(&pivot, &pt(1, 0), &pt(0, 1)));
    assert!(!comes_before(&pivot, &pt(0, 1), &pt(1, 0)));
    assert!(comes_before(&pivot, &pt(0, 1), &pt(-1, 0)));
    assert!(comes_before(&pivot, &pt(5, 1), &pt(5, 2)));
    assert!(!comes_before(&pivot, &pt(-5, 1), &pt(-5, 2)));
}

#[test]
fn nearer_point_comes_before_farther_point_in_one_direction() {
    let pivot = pt(0, 0);
    assert!(comes_before(&pivot, &pt(1, 1), &pt(2, 2)));
    assert!(!comes_before(&pivot, &pt(2, 2), &pt(1, 1)));
    assert!(comes_before(&pivot, &pt(2, 0), &pt(4, 0)));
    assert!(!comes_before(&pivot, &pt(4, 0), &pt(2, 0)));
    assert!(comes_before(&pivot, &pt(-2, 1), &pt(-4, 2)));
    assert!(!comes_before(&pivot, &pt(-4, 2), &pt(-2, 1)));
}

#[test]
fn point_comes_before_itself() {
    assert!(comes_before(&pt(0, 0), &pt(3, 4), &pt(3, 4)));
    assert!(comes_before(&pt(-7, 2), &pt(3, 4), &pt(3, 4)));
}

#[test]
fn order_is_taken_from_the_pivot() {
    // from the left, the lower of two points above each other is seen first;
    // from the right, the higher
    assert!(comes_before(&pt(-5, 0), &pt(0, 1), &pt(0, 3)));
    assert!(!comes_before(&pt(-5, 0), &pt(0, 3), &pt(0, 1)));
    assert!(comes_before(&pt(5, 0), &pt(0, 3), &pt(0, 1)));
    assert!(!comes_before(&pt(5, 0), &pt(0, 1), &pt(0, 3)));
}

#[test]
fn points_are_sorted_by_direction_and_then_by_distance() {
    let pivot = pt(0, 0);
    let sorted = sort_around(&pivot, pts(&[(0, 5), (3, 3), (4, 0), (1, 1), (2, 0), (-3, 1)]));
    assert_eq!(sorted, pts(&[(2, 0), (4, 0), (1, 1), (3, 3), (0, 5), (-3, 1)]));
}

#[test]
fn sorting_keeps_points_that_are_given_twice() {
    let pivot = pt(1, 1);
    let sorted = sort_around(&pivot, pts(&[(1, 4), (5, 1), (3, 3), (5, 1), (1, 4), (2, 2)]));
    assert_eq!(sorted, pts(&[(5, 1), (5, 1), (2, 2), (3, 3), (1, 4), (1, 4)]));
}

#[test]
fn sorting_nothing_and_sorting_one_point() {
    let pivot = pt(0, 0);
    assert_eq!(sort_around(&pivot, Vec::new()), Vec::new());
    assert_eq!(sort_around(&pivot, pts(&[(3, 4)])), pts(&[(3, 4)]));
}

#[test]
fn sorting_many_points_gives_each_before_all_later_ones() {
    let pivot = pt(0, 0);
    let mut points = Vec::new();
    for y in 0..9 {
        for x in -8..9 {
            if y > 0 || x > 0 {
                points.push(pt((x * 7) % 9, y));
            }
        }
    }
    let count = points.len();
    let sorted = sort_around(&pivot, points.clone());
    assert_eq!(sorted.len(), count);
    for i in 0..sorted.len() {
        for j in i + 1..sorted.len() {
            assert!(comes_before(&pivot, &sorted[i], &sorted[j]));
        }
    }
    for p in &points {
        let given = points.iter().filter(|q| *q == p).count();
        let kept = sorted.iter().filter(|q| *q == p).count();
        assert_eq!(given, kept);
    }
}

#[test]
fn scan_keeps_the_points_at_which_the_boundary_turns_left() {
    let pivot = pt(0, 0);
    let sorted = pts(&[(2, 0), (4, 0), (1, 1), (3, 3), (0, 5), (-3, 1)]);
    let stack = graham_scan(pivot, &sorted);
    assert_eq!(stack, pts(&[(0, 0), (4, 0), (3, 3), (0, 5), (-3, 1)]));
}

#[test]
fn scan_pops_more_than_one_point_for_a_late_point() {
    let pivot = pt(0, 0);
    // (9, 3) and (7, 5) are pushed one after the other, and both give way to (10, 10)
    let sorted = pts(&[(10, 0), (9, 3), (7, 5), (10, 10), (0, 10)]);
    let stack = graham_scan(pivot, &sorted);
    assert_eq!(stack, pts(&[(0, 0), (10, 0), (10, 10), (0, 10)]));
}

#[test]
fn scan_of_nothing_is_the_pivot_alone() {
    assert_eq!(graham_scan(pt(3, 4), &Vec::new()), pts(&[(3, 4)]));
}

#[test]
fn scan_of_one_direction_is_the_pivot_and_the_farthest_point() {
    let stack = graham_scan(pt(0, 0), &pts(&[(1, 2), (2, 4), (2, 4), (3, 6)]));
    assert_eq!(stack, pts(&[(0, 0), (3, 6)]));
}

#[test]
fn scan_after_sorting_gives_the_hull() {
    let pivot = pt(-2, -3);
    let others = pts(&[(4, 4), (0, 0), (6, -1), (-5, 2), (1, 1), (6, -1), (2, 6), (-1, 3)]);
    let sorted = sort_around(&pivot, others);
    let stack = graham_scan(pivot, &sorted);
    assert_eq!(stack, pts(&[(-2, -3), (6, -1), (4, 4), (2, 6), (-5, 2)]));
}
