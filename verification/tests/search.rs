use convex_hull::{binary_search_angles, Center, Point, SearchError};

fn pt(x: i32, y: i32) -> Point {
    Point { x, y }
}

fn pts(coordinates: &[(i32, i32)]) -> Vec<Point> {
    coordinates.iter().map(|c| pt(c.0, c.1)).collect()
}

/// Four points at 0, 90, 180 and 270 degrees around the origin.
fn compass() -> Vec<Point> {
    pts(&[(10, 0), (0, 10), (-10, 0), (0, -10)])
}

#[test]
fn query_at_45_degrees_lies_between_the_first_two_points() {
    let center = Center::at(&pt(0, 0));
    // as near to the point at 0 degrees as to the point at 90 degrees: the
    // answer is the later of the two
    assert_eq!(binary_search_angles(&compass(), &center, &pt(5, 5)), Ok(1));
    // a little before and a little after
    assert_eq!(binary_search_angles(&compass(), &center, &pt(500, 499)), Ok(0));
    assert_eq!(binary_search_angles(&compass(), &center, &pt(499, 500)), Ok(1));
}

#[test]
fn query_at_359_degrees_lies_in_the_bracket_that_closes_the_turn() {
    let center = Center::at(&pt(0, 0));
    // 1000 to the right and 17 down: 359 degrees, to the hundredth; the
    // bracket is that of the last point, and the turn to the first point is
    // counted from 0, so the last point is the nearer
    assert_eq!(binary_search_angles(&compass(), &center, &pt(1000, -17)), Ok(3));
}

#[test]
fn answer_is_the_nearer_end_of_the_bracket() {
    let center = Center::at(&pt(0, 0));
    let points = compass();
    assert_eq!(binary_search_angles(&points, &center, &pt(7, 1)), Ok(0));
    assert_eq!(binary_search_angles(&points, &center, &pt(1, 7)), Ok(1));
    assert_eq!(binary_search_angles(&points, &center, &pt(-1, 7)), Ok(1));
    assert_eq!(binary_search_angles(&points, &center, &pt(-7, 1)), Ok(2));
    assert_eq!(binary_search_angles(&points, &center, &pt(-7, -1)), Ok(2));
    assert_eq!(binary_search_angles(&points, &center, &pt(-1, -7)), Ok(3));
    assert_eq!(binary_search_angles(&points, &center, &pt(1, -7)), Ok(3));
    assert_eq!(binary_search_angles(&points, &center, &pt(7, -1)), Ok(3));
}

#[test]
fn query_at_80_degrees_is_nearest_to_the_point_at_90_degrees() {
    let center = Center::at(&pt(0, 0));
    let points = pts(&[(1, 0), (0, 1), (-1, 0), (0, -1)]);
    assert_eq!(binary_search_angles(&points, &center, &pt(1, 6)), Ok(1));
    assert_eq!(binary_search_angles(&points, &center, &pt(6, 1)), Ok(0));
}

#[test]
fn of_two_points_the_nearer_is_the_answer() {
    let center = Center::at(&pt(0, 0));
    // the points at 90 and at 180 degrees, and a query at 171.9 degrees
    let two = pts(&[(0, 1), (-1, 0)]);
    assert_eq!(binary_search_angles(&two, &center, &pt(-100000, 14255)), Ok(1));
    assert_eq!(binary_search_angles(&two, &center, &pt(-14255, 100000)), Ok(0));
    // the same behind a point at 0 degrees
    let three = pts(&[(1, 0), (0, 1), (-1, 0)]);
    assert_eq!(binary_search_angles(&three, &center, &pt(-100000, 14255)), Ok(2));
    assert_eq!(binary_search_angles(&three, &center, &pt(-14255, 100000)), Ok(1));
}

#[test]
fn one_point_is_the_answer_whatever_the_query() {
    let center = Center::at(&pt(0, 0));
    assert_eq!(binary_search_angles(&pts(&[(0, 1)]), &center, &pt(1000, 1557)), Ok(0));
    assert_eq!(binary_search_angles(&pts(&[(10, 0)]), &center, &pt(5, 5)), Ok(0));
    assert_eq!(binary_search_angles(&pts(&[(10, 0)]), &center, &pt(-5, -5)), Ok(0));
    assert_eq!(binary_search_angles(&pts(&[(10, 0)]), &center, &pt(0, 0)), Ok(0));
}

#[test]
fn direction_of_a_point_is_nearest_to_that_point() {
    let center = Center::at(&pt(0, 0));
    let points = compass();
    assert_eq!(binary_search_angles(&points, &center, &pt(3, 0)), Ok(0));
    assert_eq!(binary_search_angles(&points, &center, &pt(0, 3)), Ok(1));
    assert_eq!(binary_search_angles(&points, &center, &pt(-3, 0)), Ok(2));
    assert_eq!(binary_search_angles(&points, &center, &pt(0, -3)), Ok(3));
    assert_eq!(binary_search_angles(&points, &center, &pt(10, 0)), Ok(0));
    assert_eq!(binary_search_angles(&points, &center, &pt(0, -10)), Ok(3));
}

#[test]
fn distance_of_the_query_does_not_matter() {
    let center = Center::at(&pt(0, 0));
    let points = compass();
    assert_eq!(binary_search_angles(&points, &center, &pt(2, 1)), Ok(0));
    assert_eq!(binary_search_angles(&points, &center, &pt(2_000_000, 1_000_000)), Ok(0));
    assert_eq!(binary_search_angles(&points, &center, &pt(1_000_000, 2_000_000)), Ok(1));
    // just below 315 degrees, and just above 135 degrees
    assert_eq!(binary_search_angles(&points, &center, &pt(i32::MAX, i32::MIN)), Ok(3));
    assert_eq!(binary_search_angles(&points, &center, &pt(i32::MIN, i32::MAX)), Ok(2));
    // just below 135 degrees
    assert_eq!(binary_search_angles(&points, &center, &pt(i32::MIN + 2, i32::MAX)), Ok(1));
}

#[test]
fn search_follows_a_center_away_from_the_origin() {
    let center = Center::at(&pt(100, -50));
    let points = pts(&[(110, -50), (100, -40), (90, -50), (100, -60)]);
    assert_eq!(binary_search_angles(&points, &center, &pt(107, -49)), Ok(0));
    assert_eq!(binary_search_angles(&points, &center, &pt(99, -43)), Ok(1));
    assert_eq!(binary_search_angles(&points, &center, &pt(93, -49)), Ok(2));
    assert_eq!(binary_search_angles(&points, &center, &pt(93, -51)), Ok(2));
    assert_eq!(binary_search_angles(&points, &center, &pt(1100, -67)), Ok(3));
}

#[test]
fn search_around_a_centroid_between_lattice_points() {
    // the centroid of the first three points is (2/3, 1/3); from it the points
    // are seen at 315, 78.7, 191.3 and 254.1 degrees
    let points = pts(&[(2, -1), (1, 2), (-1, 0), (0, -2)]);
    let center = Center::centroid(&points[0], &points[1], &points[2]);
    assert!(!center.is_at(&pt(0, 0)));
    assert!(!center.is_at(&pt(1, 0)));
    // (2, 1) is seen at 26.6 degrees: 71.6 after the first point, 52.1 before the second
    assert_eq!(binary_search_angles(&points, &center, &pt(2, 1)), Ok(1));
    // (0, 2) at 111.8 degrees: 33.1 after the second point
    assert_eq!(binary_search_angles(&points, &center, &pt(0, 2)), Ok(1));
    // (-1, -1) at 218.7 degrees: 27.4 after the third point, 35.4 before the fourth
    assert_eq!(binary_search_angles(&points, &center, &pt(-1, -1)), Ok(2));
    // (1, -2) at 278.1 degrees and (1, -1) at 284 degrees: after the last point
    assert_eq!(binary_search_angles(&points, &center, &pt(1, -2)), Ok(3));
    assert_eq!(binary_search_angles(&points, &center, &pt(1, -1)), Ok(3));
    // (1, 0) is seen in the very direction of the first point
    assert_eq!(binary_search_angles(&points, &center, &pt(1, 0)), Ok(0));
    // (1, 1) at 63.4 degrees: 15.3 before the second point
    assert_eq!(binary_search_angles(&points, &center, &pt(1, 1)), Ok(1));
}

#[test]
fn search_among_many_points() {
    // the lattice points nearest to a circle of radius 1000, every twelve degrees
    let steps: [(i32, i32); 30] = [
        (1000, 0),
        (978, 208),
        (914, 407),
        (809, 588),
        (669, 743),
        (500, 866),
        (309, 951),
        (105, 995),
        (-105, 995),
        (-309, 951),
        (-500, 866),
        (-669, 743),
        (-809, 588),
        (-914, 407),
        (-978, 208),
        (-1000, 0),
        (-978, -208),
        (-914, -407),
        (-809, -588),
        (-669, -743),
        (-500, -866),
        (-309, -951),
        (-105, -995),
        (105, -995),
        (309, -951),
        (500, -866),
        (669, -743),
        (809, -588),
        (914, -407),
        (978, -208),
    ];
    let points = pts(&steps);
    let center = Center::at(&pt(0, 0));
    for i in 0..points.len() {
        let a = points[i];
        let b = points[(i + 1) % points.len()];
        assert_eq!(binary_search_angles(&points, &center, &a), Ok(i));
        // three degrees after `a`, and three degrees before `b`
        let early = pt(3 * a.x + b.x, 3 * a.y + b.y);
        let late = pt(a.x + 3 * b.x, a.y + 3 * b.y);
        assert_eq!(binary_search_angles(&points, &center, &early), Ok(i));
        if i + 1 < points.len() {
            assert_eq!(binary_search_angles(&points, &center, &late), Ok(i + 1));
        } else {
            assert_eq!(binary_search_angles(&points, &center, &late), Ok(i));
        }
    }
}

#[test]
fn query_at_the_center_has_no_direction() {
    let center = Center::at(&pt(0, 0));
    assert_eq!(
        binary_search_angles(&compass(), &center, &pt(0, 0)),
        Err(SearchError::InvariantViolation)
    );
}

#[test]
fn no_points_give_no_answer() {
    let center = Center::at(&pt(0, 0));
    assert_eq!(
        binary_search_angles(&Vec::new(), &center, &pt(1, 1)),
        Err(SearchError::InvariantViolation)
    );
}

#[test]
fn bracket_of_half_a_turn_or_more_is_a_violation() {
    let center = Center::at(&pt(0, 0));
    // clockwise: the first point is seen three quarters of a turn before the second
    let square = pts(&[(10, 0), (0, -10), (-10, 0), (0, 10)]);
    assert_eq!(
        binary_search_angles(&square, &center, &pt(5, 5)),
        Err(SearchError::InvariantViolation)
    );
    let three = pts(&[(0, -1), (-1, 0), (0, 1)]);
    assert_eq!(
        binary_search_angles(&three, &center, &pt(1, 1)),
        Err(SearchError::InvariantViolation)
    );
    // two points: the second is seen three quarters of a turn before the first
    let two = pts(&[(0, 1), (-1, 0)]);
    assert_eq!(
        binary_search_angles(&two, &center, &pt(0, -1)),
        Err(SearchError::InvariantViolation)
    );
}

#[test]
fn center_outside_the_points_is_a_violation() {
    // seen from (0, -100) all four points lie in a narrow cone upwards, so the
    // last is seen more than half a turn before the first
    let center = Center::at(&pt(0, -100));
    assert_eq!(
        binary_search_angles(&compass(), &center, &pt(-100, -130)),
        Err(SearchError::InvariantViolation)
    );
    assert_eq!(
        binary_search_angles(&compass(), &center, &pt(0, -200)),
        Err(SearchError::InvariantViolation)
    );
}

#[test]
fn center_tells_directions_apart() {
    let center = Center::at(&pt(0, 0));
    let east = pt(10, 0);
    // signed areas and scalar products are measured on the lattice scaled by three
    assert_eq!(center.area(&east, &pt(0, 10)), 900);
    assert_eq!(center.area(&pt(0, 10), &east), -900);
    assert_eq!(center.area(&east, &pt(-20, 0)), 0);
    assert_eq!(center.scalar(&east, &pt(-20, 0)), -1800);
    assert_eq!(center.scalar(&east, &pt(3, 4)), 270);
    assert!(!center.in_second_half(&east, &east));
    assert!(!center.in_second_half(&east, &pt(-5, 1)));
    assert!(center.in_second_half(&east, &pt(-5, 0)));
    assert!(center.in_second_half(&east, &pt(5, -1)));
    assert!(center.in_second_half(&east, &pt(0, 0)));
    assert!(center.meets_before(&east, &pt(5, 5), &pt(-5, 5)));
    assert!(!center.meets_before(&east, &pt(-5, 5), &pt(5, 5)));
    assert!(center.meets_before(&east, &pt(-5, 5), &pt(5, -5)));
    assert!(center.meets_before(&east, &east, &pt(5, -1)));
    assert!(!center.meets_before(&east, &pt(5, -1), &east));
    assert!(!center.meets_before(&east, &pt(5, 5), &pt(7, 7)));
}

#[test]
fn centroid_is_the_mean_of_three_points() {
    let center = Center::centroid(&pt(0, 0), &pt(6, 0), &pt(0, 9));
    assert!(center.is_at(&pt(2, 3)));
    assert!(!center.is_at(&pt(2, 2)));
    let far = Center::centroid(&pt(i32::MAX, i32::MIN), &pt(i32::MAX, i32::MIN), &pt(i32::MAX, i32::MIN));
    assert!(far.is_at(&pt(i32::MAX, i32::MIN)));
    assert_eq!(far.area(&pt(i32::MIN, i32::MIN), &pt(i32::MIN, i32::MAX)), {
        let span = 3 * (i32::MAX as i128 - i32::MIN as i128);
        -(span * span)
    });
}
