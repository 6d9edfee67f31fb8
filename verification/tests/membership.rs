use convex_hull::geometry::signed_area;
use convex_hull::{is_point_in_polygon, is_point_in_polygon_fast, ConvexPoly, Point};
use rand::rngs::StdRng;
use rand::{Rng, SeedableRng};

fn pt(x: i32, y: i32) -> Point {
    Point { x, y }
}

fn pts(coordinates: &[(i32, i32)]) -> Vec<Point> {
    coordinates.iter().map(|c| pt(c.0, c.1)).collect()
}

fn square() -> ConvexPoly {
    ConvexPoly::new(pts(&[(0, 0), (10, 0), (10, 10), (0, 10)])).unwrap()
}

/// Membership by the definition: no edge of the hull has the point strictly
/// to its right.
fn by_definition(poly: &ConvexPoly, p: &Point) -> bool {
    let hull = poly.hull();
    (0..hull.len()).all(|i| signed_area(&hull[i], &hull[(i + 1) % hull.len()], p) >= 0)
}

fn assert_tests_agree(poly: &ConvexPoly, p: &Point) {
    let expected = by_definition(poly, p);
    assert_eq!(is_point_in_polygon(poly, p), expected);
    assert_eq!(is_point_in_polygon_fast(poly, p), expected);
}

#[test]
fn middle_of_the_square_is_inside() {
    assert!(is_point_in_polygon(&square(), &pt(5, 5)));
    assert!(is_point_in_polygon_fast(&square(), &pt(5, 5)));
}

#[test]
fn point_beyond_the_corner_is_outside() {
    assert!(!is_point_in_polygon(&square(), &pt(11, 11)));
    assert!(!is_point_in_polygon_fast(&square(), &pt(11, 11)));
}

#[test]
fn point_on_an_edge_is_inside_for_both_tests() {
    for p in [pt(5, 0), pt(10, 5), pt(5, 10), pt(0, 5), pt(1, 0), pt(0, 9)] {
        assert!(is_point_in_polygon(&square(), &p));
        assert!(is_point_in_polygon_fast(&square(), &p));
    }
}

#[test]
fn vertices_are_inside_for_both_tests() {
    let poly = square();
    for v in poly.hull().clone() {
        assert!(is_point_in_polygon(&poly, &v));
        assert!(is_point_in_polygon_fast(&poly, &v));
    }
}

#[test]
fn points_just_outside_an_edge_are_outside() {
    for p in [pt(5, -1), pt(11, 5), pt(5, 11), pt(-1, 5), pt(-1, -1), pt(11, -1), pt(-1, 11)] {
        assert!(!is_point_in_polygon(&square(), &p));
        assert!(!is_point_in_polygon_fast(&square(), &p));
    }
}

#[test]
fn point_in_the_box_but_outside_the_hull_is_outside() {
    let poly = ConvexPoly::new(pts(&[(0, 0), (10, 0), (0, 10)])).unwrap();
    assert!(!is_point_in_polygon(&poly, &pt(6, 6)));
    assert!(!is_point_in_polygon_fast(&poly, &pt(6, 6)));
    assert!(is_point_in_polygon(&poly, &pt(5, 5)));
    assert!(is_point_in_polygon_fast(&poly, &pt(5, 5)));
    assert!(is_point_in_polygon(&poly, &pt(4, 5)));
    assert!(is_point_in_polygon_fast(&poly, &pt(4, 5)));
}

#[test]
fn centroid_of_the_first_three_vertices_is_inside() {
    // the first three vertices are (0, 0), (9, 0), (9, 9): their centroid is (6, 3)
    let poly = ConvexPoly::new(pts(&[(0, 0), (9, 0), (9, 9), (0, 9)])).unwrap();
    assert!(is_point_in_polygon(&poly, &pt(6, 3)));
    assert!(is_point_in_polygon_fast(&poly, &pt(6, 3)));
}

#[test]
fn every_point_of_the_set_is_inside_its_hull() {
    let points = pts(&[(0, 0), (6, 1), (4, 3), (7, 6), (2, 8), (-3, 4), (1, 4), (3, 3), (2, 8), (5, 5)]);
    let poly = ConvexPoly::new(points.clone()).unwrap();
    for p in &points {
        assert!(is_point_in_polygon(&poly, p));
        assert!(is_point_in_polygon_fast(&poly, p));
    }
}

#[test]
fn tests_agree_on_every_lattice_point_around_a_hull() {
    let poly = ConvexPoly::new(pts(&[(0, 0), (6, 1), (7, 6), (2, 8), (-3, 4), (1, 4)])).unwrap();
    let mut inside = 0;
    for x in -6..=10 {
        for y in -3..=11 {
            let p = pt(x, y);
            assert_tests_agree(&poly, &p);
            if is_point_in_polygon_fast(&poly, &p) {
                inside += 1;
            }
        }
    }
    // by Pick's theorem: the doubled area is 105 and 5 lattice points lie on
    // the boundary, so 51 lie strictly inside
    assert_eq!(inside, 56);
}

#[test]
fn tests_agree_on_a_thin_triangle() {
    let poly = ConvexPoly::new(pts(&[(0, 0), (1000, 1), (1000, 2)])).unwrap();
    for x in -2..=1002 {
        for y in -1..=3 {
            assert_tests_agree(&poly, &pt(x, y));
        }
    }
    assert!(is_point_in_polygon_fast(&poly, &pt(1000, 1)));
    assert!(is_point_in_polygon_fast(&poly, &pt(500, 1)));
    assert!(!is_point_in_polygon_fast(&poly, &pt(500, 2)));
    assert!(!is_point_in_polygon_fast(&poly, &pt(500, 0)));
}

#[test]
fn tests_agree_at_the_ends_of_the_coordinate_range() {
    let (lo, hi) = (i32::MIN, i32::MAX);
    let poly = ConvexPoly::new(pts(&[(lo, lo), (hi, lo), (hi, hi), (lo, hi)])).unwrap();
    for p in [pt(0, 0), pt(lo, lo), pt(hi, hi), pt(lo, 0), pt(hi, -1), pt(-1, hi), pt(0, lo)] {
        assert!(is_point_in_polygon(&poly, &p));
        assert!(is_point_in_polygon_fast(&poly, &p));
    }
    let diamond = ConvexPoly::new(pts(&[(0, lo), (hi, 0), (0, hi), (lo, 0)])).unwrap();
    for p in [pt(0, 0), pt(0, lo), pt(lo, 0), pt(1, 1), pt(hi / 2, hi / 2), pt(lo / 2, lo / 2)] {
        assert_tests_agree(&diamond, &p);
        assert!(is_point_in_polygon_fast(&diamond, &p));
    }
    for p in [pt(hi, hi), pt(lo, lo), pt(hi, lo), pt(lo, hi), pt(hi / 2 + 2, hi / 2 + 2)] {
        assert_tests_agree(&diamond, &p);
        assert!(!is_point_in_polygon_fast(&diamond, &p));
    }
}

#[test]
fn tests_agree_on_a_thousand_random_queries_in_a_circle_around_the_hull() {
    let mut rng = StdRng::seed_from_u64(2024);
    let mut points = Vec::new();
    for _ in 0..37 {
        points.push(pt(rng.gen_range(-250..=250), rng.gen_range(-250..=250)));
    }
    let poly = ConvexPoly::new(points).unwrap();
    // the circle of radius 500 around the origin holds the whole square
    let radius: i64 = 500;
    let mut queries = 0;
    let mut inside = 0;
    while queries < 2000 {
        let (x, y) = (rng.gen_range(-500..=500), rng.gen_range(-500..=500));
        if (x as i64) * (x as i64) + (y as i64) * (y as i64) > radius * radius {
            continue;
        }
        let p = pt(x, y);
        assert_eq!(is_point_in_polygon_fast(&poly, &p), is_point_in_polygon(&poly, &p));
        assert_tests_agree(&poly, &p);
        if is_point_in_polygon(&poly, &p) {
            inside += 1;
        }
        queries += 1;
    }
    assert!(inside > 0 && inside < queries);
}

#[test]
fn tests_agree_on_random_hulls_and_random_queries() {
    let mut rng = StdRng::seed_from_u64(7);
    let mut hulls = 0;
    for round in 0..60 {
        let count = 3 + round % 25;
        let spread = 1 + (round % 7) * 40;
        let mut points = Vec::new();
        for _ in 0..count {
            points.push(pt(rng.gen_range(-spread..=spread), rng.gen_range(-spread..=spread)));
        }
        let poly = match ConvexPoly::new(points.clone()) {
            Ok(poly) => poly,
            Err(_) => continue,
        };
        hulls += 1;
        for p in &points {
            assert!(is_point_in_polygon(&poly, p));
            assert!(is_point_in_polygon_fast(&poly, p));
        }
        for _ in 0..200 {
            let p = pt(rng.gen_range(-2 * spread..=2 * spread), rng.gen_range(-2 * spread..=2 * spread));
            assert_tests_agree(&poly, &p);
        }
    }
    assert!(hulls > 40);
}
