//! Whether a point lies in a convex hull: by a scan of all edges, and by a
//! search for the one edge that decides.
//!
//! A point on the boundary counts as inside, for both tests.

use vstd::prelude::*;
use crate::algebra::{lemma_barycentric, lemma_det_mean};
use crate::center::{lemma_tripled_area, tripled, Center};
use crate::geometry::{det, Orientation, Point, Pt};
use crate::hull::{ConvexPoly, ConvexPolyView};
use crate::polygon::{
    contains, contains_strictly, edge_area, is_convex_polygon, lemma_affine_lower_bound,
    lemma_vertex_left_of_edge, next_index, prev_index,
};
use crate::search::{
    answer_of, binary_search_angles, bracket_of, lemma_bisect_in_range, lemma_search_succeeds,
    nearer_end, seen_in_turn, wedge_at, SearchError,
};

verus! {

/// `p` lies within the bounding box.
pub open spec fn in_box(poly: ConvexPolyView, p: Pt) -> bool {
    poly.x_min <= p.x <= poly.x_max && poly.y_min <= p.y <= poly.y_max
}

/// What the exact test decides: `p` lies within the bounding box and to the
/// left of every edge of the hull, or on it.
pub open spec fn exact_membership(poly: ConvexPolyView, p: Pt) -> bool {
    in_box(poly, p) && contains(poly.hull, p)
}

/// The centroid of the first three vertices, on the lattice scaled by
/// three.
pub open spec fn center_of(hull: Seq<Point>) -> Pt {
    Pt { x: hull[0].x + hull[1].x + hull[2].x, y: hull[0].y + hull[1].y + hull[2].y }
}

/// What the fast test decides: `p` is the center, or the search around the
/// center answers with a vertex and `p` lies to the left of the two edges
/// that meet at that vertex, or on them.
pub open spec fn fast_membership(poly: ConvexPolyView, p: Pt) -> bool {
    let c = center_of(poly.hull);
    let n = poly.hull.len() as int;
    tripled(p) == c || match answer_of(c, poly.hull, tripled(p)) {
        Some(k) => edge_area(poly.hull, prev_index(n, k), p) >= 0 && edge_area(poly.hull, k, p) >= 0,
        None => false,
    }
}

/// The center lies strictly to the left of every edge of a convex polygon.
pub proof fn lemma_center_left_of_edge(hull: Seq<Point>, i: int)
    requires
        is_convex_polygon(hull),
        0 <= i < hull.len(),
    ensures
        det(tripled(hull[i]@), tripled(hull[next_index(hull.len() as int, i)]@), center_of(hull)) > 0,
{
    let u = tripled(hull[i]@);
    let v = tripled(hull[next_index(hull.len() as int, i)]@);
    let (a, b, c) = (tripled(hull[0]@), tripled(hull[1]@), tripled(hull[2]@));
    lemma_det_mean(u, v, 3, 1, 1, 1, a, b, c, center_of(hull));
    lemma_tripled_area(hull[i]@, hull[next_index(hull.len() as int, i)]@, hull[0]@);
    lemma_tripled_area(hull[i]@, hull[next_index(hull.len() as int, i)]@, hull[1]@);
    lemma_tripled_area(hull[i]@, hull[next_index(hull.len() as int, i)]@, hull[2]@);
    lemma_vertex_left_of_edge(hull, i, 0);
    lemma_vertex_left_of_edge(hull, i, 1);
    lemma_vertex_left_of_edge(hull, i, 2);
}

/// The center sees the vertices of a convex polygon in turn.
pub proof fn lemma_hull_seen_in_turn(hull: Seq<Point>)
    requires
        is_convex_polygon(hull),
    ensures
        seen_in_turn(center_of(hull), hull),
{
    assert forall|i: int| 0 <= i < hull.len() implies det(
        center_of(hull),
        tripled(#[trigger] hull[i]@),
        tripled(hull[next_index(hull.len() as int, i)]@),
    ) > 0 by {
        lemma_center_left_of_edge(hull, i);
    }
}

/// The center of a convex polygon lies strictly inside it.
pub proof fn lemma_center_inside(hull: Seq<Point>, p: Pt)
    requires
        is_convex_polygon(hull),
        tripled(p) == center_of(hull),
    ensures
        contains_strictly(hull, p),
{
    assert forall|i: int| 0 <= i < hull.len() implies #[trigger] edge_area(hull, i, p) > 0 by {
        lemma_center_left_of_edge(hull, i);
        lemma_tripled_area(hull[i]@, hull[next_index(hull.len() as int, i)]@, p);
    }
}

proof fn lemma_mean_not_negative(d: int, x: int, al: int, fa: int, be: int, fb: int, ga: int, fc: int)
    by (nonlinear_arith)
    requires
        d * x == al * fa + be * fb + ga * fc,
        d > 0,
        al >= 0,
        fa >= 0,
        be >= 0,
        fb >= 0,
        ga >= 0,
        fc >= 0,
    ensures
        x >= 0,
{
}

/// Within the wedge that the center spans with an edge, that edge alone
/// decides: a point of the wedge that is not beyond the edge is in the
/// polygon.
pub proof fn lemma_wedge_decides(hull: Seq<Point>, i: int, p: Pt)
    requires
        is_convex_polygon(hull),
        0 <= i < hull.len(),
        wedge_at(center_of(hull), hull, tripled(p), i),
        edge_area(hull, i, p) >= 0,
    ensures
        contains(hull, p),
{
    let n = hull.len() as int;
    let c = center_of(hull);
    let a = tripled(hull[i]@);
    let b = tripled(hull[next_index(n, i)]@);
    let q = tripled(p);
    lemma_center_left_of_edge(hull, i);
    lemma_tripled_area(hull[i]@, hull[next_index(n, i)]@, p);
    assert(det(c, a, b) == det(a, b, c));
    assert(det(b, c, q) == det(c, q, b));
    assert forall|e: int| 0 <= e < hull.len() implies #[trigger] edge_area(hull, e, p) >= 0 by {
        let u = tripled(hull[e]@);
        let v = tripled(hull[next_index(n, e)]@);
        lemma_barycentric(c, a, b, q, u, v);
        lemma_center_left_of_edge(hull, e);
        lemma_vertex_left_of_edge(hull, e, i);
        lemma_vertex_left_of_edge(hull, e, next_index(n, i));
        lemma_tripled_area(hull[e]@, hull[next_index(n, e)]@, hull[i]@);
        lemma_tripled_area(hull[e]@, hull[next_index(n, e)]@, hull[next_index(n, i)]@);
        lemma_tripled_area(hull[e]@, hull[next_index(n, e)]@, p);
        lemma_mean_not_negative(
            det(c, a, b),
            det(u, v, q),
            det(a, b, q),
            det(u, v, c),
            det(b, c, q),
            det(u, v, a),
            det(c, a, q),
            det(u, v, b),
        );
    }
}

/// A point of the hull lies within the bounding box of the points that the
/// hull was built from.
pub proof fn lemma_inside_is_boxed(poly: ConvexPolyView, p: Pt)
    requires
        poly.valid(),
        contains(poly.hull, p),
    ensures
        in_box(poly, p),
{
    let west = lemma_affine_lower_bound(poly.hull, p, 1, 0, 0);
    let east = lemma_affine_lower_bound(poly.hull, p, -1, 0, 0);
    let south = lemma_affine_lower_bound(poly.hull, p, 0, 1, 0);
    let north = lemma_affine_lower_bound(poly.hull, p, 0, -1, 0);
    let w = poly.all.index_of(poly.hull[west]);
    let e = poly.all.index_of(poly.hull[east]);
    let s = poly.all.index_of(poly.hull[south]);
    let n = poly.all.index_of(poly.hull[north]);
    assert(poly.all[w] == poly.hull[west] && poly.all[e] == poly.hull[east]);
    assert(poly.all[s] == poly.hull[south] && poly.all[n] == poly.hull[north]);
}

/// The two tests agree: on every hull and for every point, the fast test
/// answers as the exact test does, and both say whether the point lies in
/// the closed polygon.
pub proof fn lemma_tests_agree(poly: ConvexPolyView, p: Pt)
    requires
        poly.valid(),
    ensures
        fast_membership(poly, p) == exact_membership(poly, p),
        exact_membership(poly, p) == contains(poly.hull, p),
{
    let hull = poly.hull;
    let n = hull.len() as int;
    let c = center_of(hull);
    if contains(hull, p) {
        lemma_inside_is_boxed(poly, p);
    }
    if tripled(p) == c {
        lemma_center_inside(hull, p);
        assert forall|i: int| 0 <= i < hull.len() implies #[trigger] edge_area(hull, i, p) >= 0 by {
            assert(edge_area(hull, i, p) > 0);
        }
    } else {
        // the bracket's edge is one of the two edges that meet at the answer
        lemma_hull_seen_in_turn(hull);
        lemma_search_succeeds(c, hull, tripled(p));
        lemma_bisect_in_range(c, hull, tripled(p));
        let i = bracket_of(c, hull, tripled(p))->Some_0;
        let k = nearer_end(c, hull, tripled(p), i);
        assert(answer_of(c, hull, tripled(p)) == Some(k));
        assert(i == k || i == prev_index(n, k));
        if edge_area(hull, i, p) >= 0 {
            lemma_wedge_decides(hull, i, p);
            assert(edge_area(hull, prev_index(n, k), p) >= 0);
            assert(edge_area(hull, k, p) >= 0);
        }
    }
}

/// Every point that a hull was built from passes both tests.
pub proof fn lemma_points_are_inside(poly: ConvexPolyView, i: int)
    requires
        poly.valid(),
        0 <= i < poly.all.len(),
    ensures
        exact_membership(poly, poly.all[i]@),
        fast_membership(poly, poly.all[i]@),
{
    lemma_tests_agree(poly, poly.all[i]@);
}

/// Whether `p` lies to the left of the line from `s` to `e`, or on it.
fn keeps_left(s: &Point, e: &Point, p: &Point) -> (r: bool)
    ensures
        r == (det(s@, e@, p@) >= 0),
{
    match Orientation::calc(s, p, e) {
        Orientation::Leftwards => false,
        _ => true,
    }
}

/// Decides whether `p` lies in the hull by looking at every edge, after a
/// look at the bounding box.
pub fn is_point_in_polygon(poly: &ConvexPoly, p: &Point) -> (inside: bool)
    ensures
        inside == exact_membership(poly@, p@),
        inside == contains(poly@.hull, p@),
{
    let hull: &Vec<Point> = poly.hull();
    proof {
        lemma_tests_agree(poly@, p@);
    }
    if p.x < poly.x_min() || p.x > poly.x_max() || p.y < poly.y_min() || p.y > poly.y_max() {
        return false;
    }
    let n: usize = hull.len();
    let mut i: usize = 0;
    while i < n
        invariant
            i <= n,
            n == hull.len(),
            hull@ == poly@.hull,
            in_box(poly@, p@),
            forall|j: int| 0 <= j < i ==> #[trigger] edge_area(hull@, j, p@) >= 0,
        decreases n - i,
    {
        let next: usize = if i + 1 == n {
            0
        } else {
            i + 1
        };
        if !keeps_left(&hull[i], &hull[next], p) {
            assert(edge_area(hull@, i as int, p@) < 0);
            return false;
        }
        i = i + 1;
    }
    true
}

/// Decides whether `p` lies in the hull by looking at two edges only: those
/// that meet at the vertex whose direction, seen from the centroid of the
/// first three vertices, is nearest to that of `p`. One of the two is the
/// edge through which `p` is seen.
///
/// That centroid lies strictly inside the hull, so it sees the vertices in
/// turn, over the full turn: no direction is turned away before the search,
/// and the search cannot fail.
pub fn is_point_in_polygon_fast(poly: &ConvexPoly, p: &Point) -> (inside: bool)
    ensures
        inside == fast_membership(poly@, p@),
        inside == contains(poly@.hull, p@),
{
    let hull: &Vec<Point> = poly.hull();
    proof {
        lemma_tests_agree(poly@, p@);
    }
    let n: usize = hull.len();
    let center: Center = Center::centroid(&hull[0], &hull[1], &hull[2]);
    assert(center@ == center_of(hull@));
    if center.is_at(p) {
        return true;
    }
    let found: Result<usize, SearchError> = binary_search_angles(hull, &center, p);
    match found {
        Ok(i) => {
            let before: usize = if i == 0 {
                n - 1
            } else {
                i - 1
            };
            let after: usize = if i + 1 == n {
                0
            } else {
                i + 1
            };
            assert(answer_of(center_of(hull@), hull@, tripled(p@)) == Some(i as int));
            assert(before == prev_index(n as int, i as int));
            assert(next_index(n as int, before as int) == i);
            assert(after == next_index(n as int, i as int));
            let first: bool = keeps_left(&hull[before], &hull[i], p);
            let second: bool = keeps_left(&hull[i], &hull[after], p);
            assert(first == (edge_area(hull@, before as int, p@) >= 0));
            assert(second == (edge_area(hull@, i as int, p@) >= 0));
            first && second
        },
        Err(_) => {
            proof {
                lemma_hull_seen_in_turn(hull@);
            }
            false
        },
    }
}

} // verus!
