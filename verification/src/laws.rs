//! What holds of every hull: the hull of a point set is unique, so it does
//! not depend on the order in which the points are given.

use vstd::arithmetic::mul::lemma_mul_is_distributive_add_other_way;
use vstd::prelude::*;
use vstd::seq_lib::to_multiset_contains;
use crate::angular::above;
use crate::algebra::{
    affine, lemma_barycentric_coordinates, lemma_det_affine, lemma_positive_factor,
    lemma_product_sign,
};
use crate::geometry::{det, Point, Pt};
use crate::hull::{all_collinear, is_hull_of};
use crate::polygon::{
    contains, edge_area, is_convex_polygon, lemma_affine_lower_bound, lemma_corner_turns_left,
    next_index, prev_index, turn,
};

verus! {

/// A hull winds counter-clockwise, whatever it is the hull of: at every
/// vertex the boundary turns left, and so do any three vertices taken in
/// the order of the sequence.
pub proof fn lemma_hull_winds_counter_clockwise(hull: Seq<Point>, points: Seq<Point>, i: int)
    requires
        is_hull_of(hull, points),
        0 <= i < hull.len(),
    ensures
        det(
            hull[prev_index(hull.len() as int, i)]@,
            hull[i]@,
            hull[next_index(hull.len() as int, i)]@,
        ) > 0,
        forall|a: int, b: int, c: int| 0 <= a < b < c < hull.len() ==> #[trigger] turn(hull, a, b, c) > 0,
{
    lemma_corner_turns_left(hull, i);
}

/// Two sequences hold the same points, in any order and any number of
/// times.
pub open spec fn same_points(a: Seq<Point>, b: Seq<Point>) -> bool {
    forall|p: Point| a.contains(p) <==> b.contains(p)
}

/// The only point on both lines through a corner is the corner.
proof fn lemma_corner_is_alone(a: Pt, b: Pt, c: Pt, s: Pt)
    requires
        det(a, b, c) > 0,
        det(a, b, s) == 0,
        det(b, c, s) == 0,
    ensures
        s == b,
{
    lemma_barycentric_coordinates(a, b, c, s);
    let d = det(a, b, c);
    assert(det(c, a, s) == d);
    lemma_product_sign(det(b, c, s), a.x);
    lemma_product_sign(det(a, b, s), c.x);
    lemma_product_sign(det(b, c, s), a.y);
    lemma_product_sign(det(a, b, s), c.y);
    lemma_positive_factor(d, s.x, b.x);
    lemma_positive_factor(d, s.y, b.y);
}

/// A vertex of one convex polygon that lies in a second, whose vertices all
/// lie in the first, is a vertex of the second.
pub proof fn lemma_vertex_of_both(h1: Seq<Point>, h2: Seq<Point>, i: int) -> (m: int)
    requires
        is_convex_polygon(h1),
        is_convex_polygon(h2),
        0 <= i < h1.len(),
        contains(h2, h1[i]@),
        forall|j: int| 0 <= j < h2.len() ==> contains(h1, #[trigger] h2[j]@),
    ensures
        0 <= m < h2.len(),
        h2[m] == h1[i],
{
    let n = h1.len() as int;
    let before = prev_index(n, i);
    let (a, b, c) = (h1[before]@, h1[i]@, h1[next_index(n, i)]@);
    lemma_corner_turns_left(h1, i);
    // the sum of the areas over the two edges that meet at the vertex
    let (ka, kb, kc) = (a.y - b.y, b.x - a.x, a.x * b.y - b.x * a.y);
    let (la, lb, lc) = (b.y - c.y, c.x - b.x, b.x * c.y - c.x * b.y);
    let m = lemma_affine_lower_bound(h2, b, ka + la, kb + lb, kc + lc);
    let s = h2[m]@;
    lemma_det_affine(a, b, s);
    lemma_det_affine(b, c, s);
    lemma_det_affine(a, b, b);
    lemma_det_affine(b, c, b);
    lemma_mul_is_distributive_add_other_way(s.x, ka, la);
    lemma_mul_is_distributive_add_other_way(s.y, kb, lb);
    lemma_mul_is_distributive_add_other_way(b.x, ka, la);
    lemma_mul_is_distributive_add_other_way(b.y, kb, lb);
    assert(affine(ka + la, kb + lb, kc + lc, s) == det(a, b, s) + det(b, c, s));
    assert(affine(ka + la, kb + lb, kc + lc, b) == det(a, b, b) + det(b, c, b));
    assert(det(a, b, b) == 0 && det(b, c, b) == 0);
    assert(contains(h1, h2[m]@));
    assert(edge_area(h1, before, s) >= 0);
    assert(edge_area(h1, i, s) >= 0);
    assert(next_index(n, before) == i);
    lemma_corner_is_alone(a, b, c, s);
    assert(h2[m].x == h1[i].x && h2[m].y == h1[i].y);
    m
}

/// The vertices of a convex polygon are distinct.
pub proof fn lemma_vertices_distinct(h: Seq<Point>, j: int, k: int)
    requires
        is_convex_polygon(h),
        0 <= j < k < h.len(),
    ensures
        h[j] != h[k],
{
    if h[j] == h[k] {
        if j > 0 {
            assert(turn(h, 0, j, k) > 0);
        } else if k > 1 {
            assert(turn(h, 0, 1, k) > 0);
        } else {
            assert(turn(h, 0, 1, 2) > 0);
        }
    }
}

/// Two convex polygons with the same first vertex and the same vertices
/// agree up to any index that both have.
proof fn lemma_same_up_to(h1: Seq<Point>, h2: Seq<Point>, k: int)
    requires
        is_convex_polygon(h1),
        is_convex_polygon(h2),
        same_points(h1, h2),
        h1[0] == h2[0],
        0 <= k < h1.len(),
        k < h2.len(),
    ensures
        h1[k] == h2[k],
    decreases k,
{
    if k > 0 {
        assert forall|j: int| 0 <= j < k implies h1[j] == h2[j] by {
            lemma_same_up_to(h1, h2, j);
        }
        assert(h2.contains(h1[k]));
        let m = h2.index_of(h1[k]);
        assert(h1.contains(h2[k]));
        let w = h1.index_of(h2[k]);
        if m < k {
            lemma_vertices_distinct(h1, m, k);
        } else if m > k {
            if w < k {
                lemma_vertices_distinct(h2, w, k);
            } else if w > k {
                // each polygon would see the other's vertex later
                assert(turn(h2, 0, k, m) > 0);
                assert(turn(h1, 0, k, w) > 0);
                assert(det(h1[0]@, h1[k]@, h2[k]@) == -det(h2[0]@, h2[k]@, h1[k]@));
            } else {
                lemma_vertices_distinct(h2, k, m);
            }
        }
    }
}

/// Two convex polygons with the same first vertex and the same vertices are
/// the same sequence.
pub proof fn lemma_same_vertices_same_polygon(h1: Seq<Point>, h2: Seq<Point>)
    requires
        is_convex_polygon(h1),
        is_convex_polygon(h2),
        same_points(h1, h2),
        h1[0] == h2[0],
    ensures
        h1 == h2,
{
    if h1.len() > h2.len() {
        let k = h2.len() as int;
        assert(h2.contains(h1[k]));
        let m = h2.index_of(h1[k]);
        lemma_same_up_to(h1, h2, m);
        lemma_vertices_distinct(h1, m, k);
    }
    if h2.len() > h1.len() {
        let k = h1.len() as int;
        assert(h1.contains(h2[k]));
        let m = h1.index_of(h2[k]);
        lemma_same_up_to(h1, h2, m);
        lemma_vertices_distinct(h2, m, k);
    }
    assert forall|k: int| 0 <= k < h1.len() implies h1[k] == h2[k] by {
        lemma_same_up_to(h1, h2, k);
    }
    assert(h1 =~= h2);
}

/// A point set has one hull: two hulls of sequences that hold the same
/// points are equal, vertex by vertex.
pub proof fn lemma_hull_is_unique(h1: Seq<Point>, pts1: Seq<Point>, h2: Seq<Point>, pts2: Seq<Point>)
    requires
        is_hull_of(h1, pts1),
        is_hull_of(h2, pts2),
        same_points(pts1, pts2),
    ensures
        h1 == h2,
{
    // the lowest point of a set is one point
    let o1 = h1[0];
    let o2 = h2[0];
    assert(pts2.contains(o1) && pts1.contains(o2));
    let i = pts2.index_of(o1);
    let j = pts1.index_of(o2);
    assert(pts2[i] == o2 || above(o2@, pts2[i]@));
    assert(pts1[j] == o1 || above(o1@, pts1[j]@));
    assert(o1 == o2);
    assert forall|k: int| 0 <= k < h2.len() implies contains(h1, #[trigger] h2[k]@) by {
        assert(pts2.contains(h2[k]));
        let w = pts1.index_of(h2[k]);
        assert(contains(h1, pts1[w]@));
    }
    assert forall|k: int| 0 <= k < h1.len() implies contains(h2, #[trigger] h1[k]@) by {
        assert(pts1.contains(h1[k]));
        let w = pts2.index_of(h1[k]);
        assert(contains(h2, pts2[w]@));
    }
    assert forall|p: Point| h1.contains(p) <==> h2.contains(p) by {
        if h1.contains(p) {
            let k = h1.index_of(p);
            lemma_vertex_of_both(h1, h2, k);
        }
        if h2.contains(p) {
            let k = h2.index_of(p);
            lemma_vertex_of_both(h2, h1, k);
        }
    }
    lemma_same_vertices_same_polygon(h1, h2);
}

/// The hull does not depend on the order of the points: the hulls of a
/// sequence and of any rearrangement of it are equal.
pub proof fn lemma_hull_ignores_order(h1: Seq<Point>, pts1: Seq<Point>, h2: Seq<Point>, pts2: Seq<Point>)
    requires
        is_hull_of(h1, pts1),
        is_hull_of(h2, pts2),
        pts1.to_multiset() == pts2.to_multiset(),
    ensures
        h1 == h2,
{
    lemma_rearranged_same_points(pts1, pts2);
    lemma_hull_is_unique(h1, pts1, h2, pts2);
}

/// A rearrangement of a sequence holds the same points.
pub proof fn lemma_rearranged_same_points(pts1: Seq<Point>, pts2: Seq<Point>)
    requires
        pts1.to_multiset() == pts2.to_multiset(),
    ensures
        same_points(pts1, pts2),
{
    assert forall|p: Point| pts1.contains(p) <==> pts2.contains(p) by {
        to_multiset_contains(pts1, p);
        to_multiset_contains(pts2, p);
    }
}

/// Whether all points lie on one line does not depend on their order
/// either, nor on how often each is given.
pub proof fn lemma_collinear_ignores_order(pts1: Seq<Point>, pts2: Seq<Point>)
    requires
        same_points(pts1, pts2),
    ensures
        all_collinear(pts1) == all_collinear(pts2),
        (pts1.len() == 0) == (pts2.len() == 0),
{
    if all_collinear(pts1) {
        lemma_collinear_carries_over(pts1, pts2);
    }
    if all_collinear(pts2) {
        lemma_collinear_carries_over(pts2, pts1);
    }
    if pts1.len() > 0 {
        assert(pts2.contains(pts1[0]));
    }
    if pts2.len() > 0 {
        assert(pts1.contains(pts2[0]));
    }
}

proof fn lemma_collinear_carries_over(pts1: Seq<Point>, pts2: Seq<Point>)
    requires
        same_points(pts1, pts2),
        all_collinear(pts1),
    ensures
        all_collinear(pts2),
{
    assert forall|i: int, j: int, k: int|
        0 <= i < pts2.len() && 0 <= j < pts2.len() && 0 <= k < pts2.len() implies #[trigger] turn(
        pts2,
        i,
        j,
        k,
    ) == 0 by {
        assert(pts1.contains(pts2[i]) && pts1.contains(pts2[j]) && pts1.contains(pts2[k]));
        let a = pts1.index_of(pts2[i]);
        let b = pts1.index_of(pts2[j]);
        let c = pts1.index_of(pts2[k]);
        assert(turn(pts1, a, b, c) == 0);
    }
}

} // verus!
