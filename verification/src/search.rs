//! The search for the point whose direction is nearest to a query direction,
//! through the two neighboring points between whose directions it lies.

use vstd::arithmetic::mul::{
    lemma_mul_is_commutative, lemma_mul_is_distributive_add_other_way,
    lemma_mul_is_distributive_sub, lemma_mul_is_distributive_sub_other_way,
    lemma_mul_unary_negation,
};
use vstd::prelude::*;
use crate::algebra::{lemma_dependency, lemma_det_balance, lemma_product_sign};
use crate::center::{
    in_wedge, lemma_bracket_is_wedge, lemma_last_bracket_is_wedge, lemma_reference_first,
    lemma_tripled_area, tripled, turns_before, turns_less, Center,
};
use crate::geometry::{det, Point, Pt};
use crate::polygon::{edge_area, is_convex_polygon, lemma_vertex_left_of_edge, next_index};

verus! {

/// Why a search gave no answer.
#[derive(Clone, Copy, Debug, PartialEq, Eq, Structural)]
pub enum SearchError {
    /// There are no points, or the points are not seen in turn from the
    /// center, or the query is the center itself: the two points that the
    /// bisection arrived at do not span a wedge narrower than half a turn
    /// that holds the query direction.
    InvariantViolation,
}

/// The center sees each point less than half a turn before the next, and
/// the last less than half a turn before the first. This holds of the
/// vertices of a convex polygon, seen from a point inside it.
pub open spec fn seen_in_turn(c: Pt, points: Seq<Point>) -> bool {
    forall|i: int|
        0 <= i < points.len() ==> det(
            c,
            tripled(#[trigger] points[i]@),
            tripled(points[next_index(points.len() as int, i)]@),
        ) > 0
}

/// Turning from the direction of the first point, the direction of `q` is
/// met strictly before that of the point `i`.
pub open spec fn query_before(c: Pt, points: Seq<Point>, q: Pt, i: int) -> bool {
    turns_before(c, tripled(points[0]@), q, tripled(points[i]@))
}

/// The index at which a bisection of the indices from `lo` up to `hi`
/// arrives: it keeps the half whose first direction is not met after that
/// of `q`.
pub open spec fn bisect(c: Pt, points: Seq<Point>, q: Pt, lo: int, hi: int) -> int
    decreases hi - lo,
{
    if hi - lo <= 1 {
        lo
    } else {
        let mid = lo + (hi - lo) / 2;
        if query_before(c, points, q, mid) {
            bisect(c, points, q, lo, mid)
        } else {
            bisect(c, points, q, mid, hi)
        }
    }
}

/// The wedge between the point `i` and its successor is narrower than half
/// a turn and holds the direction of `q`.
pub open spec fn wedge_at(c: Pt, points: Seq<Point>, q: Pt, i: int) -> bool {
    in_wedge(c, tripled(points[i]@), tripled(points[next_index(points.len() as int, i)]@), q)
}

/// The index of the bracket that the bisection finds, if it finds one: the
/// index at which it arrives, provided that the wedge there is narrower
/// than half a turn and holds the direction of `q`.
pub open spec fn bracket_of(c: Pt, points: Seq<Point>, q: Pt) -> Option<int> {
    if points.len() == 0 {
        None
    } else {
        let i = bisect(c, points, q, 0, points.len() as int);
        if wedge_at(c, points, q, i) {
            Some(i)
        } else {
            None
        }
    }
}

/// Of the two points of the bracket at `i`, the one whose direction is
/// nearer to that of `q`, by the turn counted from the direction of the
/// first point: the point `i`, where the turn from it to `q` is less than
/// the turn from `q` to its successor, and else the successor. In the
/// bracket that closes the turn the successor is the first point, from
/// which the count starts, so the last point is never the farther one.
pub open spec fn nearer_end(c: Pt, points: Seq<Point>, q: Pt, i: int) -> int {
    if i + 1 < points.len() && !turns_less(c, tripled(points[i]@), tripled(points[i + 1]@), q) {
        i + 1
    } else {
        i
    }
}

/// The index that the search answers with, if it answers with one. A single
/// point is the answer whatever the query; among more points it is the
/// nearer end of the bracket that the bisection finds.
pub open spec fn answer_of(c: Pt, points: Seq<Point>, q: Pt) -> Option<int> {
    if points.len() == 1 {
        Some(0)
    } else {
        match bracket_of(c, points, q) {
            Some(i) => Some(nearer_end(c, points, q, i)),
            None => None,
        }
    }
}

/// The bisection arrives at an index in its range, whose direction is not
/// met after that of `q` and whose successor's is, if the ends of the range
/// are such.
pub proof fn lemma_bisect_brackets(c: Pt, points: Seq<Point>, q: Pt, lo: int, hi: int)
    requires
        0 <= lo < hi <= points.len(),
        !query_before(c, points, q, lo),
        hi < points.len() ==> query_before(c, points, q, hi),
    ensures
        lo <= bisect(c, points, q, lo, hi) < hi,
        !query_before(c, points, q, bisect(c, points, q, lo, hi)),
        bisect(c, points, q, lo, hi) + 1 < points.len() ==> query_before(
            c,
            points,
            q,
            bisect(c, points, q, lo, hi) + 1,
        ),
    decreases hi - lo,
{
    if hi - lo > 1 {
        let mid = lo + (hi - lo) / 2;
        if query_before(c, points, q, mid) {
            lemma_bisect_brackets(c, points, q, lo, mid);
        } else {
            lemma_bisect_brackets(c, points, q, mid, hi);
        }
    }
}

/// The bisection of all indices arrives at one of them.
pub proof fn lemma_bisect_in_range(c: Pt, points: Seq<Point>, q: Pt)
    requires
        points.len() > 0,
    ensures
        0 <= bisect(c, points, q, 0, points.len() as int) < points.len(),
{
    lemma_reference_first(c, tripled(points[0]@), q);
    lemma_bisect_brackets(c, points, q, 0, points.len() as int);
}

/// Among points seen in turn, the bisection arrives at a wedge that holds
/// the query direction, whatever the query, unless it is the center.
pub proof fn lemma_search_succeeds(c: Pt, points: Seq<Point>, q: Pt)
    requires
        points.len() > 0,
        seen_in_turn(c, points),
        q != c,
    ensures
        bracket_of(c, points, q) is Some,
{
    let n = points.len() as int;
    let r = tripled(points[0]@);
    lemma_reference_first(c, r, q);
    lemma_bisect_brackets(c, points, q, 0, n);
    let i = bisect(c, points, q, 0, n);
    assert(det(c, tripled(points[i]@), tripled(points[next_index(n, i)]@)) > 0);
    if i + 1 < n {
        lemma_bracket_is_wedge(c, r, tripled(points[i]@), tripled(points[i + 1]@), q);
    } else {
        lemma_last_bracket_is_wedge(c, r, tripled(points[i]@), q);
    }
}

proof fn lemma_balance(al: int, be: int, de: int, a: int, b: int, c: int, q: int)
    requires
        (-al) * (a - c) + (-be) * (b - c) + de * (q - c) == 0,
    ensures
        al * a + be * b == (al + be - de) * c + de * q,
{
    lemma_mul_is_distributive_sub(-al, a, c);
    lemma_mul_is_distributive_sub(-be, b, c);
    lemma_mul_is_distributive_sub(de, q, c);
    lemma_mul_unary_negation(al, a);
    lemma_mul_unary_negation(al, c);
    lemma_mul_unary_negation(be, b);
    lemma_mul_unary_negation(be, c);
    lemma_mul_is_distributive_sub_other_way(c, al + be, de);
    lemma_mul_is_distributive_add_other_way(c, al, be);
}

/// Where the ray from `c` through `q` runs in the wedge between `a` and `b`,
/// it meets the line from `a` to `b` in their mean with the weights
/// `det(c, q, b)` and `det(c, a, q)`, which is also the mean of `c` and `q`
/// with the weight `det(c, a, b)` on `q`. Over any base `u`, `v` the signed
/// areas are in the same balance.
proof fn lemma_ray_meets_edge(c: Pt, a: Pt, b: Pt, q: Pt, u: Pt, v: Pt)
    ensures
        det(c, q, b) * det(u, v, a) + det(c, a, q) * det(u, v, b) == (det(c, q, b) + det(c, a, q) - det(
            c,
            a,
            b,
        )) * det(u, v, c) + det(c, a, b) * det(u, v, q),
{
    let al = det(c, q, b);
    let be = det(c, a, q);
    let de = det(c, a, b);
    lemma_dependency(c, a, b, q);
    assert(det(c, b, q) == -al && det(c, q, a) == -be);
    lemma_balance(al, be, de, a.x, b.x, c.x, q.x);
    lemma_balance(al, be, de, a.y, b.y, c.y, q.y);
    lemma_det_balance(u, v, al, a, be, b, al + be - de, c, de, q);
}

/// The signed area that the center spans with the point `i` and its
/// successor, on the lattice scaled by three.
pub open spec fn span_at(c: Pt, points: Seq<Point>, i: int) -> int {
    det(c, tripled(points[i]@), tripled(points[next_index(points.len() as int, i)]@))
}

/// The sum of the two signed areas that place `q` in the wedge at `i`.
pub open spec fn weight_at(c: Pt, points: Seq<Point>, q: Pt, i: int) -> int {
    det(c, q, tripled(points[next_index(points.len() as int, i)]@)) + det(c, tripled(points[i]@), q)
}

/// Of two wedges that hold one direction, the ray in that direction leaves
/// the polygon through the edge of the first no sooner than through the
/// edge of the second; and if no later either, then the first vertex of the
/// first edge lies on the second edge.
proof fn lemma_leaves_no_sooner(c: Pt, points: Seq<Point>, q: Pt, i: int, j: int)
    requires
        is_convex_polygon(points),
        seen_in_turn(c, points),
        0 <= i < points.len(),
        0 <= j < points.len(),
        wedge_at(c, points, q, i),
        wedge_at(c, points, q, j),
    ensures
        weight_at(c, points, q, i) * span_at(c, points, j) >= span_at(c, points, i) * weight_at(
            c,
            points,
            q,
            j,
        ),
        weight_at(c, points, q, i) * span_at(c, points, j) == span_at(c, points, i) * weight_at(
            c,
            points,
            q,
            j,
        ) ==> edge_area(points, j, points[i]@) == 0,
{
    let n = points.len() as int;
    let (a, b) = (tripled(points[i]@), tripled(points[next_index(n, i)]@));
    let (u, v) = (tripled(points[j]@), tripled(points[next_index(n, j)]@));
    let (wi, di) = (weight_at(c, points, q, i), span_at(c, points, i));
    let (wj, dj) = (weight_at(c, points, q, j), span_at(c, points, j));
    let eq = det(u, v, q);
    assert(di > 0 && dj > 0);
    assert(det(u, v, c) == dj);
    // the ray meets the edge at `j` on that edge
    lemma_ray_meets_edge(c, u, v, q, u, v);
    assert(det(u, v, u) == 0 && det(u, v, v) == 0);
    lemma_product_sign(det(c, q, v), det(u, v, u));
    lemma_product_sign(det(c, u, q), det(u, v, v));
    assert(eq == dj - wj) by (nonlinear_arith)
        requires
            0 == (wj - dj) * dj + dj * eq,
            dj > 0,
    ;
    // and the edge at `i` inside the polygon
    lemma_ray_meets_edge(c, a, b, q, u, v);
    lemma_vertex_left_of_edge(points, j, i);
    lemma_vertex_left_of_edge(points, j, next_index(n, i));
    lemma_tripled_area(points[j]@, points[next_index(n, j)]@, points[i]@);
    lemma_tripled_area(points[j]@, points[next_index(n, j)]@, points[next_index(n, i)]@);
    let first = det(c, q, b) * det(u, v, a);
    let second = det(c, a, q) * det(u, v, b);
    lemma_product_sign(det(c, q, b), det(u, v, a));
    lemma_product_sign(det(c, a, q), det(u, v, b));
    assert(first >= 0 && second >= 0);
    assert(first + second == wi * dj - di * wj) by (nonlinear_arith)
        requires
            first + second == (wi - di) * dj + di * eq,
            eq == dj - wj,
    ;
}

/// Seen from a point inside a convex polygon, every direction lies in the
/// wedge of one edge only.
pub proof fn lemma_wedge_is_unique(c: Pt, points: Seq<Point>, q: Pt, i: int, j: int)
    requires
        is_convex_polygon(points),
        seen_in_turn(c, points),
        0 <= i < points.len(),
        0 <= j < points.len(),
        wedge_at(c, points, q, i),
        wedge_at(c, points, q, j),
    ensures
        i == j,
{
    lemma_leaves_no_sooner(c, points, q, i, j);
    lemma_leaves_no_sooner(c, points, q, j, i);
    lemma_mul_is_commutative(weight_at(c, points, q, i), span_at(c, points, j));
    lemma_mul_is_commutative(weight_at(c, points, q, j), span_at(c, points, i));
    lemma_vertex_left_of_edge(points, j, i);
    lemma_vertex_left_of_edge(points, i, j);
}

/// Seen from a point inside a convex polygon, no vertex lies in the wedge
/// of an edge but the vertex that opens it: between the two ends of a
/// bracket no third vertex is seen, so the nearer end of the bracket of a
/// query is the vertex nearest to it.
pub proof fn lemma_bracket_is_tight(c: Pt, points: Seq<Point>, i: int, m: int)
    requires
        is_convex_polygon(points),
        seen_in_turn(c, points),
        0 <= i < points.len(),
        0 <= m < points.len(),
        wedge_at(c, points, tripled(points[m]@), i),
    ensures
        m == i,
{
    let q = tripled(points[m]@);
    assert(det(c, q, q) == 0);
    assert(wedge_at(c, points, q, m));
    lemma_wedge_is_unique(c, points, q, i, m);
}

/// Seen from a point inside a convex polygon, the bracket of a direction is
/// the one wedge that holds it.
pub proof fn lemma_bracket_is_the_wedge(c: Pt, points: Seq<Point>, q: Pt, i: int)
    requires
        is_convex_polygon(points),
        seen_in_turn(c, points),
        0 <= i < points.len(),
    ensures
        bracket_of(c, points, q) == Some(i) <==> wedge_at(c, points, q, i),
{
    if wedge_at(c, points, q, i) {
        assert(q != c) by {
            if q == c {
                assert(det(c, c, tripled(points[next_index(points.len() as int, i)]@)) == 0);
            }
        }
        lemma_search_succeeds(c, points, q);
        lemma_bisect_in_range(c, points, q);
        lemma_wedge_is_unique(c, points, q, i, bisect(c, points, q, 0, points.len() as int));
    }
}

/// Finds, by bisection, the point whose direction from the center is
/// nearest to that of `query`.
///
/// Directions are measured by the turn counter-clockwise from the direction
/// of the first point. The bisection arrives at the bracket of the query:
/// the point `i` that is met last before or with the query, and its
/// successor, which is the first point after the last. The answer is the
/// nearer of the two; where both are equally near, it is the successor. A
/// single point is the answer whatever the query.
///
/// The bisection relies on the points being seen in turn. It tests the
/// bracket that it arrives at, and reports a violation rather than a wrong
/// index, unless the wedge between the two points is narrower than half a
/// turn and holds the direction of the query.
///
/// Among the vertices of a convex polygon, seen from a point inside it, one
/// wedge and no other holds the direction of any query but the center
/// itself, and no third vertex is seen within it: the search answers with
/// the nearer end of that wedge, the vertex nearest to the query.
pub fn binary_search_angles(points: &Vec<Point>, center: &Center, query: &Point) -> (r: Result<
    usize,
    SearchError,
>)
    ensures
        r == (match answer_of(center@, points@, tripled(query@)) {
            Some(k) => Ok::<usize, SearchError>(k as usize),
            None => Err::<usize, SearchError>(SearchError::InvariantViolation),
        }),
        r matches Ok(k) ==> k < points.len() && answer_of(center@, points@, tripled(query@)) == Some(
            k as int,
        ),
        points.len() == 1 ==> r == Ok::<usize, SearchError>(0),
        points.len() != 1 && r is Ok ==> (exists|i: int|
            0 <= i < points.len() && #[trigger] wedge_at(center@, points@, tripled(query@), i) && span_at(
                center@,
                points@,
                i,
            ) > 0 && r == Ok::<usize, SearchError>(
                nearer_end(center@, points@, tripled(query@), i) as usize,
            )),
        seen_in_turn(center@, points@) && points.len() > 0 && tripled(query@) != center@ ==> r is Ok,
        is_convex_polygon(points@) && seen_in_turn(center@, points@) ==> forall|j: int|
            0 <= j < points.len() && wedge_at(center@, points@, tripled(query@), j) ==> r == Ok::<
                usize,
                SearchError,
            >(nearer_end(center@, points@, tripled(query@), j) as usize),
{
    let n: usize = points.len();
    if n == 0 {
        return Err(SearchError::InvariantViolation);
    }
    let ghost c = center@;
    let ghost q = tripled(query@);
    proof {
        lemma_bisect_in_range(c, points@, q);
        if seen_in_turn(c, points@) && q != c {
            lemma_search_succeeds(c, points@, q);
        }
        if is_convex_polygon(points@) && seen_in_turn(c, points@) {
            assert forall|j: int| 0 <= j < points.len() && wedge_at(c, points@, q, j) implies bracket_of(
                c,
                points@,
                q,
            ) == Some(j) by {
                lemma_bracket_is_the_wedge(c, points@, q, j);
            }
        }
    }
    if n == 1 {
        return Ok(0);
    }
    let first: Point = points[0];
    let mut lo: usize = 0;
    let mut hi: usize = n;
    while hi - lo > 1
        invariant
            n == points.len(),
            0 <= lo < hi <= n,
            c == center@,
            q == tripled(query@),
            first == points[0],
            bisect(c, points@, q, lo as int, hi as int) == bisect(c, points@, q, 0, n as int),
        decreases hi - lo,
    {
        let mid: usize = lo + (hi - lo) / 2;
        if center.meets_before(&first, query, &points[mid]) {
            hi = mid;
        } else {
            lo = mid;
        }
    }
    let next: usize = if lo + 1 == n {
        0
    } else {
        lo + 1
    };
    if center.area(&points[lo], &points[next]) > 0 && center.area(&points[lo], query) >= 0 && center.area(
        query,
        &points[next],
    ) > 0 {
        assert(wedge_at(c, points@, q, lo as int));
        if next != 0 && !center.is_nearer_to_first(&points[lo], &points[next], query) {
            Ok(next)
        } else {
            Ok(lo)
        }
    } else {
        Err(SearchError::InvariantViolation)
    }
}

} // verus!
