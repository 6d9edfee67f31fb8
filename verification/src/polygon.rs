//! Convex polygons as vertex sequences, and what it means to contain a point.

use vstd::prelude::*;
use crate::algebra::{affine, lemma_affine_mean, lemma_barycentric_coordinates, lemma_three_term};
use crate::geometry::{det, Point, Pt};

verus! {

/// The signed area that three vertices of `s` span, doubled.
pub open spec fn turn(s: Seq<Point>, a: int, b: int, c: int) -> int {
    det(s[a]@, s[b]@, s[c]@)
}

/// Any three vertices, taken in the order of the sequence, make a left turn.
/// This holds exactly of the vertex sequences of strictly convex polygons
/// that wind counter-clockwise.
pub open spec fn convex_position(s: Seq<Point>) -> bool {
    forall|a: int, b: int, c: int| 0 <= a < b < c < s.len() ==> #[trigger] turn(s, a, b, c) > 0
}

/// The index that follows `i` on a cycle of `n` indices.
pub open spec fn next_index(n: int, i: int) -> int {
    if i + 1 == n {
        0
    } else {
        i + 1
    }
}

/// The signed area that `p` spans with the edge that leaves vertex `i`,
/// doubled: positive where `p` lies to the left of that edge.
pub open spec fn edge_area(hull: Seq<Point>, i: int, p: Pt) -> int {
    det(hull[i]@, hull[next_index(hull.len() as int, i)]@, p)
}

/// `p` lies in the closed polygon: to the left of every edge, or on it.
pub open spec fn contains(hull: Seq<Point>, p: Pt) -> bool {
    forall|i: int| 0 <= i < hull.len() ==> #[trigger] edge_area(hull, i, p) >= 0
}

/// `p` lies in the open polygon: strictly to the left of every edge.
pub open spec fn contains_strictly(hull: Seq<Point>, p: Pt) -> bool {
    forall|i: int| 0 <= i < hull.len() ==> #[trigger] edge_area(hull, i, p) > 0
}

/// A strictly convex polygon with at least three vertices, wound
/// counter-clockwise.
pub open spec fn is_convex_polygon(hull: Seq<Point>) -> bool {
    hull.len() >= 3 && convex_position(hull)
}

proof fn lemma_positive_from_products(x: int, y: int, p: int, q: int, r: int, s: int)
    by (nonlinear_arith)
    requires
        x * y == p * q + r * s,
        y > 0,
        p > 0,
        q > 0,
        r > 0,
        s > 0,
    ensures
        x > 0,
{
}

/// Every vertex of a sequence in convex position lies to the left of every
/// edge, the closing edge included, except the two vertices of the edge
/// itself, which lie on it.
pub proof fn lemma_vertex_left_of_edge(s: Seq<Point>, i: int, k: int)
    requires
        convex_position(s),
        0 <= i < s.len(),
        0 <= k < s.len(),
    ensures
        edge_area(s, i, s[k]@) >= 0,
        k != i && k != next_index(s.len() as int, i) ==> edge_area(s, i, s[k]@) > 0,
{
    let n = s.len() as int;
    let j = next_index(n, i);
    if k != i && k != j {
        if i + 1 < n {
            if k > j {
                assert(turn(s, i, j, k) > 0);
            } else {
                assert(turn(s, k, i, j) > 0);
            }
        } else {
            assert(turn(s, 0, k, i) > 0);
        }
    }
}

/// What a new last vertex `q` must satisfy to keep a sequence in convex
/// position: it makes a left turn with the last two vertices, and the first
/// vertex sees it after every other.
pub proof fn lemma_push_keeps_convex(s: Seq<Point>, q: Point)
    requires
        s.len() >= 2,
        convex_position(s),
        det(s[s.len() - 2]@, s[s.len() - 1]@, q@) > 0,
        forall|j: int| 1 <= j < s.len() ==> det(s[0]@, #[trigger] s[j]@, q@) > 0,
    ensures
        convex_position(s.push(q)),
{
    let n = s.len() as int;
    let e = s.push(q);
    let o = s[0]@;
    let t = s[n - 1]@;
    let u = s[n - 2]@;
    // every vertex sees `q` to the left of the last one
    assert forall|a: int| 0 <= a < n - 1 implies det(#[trigger] s[a]@, t, q@) > 0 by {
        if 0 < a < n - 2 {
            lemma_three_term(t, q@, o, u, s[a]@);
            assert(turn(s, 0, n - 2, n - 1) > 0);
            assert(turn(s, a, n - 2, n - 1) > 0);
            assert(turn(s, 0, a, n - 1) > 0);
            assert(det(o, s[n - 1]@, q@) > 0);
            lemma_positive_from_products(
                det(t, q@, s[a]@),
                det(t, o, u),
                det(t, q@, o),
                det(t, s[a]@, u),
                det(t, q@, u),
                det(t, o, s[a]@),
            );
        } else if a == 0 {
            assert(det(o, s[n - 1]@, q@) > 0);
        }
    }
    assert forall|a: int, b: int, c: int| 0 <= a < b < c < e.len() implies #[trigger] turn(e, a, b, c) > 0 by {
        if c < n {
            assert(turn(s, a, b, c) > 0);
        } else if a == 0 {
            assert(det(s[0]@, s[b]@, q@) > 0);
        } else if b == n - 1 {
            assert(det(s[a]@, t, q@) > 0);
        } else {
            let va = s[a]@;
            let vb = s[b]@;
            lemma_three_term(va, vb, t, o, q@);
            assert(turn(s, 0, a, n - 1) > 0);
            assert(turn(s, a, b, n - 1) > 0);
            assert(turn(s, 0, a, b) > 0);
            assert(det(o, s[a]@, q@) > 0);
            assert(det(s[a]@, t, q@) > 0);
            lemma_positive_from_products(
                det(va, vb, q@),
                det(va, t, o),
                det(va, vb, t),
                det(va, q@, o),
                det(va, vb, o),
                det(va, t, q@),
            );
        }
    }
}

/// The index that precedes `i` on a cycle of `n` indices.
pub open spec fn prev_index(n: int, i: int) -> int {
    if i == 0 {
        n - 1
    } else {
        i - 1
    }
}

/// Every vertex of a convex polygon is a strict left turn between its two
/// neighbors.
pub proof fn lemma_corner_turns_left(hull: Seq<Point>, m: int)
    requires
        is_convex_polygon(hull),
        0 <= m < hull.len(),
    ensures
        det(
            hull[prev_index(hull.len() as int, m)]@,
            hull[m]@,
            hull[next_index(hull.len() as int, m)]@,
        ) > 0,
{
    let n = hull.len() as int;
    if m == 0 {
        assert(turn(hull, 0, 1, n - 1) > 0);
    } else if m == n - 1 {
        assert(turn(hull, 0, n - 2, n - 1) > 0);
    } else {
        assert(turn(hull, m - 1, m, m + 1) > 0);
    }
}

/// An index among the first `n` vertices at which an affine function is
/// least.
pub proof fn lemma_least_vertex(hull: Seq<Point>, ka: int, kb: int, kc: int, n: int) -> (m: int)
    requires
        0 < n <= hull.len(),
    ensures
        0 <= m < n,
        forall|j: int| 0 <= j < n ==> affine(ka, kb, kc, hull[m]@) <= affine(ka, kb, kc, #[trigger] hull[j]@),
    decreases n,
{
    if n == 1 {
        0
    } else {
        let m = lemma_least_vertex(hull, ka, kb, kc, n - 1);
        if affine(ka, kb, kc, hull[n - 1]@) < affine(ka, kb, kc, hull[m]@) {
            n - 1
        } else {
            m
        }
    }
}

proof fn lemma_mean_not_below(d: int, al: int, be: int, ga: int, fp: int, fa: int, fm: int, fc: int)
    requires
        d * fp == al * fa + be * fm + ga * fc,
        d == al + be + ga,
        d > 0,
        al >= 0,
        ga >= 0,
        fa >= fm,
        fc >= fm,
    ensures
        fp >= fm,
{
    assert((al + be + ga) * fm == al * fm + be * fm + ga * fm) by (nonlinear_arith);
    assert(al * fa >= al * fm) by (nonlinear_arith)
        requires
            al >= 0,
            fa >= fm,
    ;
    assert(ga * fc >= ga * fm) by (nonlinear_arith)
        requires
            ga >= 0,
            fc >= fm,
    ;
    assert(d * fp >= d * fm);
    assert(fp >= fm) by (nonlinear_arith)
        requires
            d * fp >= d * fm,
            d > 0,
    ;
}

/// On a convex polygon an affine function is nowhere less than at its least
/// vertex.
pub proof fn lemma_affine_lower_bound(hull: Seq<Point>, p: Pt, ka: int, kb: int, kc: int) -> (m: int)
    requires
        is_convex_polygon(hull),
        contains(hull, p),
    ensures
        0 <= m < hull.len(),
        affine(ka, kb, kc, hull[m]@) <= affine(ka, kb, kc, p),
        forall|j: int|
            0 <= j < hull.len() ==> affine(ka, kb, kc, hull[m]@) <= affine(ka, kb, kc, #[trigger] hull[j]@),
{
    let n = hull.len() as int;
    let m = lemma_least_vertex(hull, ka, kb, kc, n);
    let before = prev_index(n, m);
    let after = next_index(n, m);
    let (a, b, c) = (hull[before]@, hull[m]@, hull[after]@);
    lemma_corner_turns_left(hull, m);
    assert(edge_area(hull, before, p) >= 0);
    assert(edge_area(hull, m, p) >= 0);
    assert(next_index(n, before) == m);
    lemma_barycentric_coordinates(a, b, c, p);
    lemma_affine_mean(ka, kb, kc, det(a, b, c), det(b, c, p), det(c, a, p), det(a, b, p), a, b, c, p);
    lemma_mean_not_below(
        det(a, b, c),
        det(b, c, p),
        det(c, a, p),
        det(a, b, p),
        affine(ka, kb, kc, p),
        affine(ka, kb, kc, a),
        affine(ka, kb, kc, b),
        affine(ka, kb, kc, c),
    );
    m
}

} // verus!
