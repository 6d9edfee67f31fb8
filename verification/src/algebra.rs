//! Polynomial identities between signed areas.
//!
//! The signed area over a fixed base is an affine function of the apex. Every
//! identity below is that one fact, applied to a point that is a weighted mean
//! of others.

use vstd::arithmetic::mul::{
    lemma_mul_basics, lemma_mul_is_associative, lemma_mul_is_commutative,
    lemma_mul_is_distributive_add, lemma_mul_is_distributive_sub,
    lemma_mul_is_distributive_sub_other_way,
};
use vstd::prelude::*;
use crate::geometry::{cross, det, lemma_det_is_cross, Pt};

verus! {

/// The value at `p` of the affine function with coefficients `ka`, `kb`, `kc`.
pub open spec fn affine(ka: int, kb: int, kc: int, p: Pt) -> int {
    ka * p.x + kb * p.y + kc
}

/// The sign of a product, from the signs of its factors.
pub proof fn lemma_product_sign(x: int, y: int)
    by (nonlinear_arith)
    ensures
        x >= 0 && y >= 0 ==> x * y >= 0,
        x <= 0 && y <= 0 ==> x * y >= 0,
        x > 0 && y > 0 ==> x * y > 0,
        x < 0 && y < 0 ==> x * y > 0,
        x >= 0 && y <= 0 ==> x * y <= 0,
        x <= 0 && y >= 0 ==> x * y <= 0,
        x > 0 && y < 0 ==> x * y < 0,
        x < 0 && y > 0 ==> x * y < 0,
        x == 0 || y == 0 ==> x * y == 0,
        x * y == 0 ==> x == 0 || y == 0,
{
}

/// A positive factor does not change the sign of a product, and cancels
/// from an equation.
pub proof fn lemma_positive_factor(k: int, x: int, y: int)
    by (nonlinear_arith)
    requires
        k > 0,
    ensures
        k * x >= k * y <==> x >= y,
        k * x > k * y <==> x > y,
        k * x == k * y <==> x == y,
{
}

/// A factor distributes over a sum of three.
proof fn lemma_dist3(k: int, p: int, q: int, r: int)
    ensures
        k * (p + q + r) == k * p + k * q + k * r,
        (p + q + r) * k == p * k + q * k + r * k,
{
    lemma_mul_is_distributive_add(k, p + q, r);
    lemma_mul_is_distributive_add(k, p, q);
}

/// A product of three factors does not depend on their grouping or order.
proof fn lemma_mul3(x: int, y: int, z: int)
    ensures
        x * (y * z) == (x * y) * z,
        y * (x * z) == (x * y) * z,
        (y * z) * x == (x * y) * z,
        (z * x) * y == (x * y) * z,
{
    lemma_mul_is_associative(x, y, z);
    lemma_mul_is_associative(y, x, z);
    lemma_mul_is_commutative(x, y);
    lemma_mul_is_commutative(y * z, x);
    lemma_mul_is_commutative(z * x, y);
    lemma_mul_is_commutative(z, x);
}

/// A weight moves into an affine expression.
proof fn lemma_weighted(w: int, ka: int, kb: int, kc: int, x: int, y: int)
    ensures
        w * (ka * x + kb * y + kc) == ka * (w * x) + kb * (w * y) + kc * w,
{
    lemma_dist3(w, ka * x, kb * y, kc);
    lemma_mul3(ka, w, x);
    lemma_mul3(kb, w, y);
}

/// A weighted coordinate, split at an origin `o`.
proof fn lemma_shift(w: int, x: int, o: int)
    ensures
        w * x == w * (x - o) + w * o,
{
    lemma_mul_is_distributive_sub(w, x, o);
}

/// A coordinate `r` that lies `m` parts in `k` of the way from `o` to `b` is
/// the mean of `b` and `o` with the weights `m` and `k - m`.
pub proof fn lemma_part_of_the_way(k: int, m: int, r: int, b: int, o: int)
    requires
        k * (r - o) == m * (b - o),
    ensures
        k * r == m * b + (k - m) * o + 0 * o,
{
    lemma_mul_is_distributive_sub(k, r, o);
    lemma_mul_is_distributive_sub(m, b, o);
    lemma_mul_is_distributive_sub_other_way(o, k, m);
    lemma_mul_basics(o);
}

/// Three plane vectors are linearly dependent, with the pairwise cross
/// products as coefficients.
proof fn lemma_cross_dependency(ax: int, ay: int, bx: int, by: int, cx: int, cy: int)
    ensures
        cross(bx, by, cx, cy) * ax + cross(cx, cy, ax, ay) * bx + cross(ax, ay, bx, by) * cx == 0,
        cross(bx, by, cx, cy) * ay + cross(cx, cy, ax, ay) * by + cross(ax, ay, bx, by) * cy == 0,
{
    lemma_mul_is_distributive_sub_other_way(ax, bx * cy, by * cx);
    lemma_mul_is_distributive_sub_other_way(bx, cx * ay, cy * ax);
    lemma_mul_is_distributive_sub_other_way(cx, ax * by, ay * bx);
    lemma_mul3(bx, cy, ax);
    lemma_mul3(by, cx, ax);
    lemma_mul3(cx, ay, bx);
    lemma_mul3(cy, ax, bx);
    lemma_mul3(ax, by, cx);
    lemma_mul3(ay, bx, cx);
    lemma_mul_is_distributive_sub_other_way(ay, bx * cy, by * cx);
    lemma_mul_is_distributive_sub_other_way(by, cx * ay, cy * ax);
    lemma_mul_is_distributive_sub_other_way(cy, ax * by, ay * bx);
    lemma_mul3(bx, cy, ay);
    lemma_mul3(by, cx, ay);
    lemma_mul3(cx, ay, by);
    lemma_mul3(cy, ax, by);
    lemma_mul3(ax, by, cy);
    lemma_mul3(ay, bx, cy);
}

/// The signed area over the base `u`, `v`, written as an affine function of
/// the apex.
pub proof fn lemma_det_affine(u: Pt, v: Pt, p: Pt)
    ensures
        det(u, v, p) == affine(u.y - v.y, v.x - u.x, u.x * v.y - v.x * u.y, p),
{
    lemma_mul_is_distributive_sub_other_way(p.x, u.y, v.y);
    lemma_mul_is_distributive_sub_other_way(p.y, v.x, u.x);
}

/// An affine function commutes with weighted means: where `d * r` is the sum
/// of `al * a`, `be * b` and `ga * c`, and `d` the sum of the weights, the same
/// holds of the function's values.
pub proof fn lemma_affine_mean(
    ka: int,
    kb: int,
    kc: int,
    d: int,
    al: int,
    be: int,
    ga: int,
    a: Pt,
    b: Pt,
    c: Pt,
    r: Pt,
)
    requires
        d * r.x == al * a.x + be * b.x + ga * c.x,
        d * r.y == al * a.y + be * b.y + ga * c.y,
        d == al + be + ga,
    ensures
        d * affine(ka, kb, kc, r) == al * affine(ka, kb, kc, a) + be * affine(ka, kb, kc, b) + ga
            * affine(ka, kb, kc, c),
{
    lemma_weighted(d, ka, kb, kc, r.x, r.y);
    lemma_weighted(al, ka, kb, kc, a.x, a.y);
    lemma_weighted(be, ka, kb, kc, b.x, b.y);
    lemma_weighted(ga, ka, kb, kc, c.x, c.y);
    lemma_dist3(ka, al * a.x, be * b.x, ga * c.x);
    lemma_dist3(kb, al * a.y, be * b.y, ga * c.y);
    lemma_dist3(kc, al, be, ga);
}

/// The same for the signed area over the base `u`, `v`.
pub proof fn lemma_det_mean(u: Pt, v: Pt, d: int, al: int, be: int, ga: int, a: Pt, b: Pt, c: Pt, r: Pt)
    requires
        d * r.x == al * a.x + be * b.x + ga * c.x,
        d * r.y == al * a.y + be * b.y + ga * c.y,
        d == al + be + ga,
    ensures
        d * det(u, v, r) == al * det(u, v, a) + be * det(u, v, b) + ga * det(u, v, c),
{
    lemma_det_affine(u, v, r);
    lemma_det_affine(u, v, a);
    lemma_det_affine(u, v, b);
    lemma_det_affine(u, v, c);
    lemma_affine_mean(u.y - v.y, v.x - u.x, u.x * v.y - v.x * u.y, d, al, be, ga, a, b, c, r);
}

/// Two weighted pairs of points with the same weighted sum and the same
/// total weight have the same weighted sum of signed areas over any base.
pub proof fn lemma_det_balance(u: Pt, v: Pt, al: int, a: Pt, be: int, b: Pt, ga: int, c: Pt, de: int, d: Pt)
    requires
        al * a.x + be * b.x == ga * c.x + de * d.x,
        al * a.y + be * b.y == ga * c.y + de * d.y,
        al + be == ga + de,
    ensures
        al * det(u, v, a) + be * det(u, v, b) == ga * det(u, v, c) + de * det(u, v, d),
{
    let (ka, kb, kc) = (u.y - v.y, v.x - u.x, u.x * v.y - v.x * u.y);
    lemma_det_affine(u, v, a);
    lemma_det_affine(u, v, b);
    lemma_det_affine(u, v, c);
    lemma_det_affine(u, v, d);
    lemma_weighted(al, ka, kb, kc, a.x, a.y);
    lemma_weighted(be, ka, kb, kc, b.x, b.y);
    lemma_weighted(ga, ka, kb, kc, c.x, c.y);
    lemma_weighted(de, ka, kb, kc, d.x, d.y);
    lemma_mul_is_distributive_add(ka, al * a.x, be * b.x);
    lemma_mul_is_distributive_add(ka, ga * c.x, de * d.x);
    lemma_mul_is_distributive_add(kb, al * a.y, be * b.y);
    lemma_mul_is_distributive_add(kb, ga * c.y, de * d.y);
    lemma_mul_is_distributive_add(kc, al, be);
    lemma_mul_is_distributive_add(kc, ga, de);
}

/// The vectors from `o` to `a`, `b` and `c` are linearly dependent, with the
/// signed areas as coefficients.
pub proof fn lemma_dependency(o: Pt, a: Pt, b: Pt, c: Pt)
    ensures
        det(o, b, c) * (a.x - o.x) + det(o, c, a) * (b.x - o.x) + det(o, a, b) * (c.x - o.x) == 0,
        det(o, b, c) * (a.y - o.y) + det(o, c, a) * (b.y - o.y) + det(o, a, b) * (c.y - o.y) == 0,
{
    lemma_det_is_cross(o, b, c);
    lemma_det_is_cross(o, c, a);
    lemma_det_is_cross(o, a, b);
    lemma_cross_dependency(a.x - o.x, a.y - o.y, b.x - o.x, b.y - o.y, c.x - o.x, c.y - o.y);
}

/// Barycentric coordinates: `r`, weighted by the area of the triangle `a`,
/// `b`, `c`, is the sum of the corners, each weighted by the area that `r`
/// spans with the opposite side.
pub proof fn lemma_barycentric_coordinates(a: Pt, b: Pt, c: Pt, r: Pt)
    ensures
        det(a, b, c) * r.x == det(b, c, r) * a.x + det(c, a, r) * b.x + det(a, b, r) * c.x,
        det(a, b, c) * r.y == det(b, c, r) * a.y + det(c, a, r) * b.y + det(a, b, r) * c.y,
        det(a, b, c) == det(b, c, r) + det(c, a, r) + det(a, b, r),
{
    let al = det(b, c, r);
    let be = det(c, a, r);
    let ga = det(a, b, r);
    lemma_dependency(r, a, b, c);
    assert(al == det(r, b, c) && be == det(r, c, a) && ga == det(r, a, b));
    lemma_shift(al, a.x, r.x);
    lemma_shift(be, b.x, r.x);
    lemma_shift(ga, c.x, r.x);
    lemma_dist3(r.x, al, be, ga);
    lemma_shift(al, a.y, r.y);
    lemma_shift(be, b.y, r.y);
    lemma_shift(ga, c.y, r.y);
    lemma_dist3(r.y, al, be, ga);
}

/// The signed area of `r` over any base `u`, `v` is the barycentric mean of
/// the signed areas of the corners of a triangle `a`, `b`, `c`.
pub proof fn lemma_barycentric(a: Pt, b: Pt, c: Pt, r: Pt, u: Pt, v: Pt)
    ensures
        det(a, b, c) * det(u, v, r) == det(b, c, r) * det(u, v, a) + det(c, a, r) * det(u, v, b)
            + det(a, b, r) * det(u, v, c),
{
    lemma_barycentric_coordinates(a, b, c, r);
    lemma_det_mean(u, v, det(a, b, c), det(b, c, r), det(c, a, r), det(a, b, r), a, b, c, r);
}

/// The three-term relation between the signed areas that four points span
/// with a fifth, `t`.
pub proof fn lemma_three_term(t: Pt, a: Pt, b: Pt, c: Pt, d: Pt)
    ensures
        det(t, a, d) * det(t, b, c) == det(t, a, b) * det(t, d, c) + det(t, a, c) * det(t, b, d),
{
    lemma_barycentric(t, b, c, d, t, a);
    assert(det(t, a, t) == 0);
    lemma_mul_basics(det(b, c, d));
    assert(det(c, t, d) == det(t, d, c));
}

} // verus!
