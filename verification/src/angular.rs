//! The order in which points are seen from a pivot that lies below them.
//!
//! All points above the pivot, or level with it and to its right, are seen
//! within a half turn, so the sign of a signed area orders them by direction.
//! Points in one direction are ordered from near to far.

use vstd::prelude::*;
use crate::algebra::{
    lemma_barycentric, lemma_dependency, lemma_det_mean, lemma_part_of_the_way,
    lemma_positive_factor, lemma_product_sign,
};
use crate::geometry::{det, lemma_det_is_cross, Pt};

verus! {

/// `q` lies higher than `o`, or level with it and to its right.
pub open spec fn above(o: Pt, q: Pt) -> bool {
    q.y > o.y || (q.y == o.y && q.x > o.x)
}

/// `a` lies lower than `b`, or level with it and not to its right.
pub open spec fn lower_or_equal(a: Pt, b: Pt) -> bool {
    a.y < b.y || (a.y == b.y && a.x <= b.x)
}

/// Seen from `o`, the direction of `a` comes before that of `b`
/// counter-clockwise, or both lie in one direction and `a` is not farther.
pub open spec fn precedes(o: Pt, a: Pt, b: Pt) -> bool {
    det(o, a, b) > 0 || (det(o, a, b) == 0 && lower_or_equal(a, b))
}

/// Any two points above the pivot are comparable.
pub proof fn lemma_precedes_total(o: Pt, a: Pt, b: Pt)
    ensures
        precedes(o, a, b) || precedes(o, b, a),
{
}

/// The order of directions is transitive among points above the pivot, and
/// strict as soon as one of the two steps is.
pub proof fn lemma_direction_transitive(o: Pt, a: Pt, b: Pt, c: Pt)
    requires
        above(o, a),
        above(o, b),
        above(o, c),
        det(o, a, b) >= 0,
        det(o, b, c) >= 0,
    ensures
        det(o, a, c) >= 0,
        det(o, a, b) > 0 || det(o, b, c) > 0 ==> det(o, a, c) > 0,
{
    let (ax, ay) = (a.x - o.x, a.y - o.y);
    let (bx, by) = (b.x - o.x, b.y - o.y);
    let (cx, cy) = (c.x - o.x, c.y - o.y);
    lemma_dependency(o, a, b, c);
    lemma_det_is_cross(o, a, b);
    lemma_det_is_cross(o, b, c);
    lemma_det_is_cross(o, a, c);
    assert(det(o, c, a) == -det(o, a, c));
    let ab = det(o, a, b);
    let bc = det(o, b, c);
    let ac = det(o, a, c);
    assert(det(o, c, a) * by == -(by * ac)) by (nonlinear_arith)
        requires
            det(o, c, a) == -ac,
    ;
    assert(det(o, c, a) * bx == -(bx * ac)) by (nonlinear_arith)
        requires
            det(o, c, a) == -ac,
    ;
    assert(by * ac == bc * ay + ab * cy);
    assert(bx * ac == bc * ax + ab * cx);
    lemma_product_sign(bc, ay);
    lemma_product_sign(ab, cy);
    if by > 0 {
        lemma_positive_factor(by, ac, 0);
        if ab > 0 || bc > 0 {
            // a point level with the pivot is seen first, so neither `a` nor `c`
            // can fail to rise where the step next to it is strict
            if cy == 0 {
                lemma_product_sign(by, cx);
                lemma_product_sign(bx, cy);
                assert(bc == bx * cy - by * cx);
                assert(false);
            }
            if ay == 0 {
                lemma_product_sign(ax, by);
                lemma_product_sign(ay, bx);
                assert(ab == ax * by - ay * bx);
                assert(ab > 0);
            }
            assert(by * ac > 0);
        }
    } else {
        assert(by == 0 && bx > 0);
        lemma_product_sign(ax, by);
        lemma_product_sign(ay, bx);
        assert(ab == ax * by - ay * bx);
        assert(ay == 0) by {
            if ay > 0 {
                assert(ay * bx > 0);
            }
        }
        assert(ab == 0);
        lemma_product_sign(ax, cy);
        lemma_product_sign(ay, cx);
        assert(ac == ax * cy - ay * cx);
        lemma_product_sign(bx, cy);
        lemma_product_sign(by, cx);
        assert(bc == bx * cy - by * cx);
        if bc > 0 {
            assert(cy > 0);
            assert(ac > 0);
        }
    }
}

/// The order around the pivot is transitive among points above it.
pub proof fn lemma_precedes_transitive(o: Pt, a: Pt, b: Pt, c: Pt)
    requires
        above(o, a),
        above(o, b),
        above(o, c),
        precedes(o, a, b),
        precedes(o, b, c),
    ensures
        precedes(o, a, c),
{
    lemma_direction_transitive(o, a, b, c);
    if det(o, a, b) == 0 && det(o, b, c) == 0 {
        assert(det(o, c, b) == 0 && det(o, b, a) == 0);
        lemma_direction_transitive(o, c, b, a);
        assert(det(o, c, a) == -det(o, a, c));
    }
}

/// Where `r` lies between the pivot and `b` on one ray, its signed area over
/// any base lies between theirs: it is not negative if theirs are not.
pub proof fn lemma_between_on_ray(o: Pt, b: Pt, r: Pt, u: Pt, v: Pt)
    requires
        above(o, b),
        above(o, r),
        det(o, r, b) == 0,
        lower_or_equal(r, b),
        det(u, v, o) >= 0,
        det(u, v, b) >= 0,
    ensures
        det(u, v, r) >= 0,
{
    let (bx, by) = (b.x - o.x, b.y - o.y);
    let (rx, ry) = (r.x - o.x, r.y - o.y);
    lemma_det_is_cross(o, r, b);
    assert(rx * by - ry * bx == 0);
    // k * (r - o) == m * (b - o) with 0 <= m <= k and 0 < k
    let k = if by > 0 { by } else { bx };
    let m = if by > 0 { ry } else { rx };
    assert(0 <= m <= k && 0 < k);
    assert(k * rx == m * bx && k * ry == m * by) by {
        if by > 0 {
            assert(by * rx == rx * by && by * ry == ry * by) by (nonlinear_arith);
        } else {
            assert(ry == 0);
            assert(bx * rx == rx * bx && bx * ry == rx * by) by (nonlinear_arith)
                requires
                    ry == 0,
                    by == 0,
            ;
        }
    }
    lemma_part_of_the_way(k, m, r.x, b.x, o.x);
    lemma_part_of_the_way(k, m, r.y, b.y, o.y);
    lemma_det_mean(u, v, k, m, k - m, 0, b, o, o, r);
    lemma_product_sign(m, det(u, v, b));
    lemma_product_sign(k - m, det(u, v, o));
    lemma_product_sign(0, det(u, v, o));
    lemma_positive_factor(k, det(u, v, r), 0);
}

/// `r` lies in the fan that the pivot `o` spans with `a` and `b`: not before
/// `a`, not after `b`, and not beyond the line from `a` to `b`.
pub open spec fn in_fan(o: Pt, a: Pt, b: Pt, r: Pt) -> bool {
    det(o, a, r) >= 0 && precedes(o, r, b) && det(a, b, r) >= 0
}

/// A point of a fan lies to the left of, or on, every line that has the
/// fan's three corners to its left or on it.
pub proof fn lemma_fan_left_of(o: Pt, a: Pt, b: Pt, r: Pt, u: Pt, v: Pt)
    requires
        above(o, b),
        above(o, r),
        a == o || above(o, a),
        det(o, a, b) >= 0,
        in_fan(o, a, b, r),
        det(u, v, o) >= 0,
        det(u, v, a) >= 0,
        det(u, v, b) >= 0,
    ensures
        det(u, v, r) >= 0,
{
    if det(o, a, b) > 0 {
        lemma_barycentric(o, a, b, r, u, v);
        assert(det(b, o, r) == det(o, r, b));
        lemma_product_sign(det(a, b, r), det(u, v, o));
        lemma_product_sign(det(b, o, r), det(u, v, a));
        lemma_product_sign(det(o, a, r), det(u, v, b));
        lemma_positive_factor(det(o, a, b), det(u, v, r), 0);
    } else {
        assert(det(o, b, r) >= 0) by {
            if a == o {
                assert(det(a, b, r) == det(o, b, r));
            } else {
                assert(det(o, b, a) == 0);
                lemma_direction_transitive(o, b, a, r);
            }
        }
        assert(det(o, r, b) == -det(o, b, r));
        lemma_between_on_ray(o, b, r, u, v);
    }
}

} // verus!
