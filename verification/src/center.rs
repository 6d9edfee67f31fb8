//! Directions as seen from a center whose coordinates are thirds of integers,
//! and their order over a full turn.
//!
//! The centroid of three lattice points is in general no lattice point, so
//! everything here is measured on the lattice scaled by three: the center is
//! held by its tripled coordinates, and points are tripled before they are
//! compared.

use vstd::arithmetic::mul::lemma_mul_unary_negation;
use vstd::prelude::*;
use crate::algebra::{
    lemma_det_mean, lemma_part_of_the_way, lemma_product_sign, lemma_three_term,
};
use crate::geometry::{cross_product, det, lemma_det_is_cross, Point, Pt};
use crate::wide::product_less;

verus! {

/// The point with three times the coordinates of `p`.
pub open spec fn tripled(p: Pt) -> Pt {
    Pt { x: 3 * p.x, y: 3 * p.y }
}

/// The scalar product of the vectors from `c` to `a` and from `c` to `b`.
pub open spec fn dot(c: Pt, a: Pt, b: Pt) -> int {
    (a.x - c.x) * (b.x - c.x) + (a.y - c.y) * (b.y - c.y)
}

/// Which half of the turn that starts at the direction of `r` holds the
/// direction of `u`, both seen from `c`: 0 for the first half, which begins
/// with the direction of `r` itself, and 1 for the second, which begins with
/// the direction opposite to it.
pub open spec fn half(c: Pt, r: Pt, u: Pt) -> int {
    if det(c, r, u) > 0 || (det(c, r, u) == 0 && dot(c, r, u) > 0) {
        0
    } else {
        1
    }
}

/// Turning counter-clockwise from the direction of `r`, the direction of `u`
/// is met strictly before that of `v`, all seen from `c`.
pub open spec fn turns_before(c: Pt, r: Pt, u: Pt, v: Pt) -> bool {
    half(c, r, u) < half(c, r, v) || (half(c, r, u) == half(c, r, v) && det(c, u, v) > 0)
}

/// Seen from `c`, the wedge from the direction of `a` counter-clockwise to
/// that of `b` is narrower than half a turn, and the direction of `q` lies
/// in it; the direction of `a` belongs to the wedge, that of `b` does not.
pub open spec fn in_wedge(c: Pt, a: Pt, b: Pt, q: Pt) -> bool {
    det(c, a, b) > 0 && det(c, a, q) >= 0 && det(c, q, b) > 0
}

/// Seen from `c`, the turn from the direction of `a` to that of `q` is less
/// than the turn from there to that of `b`: the sine of the difference of
/// the two turns is positive. This compares the two turns wherever `q` lies
/// in the wedge from `a` to `b`, since each is then less than half a turn.
pub open spec fn turns_less(c: Pt, a: Pt, b: Pt, q: Pt) -> bool {
    det(c, q, b) * dot(c, a, q) > dot(c, q, b) * det(c, a, q)
}

/// The product of two numbers below `2^34` in absolute value stays below
/// `2^68`.
proof fn lemma_small_product(x: int, y: int)
    by (nonlinear_arith)
    requires
        -0x4_0000_0000 <= x <= 0x4_0000_0000,
        -0x4_0000_0000 <= y <= 0x4_0000_0000,
    ensures
        -0x10_0000_0000_0000_0000 <= x * y <= 0x10_0000_0000_0000_0000,
{
}

proof fn lemma_nine(x: int, y: int)
    by (nonlinear_arith)
    ensures
        (3 * x) * (3 * y) == 9 * (x * y),
{
}

/// Scaling by three scales signed areas by nine.
pub proof fn lemma_tripled_area(a: Pt, b: Pt, c: Pt)
    ensures
        det(tripled(a), tripled(b), tripled(c)) == 9 * det(a, b, c),
{
    lemma_nine(b.x, c.y);
    lemma_nine(c.x, b.y);
    lemma_nine(a.x, c.y);
    lemma_nine(c.x, a.y);
    lemma_nine(a.x, b.y);
    lemma_nine(b.x, a.y);
}

/// A vector has a positive square unless it is zero.
proof fn lemma_dot_self(c: Pt, r: Pt)
    ensures
        dot(c, r, r) >= 0,
        dot(c, r, r) == 0 <==> r == c,
{
    let (x, y) = (r.x - c.x, r.y - c.y);
    assert(x * x >= 0 && y * y >= 0 && (x * x == 0 ==> x == 0) && (y * y == 0 ==> y == 0)) by (nonlinear_arith);
    if r == c {
        assert(x * x == 0 && y * y == 0) by (nonlinear_arith)
            requires
                x == 0,
                y == 0,
        ;
    }
}

/// Where `q` is seen from `c` in the direction of `r` or opposite to it, the
/// vector to `q` is a multiple of the vector to `r`, and so are the signed
/// areas that either spans with a third point.
pub proof fn lemma_parallel(c: Pt, r: Pt, q: Pt, x: Pt)
    requires
        det(c, r, q) == 0,
    ensures
        dot(c, r, r) * det(c, x, q) == dot(c, r, q) * det(c, x, r),
        dot(c, r, r) * (q.x - c.x) == dot(c, r, q) * (r.x - c.x),
        dot(c, r, r) * (q.y - c.y) == dot(c, r, q) * (r.y - c.y),
{
    let (rx, ry) = (r.x - c.x, r.y - c.y);
    let (qx, qy) = (q.x - c.x, q.y - c.y);
    let rr = dot(c, r, r);
    let rq = dot(c, r, q);
    lemma_det_is_cross(c, r, q);
    assert(rx * qy == ry * qx);
    assert((rx * rx + ry * ry) * qx == (rx * qx + ry * qy) * rx) by (nonlinear_arith)
        requires
            rx * qy == ry * qx,
    ;
    assert((rx * rx + ry * ry) * qy == (rx * qx + ry * qy) * ry) by (nonlinear_arith)
        requires
            rx * qy == ry * qx,
    ;
    lemma_part_of_the_way(rr, rq, q.x, r.x, c.x);
    lemma_part_of_the_way(rr, rq, q.y, r.y, c.y);
    lemma_det_mean(c, x, rr, rq, rr - rq, 0, r, c, c, q);
    assert(det(c, x, c) == 0);
    lemma_product_sign(rr - rq, det(c, x, c));
    lemma_product_sign(0, det(c, x, c));
}

/// A bracket found by comparing directions is a wedge: where `q` is met not
/// before `l` and before `n`, and `l` is seen less than half a turn before
/// `n`, then `q` lies in the wedge from `l` to `n`.
pub proof fn lemma_bracket_is_wedge(c: Pt, r: Pt, l: Pt, n: Pt, q: Pt)
    requires
        det(c, l, n) > 0,
        !turns_before(c, r, q, l),
        turns_before(c, r, q, n),
    ensures
        in_wedge(c, l, n, q),
{
    let hl = half(c, r, l);
    let hq = half(c, r, q);
    let hn = half(c, r, n);
    let rl = det(c, r, l);
    let rq = det(c, r, q);
    let rn = det(c, r, n);
    let ln = det(c, l, n);
    let lq = det(c, l, q);
    let qn = det(c, q, n);
    assert(det(c, q, l) == -lq && det(c, n, q) == -qn && det(c, n, l) == -ln);
    assert(det(c, l, r) == -rl && det(c, q, r) == -rq && det(c, n, r) == -rn);
    lemma_dot_self(c, r);
    if r == c {
        lemma_product_sign(r.x - c.x, l.x - c.x);
        lemma_product_sign(r.y - c.y, l.y - c.y);
        lemma_product_sign(r.x - c.x, q.x - c.x);
        lemma_product_sign(r.y - c.y, q.y - c.y);
        lemma_product_sign(r.x - c.x, n.x - c.x);
        lemma_product_sign(r.y - c.y, n.y - c.y);
        assert(hl == 1 && hq == 1 && hn == 1);
    } else if hl == hq && hq < hn {
        lemma_three_term(c, r, q, n, l);
        assert(rl * qn == rq * ln + rn * det(c, q, l));
        lemma_product_sign(rn, det(c, q, l));
        lemma_product_sign(rq, ln);
        if rl == 0 {
            lemma_parallel(c, r, l, n);
            lemma_product_sign(dot(c, r, r), det(c, n, l));
            lemma_product_sign(dot(c, r, l), det(c, n, r));
            assert(false);
        }
        if rq == 0 {
            lemma_parallel(c, r, q, l);
            lemma_product_sign(dot(c, r, r), det(c, l, q));
            lemma_product_sign(dot(c, r, q), det(c, l, r));
            assert(false);
        }
        lemma_product_sign(rl, qn);
    } else if hl < hq && hq == hn {
        lemma_three_term(c, r, l, q, n);
        assert(rn * lq == rl * det(c, n, q) + rq * ln);
        lemma_product_sign(rl, det(c, n, q));
        lemma_product_sign(rq, ln);
        if rn == 0 {
            lemma_parallel(c, r, n, l);
            lemma_product_sign(dot(c, r, r), ln);
            lemma_product_sign(dot(c, r, n), det(c, l, r));
            lemma_parallel(c, r, n, q);
            lemma_product_sign(dot(c, r, r), qn);
            lemma_product_sign(dot(c, r, n), det(c, q, r));
            assert(false);
        }
        lemma_product_sign(rn, lq);
    }
}

/// The same for the bracket that closes the turn: where `q` is met not
/// before `l`, and `l` is seen less than half a turn before the reference
/// direction comes round again, then `q` lies in the wedge from `l` to `r`.
pub proof fn lemma_last_bracket_is_wedge(c: Pt, r: Pt, l: Pt, q: Pt)
    requires
        q != c,
        det(c, l, r) > 0,
        !turns_before(c, r, q, l),
    ensures
        in_wedge(c, l, r, q),
{
    let rq = det(c, r, q);
    assert(det(c, r, l) == -det(c, l, r));
    assert(det(c, q, l) == -det(c, l, q));
    assert(det(c, q, r) == -rq);
    assert(half(c, r, l) == 1);
    assert(half(c, r, q) == 1);
    if rq == 0 {
        lemma_dot_self(c, r);
        lemma_parallel(c, r, q, l);
        lemma_product_sign(dot(c, r, r), det(c, l, q));
        lemma_product_sign(dot(c, r, q), det(c, l, r));
        assert(dot(c, r, q) == 0);
        lemma_product_sign(dot(c, r, q), r.x - c.x);
        lemma_product_sign(dot(c, r, q), r.y - c.y);
        lemma_product_sign(dot(c, r, r), q.x - c.x);
        lemma_product_sign(dot(c, r, r), q.y - c.y);
        assert(false);
    }
}

/// The reference direction is met before every other, and not before itself.
pub proof fn lemma_reference_first(c: Pt, r: Pt, q: Pt)
    ensures
        !turns_before(c, r, q, r),
{
    lemma_dot_self(c, r);
    assert(det(c, r, r) == 0);
    assert(det(c, q, r) == -det(c, r, q));
}

/// A center of the plane whose coordinates are thirds of integers, such as
/// the centroid of three lattice points.
#[derive(Clone, Copy, Debug)]
pub struct Center {
    x3: i64,
    y3: i64,
}

impl View for Center {
    type V = Pt;

    /// The center on the lattice scaled by three.
    closed spec fn view(&self) -> Pt {
        Pt { x: self.x3 as int, y: self.y3 as int }
    }
}

impl Center {
    #[verifier::type_invariant]
    spec fn in_range(self) -> bool {
        &&& -0x2_0000_0000 <= self.x3 <= 0x2_0000_0000
        &&& -0x2_0000_0000 <= self.y3 <= 0x2_0000_0000
    }

    /// The centroid of the triangle `a`, `b`, `c`.
    pub fn centroid(a: &Point, b: &Point, c: &Point) -> (r: Center)
        ensures
            r@ == (Pt { x: a.x + b.x + c.x, y: a.y + b.y + c.y }),
    {
        Center { x3: a.x as i64 + b.x as i64 + c.x as i64, y3: a.y as i64 + b.y as i64 + c.y as i64 }
    }

    /// The lattice point `p` as a center.
    pub fn at(p: &Point) -> (r: Center)
        ensures
            r@ == tripled(p@),
    {
        Center { x3: 3 * (p.x as i64), y3: 3 * (p.y as i64) }
    }

    /// Whether the center is the lattice point `p`.
    pub fn is_at(&self, p: &Point) -> (r: bool)
        ensures
            r == (self@ == tripled(p@)),
    {
        self.x3 == 3 * (p.x as i64) && self.y3 == 3 * (p.y as i64)
    }

    /// The signed area that the center spans with `a` and `b` on the lattice
    /// scaled by three: positive where the center sees `b` less than half a
    /// turn counter-clockwise of `a`.
    pub fn area(&self, a: &Point, b: &Point) -> (r: i128)
        ensures
            r == det(self@, tripled(a@), tripled(b@)),
            -0x40_0000_0000_0000_0000 <= r <= 0x40_0000_0000_0000_0000,
    {
        proof {
            use_type_invariant(self);
            lemma_det_is_cross(self@, tripled(a@), tripled(b@));
        }
        let ax: i64 = 3 * (a.x as i64) - self.x3;
        let ay: i64 = 3 * (a.y as i64) - self.y3;
        let bx: i64 = 3 * (b.x as i64) - self.x3;
        let by: i64 = 3 * (b.y as i64) - self.y3;
        proof {
            lemma_small_product(ax as int, by as int);
            lemma_small_product(ay as int, bx as int);
        }
        cross_product(ax, ay, bx, by)
    }

    /// The scalar product of the vectors from the center to `a` and to `b`, on
    /// the lattice scaled by three.
    pub fn scalar(&self, a: &Point, b: &Point) -> (r: i128)
        ensures
            r == dot(self@, tripled(a@), tripled(b@)),
            -0x40_0000_0000_0000_0000 <= r <= 0x40_0000_0000_0000_0000,
    {
        proof {
            use_type_invariant(self);
        }
        let ax: i64 = 3 * (a.x as i64) - self.x3;
        let ay: i64 = 3 * (a.y as i64) - self.y3;
        let bx: i64 = 3 * (b.x as i64) - self.x3;
        let by: i64 = 3 * (b.y as i64) - self.y3;
        proof {
            lemma_small_product(ax as int, bx as int);
            lemma_small_product(ay as int, by as int);
        }
        (ax as i128) * (bx as i128) + (ay as i128) * (by as i128)
    }

    /// Whether the turn from the direction of `a` to that of `q` is less than
    /// the turn from there to that of `b`, where `q` lies between the two.
    pub(crate) fn is_nearer_to_first(&self, a: &Point, b: &Point, q: &Point) -> (r: bool)
        requires
            det(self@, tripled(a@), tripled(q@)) >= 0,
            det(self@, tripled(q@), tripled(b@)) > 0,
        ensures
            r == turns_less(self@, tripled(a@), tripled(b@), tripled(q@)),
    {
        let x: i128 = self.area(q, b);
        let z: i128 = self.area(a, q);
        let w: i128 = self.scalar(a, q);
        let y: i128 = self.scalar(q, b);
        proof {
            lemma_product_sign(x as int, w as int);
            lemma_product_sign(y as int, z as int);
            lemma_mul_unary_negation(x as int, w as int);
            lemma_mul_unary_negation(y as int, z as int);
        }
        if w > 0 {
            if y <= 0 {
                true
            } else {
                product_less(y, z, x, w)
            }
        } else if y >= 0 {
            false
        } else {
            product_less(x, -w, -y, z)
        }
    }

    /// Whether the center sees `u` in the second half of the turn that starts
    /// at the direction of `r`.
    pub fn in_second_half(&self, r: &Point, u: &Point) -> (b: bool)
        ensures
            b == (half(self@, tripled(r@), tripled(u@)) == 1),
    {
        let d: i128 = self.area(r, u);
        !(d > 0 || (d == 0 && self.scalar(r, u) > 0))
    }

    /// Whether, turning counter-clockwise from the direction of `r`, the center
    /// meets the direction of `u` strictly before that of `v`.
    pub fn meets_before(&self, r: &Point, u: &Point, v: &Point) -> (b: bool)
        ensures
            b == turns_before(self@, tripled(r@), tripled(u@), tripled(v@)),
    {
        let hu: bool = self.in_second_half(r, u);
        let hv: bool = self.in_second_half(r, v);
        if hu == hv {
            self.area(u, v) > 0
        } else {
            hv
        }
    }
}

} // verus!
