//! Points, the signed area of a triangle, and the orientation predicate.

use vstd::arithmetic::mul::{lemma_mul_is_distributive_sub, lemma_mul_is_distributive_sub_other_way};
use vstd::prelude::*;

verus! {

/// A point of the plane with unbounded integer coordinates. Contracts and
/// lemmas speak of such points; [`Point`] is the executable counterpart.
pub struct Pt {
    pub x: int,
    pub y: int,
}

/// A lattice point with machine coordinates.
#[derive(Clone, Copy, Debug, PartialEq, Eq, Structural, Hash)]
pub struct Point {
    pub x: i32,
    pub y: i32,
}

impl View for Point {
    type V = Pt;

    open spec fn view(&self) -> Pt {
        Pt { x: self.x as int, y: self.y as int }
    }
}

/// The determinant of the matrix with rows `(1, 1, 1)`, `(s.x, p.x, e.x)`,
/// `(s.y, p.y, e.y)`: twice the signed area of the triangle `s`, `p`, `e`.
pub open spec fn det(s: Pt, p: Pt, e: Pt) -> int {
    (p.x * e.y - e.x * p.y) - (s.x * e.y - e.x * s.y) + (s.x * p.y - p.x * s.y)
}

/// The cross product of the two vectors `(ax, ay)` and `(bx, by)`.
pub open spec fn cross(ax: int, ay: int, bx: int, by: int) -> int {
    ax * by - ay * bx
}

/// The determinant is the cross product of the two edge vectors that leave `s`.
pub proof fn lemma_det_is_cross(s: Pt, p: Pt, e: Pt)
    ensures
        det(s, p, e) == cross(p.x - s.x, p.y - s.y, e.x - s.x, e.y - s.y),
{
    let (px, py) = (p.x - s.x, p.y - s.y);
    lemma_mul_is_distributive_sub(px, e.y, s.y);
    lemma_mul_is_distributive_sub_other_way(e.y, p.x, s.x);
    lemma_mul_is_distributive_sub_other_way(s.y, p.x, s.x);
    lemma_mul_is_distributive_sub(py, e.x, s.x);
    lemma_mul_is_distributive_sub_other_way(e.x, p.y, s.y);
    lemma_mul_is_distributive_sub_other_way(s.x, p.y, s.y);
}

/// The turn that the path `s`, `p`, `e` makes at `p`.
#[derive(Clone, Copy, Debug, PartialEq, Eq, PartialOrd, Ord, Structural)]
pub enum Orientation {
    Leftwards,
    Collinear,
    Rightwards,
}

/// The orientation that belongs to a signed area.
pub open spec fn orientation_of(d: int) -> Orientation {
    if d < 0 {
        Orientation::Rightwards
    } else if d > 0 {
        Orientation::Leftwards
    } else {
        Orientation::Collinear
    }
}

/// The cross product of two vectors whose coordinates do not exceed `2^62`
/// in absolute value: the widest range over which the difference of the
/// two products fits the result.
pub fn cross_product(ax: i64, ay: i64, bx: i64, by: i64) -> (r: i128)
    requires
        -0x4000_0000_0000_0000 <= ax <= 0x4000_0000_0000_0000,
        -0x4000_0000_0000_0000 <= ay <= 0x4000_0000_0000_0000,
        -0x4000_0000_0000_0000 <= bx <= 0x4000_0000_0000_0000,
        -0x4000_0000_0000_0000 <= by <= 0x4000_0000_0000_0000,
    ensures
        r == cross(ax as int, ay as int, bx as int, by as int),
{
    assert(-0x1000_0000_0000_0000_0000_0000_0000_0000 <= ax * by
        <= 0x1000_0000_0000_0000_0000_0000_0000_0000) by (nonlinear_arith)
        requires
            -0x4000_0000_0000_0000 <= ax <= 0x4000_0000_0000_0000,
            -0x4000_0000_0000_0000 <= by <= 0x4000_0000_0000_0000,
    ;
    assert(-0x1000_0000_0000_0000_0000_0000_0000_0000 <= ay * bx
        <= 0x1000_0000_0000_0000_0000_0000_0000_0000) by (nonlinear_arith)
        requires
            -0x4000_0000_0000_0000 <= ay <= 0x4000_0000_0000_0000,
            -0x4000_0000_0000_0000 <= bx <= 0x4000_0000_0000_0000,
    ;
    (ax as i128) * (by as i128) - (ay as i128) * (bx as i128)
}

/// The signed area of the triangle `s`, `p`, `e`, doubled.
pub fn signed_area(s: &Point, p: &Point, e: &Point) -> (r: i128)
    ensures
        r == det(s@, p@, e@),
{
    proof {
        lemma_det_is_cross(s@, p@, e@);
    }
    cross_product(
        p.x as i64 - s.x as i64,
        p.y as i64 - s.y as i64,
        e.x as i64 - s.x as i64,
        e.y as i64 - s.y as i64,
    )
}

impl Orientation {
    /// Classifies the turn at `p` on the way from `s` to `e`: `Leftwards` where
    /// the signed area is positive, `Rightwards` where it is negative,
    /// `Collinear` where the three points lie on one line.
    pub fn calc(s: &Point, p: &Point, e: &Point) -> (o: Orientation)
        ensures
            o == orientation_of(det(s@, p@, e@)),
    {
        let sign: i128 = signed_area(s, p, e);
        if sign < 0 {
            return Orientation::Rightwards;
        }
        if sign > 0 {
            return Orientation::Leftwards;
        }
        Orientation::Collinear
    }
}

} // verus!
