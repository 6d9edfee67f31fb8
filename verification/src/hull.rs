//! The convex hull of a finite point set.

use vstd::prelude::*;
use vstd::seq_lib::to_multiset_contains;
use crate::algebra::{lemma_dependency, lemma_product_sign};
use crate::angular::{above, in_fan};
use crate::geometry::{det, Point, Pt};
use crate::polygon::{
    contains, convex_position, edge_area, is_convex_polygon, lemma_vertex_left_of_edge, turn,
};
use crate::scan::{covered, fan_at, graham_scan, lemma_covered_is_contained};
use crate::sort::{all_above, copy_range, sort_around};

verus! {

/// Why no hull could be built.
#[derive(Clone, Copy, Debug, PartialEq, Eq, Structural)]
pub enum HullError {
    /// The point set is empty.
    EmptyInput,
    /// All points lie on one line, so they bound no polygon. A set with fewer
    /// than three distinct points is such a set.
    DegenerateHull,
}

/// All points of the sequence lie on one line.
pub open spec fn all_collinear(points: Seq<Point>) -> bool {
    forall|i: int, j: int, k: int|
        0 <= i < points.len() && 0 <= j < points.len() && 0 <= k < points.len() ==> #[trigger] turn(
            points,
            i,
            j,
            k,
        ) == 0
}

/// `o` is the lowest point of the sequence, and the leftmost of its lowest.
pub open spec fn is_lowest(points: Seq<Point>, o: Point) -> bool {
    points.contains(o) && forall|i: int|
        0 <= i < points.len() ==> #[trigger] points[i] == o || above(o@, points[i]@)
}

/// `hull` is the convex hull of `points`: a strictly convex polygon, wound
/// counter-clockwise from the lowest point, whose vertices are points of the
/// set and which contains the whole set.
pub open spec fn is_hull_of(hull: Seq<Point>, points: Seq<Point>) -> bool {
    &&& is_convex_polygon(hull)
    &&& forall|j: int| 0 <= j < hull.len() ==> points.contains(#[trigger] hull[j])
    &&& forall|i: int| 0 <= i < points.len() ==> contains(hull, #[trigger] points[i]@)
    &&& is_lowest(points, hull[0])
}

/// `x_min`, `x_max`, `y_min` and `y_max` bound the coordinates of `points`,
/// and each is attained.
pub open spec fn is_bounding_box(points: Seq<Point>, x_min: int, x_max: int, y_min: int, y_max: int) -> bool {
    &&& forall|i: int|
        0 <= i < points.len() ==> x_min <= (#[trigger] points[i]).x <= x_max && y_min <= points[i].y
            <= y_max
    &&& exists|i: int| 0 <= i < points.len() && (#[trigger] points[i]).x == x_min
    &&& exists|i: int| 0 <= i < points.len() && (#[trigger] points[i]).x == x_max
    &&& exists|i: int| 0 <= i < points.len() && (#[trigger] points[i]).y == y_min
    &&& exists|i: int| 0 <= i < points.len() && (#[trigger] points[i]).y == y_max
}

/// What a [`ConvexPoly`] holds.
pub struct ConvexPolyView {
    /// The points that the hull was built from, in the order given.
    pub all: Seq<Point>,
    /// The vertices of the hull, counter-clockwise from the lowest.
    pub hull: Seq<Point>,
    /// The least x-coordinate of the points.
    pub x_min: int,
    /// The greatest x-coordinate of the points.
    pub x_max: int,
    /// The least y-coordinate of the points.
    pub y_min: int,
    /// The greatest y-coordinate of the points.
    pub y_max: int,
}

impl ConvexPolyView {
    /// The hull is that of the points, and the box bounds them.
    pub open spec fn valid(self) -> bool {
        &&& is_hull_of(self.hull, self.all)
        &&& is_bounding_box(self.all, self.x_min, self.x_max, self.y_min, self.y_max)
    }
}

/// A point set together with its convex hull and its bounding box.
#[derive(Debug)]
pub struct ConvexPoly {
    all: Vec<Point>,
    hull: Vec<Point>,
    x_min: i32,
    x_max: i32,
    y_min: i32,
    y_max: i32,
}

impl View for ConvexPoly {
    type V = ConvexPolyView;

    closed spec fn view(&self) -> ConvexPolyView {
        ConvexPolyView {
            all: self.all@,
            hull: self.hull@,
            x_min: self.x_min as int,
            x_max: self.x_max as int,
            y_min: self.y_min as int,
            y_max: self.y_max as int,
        }
    }
}

/// Three points that lie on one line through two distinct points lie on one
/// line.
proof fn lemma_on_one_line(o: Pt, t: Pt, x: Pt, y: Pt, z: Pt)
    requires
        o != t,
        det(o, t, x) == 0,
        det(o, t, y) == 0,
        det(o, t, z) == 0,
    ensures
        det(x, y, z) == 0,
{
    lemma_pair_on_line(o, t, x, y);
    lemma_pair_on_line(o, t, y, z);
    lemma_pair_on_line(o, t, z, x);
}

proof fn lemma_pair_on_line(o: Pt, t: Pt, x: Pt, y: Pt)
    requires
        o != t,
        det(o, t, x) == 0,
        det(o, t, y) == 0,
    ensures
        det(o, x, y) == 0,
{
    lemma_dependency(o, t, x, y);
    let d = det(o, x, y);
    assert(det(o, y, t) == 0);
    lemma_product_sign(det(o, y, t), x.x - o.x);
    lemma_product_sign(det(o, t, x), y.x - o.x);
    lemma_product_sign(det(o, y, t), x.y - o.y);
    lemma_product_sign(det(o, t, x), y.y - o.y);
    lemma_product_sign(d, t.x - o.x);
    lemma_product_sign(d, t.y - o.y);
}

/// The index of the lowest point of `points`, the leftmost of its lowest.
fn lowest_index(points: &Vec<Point>) -> (k: usize)
    requires
        points.len() > 0,
    ensures
        k < points.len(),
        is_lowest(points@, points[k as int]),
{
    let mut k: usize = 0;
    let mut i: usize = 1;
    while i < points.len()
        invariant
            1 <= i <= points.len(),
            k < i,
            forall|j: int| 0 <= j < i ==> #[trigger] points[j] == points[k as int] || above(points[k as int]@, points[j]@),
        decreases points.len() - i,
    {
        let p: Point = points[i];
        let o: Point = points[k];
        if p.y < o.y || (p.y == o.y && p.x < o.x) {
            k = i;
        }
        i = i + 1;
    }
    k
}

/// The points of `points` other than `o`.
fn others(points: &Vec<Point>, o: Point) -> (rest: Vec<Point>)
    requires
        is_lowest(points@, o),
    ensures
        rest.len() < points.len(),
        all_above(o@, rest@),
        forall|j: int| 0 <= j < rest.len() ==> points@.contains(#[trigger] rest[j]),
        forall|i: int| 0 <= i < points.len() ==> #[trigger] points[i] == o || rest@.contains(points[i]),
{
    let mut rest: Vec<Point> = Vec::new();
    let mut i: usize = 0;
    let ghost at = points@.index_of(o);
    while i < points.len()
        invariant
            i <= points.len(),
            is_lowest(points@, o),
            0 <= at < points.len(),
            points[at] == o,
            rest.len() <= i,
            at < i ==> rest.len() < i,
            all_above(o@, rest@),
            forall|j: int| 0 <= j < rest.len() ==> points@.contains(#[trigger] rest[j]),
            forall|k: int| 0 <= k < i ==> #[trigger] points[k] == o || rest@.contains(points[k]),
        decreases points.len() - i,
    {
        let p: Point = points[i];
        let ghost before = rest@;
        if p.x != o.x || p.y != o.y {
            rest.push(p);
            proof {
                assert(rest[rest.len() - 1] == p);
                assert forall|k: int| 0 <= k < i + 1 implies #[trigger] points[k] == o || rest@.contains(
                    points[k],
                ) by {
                    if k < i && points[k] != o {
                        let w = before.index_of(points[k]);
                        assert(rest[w] == points[k]);
                    }
                }
            }
        } else {
            assert(p == o);
        }
        i = i + 1;
    }
    rest
}

/// The least and greatest coordinates of the points.
fn bounding_box(points: &Vec<Point>) -> (b: (i32, i32, i32, i32))
    requires
        points.len() > 0,
    ensures
        is_bounding_box(points@, b.0 as int, b.1 as int, b.2 as int, b.3 as int),
{
    let first: Point = points[0];
    let mut x_min: i32 = first.x;
    let mut x_max: i32 = first.x;
    let mut y_min: i32 = first.y;
    let mut y_max: i32 = first.y;
    let mut i: usize = 1;
    let ghost mut at_x_min: int = 0;
    let ghost mut at_x_max: int = 0;
    let ghost mut at_y_min: int = 0;
    let ghost mut at_y_max: int = 0;
    while i < points.len()
        invariant
            1 <= i <= points.len(),
            0 <= at_x_min < i && points[at_x_min].x == x_min,
            0 <= at_x_max < i && points[at_x_max].x == x_max,
            0 <= at_y_min < i && points[at_y_min].y == y_min,
            0 <= at_y_max < i && points[at_y_max].y == y_max,
            forall|j: int|
                0 <= j < i ==> x_min <= (#[trigger] points[j]).x <= x_max && y_min <= points[j].y <= y_max,
        decreases points.len() - i,
    {
        let p: Point = points[i];
        if p.x < x_min {
            x_min = p.x;
            proof {
                at_x_min = i as int;
            }
        }
        if p.x > x_max {
            x_max = p.x;
            proof {
                at_x_max = i as int;
            }
        }
        if p.y < y_min {
            y_min = p.y;
            proof {
                at_y_min = i as int;
            }
        }
        if p.y > y_max {
            y_max = p.y;
            proof {
                at_y_max = i as int;
            }
        }
        i = i + 1;
    }
    (x_min, x_max, y_min, y_max)
}

/// A scan that ends with fewer than three points has seen only points of
/// one line.
proof fn lemma_short_stack_is_line(points: Seq<Point>, sorted: Seq<Point>, stack: Seq<Point>)
    requires
        1 <= stack.len() < 3,
        is_lowest(points, stack[0]),
        forall|j: int| 1 <= j < stack.len() ==> above(stack[0]@, #[trigger] stack[j]@),
        forall|i: int| 0 <= i < points.len() ==> #[trigger] points[i] == stack[0] || sorted.contains(points[i]),
        forall|m: int| 0 <= m < sorted.len() ==> covered(stack, #[trigger] sorted[m]@),
    ensures
        all_collinear(points),
{
    let o = stack[0];
    if stack.len() == 1 {
        assert forall|i: int| 0 <= i < points.len() implies #[trigger] points[i] == o by {
            if points[i] != o {
                let m = sorted.index_of(points[i]);
                assert(covered(stack, sorted[m]@));
            }
        }
        assert forall|i: int, j: int, k: int|
            0 <= i < points.len() && 0 <= j < points.len() && 0 <= k < points.len() implies #[trigger] turn(
            points,
            i,
            j,
            k,
        ) == 0 by {
            assert(points[i] == o && points[j] == o && points[k] == o);
        }
    } else {
        let t = stack[1];
        assert(above(o@, t@));
        assert forall|i: int| 0 <= i < points.len() implies det(o@, t@, #[trigger] points[i]@) == 0 by {
            if points[i] != o {
                let m = sorted.index_of(points[i]);
                assert(covered(stack, sorted[m]@));
                let j = choose|j: int| 0 <= j < stack.len() - 1 && #[trigger] fan_at(stack, j, sorted[m]@);
                assert(j == 0);
                assert(in_fan(o@, o@, t@, points[i]@));
            }
        }
        assert forall|i: int, j: int, k: int|
            0 <= i < points.len() && 0 <= j < points.len() && 0 <= k < points.len() implies #[trigger] turn(
            points,
            i,
            j,
            k,
        ) == 0 by {
            lemma_on_one_line(o@, t@, points[i]@, points[j]@, points[k]@);
        }
    }
}

/// A scan that ends with three points or more has built the hull.
proof fn lemma_long_stack_is_hull(points: Seq<Point>, sorted: Seq<Point>, stack: Seq<Point>)
    requires
        stack.len() >= 3,
        is_lowest(points, stack[0]),
        convex_position(stack),
        all_above(stack[0]@, sorted),
        forall|j: int| 0 <= j < sorted.len() ==> points.contains(#[trigger] sorted[j]),
        forall|j: int| 1 <= j < stack.len() ==> sorted.contains(#[trigger] stack[j]),
        forall|i: int| 0 <= i < points.len() ==> #[trigger] points[i] == stack[0] || sorted.contains(points[i]),
        forall|m: int| 0 <= m < sorted.len() ==> covered(stack, #[trigger] sorted[m]@),
    ensures
        is_hull_of(stack, points),
        !all_collinear(points),
{
    let o = stack[0];
    assert forall|j: int| 1 <= j < stack.len() implies above(o@, #[trigger] stack[j]@) by {
        let m = sorted.index_of(stack[j]);
        assert(above(o@, sorted[m]@));
    }
    assert forall|j: int| 0 <= j < stack.len() implies points.contains(#[trigger] stack[j]) by {
        if j > 0 {
            let m = sorted.index_of(stack[j]);
            assert(points.contains(sorted[m]));
        }
    }
    assert forall|i: int| 0 <= i < points.len() implies contains(stack, #[trigger] points[i]@) by {
        if points[i] == o {
            assert forall|e: int| 0 <= e < stack.len() implies #[trigger] edge_area(stack, e, o@) >= 0 by {
                lemma_vertex_left_of_edge(stack, e, 0);
            }
        } else {
            let m = sorted.index_of(points[i]);
            assert(covered(stack, sorted[m]@));
            assert(above(o@, sorted[m]@));
            lemma_covered_is_contained(stack, points[i]@);
        }
    }
    let a = points.index_of(stack[0]);
    let b = points.index_of(stack[1]);
    let c = points.index_of(stack[2]);
    assert(turn(stack, 0, 1, 2) > 0);
    assert(turn(points, a, b, c) > 0);
}

impl ConvexPoly {
    #[verifier::type_invariant]
    spec fn well_formed(self) -> bool {
        self@.valid()
    }

    /// Builds the convex hull of `points` by a Graham scan: the lowest point is
    /// the pivot, the others are sorted by the direction in which the pivot
    /// sees them, and a scan keeps those at which the boundary turns left.
    ///
    /// Fails on an empty set, and on a set whose points all lie on one line.
    pub fn new(points: Vec<Point>) -> (r: Result<ConvexPoly, HullError>)
        ensures
            match r {
                Ok(poly) => {
                    &&& poly@.all == points@
                    &&& poly@.valid()
                    &&& poly@.hull.len() <= points.len()
                    &&& !all_collinear(points@)
                },
                Err(HullError::EmptyInput) => points.len() == 0,
                Err(HullError::DegenerateHull) => points.len() > 0 && all_collinear(points@),
            },
    {
        if points.len() == 0 {
            return Err(HullError::EmptyInput);
        }
        let k: usize = lowest_index(&points);
        let pivot: Point = points[k];
        let rest: Vec<Point> = others(&points, pivot);
        let sorted: Vec<Point> = sort_around(&pivot, rest);
        proof {
            assert forall|j: int| 0 <= j < sorted.len() implies points@.contains(#[trigger] sorted[j]) by {
                to_multiset_contains(sorted@, sorted[j]);
                to_multiset_contains(rest@, sorted[j]);
                let w = rest@.index_of(sorted[j]);
                assert(points@.contains(rest[w]));
            }
            assert forall|i: int| 0 <= i < points.len() implies #[trigger] points[i] == pivot
                || sorted@.contains(points[i]) by {
                to_multiset_contains(sorted@, points[i]);
                to_multiset_contains(rest@, points[i]);
            }
        }
        let stack: Vec<Point> = graham_scan(pivot, &sorted);
        if stack.len() < 3 {
            proof {
                assert forall|j: int| 1 <= j < stack.len() implies above(stack[0]@, #[trigger] stack[j]@) by {
                    let m = sorted@.index_of(stack[j]);
                    assert(above(pivot@, sorted[m]@));
                }
                lemma_short_stack_is_line(points@, sorted@, stack@);
            }
            return Err(HullError::DegenerateHull);
        }
        proof {
            lemma_long_stack_is_hull(points@, sorted@, stack@);
        }
        let b: (i32, i32, i32, i32) = bounding_box(&points);
        Ok(ConvexPoly { all: points, hull: stack, x_min: b.0, x_max: b.1, y_min: b.2, y_max: b.3 })
    }

    /// The points that the hull was built from.
    pub fn all(&self) -> (r: &Vec<Point>)
        ensures
            r@ == self@.all,
    {
        &self.all
    }

    /// The vertices of the hull, counter-clockwise from the lowest point.
    pub fn hull(&self) -> (r: &Vec<Point>)
        ensures
            r@ == self@.hull,
            self@.valid(),
    {
        proof {
            use_type_invariant(self);
        }
        &self.hull
    }

    /// The least x-coordinate of the points.
    pub fn x_min(&self) -> (r: i32)
        ensures
            r == self@.x_min,
    {
        self.x_min
    }

    /// The greatest x-coordinate of the points.
    pub fn x_max(&self) -> (r: i32)
        ensures
            r == self@.x_max,
    {
        self.x_max
    }

    /// The least y-coordinate of the points.
    pub fn y_min(&self) -> (r: i32)
        ensures
            r == self@.y_min,
    {
        self.y_min
    }

    /// The greatest y-coordinate of the points.
    pub fn y_max(&self) -> (r: i32)
        ensures
            r == self@.y_max,
    {
        self.y_max
    }
}

impl Clone for ConvexPoly {
    fn clone(&self) -> (r: ConvexPoly)
        ensures
            r@ == self@,
    {
        proof {
            use_type_invariant(self);
        }
        let all: Vec<Point> = copy_range(&self.all, 0, self.all.len());
        let hull: Vec<Point> = copy_range(&self.hull, 0, self.hull.len());
        proof {
            assert(all@ =~= self.all@);
            assert(hull@ =~= self.hull@);
        }
        ConvexPoly {
            all,
            hull,
            x_min: self.x_min,
            x_max: self.x_max,
            y_min: self.y_min,
            y_max: self.y_max,
        }
    }
}

} // verus!
