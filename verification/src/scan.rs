//! The scan of a Graham hull construction over points sorted around a pivot.

use vstd::prelude::*;
use crate::angular::{
    above, in_fan, lemma_between_on_ray, lemma_direction_transitive, lemma_fan_left_of, precedes,
};
use crate::geometry::{det, signed_area, Point, Pt};
use crate::polygon::{
    contains, convex_position, edge_area, lemma_push_keeps_convex, lemma_vertex_left_of_edge,
    next_index, turn,
};
use crate::sort::{all_above, sorted_around};

verus! {

/// `r` lies in the fan that the first vertex of `stack` spans with the
/// vertices `j` and `j + 1`.
pub open spec fn fan_at(stack: Seq<Point>, j: int, r: Pt) -> bool {
    in_fan(stack[0]@, stack[j]@, stack[j + 1]@, r)
}

/// `r` lies in one of the fans of `stack`.
pub open spec fn covered(stack: Seq<Point>, r: Pt) -> bool {
    exists|j: int| 0 <= j < stack.len() - 1 && #[trigger] fan_at(stack, j, r)
}

/// `r` lies in the fan that the first vertex of `stack` will span with the
/// last one and `q`, once `q` is pushed.
pub open spec fn pending(stack: Seq<Point>, q: Pt, r: Pt) -> bool {
    det(stack[0]@, stack.last()@, r) >= 0 && det(stack.last()@, q, r) >= 0
}

/// The later vertices of `stack` lie above the first and are seen by it
/// before `q`.
pub open spec fn ready_for(stack: Seq<Point>, q: Pt) -> bool {
    forall|j: int|
        1 <= j < stack.len() ==> above(stack[0]@, #[trigger] stack[j]@) && precedes(
            stack[0]@,
            stack[j]@,
            q,
        )
}

/// Removing a last vertex that makes no left turn with `q` loses no point:
/// what its fan covered, the fan that `q` will close covers.
proof fn lemma_pop_keeps_cover(stack: Seq<Point>, q: Pt, r: Pt)
    requires
        stack.len() >= 2,
        convex_position(stack),
        ready_for(stack, q),
        above(stack[0]@, q),
        above(stack[0]@, r),
        precedes(stack[0]@, r, q),
        det(stack[stack.len() - 2]@, stack[stack.len() - 1]@, q) <= 0,
        covered(stack, r) || pending(stack, q, r),
    ensures
        covered(stack.drop_last(), r) || pending(stack.drop_last(), q, r),
{
    let n = stack.len() as int;
    let o = stack[0]@;
    let s = stack[n - 2]@;
    let t = stack[n - 1]@;
    let rest = stack.drop_last();
    assert(above(o, t) && precedes(o, t, q));
    assert(det(s, q, o) >= 0 && det(o, s, t) >= 0) by {
        if n > 2 {
            assert(precedes(o, stack[n - 2]@, q));
            assert(turn(stack, 0, n - 2, n - 1) > 0);
        }
    }
    assert(det(s, q, t) == -det(s, t, q));
    if covered(stack, r) {
        let j = choose|j: int| 0 <= j < stack.len() - 1 && #[trigger] fan_at(stack, j, r);
        if j < n - 2 {
            assert(fan_at(rest, j, r));
        } else {
            if n > 2 {
                assert(above(o, stack[n - 2]@));
            }
            lemma_fan_left_of(o, s, t, r, s, q);
            assert(pending(rest, q, r));
        }
    } else {
        lemma_fan_left_of(o, t, q, r, s, q);
        if n > 2 {
            assert(above(o, stack[n - 2]@));
            assert(turn(stack, 0, n - 2, n - 1) > 0);
            lemma_direction_transitive(o, s, t, r);
        }
        assert(pending(rest, q, r));
    }
}

/// Pushing `q` turns the pending fan into a fan of the stack.
proof fn lemma_push_keeps_cover(stack: Seq<Point>, q: Point, r: Pt)
    requires
        stack.len() >= 1,
        covered(stack, r) || pending(stack, q@, r),
        precedes(stack[0]@, r, q@),
    ensures
        covered(stack.push(q), r),
{
    let e = stack.push(q);
    if covered(stack, r) {
        let j = choose|j: int| 0 <= j < stack.len() - 1 && #[trigger] fan_at(stack, j, r);
        assert(fan_at(e, j, r));
    } else {
        assert(fan_at(e, stack.len() - 1, r));
    }
}

/// The point that is pushed lies in the fan that it closes.
proof fn lemma_push_covers_itself(stack: Seq<Point>, q: Point)
    requires
        stack.len() >= 1,
        ready_for(stack, q@),
    ensures
        covered(stack.push(q), q@),
{
    let e = stack.push(q);
    let n = stack.len() as int;
    if n >= 2 {
        assert(precedes(stack[0]@, stack[n - 1]@, q@));
    }
    assert(fan_at(e, n - 1, q@));
}

/// A point that makes a left turn with the last two vertices keeps the stack
/// in convex position.
proof fn lemma_scan_push_convex(stack: Seq<Point>, q: Point)
    requires
        stack.len() >= 1,
        convex_position(stack),
        ready_for(stack, q@),
        above(stack[0]@, q@),
        stack.len() >= 2 ==> det(stack[stack.len() - 2]@, stack[stack.len() - 1]@, q@) > 0,
    ensures
        convex_position(stack.push(q)),
{
    let n = stack.len() as int;
    let o = stack[0]@;
    if n >= 2 {
        let s = stack[n - 2]@;
        let t = stack[n - 1]@;
        assert(above(o, t) && precedes(o, t, q@));
        assert(det(o, t, q@) > 0) by {
            if det(o, t, q@) == 0 {
                if n > 2 {
                    assert(precedes(o, stack[n - 2]@, q@));
                    lemma_between_on_ray(o, q@, t, s, q@);
                    assert(det(s, q@, t) == -det(s, t, q@));
                }
            }
        }
        assert forall|j: int| 1 <= j < stack.len() implies det(stack[0]@, #[trigger] stack[j]@, q@) > 0 by {
            if j < n - 1 {
                assert(turn(stack, 0, j, n - 1) > 0);
                assert(above(o, stack[j]@));
                lemma_direction_transitive(o, stack[j]@, t, q@);
            }
        }
        lemma_push_keeps_convex(stack, q);
    }
}

/// A point in a fan of a sequence in convex position lies in the polygon.
pub proof fn lemma_covered_is_contained(stack: Seq<Point>, r: Pt)
    requires
        convex_position(stack),
        forall|j: int| 1 <= j < stack.len() ==> above(stack[0]@, #[trigger] stack[j]@),
        above(stack[0]@, r),
        covered(stack, r),
    ensures
        contains(stack, r),
{
    let o = stack[0]@;
    let n = stack.len() as int;
    let j = choose|j: int| 0 <= j < stack.len() - 1 && #[trigger] fan_at(stack, j, r);
    assert(above(o, stack[j + 1]@));
    if j > 0 {
        assert(above(o, stack[j]@));
        assert(turn(stack, 0, j, j + 1) > 0);
    }
    assert forall|i: int| 0 <= i < stack.len() implies #[trigger] edge_area(stack, i, r) >= 0 by {
        lemma_vertex_left_of_edge(stack, i, 0);
        lemma_vertex_left_of_edge(stack, i, j);
        lemma_vertex_left_of_edge(stack, i, j + 1);
        lemma_fan_left_of(o, stack[j]@, stack[j + 1]@, r, stack[i]@, stack[next_index(n, i)]@);
    }
}

/// Whether `q` makes a left turn with the last two points of `stack`.
fn turns_left(stack: &Vec<Point>, q: &Point) -> (r: bool)
    requires
        stack.len() >= 2,
    ensures
        r == (det(stack[stack.len() - 2]@, stack[stack.len() - 1]@, q@) > 0),
{
    let n: usize = stack.len();
    signed_area(&stack[n - 2], &stack[n - 1], q) > 0
}

/// Scans points sorted around the pivot `o`, keeping on a stack the boundary
/// of what was seen so far: before a point is pushed, the points that make no
/// left turn with it are popped.
///
/// The stack begins with the pivot, is in convex position, and its fans
/// cover every point scanned.
pub fn graham_scan(o: Point, sorted: &Vec<Point>) -> (stack: Vec<Point>)
    requires
        all_above(o@, sorted@),
        sorted_around(o@, sorted@),
    ensures
        1 <= stack.len() <= sorted.len() + 1,
        stack[0] == o,
        forall|j: int| 1 <= j < stack.len() ==> sorted@.contains(#[trigger] stack[j]),
        convex_position(stack@),
        forall|m: int| 0 <= m < sorted.len() ==> covered(stack@, #[trigger] sorted[m]@),
{
    let mut stack: Vec<Point> = Vec::new();
    stack.push(o);
    let n: usize = sorted.len();
    let mut i: usize = 0;
    while i < n
        invariant
            n == sorted.len(),
            i <= n,
            all_above(o@, sorted@),
            sorted_around(o@, sorted@),
            1 <= stack.len() <= i + 1,
            stack[0] == o,
            forall|j: int| 1 <= j < stack.len() ==> sorted@.contains(#[trigger] stack[j]),
            forall|j: int| 1 <= j < stack.len() ==> above(o@, #[trigger] stack[j]@),
            forall|j: int, m: int|
                1 <= j < stack.len() && i <= m < n ==> precedes(o@, #[trigger] stack[j]@, #[trigger] sorted[m]@),
            convex_position(stack@),
            forall|m: int| 0 <= m < i ==> covered(stack@, #[trigger] sorted[m]@),
        decreases n - i,
    {
        let q: Point = sorted[i];
        assert(ready_for(stack@, q@));
        while stack.len() > 1 && !turns_left(&stack, &q)
            invariant
                n == sorted.len(),
                i < n,
                q == sorted[i as int],
                all_above(o@, sorted@),
                sorted_around(o@, sorted@),
                1 <= stack.len() <= i + 1,
                stack[0] == o,
                forall|j: int| 1 <= j < stack.len() ==> sorted@.contains(#[trigger] stack[j]),
                forall|j: int| 1 <= j < stack.len() ==> above(o@, #[trigger] stack[j]@),
                forall|j: int, m: int|
                    1 <= j < stack.len() && i <= m < n ==> precedes(
                        o@,
                        #[trigger] stack[j]@,
                        #[trigger] sorted[m]@,
                    ),
                convex_position(stack@),
                ready_for(stack@, q@),
                forall|m: int|
                    0 <= m < i ==> covered(stack@, #[trigger] sorted[m]@) || pending(stack@, q@, sorted[m]@),
            decreases stack.len(),
        {
            let ghost before = stack@;
            stack.pop();
            proof {
                assert(stack@ =~= before.drop_last());
                assert forall|m: int| 0 <= m < i implies covered(stack@, #[trigger] sorted[m]@) || pending(
                    stack@,
                    q@,
                    sorted[m]@,
                ) by {
                    lemma_pop_keeps_cover(before, q@, sorted[m]@);
                }
                assert forall|a: int, b: int, c: int| 0 <= a < b < c < stack.len() implies #[trigger] turn(
                    stack@,
                    a,
                    b,
                    c,
                ) > 0 by {
                    assert(turn(before, a, b, c) > 0);
                }
                assert(ready_for(stack@, q@));
            }
        }
        let ghost before = stack@;
        stack.push(q);
        proof {
            lemma_scan_push_convex(before, q);
            assert forall|m: int| 0 <= m < i + 1 implies covered(stack@, #[trigger] sorted[m]@) by {
                if m < i {
                    lemma_push_keeps_cover(before, q, sorted[m]@);
                } else {
                    lemma_push_covers_itself(before, q);
                }
            }
        }
        i = i + 1;
    }
    stack
}

} // verus!
