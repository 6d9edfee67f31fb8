//! Sorting points by the direction in which a pivot below them sees them.

use vstd::prelude::*;
use vstd::seq_lib::{lemma_multiset_commutative, to_multiset_build};
use crate::angular::{above, lemma_precedes_total, lemma_precedes_transitive, precedes};
use crate::geometry::{signed_area, Point, Pt};

verus! {

/// Every point of `s` lies above the pivot `o`.
pub open spec fn all_above(o: Pt, s: Seq<Point>) -> bool {
    forall|i: int| 0 <= i < s.len() ==> above(o, #[trigger] s[i]@)
}

/// `s` is in the order in which `o` sees its points: counter-clockwise, and
/// from near to far within one direction.
pub open spec fn sorted_around(o: Pt, s: Seq<Point>) -> bool {
    forall|i: int, j: int| 0 <= i < j < s.len() ==> precedes(o, #[trigger] s[i]@, #[trigger] s[j]@)
}

/// Decides `precedes` for three lattice points.
pub fn comes_before(o: &Point, a: &Point, b: &Point) -> (r: bool)
    ensures
        r == precedes(o@, a@, b@),
{
    let d: i128 = signed_area(o, a, b);
    d > 0 || (d == 0 && (a.y < b.y || (a.y == b.y && a.x <= b.x)))
}

/// Merges two sorted runs into one.
fn merge(o: &Point, a: &Vec<Point>, b: &Vec<Point>) -> (r: Vec<Point>)
    requires
        all_above(o@, a@),
        all_above(o@, b@),
        sorted_around(o@, a@),
        sorted_around(o@, b@),
        a.len() + b.len() <= usize::MAX,
    ensures
        r@.to_multiset() == a@.to_multiset().add(b@.to_multiset()),
        sorted_around(o@, r@),
        all_above(o@, r@),
{
    let mut r: Vec<Point> = Vec::new();
    let mut i: usize = 0;
    let mut j: usize = 0;
    proof {
        assert(a@.take(0) =~= Seq::<Point>::empty());
        assert(b@.take(0) =~= Seq::<Point>::empty());
        lemma_multiset_commutative(a@.take(0), b@.take(0));
        assert(a@.take(0) + b@.take(0) =~= r@);
    }
    while i < a.len() || j < b.len()
        invariant
            i <= a.len(),
            j <= b.len(),
            all_above(o@, a@),
            all_above(o@, b@),
            sorted_around(o@, a@),
            sorted_around(o@, b@),
            all_above(o@, r@),
            sorted_around(o@, r@),
            r@.to_multiset() == a@.take(i as int).to_multiset().add(b@.take(j as int).to_multiset()),
            forall|k: int, l: int| 0 <= k < r.len() && i <= l < a.len() ==> precedes(o@, #[trigger] r[k]@, #[trigger] a[l]@),
            forall|k: int, l: int| 0 <= k < r.len() && j <= l < b.len() ==> precedes(o@, #[trigger] r[k]@, #[trigger] b[l]@),
        decreases a.len() - i + b.len() - j,
    {
        let take_left: bool = if j == b.len() {
            true
        } else if i == a.len() {
            false
        } else {
            comes_before(o, &a[i], &b[j])
        };
        let ghost before = r@;
        if take_left {
            let x: Point = a[i];
            r.push(x);
            proof {
                assert(a@.take(i + 1) =~= a@.take(i as int).push(x));
                to_multiset_build(a@.take(i as int), x);
                to_multiset_build(before, x);
                assert(r@.to_multiset() =~= a@.take(i + 1).to_multiset().add(b@.take(j as int).to_multiset()));
                assert forall|k: int, l: int| 0 <= k < r.len() && j <= l < b.len() implies precedes(
                    o@,
                    #[trigger] r[k]@,
                    #[trigger] b[l]@,
                ) by {
                    if k == r.len() - 1 {
                        assert(precedes(o@, a[i as int]@, b[j as int]@));
                        if l > j {
                            lemma_precedes_transitive(o@, x@, b[j as int]@, b[l]@);
                        }
                    } else {
                        assert(r[k] == before[k]);
                    }
                }
            }
            i = i + 1;
        } else {
            let x: Point = b[j];
            r.push(x);
            proof {
                assert(b@.take(j + 1) =~= b@.take(j as int).push(x));
                to_multiset_build(b@.take(j as int), x);
                to_multiset_build(before, x);
                assert(r@.to_multiset() =~= a@.take(i as int).to_multiset().add(b@.take(j + 1).to_multiset()));
                assert forall|k: int, l: int| 0 <= k < r.len() && i <= l < a.len() implies precedes(
                    o@,
                    #[trigger] r[k]@,
                    #[trigger] a[l]@,
                ) by {
                    if k == r.len() - 1 {
                        lemma_precedes_total(o@, a[i as int]@, b[j as int]@);
                        assert(precedes(o@, b[j as int]@, a[i as int]@));
                        if l > i {
                            lemma_precedes_transitive(o@, x@, a[i as int]@, a[l]@);
                        }
                    } else {
                        assert(r[k] == before[k]);
                    }
                }
            }
            j = j + 1;
        }
    }
    proof {
        assert(a@.take(a.len() as int) =~= a@);
        assert(b@.take(b.len() as int) =~= b@);
    }
    r
}

/// Copies the part of `v` from `from` up to `to`.
pub(crate) fn copy_range(v: &Vec<Point>, from: usize, to: usize) -> (r: Vec<Point>)
    requires
        from <= to <= v.len(),
    ensures
        r@ == v@.subrange(from as int, to as int),
{
    let mut r: Vec<Point> = Vec::new();
    let mut i: usize = from;
    while i < to
        invariant
            from <= i <= to <= v.len(),
            r@ == v@.subrange(from as int, i as int),
        decreases to - i,
    {
        r.push(v[i]);
        proof {
            assert(r@ =~= v@.subrange(from as int, i + 1));
        }
        i = i + 1;
    }
    r
}

/// Sorts points that lie above the pivot `o` into the order in which `o`
/// sees them, by merging.
pub fn sort_around(o: &Point, v: Vec<Point>) -> (r: Vec<Point>)
    requires
        all_above(o@, v@),
    ensures
        r@.to_multiset() == v@.to_multiset(),
        sorted_around(o@, r@),
        all_above(o@, r@),
        r.len() == v.len(),
    decreases v.len(),
{
    let n: usize = v.len();
    if n <= 1 {
        return v;
    }
    let mid: usize = n / 2;
    let left: Vec<Point> = copy_range(&v, 0, mid);
    let right: Vec<Point> = copy_range(&v, mid, n);
    proof {
        assert(v@ =~= left@ + right@);
        lemma_multiset_commutative(left@, right@);
    }
    let left: Vec<Point> = sort_around(o, left);
    let right: Vec<Point> = sort_around(o, right);
    let r: Vec<Point> = merge(o, &left, &right);
    proof {
        vstd::seq_lib::to_multiset_len(r@);
        vstd::seq_lib::to_multiset_len(v@);
    }
    r
}

} // verus!
