//! Comparing products that do not fit a machine word.

use vstd::arithmetic::mul::{
    lemma_mul_is_associative, lemma_mul_is_distributive_add,
    lemma_mul_is_distributive_add_other_way,
};
use vstd::prelude::*;

verus! {

/// The product of two sums `x1 * k + x0` and `y1 * k + y0`, by parts.
proof fn lemma_product_by_parts(x1: int, x0: int, y1: int, y0: int, k: int)
    ensures
        (x1 * k + x0) * (y1 * k + y0) == (x1 * y1) * (k * k) + (x1 * y0 + x0 * y1) * k + x0 * y0,
{
    let a = x1 * k;
    let b = y1 * k;
    lemma_mul_is_distributive_add(a + x0, b, y0);
    lemma_mul_is_distributive_add_other_way(b, a, x0);
    lemma_mul_is_distributive_add_other_way(y0, a, x0);
    assert(a * b == (x1 * y1) * (k * k)) by (nonlinear_arith)
        requires
            a == x1 * k,
            b == y1 * k,
    ;
    assert(a * y0 == (x1 * y0) * k) by (nonlinear_arith)
        requires
            a == x1 * k,
    ;
    lemma_mul_is_associative(x0, y1, k);
    lemma_mul_is_distributive_add_other_way(k, x1 * y0, x0 * y1);
}

/// The product of two numbers up to `2^70`, as `hi * 2^70 + lo`.
pub fn mul_wide(x: i128, y: i128) -> (r: (i128, i128))
    requires
        0 <= x <= 0x40_0000_0000_0000_0000,
        0 <= y <= 0x40_0000_0000_0000_0000,
    ensures
        0 <= r.0,
        0 <= r.1 < 0x40_0000_0000_0000_0000,
        r.0 * 0x40_0000_0000_0000_0000 + r.1 == x * y,
{
    let x1: i128 = x / 0x8_0000_0000;
    let x0: i128 = x % 0x8_0000_0000;
    let y1: i128 = y / 0x8_0000_0000;
    let y0: i128 = y % 0x8_0000_0000;
    proof {
        lemma_product_by_parts(x1 as int, x0 as int, y1 as int, y0 as int, 0x8_0000_0000);
        assert(0 <= x1 * y1 <= 0x40_0000_0000_0000_0000 && 0 <= x1 * y0 <= 0x40_0000_0000_0000_0000 && 0
            <= x0 * y1 <= 0x40_0000_0000_0000_0000 && 0 <= x0 * y0 <= 0x40_0000_0000_0000_0000)
            by (nonlinear_arith)
            requires
                0 <= x1 <= 0x8_0000_0000,
                0 <= x0 <= 0x8_0000_0000,
                0 <= y1 <= 0x8_0000_0000,
                0 <= y0 <= 0x8_0000_0000,
        ;
    }
    let top: i128 = x1 * y1;
    let middle: i128 = x1 * y0 + x0 * y1;
    let bottom: i128 = x0 * y0;
    let low: i128 = (middle % 0x8_0000_0000) * 0x8_0000_0000 + bottom;
    let hi: i128 = top + middle / 0x8_0000_0000 + low / 0x40_0000_0000_0000_0000;
    let lo: i128 = low % 0x40_0000_0000_0000_0000;
    (hi, lo)
}

/// Whether `a * b` is less than `c * d`, for four numbers up to `2^70`.
pub fn product_less(a: i128, b: i128, c: i128, d: i128) -> (r: bool)
    requires
        0 <= a <= 0x40_0000_0000_0000_0000,
        0 <= b <= 0x40_0000_0000_0000_0000,
        0 <= c <= 0x40_0000_0000_0000_0000,
        0 <= d <= 0x40_0000_0000_0000_0000,
    ensures
        r == (a * b < c * d),
{
    let left: (i128, i128) = mul_wide(a, b);
    let right: (i128, i128) = mul_wide(c, d);
    left.0 < right.0 || (left.0 == right.0 && left.1 < right.1)
}

} // verus!
