//! Fixed-point arithmetic on millionths.
//!
//! A real number `x` is held as the integer nearest below `x * ONE`. Products
//! of fixed-point numbers are accumulated exactly in `i128` and divided once,
//! rounding towards minus infinity, so every rounding step is monotone.
use vstd::prelude::*;

verus! {

/// The fixed-point number 1.0.
pub const ONE: i64 = 1_000_000;

/// `ONE * ONE`, the denominator of a product of two fixed-point numbers.
pub const ONE_SQUARED: i128 = 1_000_000_000_000;

/// `ONE * ONE * ONE`, the denominator of a product of three fixed-point numbers.
pub const ONE_CUBED: i128 = 1_000_000_000_000_000_000;

/// The `i64` nearest to `x`.
pub open spec fn saturated(x: int) -> i64 {
    if x < i64::MIN {
        i64::MIN
    } else if x > i64::MAX {
        i64::MAX
    } else {
        x as i64
    }
}

/// The distance between two integers.
pub open spec fn distance(a: int, b: int) -> int {
    if a >= b {
        a - b
    } else {
        b - a
    }
}

/// The larger of two integers.
pub open spec fn larger(a: int, b: int) -> int {
    if a >= b {
        a
    } else {
        b
    }
}

/// The product of two fixed-point numbers, rounded down and saturated.
pub open spec fn fixed_product(a: int, b: int) -> i64 {
    saturated((a * b) / (ONE as int))
}

/// Narrows an `i128` to the nearest `i64`.
pub fn saturate(x: i128) -> (r: i64)
    ensures
        r == saturated(x as int),
{
    if x < i64::MIN as i128 {
        i64::MIN
    } else if x > i64::MAX as i128 {
        i64::MAX
    } else {
        x as i64
    }
}

/// The absolute difference of two fixed-point numbers.
pub fn gap(a: i64, b: i64) -> (r: i128)
    ensures
        r == distance(a as int, b as int),
{
    if a >= b {
        a as i128 - b as i128
    } else {
        b as i128 - a as i128
    }
}

/// A quotient by a positive divisor lies no further from zero than the dividend.
pub proof fn lemma_quotient_bounded(n: int, d: int)
    requires
        d > 0,
    ensures
        n >= 0 ==> 0 <= n / d <= n,
        n < 0 ==> n <= n / d < 0,
{
    vstd::arithmetic::div_mod::lemma_fundamental_div_mod(n, d);
    vstd::arithmetic::div_mod::lemma_mod_bound(n, d);
    let q = n / d;
    let r = n % d;
    assert(n == d * q + r);
    assert(n >= 0 ==> 0 <= q <= n) by (nonlinear_arith)
        requires
            n == d * q + r,
            0 <= r < d,
            d > 0,
    ;
    assert(n < 0 ==> n <= q < 0) by (nonlinear_arith)
        requires
            n == d * q + r,
            0 <= r < d,
            d > 0,
    ;
}

/// A product is bounded by the product of its factors' bounds.
pub proof fn lemma_product_bounded(a: int, b: int, bound_a: int, bound_b: int)
    by (nonlinear_arith)
    requires
        -bound_a <= a <= bound_a,
        -bound_b <= b <= bound_b,
    ensures
        -(bound_a * bound_b) <= a * b <= bound_a * bound_b,
{
}

/// Division rounding towards minus infinity.
pub fn floor_div(n: i128, d: i128) -> (q: i128)
    requires
        d > 0,
    ensures
        q == n / d,
{
    proof {
        lemma_quotient_bounded(n as int, d as int);
    }
    match n.checked_div_euclid(d) {
        Some(q) => q,
        None => 0,
    }
}

/// The product of two fixed-point numbers.
pub fn multiply(a: i64, b: i64) -> (r: i64)
    ensures
        r == fixed_product(a as int, b as int),
{
    proof {
        lemma_product_bounded(a as int, b as int, 0x8000_0000_0000_0000, 0x8000_0000_0000_0000);
    }
    let wide: i128 = (a as i128) * (b as i128);
    saturate(floor_div(wide, ONE as i128))
}

/// Rounded quotients of two numbers lie no further apart than the numbers do,
/// measured in units of the divisor.
pub proof fn lemma_quotients_close(a: int, b: int, d: int, bound: int)
    requires
        d > 0,
        bound >= 0,
        distance(a, b) <= d * bound,
    ensures
        distance(a / d, b / d) <= bound,
{
    vstd::arithmetic::div_mod::lemma_fundamental_div_mod(a, d);
    vstd::arithmetic::div_mod::lemma_fundamental_div_mod(b, d);
    vstd::arithmetic::div_mod::lemma_mod_bound(a, d);
    vstd::arithmetic::div_mod::lemma_mod_bound(b, d);
    let qa = a / d;
    let qb = b / d;
    let ra = a % d;
    let rb = b % d;
    assert(qa - qb <= bound && qb - qa <= bound) by (nonlinear_arith)
        requires
            a == d * qa + ra,
            b == d * qb + rb,
            0 <= ra < d,
            0 <= rb < d,
            d > 0,
            bound >= 0,
            a - b <= d * bound,
            b - a <= d * bound,
    ;
}

/// Saturation never moves two numbers further apart.
pub proof fn lemma_saturation_close(a: int, b: int)
    ensures
        distance(saturated(a) as int, saturated(b) as int) <= distance(a, b),
{
}

} // verus!
