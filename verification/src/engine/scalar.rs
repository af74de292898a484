//! Integer helpers shared by the vector and collision code.
use vstd::prelude::*;
use vstd::arithmetic::div_mod::{lemma_div_multiples_vanish, lemma_fundamental_div_mod, lemma_mod_bound};

verus! {

/// The value of the `i64` range that lies nearest to `v`.
pub open spec fn saturate(v: int) -> int {
    if v < i64::MIN as int {
        i64::MIN as int
    } else if v > i64::MAX as int {
        i64::MAX as int
    } else {
        v
    }
}

/// Division that rounds toward zero, for a divisor other than zero.
pub open spec fn quotient(a: int, b: int) -> int {
    if b > 0 {
        if a >= 0 { a / b } else { -((-a) / b) }
    } else {
        if a >= 0 { -(a / (-b)) } else { (-a) / (-b) }
    }
}

/// Rounding toward zero moves a quotient by less than one: the product of
/// divisor and quotient misses the dividend by less than the divisor.
pub proof fn lemma_quotient_error(a: int, b: int)
    requires
        b > 0,
    ensures
        -b < a - b * quotient(a, b) < b,
{
    if a >= 0 {
        lemma_fundamental_div_mod(a, b);
        lemma_mod_bound(a, b);
    } else {
        lemma_fundamental_div_mod(-a, b);
        lemma_mod_bound(-a, b);
        assert(b * (-((-a) / b)) == -(b * ((-a) / b))) by (nonlinear_arith);
    }
}

/// Rounding toward zero never lengthens: the product of divisor and
/// quotient is no longer than the dividend, and less than one divisor
/// shorter.
pub proof fn lemma_quotient_square(a: int, b: int)
    requires
        b > 0,
    ensures
        (b * quotient(a, b)) * (b * quotient(a, b)) <= a * a,
        a * a < (b * (vstd::math::abs(quotient(a, b)) + 1)) * (b * (vstd::math::abs(quotient(a, b)) + 1)),
{
    let q = quotient(a, b);
    let m = vstd::math::abs(q);
    lemma_quotient_error(a, b);
    if a >= 0 {
        lemma_fundamental_div_mod(a, b);
        lemma_mod_bound(a, b);
        assert(q >= 0) by (nonlinear_arith)
            requires
                b > 0,
                a >= 0,
                a - b * q < b,
        ;
        assert((b * q) * (b * q) <= a * a && a * a < (b * (q + 1)) * (b * (q + 1))) by (nonlinear_arith)
            requires
                0 <= b * q <= a,
                a < b * q + b,
                b > 0,
        ;
    } else {
        lemma_fundamental_div_mod(-a, b);
        lemma_mod_bound(-a, b);
        assert(b * (-((-a) / b)) == -(b * ((-a) / b))) by (nonlinear_arith);
        assert(q <= 0) by (nonlinear_arith)
            requires
                b > 0,
                a < 0,
                a - b * q > -b,
        ;
        assert((b * q) * (b * q) <= a * a && a * a < (b * (-q + 1)) * (b * (-q + 1))) by (nonlinear_arith)
            requires
                a <= b * q <= 0,
                a > b * q - b,
                b > 0,
        ;
    }
}

/// A multiple of the divisor is divided without rounding.
pub proof fn lemma_quotient_of_multiple(k: int, b: int)
    requires
        b > 0,
    ensures
        quotient(b * k, b) == k,
{
    if b * k >= 0 {
        lemma_div_multiples_vanish(k, b);
    } else {
        assert(-(b * k) == b * (-k)) by (nonlinear_arith);
        lemma_div_multiples_vanish(-k, b);
    }
}

/// Brings a wide intermediate result back into the `i64` range.
pub fn narrow(v: i128) -> (r: i64)
    ensures
        r as int == saturate(v as int),
{
    if v < i64::MIN as i128 {
        i64::MIN
    } else if v > i64::MAX as i128 {
        i64::MAX
    } else {
        v as i64
    }
}

/// Divides `a` by `b`, rounding toward zero.
pub fn divide(a: i64, b: i64) -> (q: i128)
    requires
        b != 0,
    ensures
        q == quotient(a as int, b as int),
{
    if b > 0 {
        a as i128 / b as i128
    } else {
        -(a as i128 / -(b as i128))
    }
}

/// The square of `v`, which always fits in 127 bits.
pub fn square(v: i64) -> (r: u128)
    ensures
        r == v * v,
        r <= 0x4000_0000_0000_0000_0000_0000_0000_0000,
{
    let w: i128 = v as i128;
    assert(0 <= w * w <= 0x4000_0000_0000_0000_0000_0000_0000_0000) by (nonlinear_arith)
        requires
            -0x8000_0000_0000_0000 <= w <= 0x7fff_ffff_ffff_ffff,
    ;
    (w * w) as u128
}

/// The largest integer whose square does not exceed `n`.
pub fn isqrt(n: u128) -> (r: u64)
    ensures
        r * r <= n,
        n < (r + 1) * (r + 1),
{
    let mut lo: u128 = 0;
    let mut hi: u128 = 0x1_0000_0000_0000_0000;
    assert(n < hi * hi) by (nonlinear_arith)
        requires
            hi == 0x1_0000_0000_0000_0000,
            n <= u128::MAX,
    ;
    while hi - lo > 1
        invariant
            lo < hi <= 0x1_0000_0000_0000_0000,
            lo * lo <= n,
            n < hi * hi,
        decreases hi - lo,
    {
        let mid: u128 = lo + (hi - lo) / 2;
        assert(mid * mid <= u128::MAX) by (nonlinear_arith)
            requires
                mid < 0x1_0000_0000_0000_0000,
        ;
        if mid * mid <= n {
            lo = mid;
        } else {
            hi = mid;
        }
    }
    lo as u64
}

} // verus!
