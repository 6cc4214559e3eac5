//! Fixed-point scalars: an `i64` holding a real number times `ONE`.
use vstd::prelude::*;

verus! {

/// The fixed-point representation of 1.
pub const ONE: i64 = 65536;

/// Magnitude at which every stored scalar saturates.
pub const LIMIT: i64 = 1073741824;

/// Clamps an exact value into the stored range.
pub open spec fn sat(v: int) -> int {
    if v < -LIMIT {
        -LIMIT as int
    } else if v > LIMIT {
        LIMIT as int
    } else {
        v
    }
}

pub open spec fn in_range(v: int) -> bool {
    -LIMIT <= v <= LIMIT
}

/// Fixed-point product, rounded down, then saturated.
pub open spec fn fmul(a: int, b: int) -> int {
    sat((a * b) / (ONE as int))
}

/// Fixed-point quotient, rounded down, then saturated.
pub open spec fn fdiv(a: int, b: int) -> int {
    if b > 0 {
        sat((a * ONE) / b)
    } else {
        sat((-(a * ONE)) / (-b))
    }
}

/// `r` is the integer square root of `n`.
pub open spec fn is_root(n: int, r: int) -> bool {
    0 <= r && r * r <= n < (r + 1) * (r + 1)
}

/// The integer square root of a non-negative `n`.
pub open spec fn root(n: int) -> int {
    choose|r: int| is_root(n, r)
}

/// Fixed-point square root of a non-negative scalar.
pub open spec fn fsqrt(a: int) -> int {
    root(a * ONE)
}

pub proof fn lemma_root_unique(n: int, r1: int, r2: int)
    requires
        is_root(n, r1),
        is_root(n, r2),
    ensures
        r1 == r2,
{
    if r1 < r2 {
        assert((r1 + 1) * (r1 + 1) <= r2 * r2) by (nonlinear_arith)
            requires 0 <= r1 + 1 <= r2;
    } else if r2 < r1 {
        assert((r2 + 1) * (r2 + 1) <= r1 * r1) by (nonlinear_arith)
            requires 0 <= r2 + 1 <= r1;
    }
}

pub proof fn lemma_root_of(n: int, r: int)
    requires
        is_root(n, r),
    ensures
        root(n) == r,
{
    let c = root(n);
    lemma_root_unique(n, c, r);
}

/// Every non-negative integer has an integer square root.
pub proof fn lemma_root_exists(n: nat)
    ensures
        is_root(n as int, root(n as int)),
    decreases n,
{
    if n == 0 {
        assert(is_root(0, 0));
    } else {
        lemma_root_exists((n - 1) as nat);
        let r = root(n - 1);
        if (r + 1) * (r + 1) <= n {
            assert(n < (r + 2) * (r + 2)) by (nonlinear_arith)
                requires n - 1 < (r + 1) * (r + 1), r >= 0;
            assert(is_root(n as int, r + 1));
        } else {
            assert(is_root(n as int, r));
        }
    }
}

/// Quotient rounded toward negative infinity.
pub fn floor_div(a: i128, d: i128) -> (r: i128)
    requires
        d > 0,
    ensures
        r == a / d,
        a >= 0 ==> 0 <= r <= a,
        a < 0 ==> a <= r < 0,
{
    proof {
        vstd::arithmetic::div_mod::lemma_fundamental_div_mod(a as int, d as int);
        let q = a / d;
        let m = a % d;
        assert(a >= 0 ==> 0 <= q <= a) by (nonlinear_arith)
            requires d > 0, d * q + m == a, 0 <= m < d;
        assert(a < 0 ==> a <= q < 0) by (nonlinear_arith)
            requires d > 0, d * q + m == a, 0 <= m < d;
    }
    match a.checked_div_euclid(d) {
        Some(q) => q,
        None => 0,
    }
}

/// Quotient rounded toward zero.
pub open spec fn tdiv(a: int, d: int) -> int {
    if a >= 0 {
        a / d
    } else {
        -((-a) / d)
    }
}

/// Quotient rounded toward zero.
pub fn trunc_div(a: i128, d: i128) -> (r: i128)
    requires
        d > 0,
        a > i128::MIN,
    ensures
        r == tdiv(a as int, d as int),
{
    if a >= 0 {
        floor_div(a, d)
    } else {
        -floor_div(-a, d)
    }
}

/// Clamps an `i128` into the stored range.
pub fn saturate(v: i128) -> (r: i64)
    ensures
        r == sat(v as int),
{
    if v < -(LIMIT as i128) {
        -LIMIT
    } else if v > LIMIT as i128 {
        LIMIT
    } else {
        v as i64
    }
}

/// Product of two stored scalars.
pub fn mul_fixed(a: i64, b: i64) -> (r: i64)
    requires
        in_range(a as int),
        in_range(b as int),
    ensures
        r == fmul(a as int, b as int),
        in_range(r as int),
{
    proof {
        assert(-0x1000000000000000 <= a * b <= 0x1000000000000000) by (nonlinear_arith)
            requires -0x40000000 <= a <= 0x40000000, -0x40000000 <= b <= 0x40000000;
    }
    saturate(floor_div(a as i128 * b as i128, ONE as i128))
}

/// Quotient of two stored scalars.
pub fn div_fixed(a: i64, b: i64) -> (r: i64)
    requires
        in_range(a as int),
        b != 0,
    ensures
        r == fdiv(a as int, b as int),
        in_range(r as int),
{
    if b > 0 {
        saturate(floor_div(a as i128 * ONE as i128, b as i128))
    } else {
        saturate(floor_div(-(a as i128 * ONE as i128), -(b as i128)))
    }
}

/// Integer square root.
pub fn isqrt(n: i128) -> (r: i128)
    requires
        n >= 0,
    ensures
        r == root(n as int),
        is_root(n as int, r as int),
        0 <= r <= 0x10000000000000000,
{
    let m = n as u128;
    let mut lo: u128 = 0;
    let mut hi: u128 = 0x10000000000000000;
    assert(hi * hi > m) by (nonlinear_arith)
        requires hi == 0x10000000000000000, m < 0x100000000000000000000000000000000;
    while hi - lo > 1
        invariant
            lo < hi <= 0x10000000000000000,
            lo * lo <= m,
            m < hi * hi,
            m == n,
        decreases hi - lo,
    {
        let mid = lo + (hi - lo) / 2;
        assert(mid * mid < 0x100000000000000000000000000000000) by (nonlinear_arith)
            requires mid < 0x10000000000000000;
        if mid * mid <= m {
            lo = mid;
        } else {
            hi = mid;
        }
    }
    proof {
        assert(hi == lo + 1);
        assert(is_root(n as int, lo as int));
        lemma_root_of(n as int, lo as int);
    }
    lo as i128
}

/// Fixed-point square root of a non-negative stored scalar.
pub fn sqrt_fixed(a: i64) -> (r: i64)
    requires
        0 <= a <= LIMIT,
    ensures
        r == fsqrt(a as int),
        0 <= r <= LIMIT,
{
    assert(a * 65536 <= 0x40000000 * 65536) by (nonlinear_arith)
        requires 0 <= a <= 0x40000000;
    let s = isqrt(a as i128 * ONE as i128);
    proof {
        let n = a * ONE;
        assert(s * s <= n);
        assert(n <= 0x40000000 * 65536) by (nonlinear_arith)
            requires n == a * 65536, 0 <= a <= 0x40000000;
        assert(s <= 0x2000000) by (nonlinear_arith)
            requires s * s <= n, n <= 0x40000000 * 65536, s >= 0;
    }
    s as i64
}

} // verus!
