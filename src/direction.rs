//! Directions from an azimuth and a height: points of the unit sphere.
use vstd::prelude::*;
use crate::fixed::{ONE, in_range, fmul, root, is_root};
use crate::fixed::{floor_div, mul_fixed, isqrt};
use crate::vec3::{Vec3, mk, vunit, dot_raw, lemma_unit_norm};

verus! {

/// An eighth of a turn, pi / 4, in fixed point.
pub const EIGHTH: i64 = 51472;

/// A full turn, 2 pi, in fixed point.
pub const TURN: i64 = 411776;

/// Cosine of an angle in `[0, pi/4]` by its Taylor polynomial of degree four.
pub open spec fn poly_cos(a: int) -> int {
    let a2 = fmul(a, a);
    ONE - a2 / 2 + fmul(a2, a2) / 24
}

/// Sine of an angle in `[0, pi/4]` by its Taylor polynomial of degree five.
pub open spec fn poly_sin(a: int) -> int {
    let a2 = fmul(a, a);
    let a3 = fmul(a2, a);
    a - a3 / 6 + fmul(a3, a2) / 120
}

/// Cosine and sine of `angle` in `[0, 2 pi)`, approximately: the octant is
/// split off by symmetry and the remainder goes through the polynomials.
pub open spec fn circle_spec(angle: int) -> (int, int) {
    let o = angle / (EIGHTH as int);
    let a = angle - o * EIGHTH;
    let (c, s) = if o % 2 == 0 {
        (poly_cos(a), poly_sin(a))
    } else {
        (poly_sin(EIGHTH - a), poly_cos(EIGHTH - a))
    };
    let q = o / 2;
    if q == 0 {
        (c, s)
    } else if q == 1 {
        (-s, c)
    } else if q == 2 {
        (-c, -s)
    } else {
        (s, -c)
    }
}

/// The direction with height `z` whose horizontal part points at `angle`.
pub open spec fn sphere_point(angle: int, z: int) -> Vec3 {
    let (c, s) = circle_spec(angle);
    let u = vunit(mk(c, s, 0));
    let r = root(ONE * ONE - z * z);
    mk(fmul(r, u.x as int), fmul(r, u.y as int), z)
}

proof fn lemma_poly_bounds(a: int)
    requires
        0 <= a <= EIGHTH,
    ensures
        0 < poly_cos(a) <= ONE + 1040,
        -ONE <= poly_sin(a) <= ONE,
{
    let a2 = fmul(a, a);
    assert(0 <= a * a <= 51472 * 51472) by (nonlinear_arith)
        requires 0 <= a <= 51472;
    vstd::arithmetic::div_mod::lemma_div_is_ordered(a * a, (51472 * 51472) as int, 65536);
    vstd::arithmetic::div_mod::lemma_div_pos_is_pos(a * a, 65536);
    assert(0 <= a2 <= 40427);
    assert(0 <= a2 * a2 <= 40427 * 40427) by (nonlinear_arith)
        requires 0 <= a2 <= 40427;
    vstd::arithmetic::div_mod::lemma_div_is_ordered(a2 * a2, (40427 * 40427) as int, 65536);
    vstd::arithmetic::div_mod::lemma_div_pos_is_pos(a2 * a2, 65536);
    let a3 = fmul(a2, a);
    assert(0 <= a2 * a <= 40427 * 51472) by (nonlinear_arith)
        requires 0 <= a2 <= 40427, 0 <= a <= 51472;
    vstd::arithmetic::div_mod::lemma_div_is_ordered(a2 * a, (40427 * 51472) as int, 65536);
    vstd::arithmetic::div_mod::lemma_div_pos_is_pos(a2 * a, 65536);
    assert(0 <= a3 <= 31751);
    assert(0 <= a3 * a2 <= 31751 * 40427) by (nonlinear_arith)
        requires 0 <= a2 <= 40427, 0 <= a3 <= 31751;
    vstd::arithmetic::div_mod::lemma_div_is_ordered(a3 * a2, (31751 * 40427) as int, 65536);
    vstd::arithmetic::div_mod::lemma_div_pos_is_pos(a3 * a2, 65536);
}

/// Approximate cosine and sine of `angle` in `[0, 2 pi)`; never both zero.
pub fn circle(angle: i64) -> (r: (i64, i64))
    requires
        0 <= angle < TURN,
    ensures
        (r.0 as int, r.1 as int) == circle_spec(angle as int),
        r.0 != 0 || r.1 != 0,
        -ONE - 1040 <= r.0 <= ONE + 1040,
        -ONE - 1040 <= r.1 <= ONE + 1040,
{
    let o = floor_div(angle as i128, EIGHTH as i128) as i64;
    proof {
        vstd::arithmetic::div_mod::lemma_fundamental_div_mod(angle as int, EIGHTH as int);
        assert(0 <= o < 8);
    }
    let a = angle - o * EIGHTH;
    let b = if o % 2 == 0 { a } else { EIGHTH - a };
    proof {
        lemma_poly_bounds(b as int);
    }
    let b2 = mul_fixed(b, b);
    let b3 = mul_fixed(b2, b);
    let cos_b = ONE - b2 / 2 + mul_fixed(b2, b2) / 24;
    let sin_b = b - b3 / 6 + mul_fixed(b3, b2) / 120;
    let (c, s) = if o % 2 == 0 { (cos_b, sin_b) } else { (sin_b, cos_b) };
    let q = o / 2;
    if q == 0 {
        (c, s)
    } else if q == 1 {
        (-s, c)
    } else if q == 2 {
        (-c, -s)
    } else {
        (s, -c)
    }
}

impl Vec3 {
    /// The point of the unit sphere at height `z` whose horizontal part
    /// points at `angle`, in `[0, 2 pi)`.
    pub fn from_angle_height(angle: i64, z: i64) -> (r: Vec3)
        requires
            0 <= angle < TURN,
            -ONE <= z <= ONE,
        ensures
            r == sphere_point(angle as int, z as int),
            r.z == z,
            r.wf(),
            r.is_unit_bounded(),
            ONE * ONE - 16 * ONE <= dot_raw(r, r) <= ONE * ONE + 16 * ONE,
    {
        let (c, s) = circle(angle);
        let v = Vec3::new(c, s, 0);
        let u = v.unit();
        proof {
            lemma_unit_norm(v);
            let m = crate::vec3::fine_len(v);
            if m != 0 {
                vstd::arithmetic::div_mod::lemma_div_of0(m);
                assert(v.z * ONE * ONE == 0);
            }
            assert(u.z == 0);
            assert(0 <= z * z <= ONE * ONE) by (nonlinear_arith)
                requires -65536 <= z <= 65536;
        }
        let rr = isqrt(ONE as i128 * ONE as i128 - z as i128 * z as i128);
        proof {
            assert(rr <= ONE) by (nonlinear_arith)
                requires rr * rr <= 65536 * 65536 - z * z, rr >= 0, z * z >= 0;
        }
        let r = rr as i64;
        let x = mul_fixed(r, u.x);
        let y = mul_fixed(r, u.y);
        proof {
            lemma_horizontal(r as int, u.x as int, u.y as int, z as int);
        }
        Vec3::new(x, y, z)
    }
}

proof fn lemma_scaled_component(r: int, c: int)
    requires
        0 <= r <= ONE,
        -ONE <= c <= ONE,
    ensures
        fmul(r, c) == (r * c) / (ONE as int),
        -ONE <= fmul(r, c) <= ONE,
        (fmul(r, c) * ONE) * (fmul(r, c) * ONE) <= (r * c) * (r * c) + 2 * ONE * ONE * ONE + ONE * ONE,
        (fmul(r, c) * ONE) * (fmul(r, c) * ONE) >= (r * c) * (r * c) - 2 * ONE * ONE * ONE,
{
    let p = r * c;
    assert(-ONE * ONE <= p <= ONE * ONE) by (nonlinear_arith)
        requires 0 <= r <= 65536, -65536 <= c <= 65536, p == r * c;
    vstd::arithmetic::div_mod::lemma_fundamental_div_mod(p, ONE as int);
    let x = p / (ONE as int);
    let e = p % (ONE as int);
    assert(-ONE <= x <= ONE) by (nonlinear_arith)
        requires 65536 * x + e == p, 0 <= e < 65536, -65536 * 65536 <= p <= 65536 * 65536;
    assert(x * ONE == p - e);
    assert((p - e) * (p - e) == p * p - 2 * (p * e) + e * e) by (nonlinear_arith);
    assert(-ONE * ONE * ONE <= p * e <= ONE * ONE * ONE) by (nonlinear_arith)
        requires -65536 * 65536 <= p <= 65536 * 65536, 0 <= e < 65536;
    assert(0 <= e * e <= ONE * ONE) by (nonlinear_arith)
        requires 0 <= e < 65536;
}

/// Scaling a near-unit horizontal direction by the radius `r` of the circle
/// at height `z` keeps the whole point within `16 ONE` of unit squared length.
proof fn lemma_horizontal(r: int, ux: int, uy: int, z: int)
    requires
        is_root(ONE * ONE - z * z, r),
        -ONE <= z <= ONE,
        -ONE <= ux <= ONE,
        -ONE <= uy <= ONE,
        ONE * ONE - 5 * ONE <= ux * ux + uy * uy <= ONE * ONE + 8 * ONE,
    ensures
        ({
            let x = fmul(r, ux);
            let y = fmul(r, uy);
            &&& in_range(x) && in_range(y)
            &&& -ONE <= x <= ONE && -ONE <= y <= ONE
            &&& ONE * ONE - 16 * ONE <= x * x + y * y + z * z <= ONE * ONE + 16 * ONE
        }),
{
    let k = ONE * ONE - z * z;
    assert(0 <= z * z <= ONE * ONE) by (nonlinear_arith)
        requires -65536 <= z <= 65536;
    assert(0 <= k <= ONE * ONE);
    assert(r <= ONE) by (nonlinear_arith)
        requires r * r <= k, k <= 65536 * 65536, r >= 0;
    lemma_scaled_component(r, ux);
    lemma_scaled_component(r, uy);
    let x = fmul(r, ux);
    let y = fmul(r, uy);
    let u2 = ux * ux + uy * uy;
    let rr = r * r;
    assert((r * ux) * (r * ux) + (r * uy) * (r * uy) == rr * u2) by (nonlinear_arith)
        requires rr == r * r, u2 == ux * ux + uy * uy;
    assert((x * ONE) * (x * ONE) + (y * ONE) * (y * ONE) == (x * x + y * y) * (ONE * ONE))
        by (nonlinear_arith);
    assert(k - 2 * ONE - 1 <= rr <= k) by (nonlinear_arith)
        requires r * r <= k, k < (r + 1) * (r + 1), rr == r * r, 0 <= r <= 65536;
    assert(rr * u2 <= k * (ONE * ONE) + 8 * ONE * ONE * ONE) by (nonlinear_arith)
        requires u2 <= 65536 * 65536 + 8 * 65536, 0 <= rr <= k, k <= 65536 * 65536;
    assert(rr * u2 >= (k - 2 * ONE - 1) * (ONE * ONE) - 5 * ONE * ONE * ONE) by (nonlinear_arith)
        requires u2 >= 65536 * 65536 - 5 * 65536, k - 2 * 65536 - 1 <= rr, 0 <= rr <= 65536 * 65536;
    let h = x * x + y * y;
    assert(h * (ONE * ONE) <= k * (ONE * ONE) + 12 * ONE * ONE * ONE + 2 * ONE * ONE);
    assert(h * (ONE * ONE) >= (k - 2 * ONE - 1) * (ONE * ONE) - 9 * ONE * ONE * ONE);
    assert(h <= k + 13 * ONE) by (nonlinear_arith)
        requires h * (65536 * 65536) <= k * (65536 * 65536) + 12 * 65536 * 65536 * 65536 + 2 * 65536 * 65536;
    assert(h >= k - 12 * ONE) by (nonlinear_arith)
        requires h * (65536 * 65536) >= (k - 2 * 65536 - 1) * (65536 * 65536) - 9 * 65536 * 65536 * 65536;
}

} // verus!
