//! Three-component fixed-point vectors, used as points, directions and colours.
use vstd::prelude::*;
use crate::fixed::{ONE, LIMIT, sat, in_range, fmul, fdiv, root, fsqrt, is_root, tdiv};
use crate::fixed::{floor_div, trunc_div, saturate, mul_fixed, div_fixed, isqrt, sqrt_fixed};

verus! {

#[derive(Clone, Copy, Debug, PartialEq, Eq, Structural)]
pub struct Vec3 {
    pub x: i64,
    pub y: i64,
    pub z: i64,
}

/// A point in space.
pub type Point = Vec3;

/// A colour; each channel is 1 at full intensity.
pub type Color = Vec3;

pub open spec fn mk(x: int, y: int, z: int) -> Vec3 {
    Vec3 { x: x as i64, y: y as i64, z: z as i64 }
}

pub open spec fn vadd(a: Vec3, b: Vec3) -> Vec3 {
    mk(sat(a.x + b.x), sat(a.y + b.y), sat(a.z + b.z))
}

pub open spec fn vsub(a: Vec3, b: Vec3) -> Vec3 {
    mk(sat(a.x - b.x), sat(a.y - b.y), sat(a.z - b.z))
}

pub open spec fn vneg(a: Vec3) -> Vec3 {
    mk(-a.x, -a.y, -a.z)
}

/// Component-wise product, as used to tint a colour.
pub open spec fn vmul(a: Vec3, b: Vec3) -> Vec3 {
    mk(fmul(a.x as int, b.x as int), fmul(a.y as int, b.y as int), fmul(a.z as int, b.z as int))
}

pub open spec fn vscale(a: Vec3, t: int) -> Vec3 {
    mk(fmul(a.x as int, t), fmul(a.y as int, t), fmul(a.z as int, t))
}

pub open spec fn vdiv(a: Vec3, t: int) -> Vec3 {
    mk(fdiv(a.x as int, t), fdiv(a.y as int, t), fdiv(a.z as int, t))
}

/// The dot product of the stored integers, without rescaling.
pub open spec fn dot_raw(a: Vec3, b: Vec3) -> int {
    a.x * b.x + a.y * b.y + a.z * b.z
}

pub open spec fn vdot(a: Vec3, b: Vec3) -> int {
    sat(dot_raw(a, b) / (ONE as int))
}

pub open spec fn vcross(a: Vec3, b: Vec3) -> Vec3 {
    mk(
        sat(tdiv(a.y * b.z - a.z * b.y, ONE as int)),
        sat(tdiv(a.z * b.x - a.x * b.z, ONE as int)),
        sat(tdiv(a.x * b.y - a.y * b.x, ONE as int)),
    )
}

pub open spec fn vnorm_squared(a: Vec3) -> int {
    vdot(a, a)
}

pub open spec fn vnorm(a: Vec3) -> int {
    fsqrt(vnorm_squared(a))
}

/// The squared length of `a` on a grid `ONE` times finer than the stored one.
pub open spec fn fine_dot(a: Vec3) -> int {
    dot_raw(a, a) * (ONE * ONE)
}

/// The length of `a` on a grid `ONE` times finer than the stored one, rounded down.
pub open spec fn fine_len(a: Vec3) -> int {
    root(fine_dot(a))
}

/// `a` scaled to length one; the zero vector, which has no direction, stays zero.
pub open spec fn vunit(a: Vec3) -> Vec3 {
    let m = fine_len(a);
    if m == 0 {
        a
    } else {
        mk((a.x * ONE * ONE) / m, (a.y * ONE * ONE) / m, (a.z * ONE * ONE) / m)
    }
}

/// Mirror image of `v` about a surface with normal `n`.
pub open spec fn vreflect(v: Vec3, n: Vec3) -> Vec3 {
    vsub(v, vscale(n, sat(2 * vdot(v, n))))
}

/// Direction of `v` bent through a surface with normal `n` by Snell's law.
pub open spec fn vrefract(v: Vec3, n: Vec3, eta: int) -> Vec3 {
    let cos_theta = vdot(vneg(v), n);
    let parallel = vscale(vadd(v, vscale(n, cos_theta)), eta);
    let k = ONE - vnorm_squared(parallel);
    let perp = vscale(n, -fsqrt(if k < 0 { 0 } else { k }));
    vadd(parallel, perp)
}

impl Vec3 {
    /// Every component lies in the stored range.
    pub open spec fn wf(self) -> bool {
        in_range(self.x as int) && in_range(self.y as int) && in_range(self.z as int)
    }

    /// Tests `wf`.
    pub fn is_valid(&self) -> (r: bool)
        ensures
            r == self.wf(),
    {
        -LIMIT <= self.x && self.x <= LIMIT && -LIMIT <= self.y && self.y <= LIMIT && -LIMIT <= self.z
            && self.z <= LIMIT
    }

    pub open spec fn is_zero(self) -> bool {
        self.x == 0 && self.y == 0 && self.z == 0
    }

    pub fn new(x: i64, y: i64, z: i64) -> (r: Vec3)
        ensures
            r == (Vec3 { x, y, z }),
    {
        Vec3 { x, y, z }
    }

    pub fn add(self, o: Vec3) -> (r: Vec3)
        requires
            self.wf(),
            o.wf(),
        ensures
            r == vadd(self, o),
            r.wf(),
    {
        Vec3 {
            x: saturate(self.x as i128 + o.x as i128),
            y: saturate(self.y as i128 + o.y as i128),
            z: saturate(self.z as i128 + o.z as i128),
        }
    }

    pub fn sub(self, o: Vec3) -> (r: Vec3)
        requires
            self.wf(),
            o.wf(),
        ensures
            r == vsub(self, o),
            r.wf(),
    {
        Vec3 {
            x: saturate(self.x as i128 - o.x as i128),
            y: saturate(self.y as i128 - o.y as i128),
            z: saturate(self.z as i128 - o.z as i128),
        }
    }

    pub fn neg(self) -> (r: Vec3)
        requires
            self.wf(),
        ensures
            r == vneg(self),
            r.wf(),
    {
        Vec3 { x: -self.x, y: -self.y, z: -self.z }
    }

    pub fn mul(self, o: Vec3) -> (r: Vec3)
        requires
            self.wf(),
            o.wf(),
        ensures
            r == vmul(self, o),
            r.wf(),
    {
        Vec3 { x: mul_fixed(self.x, o.x), y: mul_fixed(self.y, o.y), z: mul_fixed(self.z, o.z) }
    }

    pub fn scale(self, t: i64) -> (r: Vec3)
        requires
            self.wf(),
            in_range(t as int),
        ensures
            r == vscale(self, t as int),
            r.wf(),
    {
        Vec3 { x: mul_fixed(self.x, t), y: mul_fixed(self.y, t), z: mul_fixed(self.z, t) }
    }

    pub fn div(self, t: i64) -> (r: Vec3)
        requires
            self.wf(),
            t != 0,
        ensures
            r == vdiv(self, t as int),
            r.wf(),
    {
        Vec3 { x: div_fixed(self.x, t), y: div_fixed(self.y, t), z: div_fixed(self.z, t) }
    }

    /// The dot product of the stored integers, without rescaling.
    pub fn dot_exact(self, o: Vec3) -> (r: i128)
        requires
            self.wf(),
            o.wf(),
        ensures
            r == dot_raw(self, o),
            -0x3000000000000000 <= r <= 0x3000000000000000,
    {
        proof {
            lemma_prod_bound(self.x as int, o.x as int);
            lemma_prod_bound(self.y as int, o.y as int);
            lemma_prod_bound(self.z as int, o.z as int);
        }
        self.x as i128 * o.x as i128 + self.y as i128 * o.y as i128 + self.z as i128 * o.z as i128
    }

    pub fn dot(self, o: Vec3) -> (r: i64)
        requires
            self.wf(),
            o.wf(),
        ensures
            r == vdot(self, o),
            in_range(r as int),
    {
        saturate(floor_div(self.dot_exact(o), ONE as i128))
    }

    pub fn cross(self, o: Vec3) -> (r: Vec3)
        requires
            self.wf(),
            o.wf(),
        ensures
            r == vcross(self, o),
            r.wf(),
    {
        proof {
            lemma_prod_bound(self.x as int, o.y as int);
            lemma_prod_bound(self.x as int, o.z as int);
            lemma_prod_bound(self.y as int, o.x as int);
            lemma_prod_bound(self.y as int, o.z as int);
            lemma_prod_bound(self.z as int, o.x as int);
            lemma_prod_bound(self.z as int, o.y as int);
        }
        let (ax, ay, az) = (self.x as i128, self.y as i128, self.z as i128);
        let (bx, by, bz) = (o.x as i128, o.y as i128, o.z as i128);
        Vec3 {
            x: saturate(trunc_div(ay * bz - az * by, ONE as i128)),
            y: saturate(trunc_div(az * bx - ax * bz, ONE as i128)),
            z: saturate(trunc_div(ax * by - ay * bx, ONE as i128)),
        }
    }

    pub fn norm_squared(self) -> (r: i64)
        requires
            self.wf(),
        ensures
            r == vnorm_squared(self),
            0 <= r <= LIMIT,
    {
        proof {
            assert(dot_raw(self, self) >= 0) by (nonlinear_arith)
                requires dot_raw(self, self) == self.x * self.x + self.y * self.y + self.z * self.z;
            vstd::arithmetic::div_mod::lemma_div_pos_is_pos(dot_raw(self, self), ONE as int);
        }
        self.dot(self)
    }

    pub fn norm(self) -> (r: i64)
        requires
            self.wf(),
        ensures
            r == vnorm(self),
            0 <= r <= LIMIT,
    {
        sqrt_fixed(self.norm_squared())
    }

    /// Length on a grid `ONE` times finer than the stored one, rounded down.
    pub fn fine_length(self) -> (r: i128)
        requires
            self.wf(),
        ensures
            r == fine_len(self),
            is_root(fine_dot(self), r as int),
            self.is_zero() ==> r == 0,
            !self.is_zero() ==> r >= ONE,
    {
        let s = self.dot_exact(self);
        proof {
            assert(s >= 0) by (nonlinear_arith)
                requires s == self.x * self.x + self.y * self.y + self.z * self.z;
            if !self.is_zero() {
                assert(s >= 1) by (nonlinear_arith)
                    requires s == self.x * self.x + self.y * self.y + self.z * self.z,
                        self.x != 0 || self.y != 0 || self.z != 0;
            }
        }
        assert(0 <= s * (65536 * 65536) <= 0x3000000000000000 * (65536 * 65536)) by (nonlinear_arith)
            requires 0 <= s <= 0x3000000000000000;
        let n = s * (ONE as i128 * ONE as i128);
        let r = isqrt(n);
        proof {
            if self.is_zero() {
                assert(s == 0);
                assert(r == 0) by (nonlinear_arith)
                    requires r * r <= n, n == s * (65536 * 65536), s == 0, r >= 0;
            } else if r < ONE {
                assert(n >= 65536 * 65536) by (nonlinear_arith)
                    requires s >= 1, n == s * (65536 * 65536);
                assert((r + 1) * (r + 1) <= ONE * ONE) by (nonlinear_arith)
                    requires 0 <= r, r + 1 <= 65536;
            }
        }
        r
    }

    /// This vector scaled to length one; the zero vector is returned unchanged.
    pub fn unit(self) -> (r: Vec3)
        requires
            self.wf(),
        ensures
            r == vunit(self),
            r.wf(),
            !self.is_zero() ==> r.is_unit_bounded(),
            !self.is_zero() ==> ONE * ONE - 5 * ONE <= dot_raw(r, r) <= ONE * ONE + 8 * ONE,
    {
        let m = self.fine_length();
        if m == 0 {
            self
        } else {
            proof {
                lemma_unit_norm(self);
            }
            Vec3 {
                x: floor_div(self.x as i128 * ONE as i128 * ONE as i128, m) as i64,
                y: floor_div(self.y as i128 * ONE as i128 * ONE as i128, m) as i64,
                z: floor_div(self.z as i128 * ONE as i128 * ONE as i128, m) as i64,
            }
        }
    }

    /// Every component lies within one unit of zero.
    pub open spec fn is_unit_bounded(self) -> bool {
        -ONE <= self.x <= ONE && -ONE <= self.y <= ONE && -ONE <= self.z <= ONE
    }

    /// Mirror image of this direction about a surface with normal `n`.
    pub fn reflect(self, n: Vec3) -> (r: Vec3)
        requires
            self.wf(),
            n.wf(),
        ensures
            r == vreflect(self, n),
            r.wf(),
    {
        let d = self.dot(n);
        let twice = saturate(2 * d as i128);
        self.sub(n.scale(twice))
    }

    /// This unit direction bent through a surface with unit normal `n`, where
    /// `eta` is the ratio of refractive indices.
    pub fn refract(self, n: Vec3, eta: i64) -> (r: Vec3)
        requires
            self.wf(),
            n.wf(),
            in_range(eta as int),
        ensures
            r == vrefract(self, n, eta as int),
            r.wf(),
    {
        let cos_theta = self.neg().dot(n);
        let parallel = self.add(n.scale(cos_theta)).scale(eta);
        let k = ONE - parallel.norm_squared();
        let k0 = if k < 0 { 0 } else { k };
        let perp = n.scale(-sqrt_fixed(k0));
        parallel.add(perp)
    }
}

/// The cross product is anti-symmetric: swapping the factors negates it exactly.
pub proof fn lemma_cross_antisymmetric(a: Vec3, b: Vec3)
    ensures
        vcross(a, b) == vneg(vcross(b, a)),
{
    lemma_tdiv_neg(a.y * b.z - a.z * b.y);
    lemma_tdiv_neg(a.z * b.x - a.x * b.z);
    lemma_tdiv_neg(a.x * b.y - a.y * b.x);
    assert(b.y * a.z - b.z * a.y == -(a.y * b.z - a.z * b.y)) by (nonlinear_arith);
    assert(b.z * a.x - b.x * a.z == -(a.z * b.x - a.x * b.z)) by (nonlinear_arith);
    assert(b.x * a.y - b.y * a.x == -(a.x * b.y - a.y * b.x)) by (nonlinear_arith);
}

proof fn lemma_tdiv_neg(x: int)
    ensures
        tdiv(-x, ONE as int) == -tdiv(x, ONE as int),
        sat(-tdiv(x, ONE as int)) == -sat(tdiv(x, ONE as int)),
{
    if x == 0 {
        assert(0int / (ONE as int) == 0);
    }
}

pub proof fn lemma_prod_bound(a: int, b: int)
    requires
        in_range(a),
        in_range(b),
    ensures
        -0x1000000000000000 <= a * b <= 0x1000000000000000,
{
    assert(-0x1000000000000000 <= a * b <= 0x1000000000000000) by (nonlinear_arith)
        requires -0x40000000 <= a <= 0x40000000, -0x40000000 <= b <= 0x40000000;
}

pub proof fn lemma_dot_neg(a: Vec3, b: Vec3)
    requires
        a.wf(),
    ensures
        dot_raw(vneg(a), b) == -dot_raw(a, b),
        dot_raw(vneg(a), vneg(a)) == dot_raw(a, a),
{
    let q = vneg(a);
    assert(q.x == -a.x && q.y == -a.y && q.z == -a.z);
    assert(dot_raw(q, b) == -dot_raw(a, b)) by (nonlinear_arith)
        requires q.x == -a.x, q.y == -a.y, q.z == -a.z,
            dot_raw(q, b) == q.x * b.x + q.y * b.y + q.z * b.z,
            dot_raw(a, b) == a.x * b.x + a.y * b.y + a.z * b.z;
    assert(dot_raw(q, q) == dot_raw(a, a)) by (nonlinear_arith)
        requires q.x == -a.x, q.y == -a.y, q.z == -a.z,
            dot_raw(q, q) == q.x * q.x + q.y * q.y + q.z * q.z,
            dot_raw(a, a) == a.x * a.x + a.y * a.y + a.z * a.z;
}

/// One component of `vunit`: `q = floor(v * ONE / m)`, scaled by `m` and
/// squared, stays within `2 |v| ONE m + m^2` of `(v ONE)^2`.
proof fn lemma_unit_component(v: int, m: int, a: int)
    requires
        m > 0,
        a == (if v < 0 { -v } else { v }),
    ensures
        (m * ((v * ONE) / m)) * (m * ((v * ONE) / m)) <= (v * ONE) * (v * ONE) + 2 * (a * m) * ONE + m * m,
        (m * ((v * ONE) / m)) * (m * ((v * ONE) / m)) >= (v * ONE) * (v * ONE) - 2 * (a * m) * ONE,
{
    let w = v * ONE;
    let q = w / m;
    let e = w % m;
    vstd::arithmetic::div_mod::lemma_fundamental_div_mod(w, m);
    let mq = m * q;
    assert(mq == w - e);
    assert(mq * mq == w * w - 2 * (w * e) + e * e) by (nonlinear_arith)
        requires mq == w - e;
    assert(w * e <= (a * m) * 65536) by (nonlinear_arith)
        requires w == v * 65536, 0 <= e < m, a == (if v < 0 { -v } else { v });
    assert(w * e >= -((a * m) * 65536)) by (nonlinear_arith)
        requires w == v * 65536, 0 <= e < m, a == (if v < 0 { -v } else { v });
    assert(0 <= e * e <= m * m) by (nonlinear_arith)
        requires 0 <= e < m;
}

/// The sum of the magnitudes of the components is less than twice the next
/// integer above the length.
proof fn lemma_component_sum(x: int, y: int, z: int, m: int)
    requires
        is_root(x * x + y * y + z * z, m),
    ensures
        (if x < 0 { -x } else { x }) + (if y < 0 { -y } else { y }) + (if z < 0 { -z } else { z }) < 2 * (m + 1),
{
    let ax = if x < 0 { -x } else { x };
    let ay = if y < 0 { -y } else { y };
    let az = if z < 0 { -z } else { z };
    let t = ax + ay + az;
    let s = x * x + y * y + z * z;
    assert(ax * ax == x * x && ay * ay == y * y && az * az == z * z) by (nonlinear_arith)
        requires ax == (if x < 0 { -x } else { x }), ay == (if y < 0 { -y } else { y }),
            az == (if z < 0 { -z } else { z });
    assert(t * t <= 3 * s) by (nonlinear_arith)
        requires t == ax + ay + az, s == ax * ax + ay * ay + az * az;
    assert(3 * s < 4 * (m + 1) * (m + 1)) by (nonlinear_arith)
        requires s < (m + 1) * (m + 1), m >= 0;
    if t >= 2 * (m + 1) {
        assert(t * t >= 4 * (m + 1) * (m + 1)) by (nonlinear_arith)
            requires t >= 2 * (m + 1), m >= 0;
    }
}

/// Scaling `(x, y, z)`, of length at least `ONE`, by `ONE / m` with `m` its
/// rounded length gives a squared length within `8 ONE` of `ONE^2`.
proof fn lemma_scaled_unit_norm(x: int, y: int, z: int, m: int)
    requires
        is_root(x * x + y * y + z * z, m),
        x * x + y * y + z * z >= ONE * ONE,
    ensures
        ({
            let qx = (x * ONE) / m;
            let qy = (y * ONE) / m;
            let qz = (z * ONE) / m;
            &&& ONE * ONE - 5 * ONE <= qx * qx + qy * qy + qz * qz <= ONE * ONE + 8 * ONE
            &&& -ONE <= qx <= ONE && -ONE <= qy <= ONE && -ONE <= qz <= ONE
        }),
{
    let s = x * x + y * y + z * z;
    assert(m >= ONE) by {
        if m < ONE {
            assert((m + 1) * (m + 1) <= ONE * ONE) by (nonlinear_arith)
                requires 0 <= m, m + 1 <= 65536;
        }
    }
    let qx = (x * ONE) / m;
    let qy = (y * ONE) / m;
    let qz = (z * ONE) / m;
    assert(s >= x * x && s >= y * y && s >= z * z) by (nonlinear_arith)
        requires s == x * x + y * y + z * z;
    lemma_component_within_length(x, s, m);
    lemma_component_within_length(y, s, m);
    lemma_component_within_length(z, s, m);
    lemma_scaled_quotient(x, m);
    lemma_scaled_quotient(y, m);
    lemma_scaled_quotient(z, m);
    let ax = if x < 0 { -x } else { x };
    let ay = if y < 0 { -y } else { y };
    let az = if z < 0 { -z } else { z };
    lemma_unit_component(x, m, ax);
    lemma_unit_component(y, m, ay);
    lemma_unit_component(z, m, az);
    lemma_component_sum(x, y, z, m);
    let t = ax + ay + az;
    let mx = m * qx;
    let my = m * qy;
    let mz = m * qz;
    let p = mx * mx + my * my + mz * mz;
    let n = qx * qx + qy * qy + qz * qz;
    assert(mx * mx == (m * m) * (qx * qx)) by (nonlinear_arith) requires mx == m * qx;
    assert(my * my == (m * m) * (qy * qy)) by (nonlinear_arith) requires my == m * qy;
    assert(mz * mz == (m * m) * (qz * qz)) by (nonlinear_arith) requires mz == m * qz;
    assert((m * m) * n == (m * m) * (qx * qx) + (m * m) * (qy * qy) + (m * m) * (qz * qz))
        by (nonlinear_arith)
        requires n == qx * qx + qy * qy + qz * qz;
    let wx = x * ONE;
    let wy = y * ONE;
    let wz = z * ONE;
    assert(wx * wx + wy * wy + wz * wz == (ONE * ONE) * s) by (nonlinear_arith)
        requires s == x * x + y * y + z * z, wx == x * 65536, wy == y * 65536, wz == z * 65536;
    assert((ax * m) + (ay * m) + (az * m) == t * m) by (nonlinear_arith)
        requires t == ax + ay + az;
    assert(p <= (ONE * ONE) * s + 2 * (t * m) * ONE + 3 * (m * m));
    assert(p >= (ONE * ONE) * s - 2 * (t * m) * ONE);
    assert(p == (m * m) * n);
    lemma_unit_norm_upper(p, n, s, t, m);
    lemma_unit_norm_lower(p, n, s, t, m);
}

/// Every nonzero vector, scaled by `unit`, has length one up to the rounding
/// of the fixed-point grid: its squared length is within `8 / ONE` of one.
pub proof fn lemma_unit_norm(v: Vec3)
    requires
        v.wf(),
        !v.is_zero(),
    ensures
        ONE * ONE - 5 * ONE <= dot_raw(vunit(v), vunit(v)) <= ONE * ONE + 8 * ONE,
        vunit(v).is_unit_bounded(),
{
    let x = v.x * ONE;
    let y = v.y * ONE;
    let z = v.z * ONE;
    let d = dot_raw(v, v);
    assert(d >= 1) by (nonlinear_arith)
        requires d == v.x * v.x + v.y * v.y + v.z * v.z, v.x != 0 || v.y != 0 || v.z != 0;
    assert(x * x + y * y + z * z == d * (ONE * ONE)) by (nonlinear_arith)
        requires d == v.x * v.x + v.y * v.y + v.z * v.z, x == v.x * 65536, y == v.y * 65536,
            z == v.z * 65536;
    assert(d * (ONE * ONE) >= ONE * ONE) by (nonlinear_arith)
        requires d >= 1;
    crate::fixed::lemma_root_exists(fine_dot(v) as nat);
    let m = fine_len(v);
    lemma_scaled_unit_norm(x, y, z, m);
    assert(m > 0);
}

proof fn lemma_unit_norm_upper(p: int, n: int, s: int, t: int, m: int)
    requires
        p == (m * m) * n,
        p <= (65536 * 65536) * s + 2 * (t * m) * 65536 + 3 * (m * m),
        s < (m + 1) * (m + 1),
        0 <= t < 2 * (m + 1),
        m >= 65536,
    ensures
        n <= 65536 * 65536 + 8 * 65536,
{
    let mm = m * m;
    let tm = t * m;
    assert(s <= mm + 2 * m) by (nonlinear_arith)
        requires s < (m + 1) * (m + 1), mm == m * m;
    assert(tm <= 2 * mm + 2 * m) by (nonlinear_arith)
        requires 0 <= t <= 2 * m + 1, m >= 0, mm == m * m, tm == t * m;
    assert(mm >= 65536 * m) by (nonlinear_arith)
        requires m >= 65536, mm == m * m;
    if n > 65536 * 65536 + 8 * 65536 {
        assert(mm * n >= mm * (65536 * 65536 + 8 * 65536 + 1)) by (nonlinear_arith)
            requires n >= 65536 * 65536 + 8 * 65536 + 1, mm >= 0;
        let q = mm * n;
        assert(false) by (nonlinear_arith)
            requires p == q, q >= mm * (65536 * 65536 + 8 * 65536 + 1),
                p <= (65536 * 65536) * s + 2 * tm * 65536 + 3 * mm, s <= mm + 2 * m,
                tm <= 2 * mm + 2 * m, mm >= 65536 * m, m >= 65536;
    }
}

proof fn lemma_unit_norm_lower(p: int, n: int, s: int, t: int, m: int)
    requires
        p == (m * m) * n,
        p >= (65536 * 65536) * s - 2 * (t * m) * 65536,
        s >= m * m,
        0 <= t < 2 * (m + 1),
        m >= 65536,
    ensures
        n >= 65536 * 65536 - 5 * 65536,
{
    let mm = m * m;
    let tm = t * m;
    assert(tm <= 2 * mm + 2 * m) by (nonlinear_arith)
        requires 0 <= t <= 2 * m + 1, m >= 0, mm == m * m, tm == t * m;
    assert(mm >= 65536 * m) by (nonlinear_arith)
        requires m >= 65536, mm == m * m;
    if n < 65536 * 65536 - 5 * 65536 {
        assert(mm * n <= mm * (65536 * 65536 - 5 * 65536 - 1)) by (nonlinear_arith)
            requires n <= 65536 * 65536 - 5 * 65536 - 1, mm >= 0;
        let q = mm * n;
        assert(false) by (nonlinear_arith)
            requires p == q, q <= mm * (65536 * 65536 - 5 * 65536 - 1),
                p >= (65536 * 65536) * s - 2 * tm * 65536, s >= mm,
                tm <= 2 * mm + 2 * m, mm >= 65536 * m, m >= 65536;
    }
}

proof fn lemma_component_within_length(c: int, s: int, m: int)
    requires
        is_root(s, m),
        c * c <= s,
    ensures
        -m <= c <= m,
{
    if c > m {
        assert((m + 1) * (m + 1) <= c * c) by (nonlinear_arith)
            requires c >= m + 1, m >= 0;
    }
    if c < -m {
        assert((m + 1) * (m + 1) <= c * c) by (nonlinear_arith)
            requires -c >= m + 1, m >= 0;
    }
}

proof fn lemma_scaled_quotient(c: int, m: int)
    requires
        m > 0,
        -m <= c <= m,
    ensures
        -ONE <= (c * ONE) / m <= ONE,
{
    let a = c * ONE;
    vstd::arithmetic::div_mod::lemma_fundamental_div_mod(a, m);
    let q = a / m;
    let r = a % m;
    assert(-ONE <= q <= ONE) by (nonlinear_arith)
        requires m * q + r == a, 0 <= r < m, a == c * 65536, -m <= c <= m, m > 0;
}

} // verus!
