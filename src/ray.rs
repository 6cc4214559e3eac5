//! Rays: an origin and a direction.
use vstd::prelude::*;
use crate::fixed::{ONE, LIMIT, in_range, fmul};
use crate::vec3::{Vec3, Point, vadd, vscale};

verus! {

#[derive(Clone, Copy, Debug, PartialEq, Eq, Structural)]
pub struct Ray {
    pub origin: Point,
    pub direction: Vec3,
}

/// The point reached after travelling `t` along the ray's direction.
pub open spec fn ray_at(r: Ray, t: int) -> Point {
    vadd(r.origin, vscale(r.direction, t))
}

impl Ray {
    pub open spec fn wf(self) -> bool {
        self.origin.wf() && self.direction.wf()
    }

    pub fn new(origin: Point, direction: Vec3) -> (r: Ray)
        ensures
            r.origin == origin,
            r.direction == direction,
    {
        Ray { origin, direction }
    }

    pub fn at(self, t: i64) -> (p: Point)
        requires
            self.wf(),
            in_range(t as int),
        ensures
            p == ray_at(self, t as int),
            p.wf(),
    {
        self.origin.add(self.direction.scale(t))
    }
}

/// The ray starts at its origin: `at(0)` is the origin.
pub proof fn lemma_at_zero(r: Ray)
    requires
        r.wf(),
    ensures
        ray_at(r, 0) == r.origin,
{
    assert(vscale(r.direction, 0) == Vec3 { x: 0, y: 0, z: 0 });
}

/// The exact position `o + d * t` (scaled by `ONE`) lies within one step of
/// the fixed-point grid above the stored component `p`.
pub open spec fn within_one_step(o: int, d: int, t: int, p: int) -> bool {
    0 <= (o * ONE + d * t) - p * ONE < ONE
}

/// No component of `at(t)` saturates.
pub open spec fn at_unsaturated(r: Ray, t: int) -> bool {
    &&& in_range((r.direction.x * t) / (ONE as int))
    &&& in_range((r.direction.y * t) / (ONE as int))
    &&& in_range((r.direction.z * t) / (ONE as int))
    &&& in_range(r.origin.x + (r.direction.x * t) / (ONE as int))
    &&& in_range(r.origin.y + (r.direction.y * t) / (ONE as int))
    &&& in_range(r.origin.z + (r.direction.z * t) / (ONE as int))
}

proof fn lemma_at_component(o: int, d: int, t: int)
    ensures
        within_one_step(o, d, t, o + (d * t) / (ONE as int)),
{
    let e = d * t;
    vstd::arithmetic::div_mod::lemma_fundamental_div_mod(e, ONE as int);
    assert((o * ONE + e) - (o + e / (ONE as int)) * ONE == e % (ONE as int)) by (nonlinear_arith)
        requires e == (ONE as int) * (e / (ONE as int)) + e % (ONE as int), ONE == 65536;
}

/// `at` is affine in `t`: wherever nothing saturates, each component of
/// `at(t)` is `origin + direction * t` rounded down to the fixed-point grid.
pub proof fn lemma_at_affine(r: Ray, t: int)
    requires
        r.wf(),
        in_range(t),
        at_unsaturated(r, t),
    ensures
        within_one_step(r.origin.x as int, r.direction.x as int, t, ray_at(r, t).x as int),
        within_one_step(r.origin.y as int, r.direction.y as int, t, ray_at(r, t).y as int),
        within_one_step(r.origin.z as int, r.direction.z as int, t, ray_at(r, t).z as int),
{
    assert(fmul(r.direction.x as int, t) == (r.direction.x * t) / (ONE as int));
    assert(fmul(r.direction.y as int, t) == (r.direction.y * t) / (ONE as int));
    assert(fmul(r.direction.z as int, t) == (r.direction.z * t) / (ONE as int));
    lemma_at_component(r.origin.x as int, r.direction.x as int, t);
    lemma_at_component(r.origin.y as int, r.direction.y as int, t);
    lemma_at_component(r.origin.z as int, r.direction.z as int, t);
}

/// Differences of `at` follow the direction: wherever nothing saturates, each
/// component of `at(t) - at(s)` is within one grid step of `direction * (t - s)`.
pub proof fn lemma_at_difference(r: Ray, t: int, s: int)
    requires
        r.wf(),
        in_range(t),
        in_range(s),
        at_unsaturated(r, t),
        at_unsaturated(r, s),
    ensures
        -ONE < (ray_at(r, t).x - ray_at(r, s).x) * ONE - r.direction.x * (t - s) < ONE,
        -ONE < (ray_at(r, t).y - ray_at(r, s).y) * ONE - r.direction.y * (t - s) < ONE,
        -ONE < (ray_at(r, t).z - ray_at(r, s).z) * ONE - r.direction.z * (t - s) < ONE,
{
    lemma_at_affine(r, t);
    lemma_at_affine(r, s);
    assert(r.direction.x * (t - s) == r.direction.x * t - r.direction.x * s) by (nonlinear_arith);
    assert(r.direction.y * (t - s) == r.direction.y * t - r.direction.y * s) by (nonlinear_arith);
    assert(r.direction.z * (t - s) == r.direction.z * t - r.direction.z * s) by (nonlinear_arith);
    assert((ray_at(r, t).x - ray_at(r, s).x) * ONE == ray_at(r, t).x * ONE - ray_at(r, s).x * ONE)
        by (nonlinear_arith);
    assert((ray_at(r, t).y - ray_at(r, s).y) * ONE == ray_at(r, t).y * ONE - ray_at(r, s).y * ONE)
        by (nonlinear_arith);
    assert((ray_at(r, t).z - ray_at(r, s).z) * ONE == ray_at(r, t).z * ONE - ray_at(r, s).z * ONE)
        by (nonlinear_arith);
}

/// One component of the convex-combination law, for a stored origin `o`,
/// direction `d` and the three positions `pt`, `ps`, `pu` at `t`, `s` and `u`.
proof fn lemma_combination_component(o: int, d: int, t: int, s: int, l: int, u: int, pt: int, ps: int, pu: int)
    requires
        0 <= l <= ONE,
        -LIMIT <= d <= LIMIT,
        u == (l * t + (ONE - l) * s) / (ONE as int),
        within_one_step(o, d, t, pt),
        within_one_step(o, d, s, ps),
        within_one_step(o, d, u, pu),
    ensures
        -(2 * ONE + (if d < 0 { -d } else { d })) * ONE < pu * ONE * ONE - (l * pt + (ONE - l) * ps) * ONE
            < (2 * ONE + (if d < 0 { -d } else { d })) * ONE,
{
    let w = l * t + (ONE - l) * s;
    vstd::arithmetic::div_mod::lemma_fundamental_div_mod(w, ONE as int);
    let e = w % (ONE as int);
    assert(u * ONE == w - e);
    let et = (o * ONE + d * t) - pt * ONE;
    let es = (o * ONE + d * s) - ps * ONE;
    let eu = (o * ONE + d * u) - pu * ONE;
    let ad = if d < 0 { -d } else { d };
    assert(0 <= l * et + (ONE - l) * es < ONE * ONE) by (nonlinear_arith)
        requires 0 <= et < 65536, 0 <= es < 65536, 0 <= l <= 65536;
    assert(-ad * ONE <= d * e <= ad * ONE) by (nonlinear_arith)
        requires 0 <= e < 65536, ad == (if d < 0 { -d } else { d });
    let c = l * pt + (ONE - l) * ps;
    assert(l * et + (ONE - l) * es == 65536 * (o * 65536) + d * w - c * 65536) by (nonlinear_arith)
        requires et == (o * 65536 + d * t) - pt * 65536, es == (o * 65536 + d * s) - ps * 65536,
            w == l * t + (65536 - l) * s, c == l * pt + (65536 - l) * ps;
    assert(eu * 65536 == 65536 * (o * 65536) + d * (u * 65536) - pu * 65536 * 65536) by (nonlinear_arith)
        requires eu == (o * 65536 + d * u) - pu * 65536;
    assert(d * (u * 65536) == d * w - d * e) by (nonlinear_arith)
        requires u * 65536 == w - e;
    assert(0 <= eu * ONE < ONE * ONE) by (nonlinear_arith)
        requires 0 <= eu < 65536;
}

/// `at` preserves convex combinations up to rounding: for a weight `l` in
/// `[0, 1]` and `u = l t + (1 - l) s` on the grid, each component of `at(u)`
/// lies within `2 + |direction|` grid steps of `l at(t) + (1 - l) at(s)`,
/// wherever nothing saturates.
pub proof fn lemma_at_convex(r: Ray, t: int, s: int, l: int)
    requires
        r.wf(),
        0 <= l <= ONE,
        in_range(t),
        in_range(s),
        in_range((l * t + (ONE - l) * s) / (ONE as int)),
        at_unsaturated(r, t),
        at_unsaturated(r, s),
        at_unsaturated(r, (l * t + (ONE - l) * s) / (ONE as int)),
    ensures
        ({
            let u = (l * t + (ONE - l) * s) / (ONE as int);
            let (pt, ps, pu) = (ray_at(r, t), ray_at(r, s), ray_at(r, u));
            let d = r.direction;
            &&& -(2 * ONE + (if d.x < 0 { -d.x } else { d.x as int })) * ONE < pu.x * ONE * ONE - (l * pt.x + (ONE
                - l) * ps.x) * ONE < (2 * ONE + (if d.x < 0 { -d.x } else { d.x as int })) * ONE
            &&& -(2 * ONE + (if d.y < 0 { -d.y } else { d.y as int })) * ONE < pu.y * ONE * ONE - (l * pt.y + (ONE
                - l) * ps.y) * ONE < (2 * ONE + (if d.y < 0 { -d.y } else { d.y as int })) * ONE
            &&& -(2 * ONE + (if d.z < 0 { -d.z } else { d.z as int })) * ONE < pu.z * ONE * ONE - (l * pt.z + (ONE
                - l) * ps.z) * ONE < (2 * ONE + (if d.z < 0 { -d.z } else { d.z as int })) * ONE
        }),
{
    let u = (l * t + (ONE - l) * s) / (ONE as int);
    lemma_at_affine(r, t);
    lemma_at_affine(r, s);
    lemma_at_affine(r, u);
    let (pt, ps, pu) = (ray_at(r, t), ray_at(r, s), ray_at(r, u));
    lemma_combination_component(r.origin.x as int, r.direction.x as int, t, s, l, u, pt.x as int, ps.x as int, pu.x as int);
    lemma_combination_component(r.origin.y as int, r.direction.y as int, t, s, l, u, pt.y as int, ps.y as int, pu.y as int);
    lemma_combination_component(r.origin.z as int, r.direction.z as int, t, s, l, u, pt.z as int, ps.z as int, pu.z as int);
}

} // verus!
