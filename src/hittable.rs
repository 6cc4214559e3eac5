//! Intersections of rays with spheres.
use vstd::prelude::*;
use crate::fixed::{ONE, LIMIT, in_range, root};
use crate::fixed::{floor_div, isqrt};
use crate::vec3::{Vec3, Point, vsub, vneg, vunit, dot_raw};
use crate::ray::{Ray, ray_at};
use crate::material::Material;

verus! {

/// Where a ray meets a surface.
#[derive(Clone, Copy, Debug, PartialEq, Eq, Structural)]
pub struct HitRecord {
    /// The point of intersection.
    pub p: Point,
    /// The unit normal there, turned against the incoming ray.
    pub n: Vec3,
    /// The ray parameter of the intersection.
    pub t: i64,
    pub material: Material,
    /// The ray arrived from outside the solid.
    pub front_face: bool,
}

/// The record for a ray meeting a surface whose outward normal is `out_n`.
pub open spec fn record_spec(ray: Ray, p: Point, out_n: Vec3, t: i64, material: Material) -> HitRecord {
    let front = dot_raw(ray.direction, out_n) < 0;
    HitRecord { p, n: if front { out_n } else { vneg(out_n) }, t, material, front_face: front }
}

impl HitRecord {
    pub open spec fn wf(self) -> bool {
        self.p.wf() && self.n.wf() && in_range(self.t as int) && self.material.wf()
    }

    pub fn new(ray: Ray, p: Point, out_n: Vec3, t: i64, material: Material) -> (r: HitRecord)
        requires
            ray.wf(),
            out_n.wf(),
        ensures
            r == record_spec(ray, p, out_n, t, material),
    {
        let front_face = ray.direction.dot_exact(out_n) < 0;
        let n = if front_face {
            out_n
        } else {
            out_n.neg()
        };
        HitRecord { p, n, t, material, front_face }
    }
}

#[derive(Clone, Copy, Debug, PartialEq, Eq, Structural)]
pub struct Sphere {
    pub center: Point,
    /// A negative radius turns the normals inward, making a hollow shell.
    pub radius: i64,
    pub material: Material,
}

/// Exact coefficients of the quadratic in `t` for `|origin + t * direction - center|^2 = radius^2`,
/// in stored units squared: `(a, half_b, c)`.
pub open spec fn quadratic(s: Sphere, ray: Ray) -> (int, int, int) {
    let ocx = ray.origin.x - s.center.x;
    let ocy = ray.origin.y - s.center.y;
    let ocz = ray.origin.z - s.center.z;
    let d = ray.direction;
    (
        dot_raw(d, d),
        ocx * d.x + ocy * d.y + ocz * d.z,
        ocx * ocx + ocy * ocy + ocz * ocz - s.radius * s.radius,
    )
}

/// The outward normal at a point `p` of the sphere.
pub open spec fn outward_normal(s: Sphere, p: Point) -> Vec3 {
    let u = vunit(vsub(p, s.center));
    if s.radius < 0 {
        vneg(u)
    } else {
        u
    }
}

/// The hit at parameter `t`. Where the point found rounds onto the centre
/// the outward direction is undefined and the normal is the zero vector.
pub open spec fn hit_at(s: Sphere, ray: Ray, t: int) -> Option<HitRecord> {
    let p = ray_at(ray, t);
    Some(record_spec(ray, p, outward_normal(s, p), t as i64, s.material))
}

/// The nearer root in `(tmin, tmax)`, else the farther one, else none.
pub open spec fn sphere_hit(s: Sphere, ray: Ray, tmin: int, tmax: int) -> Option<HitRecord> {
    let (a, half_b, c) = quadratic(s, ray);
    let disc = half_b * half_b - a * c;
    if disc > 0 && a > 0 {
        let rt = root(disc);
        let t1 = ((-half_b - rt) * ONE) / a;
        let t2 = ((-half_b + rt) * ONE) / a;
        if tmin < t1 < tmax {
            hit_at(s, ray, t1)
        } else if tmin < t2 < tmax {
            hit_at(s, ray, t2)
        } else {
            None
        }
    } else {
        None
    }
}

impl Sphere {
    pub open spec fn wf(self) -> bool {
        self.center.wf() && in_range(self.radius as int) && self.material.wf()
    }

    pub fn new(center: Point, radius: i64, material: Material) -> (r: Sphere)
        ensures
            r == (Sphere { center, radius, material }),
    {
        Sphere { center, radius, material }
    }

    /// Tests `wf`.
    pub fn is_valid(&self) -> (r: bool)
        ensures
            r == self.wf(),
    {
        self.center.is_valid() && -LIMIT <= self.radius && self.radius <= LIMIT && self.material.is_valid()
    }

    fn hit_point(&self, ray: Ray, t: i64) -> (r: Option<HitRecord>)
        requires
            self.wf(),
            ray.wf(),
            in_range(t as int),
        ensures
            r == hit_at(*self, ray, t as int),
            r matches Some(h) ==> h.wf(),
    {
        let p = ray.at(t);
        let u = p.sub(self.center).unit();
        let out_n = if self.radius < 0 {
            u.neg()
        } else {
            u
        };
        Some(HitRecord::new(ray, p, out_n, t, self.material))
    }

    /// The intersection of `ray` with this sphere nearest to the ray's origin
    /// with parameter strictly between `tmin` and `tmax`, if any.
    pub fn hit(&self, ray: Ray, tmin: i64, tmax: i64) -> (r: Option<HitRecord>)
        requires
            self.wf(),
            ray.wf(),
            in_range(tmin as int),
            in_range(tmax as int),
        ensures
            r == sphere_hit(*self, ray, tmin as int, tmax as int),
            r matches Some(h) ==> h.wf() && tmin < h.t < tmax,
    {
        let ghost q = quadratic(*self, ray);
        let ocx = ray.origin.x as i128 - self.center.x as i128;
        let ocy = ray.origin.y as i128 - self.center.y as i128;
        let ocz = ray.origin.z as i128 - self.center.z as i128;
        let (dx, dy, dz) = (ray.direction.x as i128, ray.direction.y as i128, ray.direction.z as i128);
        proof {
            lemma_quadratic_bounds(ocx as int, ocy as int, ocz as int, dx as int, dy as int, dz as int,
                self.radius as int);
        }
        let a = dx * dx + dy * dy + dz * dz;
        let half_b = ocx * dx + ocy * dy + ocz * dz;
        let c = ocx * ocx + ocy * ocy + ocz * ocz - self.radius as i128 * self.radius as i128;
        proof {
            assert(0 <= half_b * half_b <= 0x40000000000000000000000000000000) by (nonlinear_arith)
                requires -0x8000000000000000 <= half_b <= 0x8000000000000000;
            assert(-0x4000000000000000000000000000000 <= a * c <= 0x40000000000000000000000000000000)
                by (nonlinear_arith)
                requires 0 <= a <= 0x4000000000000000, -0x1000000000000000 <= c <= 0x10000000000000000;
        }
        let disc = half_b * half_b - a * c;
        if disc > 0 && a > 0 {
            let rt = isqrt(disc);
            proof {
                assert(rt <= 0x10000000000000000) by (nonlinear_arith)
                    requires rt * rt <= disc, disc <= 0x80000000000000000000000000000000, rt >= 0;
            }
            let t1 = floor_div((-half_b - rt) * ONE as i128, a);
            let t2 = floor_div((-half_b + rt) * ONE as i128, a);
            if (tmin as i128) < t1 && t1 < (tmax as i128) {
                self.hit_point(ray, t1 as i64)
            } else if (tmin as i128) < t2 && t2 < (tmax as i128) {
                self.hit_point(ray, t2 as i64)
            } else {
                None
            }
        } else {
            None
        }
    }
}

proof fn lemma_quadratic_bounds(ox: int, oy: int, oz: int, dx: int, dy: int, dz: int, r: int)
    requires
        -0x80000000 <= ox <= 0x80000000,
        -0x80000000 <= oy <= 0x80000000,
        -0x80000000 <= oz <= 0x80000000,
        -0x40000000 <= dx <= 0x40000000,
        -0x40000000 <= dy <= 0x40000000,
        -0x40000000 <= dz <= 0x40000000,
        -0x40000000 <= r <= 0x40000000,
    ensures
        0 <= dx * dx <= 0x1000000000000000,
        0 <= dy * dy <= 0x1000000000000000,
        0 <= dz * dz <= 0x1000000000000000,
        -0x2000000000000000 <= ox * dx <= 0x2000000000000000,
        -0x2000000000000000 <= oy * dy <= 0x2000000000000000,
        -0x2000000000000000 <= oz * dz <= 0x2000000000000000,
        0 <= ox * ox <= 0x4000000000000000,
        0 <= oy * oy <= 0x4000000000000000,
        0 <= oz * oz <= 0x4000000000000000,
        0 <= r * r <= 0x1000000000000000,
        0 <= dx * dx + dy * dy + dz * dz <= 0x4000000000000000,
        -0x8000000000000000 <= ox * dx + oy * dy + oz * dz <= 0x8000000000000000,
        -0x1000000000000000 <= ox * ox + oy * oy + oz * oz - r * r <= 0x10000000000000000,
        (ox * dx + oy * dy + oz * dz) * (ox * dx + oy * dy + oz * dz)
            <= 0x40000000000000000000000000000000,
        -0x4000000000000000000000000000000 <= (dx * dx + dy * dy + dz * dz) * (ox * ox + oy * oy + oz
            * oz - r * r) <= 0x40000000000000000000000000000000,
{
    assert(0 <= dx * dx <= 0x1000000000000000) by (nonlinear_arith) requires -0x40000000 <= dx <= 0x40000000;
    assert(0 <= dy * dy <= 0x1000000000000000) by (nonlinear_arith) requires -0x40000000 <= dy <= 0x40000000;
    assert(0 <= dz * dz <= 0x1000000000000000) by (nonlinear_arith) requires -0x40000000 <= dz <= 0x40000000;
    assert(0 <= r * r <= 0x1000000000000000) by (nonlinear_arith) requires -0x40000000 <= r <= 0x40000000;
    assert(0 <= ox * ox <= 0x4000000000000000) by (nonlinear_arith) requires -0x80000000 <= ox <= 0x80000000;
    assert(0 <= oy * oy <= 0x4000000000000000) by (nonlinear_arith) requires -0x80000000 <= oy <= 0x80000000;
    assert(0 <= oz * oz <= 0x4000000000000000) by (nonlinear_arith) requires -0x80000000 <= oz <= 0x80000000;
    assert(-0x2000000000000000 <= ox * dx <= 0x2000000000000000) by (nonlinear_arith)
        requires -0x80000000 <= ox <= 0x80000000, -0x40000000 <= dx <= 0x40000000;
    assert(-0x2000000000000000 <= oy * dy <= 0x2000000000000000) by (nonlinear_arith)
        requires -0x80000000 <= oy <= 0x80000000, -0x40000000 <= dy <= 0x40000000;
    assert(-0x2000000000000000 <= oz * dz <= 0x2000000000000000) by (nonlinear_arith)
        requires -0x80000000 <= oz <= 0x80000000, -0x40000000 <= dz <= 0x40000000;
    let a = dx * dx + dy * dy + dz * dz;
    let hb = ox * dx + oy * dy + oz * dz;
    let c = ox * ox + oy * oy + oz * oz - r * r;
    assert(0 <= a <= 0x4000000000000000) by (nonlinear_arith)
        requires a == dx * dx + dy * dy + dz * dz,
            -0x40000000 <= dx <= 0x40000000, -0x40000000 <= dy <= 0x40000000, -0x40000000 <= dz <= 0x40000000;
    assert(-0x8000000000000000 <= hb <= 0x8000000000000000) by (nonlinear_arith)
        requires hb == ox * dx + oy * dy + oz * dz,
            -0x80000000 <= ox <= 0x80000000, -0x80000000 <= oy <= 0x80000000, -0x80000000 <= oz <= 0x80000000,
            -0x40000000 <= dx <= 0x40000000, -0x40000000 <= dy <= 0x40000000, -0x40000000 <= dz <= 0x40000000;
    assert(-0x1000000000000000 <= c <= 0x10000000000000000) by (nonlinear_arith)
        requires c == ox * ox + oy * oy + oz * oz - r * r,
            -0x80000000 <= ox <= 0x80000000, -0x80000000 <= oy <= 0x80000000, -0x80000000 <= oz <= 0x80000000,
            -0x40000000 <= r <= 0x40000000;
    assert(hb * hb <= 0x40000000000000000000000000000000) by (nonlinear_arith)
        requires -0x8000000000000000 <= hb <= 0x8000000000000000;
    assert(-0x4000000000000000000000000000000 <= a * c <= 0x40000000000000000000000000000000)
        by (nonlinear_arith)
        requires 0 <= a <= 0x4000000000000000, -0x1000000000000000 <= c <= 0x10000000000000000;
}

/// The nearer-root rule: there is a hit exactly when the discriminant is
/// positive and one of the two roots lies strictly inside `(tmin, tmax)`, and
/// the hit is at the nearer root whenever that one qualifies.
pub proof fn lemma_sphere_hit_roots(s: Sphere, ray: Ray, tmin: int, tmax: int)
    requires
        in_range(tmin),
        in_range(tmax),
    ensures
        ({
            let (a, half_b, c) = quadratic(s, ray);
            let disc = half_b * half_b - a * c;
            let rt = root(disc);
            let t1 = ((-half_b - rt) * ONE) / a;
            let t2 = ((-half_b + rt) * ONE) / a;
            &&& sphere_hit(s, ray, tmin, tmax) is None <==> (disc <= 0 || a <= 0 || (!(tmin < t1 < tmax)
                && !(tmin < t2 < tmax)))
            &&& sphere_hit(s, ray, tmin, tmax) matches Some(h) ==> h.t == (if tmin < t1 < tmax {
                t1
            } else {
                t2
            })
        }),
{
}

/// A ray fired from the centre of a sphere: the near root is never positive,
/// so the sphere is met, if at all, at the far root `radius / |direction|`
/// (on the fixed-point grid).
pub proof fn lemma_hit_from_centre(s: Sphere, ray: Ray, tmin: int, tmax: int)
    requires
        ray.origin == s.center,
        s.radius != 0,
        !ray.direction.is_zero(),
        0 <= tmin,
        in_range(tmin),
        in_range(tmax),
    ensures
        ({
            let a = dot_raw(ray.direction, ray.direction);
            let far = (root(a * (s.radius * s.radius)) * ONE) / a;
            &&& sphere_hit(s, ray, tmin, tmax) is Some <==> tmin < far < tmax
            &&& sphere_hit(s, ray, tmin, tmax) matches Some(h) ==> h.t == far
        }),
{
    let d = ray.direction;
    let (a, half_b, c) = quadratic(s, ray);
    assert(half_b == 0);
    assert(c == -(s.radius * s.radius));
    assert(a == dot_raw(d, d));
    assert(a >= 1) by (nonlinear_arith)
        requires a == d.x * d.x + d.y * d.y + d.z * d.z, d.x != 0 || d.y != 0 || d.z != 0;
    let r2 = s.radius * s.radius;
    assert(r2 >= 1) by (nonlinear_arith)
        requires r2 == s.radius * s.radius, s.radius != 0;
    let disc = half_b * half_b - a * c;
    assert(disc == a * r2) by (nonlinear_arith)
        requires half_b == 0, c == -r2, disc == half_b * half_b - a * c;
    assert(disc >= 1) by (nonlinear_arith)
        requires disc == a * r2, a >= 1, r2 >= 1;
    crate::fixed::lemma_root_exists(disc as nat);
    let rt = root(disc);
    let t1 = ((-half_b - rt) * ONE) / a;
    assert((-half_b - rt) * ONE <= 0) by (nonlinear_arith)
        requires half_b == 0, rt >= 0;
    assert(t1 <= 0) by {
        vstd::arithmetic::div_mod::lemma_fundamental_div_mod((-half_b - rt) * ONE, a);
        let m = ((-half_b - rt) * ONE) % a;
        assert(t1 <= 0) by (nonlinear_arith)
            requires a * t1 + m == (-half_b - rt) * 65536, 0 <= m < a, (-half_b - rt) * 65536 <= 0, a >= 1;
    }
    assert(((-half_b + rt) * ONE) == rt * ONE);
}

/// The stored normal never faces along the incoming ray.
pub proof fn lemma_normal_opposes_ray(ray: Ray, p: Point, out_n: Vec3, t: i64, material: Material)
    requires
        out_n.wf(),
    ensures
        dot_raw(record_spec(ray, p, out_n, t, material).n, ray.direction) <= 0,
        record_spec(ray, p, out_n, t, material).front_face <==> dot_raw(ray.direction, out_n) < 0,
{
    crate::vec3::lemma_dot_neg(out_n, ray.direction);
    assert(dot_raw(out_n, ray.direction) == dot_raw(ray.direction, out_n)) by (nonlinear_arith)
        requires dot_raw(out_n, ray.direction) == out_n.x * ray.direction.x + out_n.y * ray.direction.y
                + out_n.z * ray.direction.z,
            dot_raw(ray.direction, out_n) == ray.direction.x * out_n.x + ray.direction.y * out_n.y
                + ray.direction.z * out_n.z;
}

} // verus!
