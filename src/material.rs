//! Surface materials and how they scatter light.
use vstd::prelude::*;
use crate::fixed::{ONE, LIMIT, in_range, sat, fmul, fdiv, root};
use crate::fixed::{saturate, mul_fixed, div_fixed, isqrt};
use crate::vec3::{Vec3, Color, mk, vadd, vsub, vneg, vscale, vunit, vdot, vreflect, vrefract, dot_raw};
use crate::ray::Ray;
use crate::hittable::HitRecord;

verus! {

#[derive(Clone, Copy, Debug, PartialEq, Eq, Structural)]
pub enum Material {
    /// A diffuse surface.
    Lambertian { albedo: Color },
    /// A mirror whose reflections are blurred by `fuzz`.
    Metal { albedo: Color, fuzz: i64 },
    /// A clear refractive solid with refractive index `ref_idx`.
    Dielectric { ref_idx: i64 },
}

/// The random quantities one scattering event may consume.
#[derive(Clone, Copy, Debug, PartialEq, Eq, Structural)]
pub struct ScatterDraw {
    /// A direction of length one.
    pub unit_dir: Vec3,
    /// A point inside the unit ball.
    pub in_sphere: Vec3,
    /// A number in `[0, 1)`.
    pub chance: i64,
}

impl ScatterDraw {
    pub open spec fn wf(self) -> bool {
        self.unit_dir.wf() && self.in_sphere.wf() && in_range(self.chance as int)
    }

    /// What every draw taken from a random source satisfies.
    pub open spec fn is_valid(self) -> bool {
        &&& self.unit_dir.is_unit_bounded()
        &&& ONE * ONE - 16 * ONE <= dot_raw(self.unit_dir, self.unit_dir) <= ONE * ONE + 16 * ONE
        &&& dot_raw(self.in_sphere, self.in_sphere) < ONE * ONE
        &&& 0 <= self.chance < ONE
    }
}

/// Schlick's approximation of the reflectance at a dielectric boundary.
pub open spec fn schlick_spec(cos: int, eta: int) -> int {
    let r0 = fdiv(ONE - eta, ONE + eta);
    let r1 = fmul(r0, r0);
    let x = sat(ONE - cos);
    let pow5 = fmul(fmul(fmul(fmul(x, x), x), x), x);
    sat(r1 + fmul(sat(ONE - r1), pow5))
}

/// The ratio of refractive indices met by a ray crossing into (`front`) or
/// out of a solid of index `ref_idx`.
pub open spec fn eta_ratio(ref_idx: int, front: bool) -> int {
    if front {
        fdiv(ONE as int, ref_idx)
    } else {
        ref_idx
    }
}

/// Cosine of the angle between the reversed incoming direction and the normal, at most one.
pub open spec fn cos_incidence(unit: Vec3, n: Vec3) -> int {
    let c = vdot(vneg(unit), n);
    if c < ONE {
        c
    } else {
        ONE as int
    }
}

/// Sine matching a cosine, both in fixed point.
pub open spec fn sin_from_cos(cos: int) -> int {
    let k = ONE * ONE - cos * cos;
    root(if k < 0 { 0 } else { k })
}

/// Snell's law has no solution: the ray must reflect.
pub open spec fn total_internal_reflection(eta: int, sin: int) -> bool {
    eta * sin > ONE * ONE
}

pub open spec fn scatter_spec(m: Material, rin: Ray, rec: HitRecord, draw: ScatterDraw) -> Option<(Ray, Color)> {
    match m {
        Material::Lambertian { albedo } => {
            Some((Ray { origin: rec.p, direction: vadd(rec.n, draw.unit_dir) }, albedo))
        },
        Material::Metal { albedo, fuzz } => {
            let reflected = vreflect(vunit(rin.direction), rec.n);
            let dir = vadd(reflected, vscale(draw.in_sphere, fuzz as int));
            if dot_raw(dir, rec.n) > 0 {
                Some((Ray { origin: rec.p, direction: dir }, albedo))
            } else {
                None
            }
        },
        Material::Dielectric { ref_idx } => {
            let eta = eta_ratio(ref_idx as int, rec.front_face);
            let unit = vunit(rin.direction);
            let cos = cos_incidence(unit, rec.n);
            let sin = sin_from_cos(cos);
            let dir = if total_internal_reflection(eta, sin) {
                vreflect(unit, rec.n)
            } else if draw.chance < schlick_spec(cos, eta) {
                vreflect(unit, rec.n)
            } else {
                vrefract(unit, rec.n, eta)
            };
            Some((Ray { origin: rec.p, direction: dir }, mk(ONE as int, ONE as int, ONE as int)))
        },
    }
}

/// Schlick's approximation of the reflectance for cosine `cos` and index ratio `ref_idx`.
pub fn schlick(cos: i64, ref_idx: i64) -> (r: i64)
    requires
        in_range(cos as int),
        0 <= ref_idx <= LIMIT,
    ensures
        r == schlick_spec(cos as int, ref_idx as int),
        in_range(r as int),
{
    let r0 = div_fixed(ONE - ref_idx, ONE + ref_idx);
    let r1 = mul_fixed(r0, r0);
    let x = saturate(ONE as i128 - cos as i128);
    let pow5 = mul_fixed(mul_fixed(mul_fixed(mul_fixed(x, x), x), x), x);
    saturate(r1 as i128 + mul_fixed(saturate(ONE as i128 - r1 as i128), pow5) as i128)
}

impl Material {
    pub open spec fn wf(self) -> bool {
        match self {
            Material::Lambertian { albedo } => albedo.wf(),
            Material::Metal { albedo, fuzz } => albedo.wf() && in_range(fuzz as int),
            Material::Dielectric { ref_idx } => 0 < ref_idx <= LIMIT,
        }
    }

    /// Tests `wf`.
    pub fn is_valid(&self) -> (r: bool)
        ensures
            r == self.wf(),
    {
        match self {
            Material::Lambertian { albedo } => albedo.is_valid(),
            Material::Metal { albedo, fuzz } => albedo.is_valid() && -LIMIT <= *fuzz && *fuzz <= LIMIT,
            Material::Dielectric { ref_idx } => 0 < *ref_idx && *ref_idx <= LIMIT,
        }
    }

    /// Scatters `rin` at `rec` using the random quantities in `draw`: the
    /// continuing ray and its attenuation, or `None` where the light is absorbed.
    pub fn scatter_with(self, rin: Ray, rec: &HitRecord, draw: ScatterDraw) -> (r: Option<(Ray, Color)>)
        requires
            self.wf(),
            rin.wf(),
            rec.wf(),
            draw.wf(),
        ensures
            r == scatter_spec(self, rin, *rec, draw),
            r matches Some((s, a)) ==> s.wf() && a.wf(),
    {
        match self {
            Material::Lambertian { albedo } => {
                Some((Ray::new(rec.p, rec.n.add(draw.unit_dir)), albedo))
            },
            Material::Metal { albedo, fuzz } => {
                let reflected = rin.direction.unit().reflect(rec.n);
                let dir = reflected.add(draw.in_sphere.scale(fuzz));
                if dir.dot_exact(rec.n) > 0 {
                    Some((Ray::new(rec.p, dir), albedo))
                } else {
                    None
                }
            },
            Material::Dielectric { ref_idx } => {
                let eta = if rec.front_face {
                    div_fixed(ONE, ref_idx)
                } else {
                    ref_idx
                };
                proof {
                    vstd::arithmetic::div_mod::lemma_div_pos_is_pos(ONE * ONE, ref_idx as int);
                }
                let unit = rin.direction.unit();
                let c = unit.neg().dot(rec.n);
                let cos = if c < ONE { c } else { ONE };
                proof {
                    assert(0 <= cos as int * cos as int <= 0x1000000000000000) by (nonlinear_arith)
                        requires -0x40000000 <= cos <= 0x40000000;
                }
                let k = ONE as i128 * ONE as i128 - cos as i128 * cos as i128;
                let sin = isqrt(if k < 0 { 0 } else { k });
                proof {
                    assert(sin <= ONE) by (nonlinear_arith)
                        requires sin * sin <= (if k < 0 { 0 } else { k }), k <= 65536 * 65536, sin >= 0;
                    assert(eta * sin <= 0x40000000 * 65536) by (nonlinear_arith)
                        requires 0 <= eta <= 0x40000000, 0 <= sin <= 65536;
                }
                let dir = if eta as i128 * sin > ONE as i128 * ONE as i128 {
                    unit.reflect(rec.n)
                } else if draw.chance < schlick(cos, eta) {
                    unit.reflect(rec.n)
                } else {
                    unit.refract(rec.n, eta)
                };
                Some((Ray::new(rec.p, dir), Vec3::new(ONE, ONE, ONE)))
            },
        }
    }
}

/// A diffuse surface always scatters, tints by exactly its albedo, and sends
/// the ray from the hit point along the normal plus the drawn unit direction.
pub proof fn lemma_lambertian_scatters(albedo: Color, rin: Ray, rec: HitRecord, draw: ScatterDraw)
    requires
        rec.n.is_unit_bounded(),
        draw.is_valid(),
    ensures
        scatter_spec(Material::Lambertian { albedo }, rin, rec, draw) matches Some((s, a)) && a == albedo
            && s.origin == rec.p && vsub(s.direction, rec.n) == draw.unit_dir,
{
}

/// A metal absorbs the ray exactly when its blurred reflection does not leave
/// the surface: whenever that direction has a non-positive dot product with the
/// normal, there is no continuation.
pub proof fn lemma_metal_absorbs(albedo: Color, fuzz: i64, rin: Ray, rec: HitRecord, draw: ScatterDraw)
    ensures
        ({
            let dir = vadd(vreflect(vunit(rin.direction), rec.n), vscale(draw.in_sphere, fuzz as int));
            scatter_spec(Material::Metal { albedo, fuzz }, rin, rec, draw) is None <==> dot_raw(dir, rec.n) <= 0
        }),
{
}

/// Past the critical angle a dielectric reflects, whatever the random draw.
pub proof fn lemma_dielectric_total_reflection(ref_idx: i64, rin: Ray, rec: HitRecord, draw: ScatterDraw)
    requires
        ({
            let eta = eta_ratio(ref_idx as int, rec.front_face);
            let unit = vunit(rin.direction);
            total_internal_reflection(eta, sin_from_cos(cos_incidence(unit, rec.n)))
        }),
    ensures
        scatter_spec(Material::Dielectric { ref_idx }, rin, rec, draw) == Some(
            (
                Ray { origin: rec.p, direction: vreflect(vunit(rin.direction), rec.n) },
                mk(ONE as int, ONE as int, ONE as int),
            ),
        ),
{
}

} // verus!
