//! Random sampling, drawn from a seeded generator of the `rand` crate.
use vstd::prelude::*;
use rand::rngs::StdRng;
use rand::{Rng, SeedableRng};
use crate::fixed::ONE;
use crate::vec3::{Vec3, Color, dot_raw};
use crate::direction::{TURN, sphere_point};
use crate::ray::Ray;
use crate::hittable::HitRecord;
use crate::material::{Material, ScatterDraw, scatter_spec};

verus! {

#[verifier::external_type_specification]
#[verifier::external_body]
pub struct ExStdRng(StdRng);

/// How many candidates rejection sampling tries before it settles for a fallback.
pub const MAX_TRIES: u32 = 1000;

/// Relies on `rand::SeedableRng::seed_from_u64`: a generator whose stream is
/// fixed by `seed`.
#[verifier::external_body]
pub(crate) fn seeded(seed: u64) -> StdRng {
    StdRng::seed_from_u64(seed)
}

/// Relies on `rand::Rng::gen_range` over `lo..hi`, which returns a value of that
/// range and panics only when it is empty.
#[verifier::external_body]
pub(crate) fn uniform(rng: &mut StdRng, lo: i64, hi: i64) -> (r: i64)
    requires
        lo < hi,
    ensures
        lo <= r < hi,
{
    rng.gen_range(lo..hi)
}

impl Vec3 {
    /// A vector with each component drawn from `[min, max)`.
    pub fn random(min: i64, max: i64, rng: &mut StdRng) -> (r: Vec3)
        requires
            min < max,
        ensures
            min <= r.x < max,
            min <= r.y < max,
            min <= r.z < max,
    {
        let x = uniform(rng, min, max);
        let y = uniform(rng, min, max);
        let z = uniform(rng, min, max);
        Vec3::new(x, y, z)
    }

    /// A point strictly inside the unit ball, by rejection from the enclosing
    /// cube; after `MAX_TRIES` rejections the centre is returned.
    pub fn random_in_unit_sphere(rng: &mut StdRng) -> (r: Vec3)
        ensures
            r.wf(),
            dot_raw(r, r) < ONE * ONE,
    {
        let mut tries: u32 = 0;
        while tries < MAX_TRIES
            decreases MAX_TRIES - tries,
        {
            let p = Vec3::random(-ONE, ONE, rng);
            if p.dot_exact(p) < ONE as i128 * ONE as i128 {
                return p;
            }
            tries = tries + 1;
        }
        Vec3::new(0, 0, 0)
    }

    /// A direction of length one, uniform over the sphere: a height `z` drawn
    /// from `[-1, 1)` and an azimuth drawn from `[0, 2 pi)`.
    pub fn random_unit(rng: &mut StdRng) -> (r: Vec3)
        ensures
            r.wf(),
            r.is_unit_bounded(),
            -ONE <= r.z < ONE,
            ONE * ONE - 16 * ONE <= dot_raw(r, r) <= ONE * ONE + 16 * ONE,
            exists|angle: int, z: int|
                0 <= angle < TURN && -ONE <= z < ONE && r == #[trigger] sphere_point(angle, z),
    {
        let angle = uniform(rng, 0, TURN);
        let z = uniform(rng, -ONE, ONE);
        let r = Vec3::from_angle_height(angle, z);
        assert(r == sphere_point(angle as int, z as int));
        r
    }

    /// A point of the unit ball on the side of the surface that this normal faces.
    pub fn random_in_hemisphere(self, rng: &mut StdRng) -> (r: Vec3)
        requires
            self.wf(),
        ensures
            r.wf(),
            dot_raw(r, r) < ONE * ONE,
            dot_raw(r, self) >= 0,
    {
        let p = Vec3::random_in_unit_sphere(rng);
        if p.dot_exact(self) > 0 {
            p
        } else {
            proof {
                crate::vec3::lemma_dot_neg(p, self);
            }
            p.neg()
        }
    }
}

impl ScatterDraw {
    /// Draws the random quantities of one scattering event.
    pub fn draw(rng: &mut StdRng) -> (r: ScatterDraw)
        ensures
            r.wf(),
            r.is_valid(),
    {
        let unit_dir = Vec3::random_unit(rng);
        let in_sphere = Vec3::random_in_unit_sphere(rng);
        let chance = uniform(rng, 0, ONE);
        ScatterDraw { unit_dir, in_sphere, chance }
    }
}

impl Material {
    /// Scatters `rin` at `rec` with freshly drawn random quantities.
    pub fn scatter(self, rin: Ray, rec: &HitRecord, rng: &mut StdRng) -> (r: Option<(Ray, Color)>)
        requires
            self.wf(),
            rin.wf(),
            rec.wf(),
        ensures
            exists|d: ScatterDraw| d.is_valid() && r == scatter_spec(self, rin, *rec, d),
            r matches Some((s, a)) ==> s.wf() && a.wf(),
    {
        let d = ScatterDraw::draw(rng);
        self.scatter_with(rin, rec, d)
    }
}

} // verus!
