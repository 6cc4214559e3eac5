//! Tracing rays through the scene and turning accumulated light into pixels.
use vstd::prelude::*;
use rand::rngs::StdRng;
use crate::fixed::{ONE, LIMIT, in_range, sat, fmul, fsqrt, is_root, lemma_root_of};
use crate::fixed::{saturate, mul_fixed, sqrt_fixed, floor_div};
use crate::vec3::{Vec3, Color, mk, vadd, vscale, vunit, vmul, fine_dot};
use crate::ray::Ray;
use crate::camera::{Camera, view_direction};
use crate::material::{ScatterDraw, scatter_spec};
use crate::world::{World, scan};
use crate::hittable::Sphere;
use crate::sampling::{seeded, uniform};

verus! {

/// Smallest ray parameter that counts as a hit, keeping a scattered ray from
/// meeting the surface it leaves.
pub const T_EPSILON: i64 = 7;

/// The colour of the sky straight up: (0.5, 0.7, 1.0).
pub open spec fn zenith() -> Color {
    mk(32768, 45875, 65536)
}

/// The colour of the sky at the horizon and below: white.
pub open spec fn horizon() -> Color {
    mk(65536, 65536, 65536)
}

pub open spec fn black() -> Color {
    mk(0, 0, 0)
}

/// The sky seen along `dir`: white blended toward blue as the direction rises.
pub open spec fn sky_spec(dir: Vec3) -> Color {
    let u = vunit(dir);
    let t = fmul(sat(u.y + ONE), ONE / 2);
    vadd(vscale(horizon(), ONE - t), vscale(zenith(), t))
}

/// The light arriving along `ray`, where `draws[k]` supplies the random
/// quantities of the `k`-th bounce and the number of draws is the depth limit.
pub open spec fn trace(s: Seq<Sphere>, ray: Ray, draws: Seq<ScatterDraw>) -> Color
    decreases draws.len(),
{
    if draws.len() == 0 {
        black()
    } else {
        match scan(s, ray, T_EPSILON as int, LIMIT as int) {
            None => sky_spec(ray.direction),
            Some(rec) => match scatter_spec(rec.material, ray, rec, draws[0]) {
                None => black(),
                Some((scattered, attenuation)) => vmul(trace(s, scattered, draws.drop_first()), attenuation),
            },
        }
    }
}


pub open spec fn all_draws_wf(d: Seq<ScatterDraw>) -> bool {
    forall|i: int| 0 <= i < d.len() ==> (#[trigger] d[i]).wf()
}

pub open spec fn all_draws_valid(d: Seq<ScatterDraw>) -> bool {
    forall|i: int| 0 <= i < d.len() ==> (#[trigger] d[i]).wf() && d[i].is_valid()
}

/// A draw that stands for randomness that a path never used.
pub open spec fn idle_draw() -> ScatterDraw {
    ScatterDraw { unit_dir: mk(0, 0, ONE as int), in_sphere: mk(0, 0, 0), chance: 0 }
}

pub open spec fn idle_draws(n: nat) -> Seq<ScatterDraw> {
    Seq::new(n, |i: int| idle_draw())
}

/// The sky seen along `direction`.
pub fn sky(direction: Vec3) -> (r: Color)
    requires
        direction.wf(),
    ensures
        r == sky_spec(direction),
        r.wf(),
{
    let u = direction.unit();
    let t = mul_fixed(saturate(u.y as i128 + ONE as i128), ONE / 2);
    let horizon = Vec3::new(ONE, ONE, ONE);
    let zenith = Vec3::new(32768, 45875, ONE);
    horizon.scale(ONE - t).add(zenith.scale(t))
}

impl Ray {
    /// The light arriving along this ray, bouncing through `world` with the
    /// random quantities `draws[i..]`, one per bounce.
    fn color_from(self, world: &World, draws: &Vec<ScatterDraw>, i: usize) -> (r: Color)
        requires
            self.wf(),
            world.wf(),
            all_draws_wf(draws@),
            i <= draws@.len(),
        ensures
            r == trace(world.objects@, self, draws@.subrange(i as int, draws@.len() as int)),
            r.wf(),
        decreases draws@.len() - i,
    {
        let ghost rest = draws@.subrange(i as int, draws@.len() as int);
        if i == draws.len() {
            Vec3::new(0, 0, 0)
        } else {
            assert(rest[0] == draws@[i as int]);
            assert(rest.drop_first() == draws@.subrange(i as int + 1, draws@.len() as int));
            match world.hit(self, T_EPSILON, LIMIT) {
                None => sky(self.direction),
                Some(rec) => match rec.material.scatter_with(self, &rec, draws[i]) {
                    None => Vec3::new(0, 0, 0),
                    Some((scattered, attenuation)) => {
                        scattered.color_from(world, draws, i + 1).mul(attenuation)
                    },
                },
            }
        }
    }

    /// The light arriving along this ray, with the random quantities of the
    /// `k`-th bounce given by `draws[k]`; the number of draws is the depth limit.
    pub fn color_with(self, world: &World, draws: &Vec<ScatterDraw>) -> (r: Color)
        requires
            self.wf(),
            world.wf(),
            all_draws_wf(draws@),
        ensures
            r == trace(world.objects@, self, draws@),
            r.wf(),
    {
        assert(draws@.subrange(0, draws@.len() as int) == draws@);
        self.color_from(world, draws, 0)
    }

    /// The light arriving along this ray, with at most `depth` bounces and the
    /// random quantities of each bounce drawn from `rng`.
    pub fn color(self, world: &World, depth: i64, rng: &mut StdRng) -> (r: Color)
        requires
            self.wf(),
            world.wf(),
        ensures
            depth <= 0 ==> r == black(),
            exists|d: Seq<ScatterDraw>|
                d.len() == (if depth < 0 { 0 } else { depth as int }) && all_draws_valid(d)
                    && r == #[trigger] trace(world.objects@, self, d),
            r.wf(),
        decreases depth,
    {
        if depth <= 0 {
            assert(trace(world.objects@, self, Seq::<ScatterDraw>::empty()) == black());
            return Vec3::new(0, 0, 0);
        }
        let ghost filler = idle_draws((depth - 1) as nat);
        assert(all_draws_valid(filler));
        match world.hit(self, T_EPSILON, LIMIT) {
            None => {
                let ghost d = seq![idle_draw()] + filler;
                assert(all_draws_valid(d));
                assert(trace(world.objects@, self, d) == sky_spec(self.direction));
                sky(self.direction)
            },
            Some(rec) => {
                let draw = ScatterDraw::draw(rng);
                let ghost d0 = seq![draw];
                match rec.material.scatter_with(self, &rec, draw) {
                    None => {
                        let ghost d = d0 + filler;
                        assert(d[0] == draw);
                        assert(all_draws_valid(d));
                        assert(trace(world.objects@, self, d) == black());
                        Vec3::new(0, 0, 0)
                    },
                    Some((scattered, attenuation)) => {
                        let c = scattered.color(world, depth - 1, rng);
                        let ghost rest = choose|d: Seq<ScatterDraw>|
                            d.len() == depth - 1 && all_draws_valid(d)
                                && c == #[trigger] trace(world.objects@, scattered, d);
                        let ghost d = d0 + rest;
                        assert(d[0] == draw);
                        assert(d.drop_first() == rest);
                        assert(all_draws_valid(d));
                        let r = c.mul(attenuation);
                        assert(r == trace(world.objects@, self, d));
                        r
                    },
                }
            },
        }
    }
}

/// Returns `x` limited to `[xmin, xmax]`.
pub fn clamp(x: i64, xmin: i64, xmax: i64) -> (r: i64)
    ensures
        r == (if x < xmin { xmin } else if xmax < x { xmax } else { x }),
{
    if x < xmin {
        xmin
    } else if xmax < x {
        xmax
    } else {
        x
    }
}

/// An 8-bit colour.
#[derive(Clone, Copy, Debug, PartialEq, Eq, Structural)]
pub struct Rgb {
    pub r: u8,
    pub g: u8,
    pub b: u8,
}

/// Largest gamma-corrected channel value kept before scaling: 0.999.
pub const CHANNEL_MAX: i64 = 65470;

/// One channel of a pixel: the mean of `samples` accumulated values,
/// gamma-corrected by a square root, limited to `[0, 0.999]` and scaled to 256 levels.
pub open spec fn channel_spec(sum: int, samples: int) -> int {
    let mean = sum / samples;
    let g = fsqrt(if mean < 0 { 0 } else { mean });
    let kept = if g > CHANNEL_MAX { CHANNEL_MAX as int } else { g };
    (kept * 256) / (ONE as int)
}

fn channel(sum: i64, samples: u64) -> (r: u8)
    requires
        in_range(sum as int),
        samples > 0,
    ensures
        r == channel_spec(sum as int, samples as int),
{
    let mean = floor_div(sum as i128, samples as i128) as i64;
    let g = sqrt_fixed(if mean < 0 { 0 } else { mean });
    let kept = clamp(g, 0, CHANNEL_MAX);
    let level = floor_div(kept as i128 * 256, ONE as i128);
    proof {
        assert(level <= 255) by (nonlinear_arith)
            requires level == (kept * 256) / 65536, 0 <= kept <= 65470;
    }
    level as u8
}

/// Turns the sum of `samples_per_pixel` traced colours into an 8-bit pixel.
pub fn pixel_color(color: Color, samples_per_pixel: u64) -> (r: Rgb)
    requires
        color.wf(),
        samples_per_pixel > 0,
    ensures
        r.r == channel_spec(color.x as int, samples_per_pixel as int),
        r.g == channel_spec(color.y as int, samples_per_pixel as int),
        r.b == channel_spec(color.z as int, samples_per_pixel as int),
{
    Rgb {
        r: channel(color.x, samples_per_pixel),
        g: channel(color.y, samples_per_pixel),
        b: channel(color.z, samples_per_pixel),
    }
}

/// Image-plane coordinate of column `i` of `width`, jittered by `jitter` in `[0, 1)`.
pub open spec fn sample_coord_spec(i: int, width: int, jitter: int) -> int {
    (i * ONE + jitter) / (width - 1)
}

/// Image-plane coordinate of column (or row) `i` of `width`, jittered by
/// `jitter` in `[0, 1)`; the image spans `[0, 1]`.
pub fn sample_coord(i: u64, width: u64, jitter: i64) -> (r: i64)
    requires
        width >= 2,
        i < width,
        0 <= jitter < ONE,
    ensures
        r == sample_coord_spec(i as int, width as int, jitter as int),
        0 <= r <= 2 * ONE,
{
    let num = i as i128 * ONE as i128 + jitter as i128;
    let q = floor_div(num, (width - 1) as i128);
    proof {
        vstd::arithmetic::div_mod::lemma_fundamental_div_mod(num as int, width - 1);
        let m = (num as int) % (width - 1);
        assert(q <= 2 * ONE) by (nonlinear_arith)
            requires (width - 1) * q + m == num, 0 <= m, num == i * 65536 + jitter,
                0 <= i <= width - 1, jitter < 65536, width >= 2;
    }
    q as i64
}

/// The camera ray of pixel `(i, j)` of a `width` by `height` image, jittered
/// by `(ju, jv)`.
pub open spec fn sample_ray(cam: Camera, i: int, j: int, width: int, height: int, ju: int, jv: int) -> Ray {
    Ray {
        origin: cam.origin,
        direction: view_direction(
            cam,
            sample_coord_spec(i, width, ju),
            sample_coord_spec(j, height, jv),
        ),
    }
}

/// The light gathered by pixel `(i, j)` over the samples whose jitters are
/// `jus[k]`, `jvs[k]` and whose bounces draw from `drs[k]`.
pub open spec fn accumulate(
    s: Seq<Sphere>,
    cam: Camera,
    i: int,
    j: int,
    width: int,
    height: int,
    jus: Seq<int>,
    jvs: Seq<int>,
    drs: Seq<Seq<ScatterDraw>>,
) -> Color
    decreases jus.len(),
{
    if jus.len() == 0 {
        black()
    } else {
        let n = jus.len() - 1;
        vadd(
            accumulate(s, cam, i, j, width, height, jus.drop_last(), jvs.drop_last(), drs.drop_last()),
            trace(s, sample_ray(cam, i, j, width, height, jus[n], jvs[n]), drs[n]),
        )
    }
}

/// The 8-bit pixel for the sum `c` of `samples` traced colours.
pub open spec fn quantize(c: Color, samples: int) -> Rgb {
    Rgb {
        r: channel_spec(c.x as int, samples) as u8,
        g: channel_spec(c.y as int, samples) as u8,
        b: channel_spec(c.z as int, samples) as u8,
    }
}

/// `samples` jitters in `[0, 1)` and, for each, the valid draws of up to `depth` bounces.
pub open spec fn samples_valid(jus: Seq<int>, jvs: Seq<int>, drs: Seq<Seq<ScatterDraw>>, samples: int, depth: int) -> bool {
    &&& jus.len() == samples
    &&& jvs.len() == samples
    &&& drs.len() == samples
    &&& forall|k: int|
        0 <= k < samples ==> 0 <= #[trigger] jus[k] < ONE && 0 <= jvs[k] < ONE
            && drs[k].len() == (if depth < 0 { 0 } else { depth }) && all_draws_valid(drs[k])
}

/// `px` is what pixel `(i, j)` shows for some outcome of the random draws.
pub open spec fn pixel_possible(
    s: Seq<Sphere>,
    cam: Camera,
    width: int,
    height: int,
    samples: int,
    depth: int,
    i: int,
    j: int,
    px: Rgb,
) -> bool {
    exists|jus: Seq<int>, jvs: Seq<int>, drs: Seq<Seq<ScatterDraw>>|
        samples_valid(jus, jvs, drs, samples, depth)
            && px == #[trigger] quantize(accumulate(s, cam, i, j, width, height, jus, jvs, drs), samples)
}

/// Pixel `(i, j)` for the given random outcomes: sample `k` is jittered by
/// `jitters[k]` and its bounces draw from `draws[k]`.
pub fn render_pixel_with(
    world: &World,
    cam: Camera,
    i: u64,
    j: u64,
    width: u64,
    height: u64,
    jitters: &Vec<(i64, i64)>,
    draws: &Vec<Vec<ScatterDraw>>,
) -> (px: Rgb)
    requires
        world.wf(),
        cam.wf(),
        width >= 2,
        height >= 2,
        i < width,
        j < height,
        jitters@.len() > 0,
        draws@.len() == jitters@.len(),
        forall|k: int| 0 <= k < jitters@.len() ==> 0 <= (#[trigger] jitters@[k]).0 < ONE && 0 <= jitters@[k].1 < ONE,
        forall|k: int| 0 <= k < draws@.len() ==> all_draws_wf((#[trigger] draws@[k])@),
    ensures
        px == quantize(
            accumulate(
                world.objects@,
                cam,
                i as int,
                j as int,
                width as int,
                height as int,
                jitters@.map_values(|p: (i64, i64)| p.0 as int),
                jitters@.map_values(|p: (i64, i64)| p.1 as int),
                draws@.map_values(|d: Vec<ScatterDraw>| d@),
            ),
            jitters@.len() as int,
        ),
{
    let ghost jus = jitters@.map_values(|p: (i64, i64)| p.0 as int);
    let ghost jvs = jitters@.map_values(|p: (i64, i64)| p.1 as int);
    let ghost drs = draws@.map_values(|d: Vec<ScatterDraw>| d@);
    let n = jitters.len();
    let mut pixel = Vec3::new(0, 0, 0);
    let mut k: usize = 0;
    while k < n
        invariant
            world.wf(),
            cam.wf(),
            width >= 2,
            height >= 2,
            i < width,
            j < height,
            n == jitters@.len(),
            draws@.len() == n,
            forall|q: int| 0 <= q < n ==> 0 <= (#[trigger] jitters@[q]).0 < ONE && 0 <= jitters@[q].1 < ONE,
            forall|q: int| 0 <= q < n ==> all_draws_wf((#[trigger] draws@[q])@),
            jus == jitters@.map_values(|p: (i64, i64)| p.0 as int),
            jvs == jitters@.map_values(|p: (i64, i64)| p.1 as int),
            drs == draws@.map_values(|d: Vec<ScatterDraw>| d@),
            k <= n,
            pixel.wf(),
            pixel == accumulate(world.objects@, cam, i as int, j as int, width as int, height as int,
                jus.take(k as int), jvs.take(k as int), drs.take(k as int)),
        decreases n - k,
    {
        let (ju, jv) = jitters[k];
        let u = sample_coord(i, width, ju);
        let v = sample_coord(j, height, jv);
        let ray = cam.get_ray(u, v);
        let c = ray.color_with(world, &draws[k]);
        proof {
            assert(jus.take(k as int + 1).drop_last() == jus.take(k as int));
            assert(jvs.take(k as int + 1).drop_last() == jvs.take(k as int));
            assert(drs.take(k as int + 1).drop_last() == drs.take(k as int));
            assert(ray == sample_ray(cam, i as int, j as int, width as int, height as int, jus[k as int], jvs[k as int]));
        }
        pixel = pixel.add(c);
        k = k + 1;
    }
    proof {
        assert(jus.take(n as int) == jus);
        assert(jvs.take(n as int) == jvs);
        assert(drs.take(n as int) == drs);
    }
    pixel_color(pixel, n as u64)
}

/// Pixel `(i, j)` with `samples_per_pixel` jittered samples of up to
/// `max_depth` bounces, all randomness drawn from `rng`.
fn render_pixel(
    world: &World,
    cam: Camera,
    i: u64,
    j: u64,
    width: u64,
    height: u64,
    samples_per_pixel: u64,
    max_depth: i64,
    rng: &mut StdRng,
) -> (px: Rgb)
    requires
        world.wf(),
        cam.wf(),
        width >= 2,
        height >= 2,
        i < width,
        j < height,
        samples_per_pixel > 0,
    ensures
        pixel_possible(world.objects@, cam, width as int, height as int, samples_per_pixel as int,
            max_depth as int, i as int, j as int, px),
{
    let ghost mut jus: Seq<int> = Seq::empty();
    let ghost mut jvs: Seq<int> = Seq::empty();
    let ghost mut drs: Seq<Seq<ScatterDraw>> = Seq::empty();
    let mut pixel = Vec3::new(0, 0, 0);
    let mut s: u64 = 0;
    while s < samples_per_pixel
        invariant
            world.wf(),
            cam.wf(),
            width >= 2,
            height >= 2,
            i < width,
            j < height,
            s <= samples_per_pixel,
            samples_valid(jus, jvs, drs, s as int, max_depth as int),
            pixel.wf(),
            pixel == accumulate(world.objects@, cam, i as int, j as int, width as int, height as int,
                jus, jvs, drs),
        decreases samples_per_pixel - s,
    {
        let ju = uniform(rng, 0, ONE);
        let jv = uniform(rng, 0, ONE);
        let u = sample_coord(i, width, ju);
        let v = sample_coord(j, height, jv);
        let ray = cam.get_ray(u, v);
        let c = ray.color(world, max_depth, rng);
        proof {
            let d = choose|d: Seq<ScatterDraw>|
                d.len() == (if max_depth < 0 { 0 } else { max_depth as int }) && all_draws_valid(d)
                    && c == #[trigger] trace(world.objects@, ray, d);
            let old_jus = jus;
            let old_jvs = jvs;
            let old_drs = drs;
            jus = jus.push(ju as int);
            jvs = jvs.push(jv as int);
            drs = drs.push(d);
            assert(jus.drop_last() == old_jus);
            assert(jvs.drop_last() == old_jvs);
            assert(drs.drop_last() == old_drs);
            assert(ray == sample_ray(cam, i as int, j as int, width as int, height as int, ju as int, jv as int));
            assert forall|k: int| 0 <= k < s + 1 implies 0 <= #[trigger] jus[k] < ONE && 0 <= jvs[k] < ONE
                && drs[k].len() == (if max_depth < 0 { 0 } else { max_depth as int }) && all_draws_valid(drs[k]) by {
                if k < s {
                    assert(jus[k] == old_jus[k]);
                    assert(jvs[k] == old_jvs[k]);
                    assert(drs[k] == old_drs[k]);
                }
            }
        }
        pixel = pixel.add(c);
        s = s + 1;
    }
    let px = pixel_color(pixel, samples_per_pixel);
    assert(px == quantize(accumulate(world.objects@, cam, i as int, j as int, width as int, height as int,
        jus, jvs, drs), samples_per_pixel as int));
    px
}

/// Renders the scene: for each pixel, top row first and left to right within
/// a row, `samples_per_pixel` jittered camera rays are traced with at most
/// `max_depth` bounces, summed and quantised. The random stream is fixed by
/// `seed`.
pub fn render(
    world: &World,
    cam: Camera,
    width: u64,
    height: u64,
    samples_per_pixel: u64,
    max_depth: i64,
    seed: u64,
) -> (out: Vec<Rgb>)
    requires
        world.wf(),
        cam.wf(),
        width >= 2,
        height >= 2,
        samples_per_pixel > 0,
    ensures
        out@.len() == width * height,
        forall|k: int|
            0 <= k < out@.len() ==> pixel_possible(world.objects@, cam, width as int, height as int,
                samples_per_pixel as int, max_depth as int, k % (width as int), height - 1 - k / (width as int),
                #[trigger] out@[k]),
{
    let mut rng = seeded(seed);
    let mut out: Vec<Rgb> = Vec::new();
    let mut done: u64 = 0;
    while done < height
        invariant
            world.wf(),
            cam.wf(),
            width >= 2,
            height >= 2,
            samples_per_pixel > 0,
            done <= height,
            out@.len() == done * width,
            forall|k: int|
                0 <= k < out@.len() ==> pixel_possible(world.objects@, cam, width as int, height as int,
                    samples_per_pixel as int, max_depth as int, k % (width as int), height - 1 - k / (width as int),
                    #[trigger] out@[k]),
        decreases height - done,
    {
        let j = height - 1 - done;
        let mut i: u64 = 0;
        while i < width
            invariant
                world.wf(),
                cam.wf(),
                width >= 2,
                j == height - 1 - done,
                done < height,
                height >= 2,
                samples_per_pixel > 0,
                i <= width,
                out@.len() == done * width + i,
                forall|k: int|
                    0 <= k < out@.len() ==> pixel_possible(world.objects@, cam, width as int, height as int,
                        samples_per_pixel as int, max_depth as int, k % (width as int), height - 1 - k / (width as int),
                        #[trigger] out@[k]),
            decreases width - i,
        {
            let px = render_pixel(world, cam, i, j, width, height, samples_per_pixel, max_depth, &mut rng);
            let ghost before = out@;
            out.push(px);
            proof {
                let k0 = done * width + i;
                vstd::arithmetic::div_mod::lemma_fundamental_div_mod_converse(
                    k0 as int, width as int, done as int, i as int);
                assert forall|k: int| 0 <= k < out@.len() implies pixel_possible(world.objects@, cam,
                    width as int, height as int, samples_per_pixel as int, max_depth as int, k % (width as int),
                    height - 1 - k / (width as int), #[trigger] out@[k]) by {
                    if k < before.len() {
                        assert(out@[k] == before[k]);
                    }
                }
            }
            i = i + 1;
        }
        proof {
            assert((done + 1) * width == done * width + width) by (nonlinear_arith);
        }
        done = done + 1;
    }
    assert(done * width == width * height) by (nonlinear_arith)
        requires done == height;
    out
}

/// With no bounces left a path carries no light, whatever the ray or the scene.
pub proof fn lemma_depth_zero_is_black(s: Seq<Sphere>, ray: Ray)
    ensures
        trace(s, ray, Seq::<ScatterDraw>::empty()) == black(),
{
}

/// With one bounce allowed, the colour does not depend on the random draw: a
/// ray that meets the scene is black (its continuation has no bounces left),
/// and one that misses it shows the sky.
pub proof fn lemma_depth_one(s: Seq<Sphere>, ray: Ray, draws: Seq<ScatterDraw>)
    requires
        draws.len() == 1,
    ensures
        trace(s, ray, draws) == (if scan(s, ray, T_EPSILON as int, LIMIT as int) is Some {
            black()
        } else {
            sky_spec(ray.direction)
        }),
{
    let rest = draws.drop_first();
    assert(rest.len() == 0);
    if let Some(rec) = scan(s, ray, T_EPSILON as int, LIMIT as int) {
        if let Some((scattered, attenuation)) = scatter_spec(rec.material, ray, rec, draws[0]) {
            assert(trace(s, scattered, rest) == black());
            let b = black();
            assert(b.x == 0 && b.y == 0 && b.z == 0);
            assert(fmul(0, attenuation.x as int) == 0);
            assert(fmul(0, attenuation.y as int) == 0);
            assert(fmul(0, attenuation.z as int) == 0);
            assert(vmul(b, attenuation) == b);
        }
    }
}

/// A ray that meets nothing carries the sky's colour along its direction.
pub proof fn lemma_miss_is_sky(s: Seq<Sphere>, ray: Ray, draws: Seq<ScatterDraw>)
    requires
        draws.len() > 0,
        scan(s, ray, T_EPSILON as int, LIMIT as int) is None,
    ensures
        trace(s, ray, draws) == sky_spec(ray.direction),
{
}

/// Straight up the sky is (0.5, 0.7, 1.0); straight down it is white.
pub proof fn lemma_sky_extremes()
    ensures
        sky_spec(mk(0, ONE as int, 0)) == zenith(),
        sky_spec(mk(0, -ONE, 0)) == horizon(),
{
    let up = mk(0, ONE as int, 0);
    let down = mk(0, -ONE, 0);
    assert(up.x == 0 && up.y == 65536 && up.z == 0);
    assert(down.x == 0 && down.y == -65536 && down.z == 0);
    assert(fine_dot(up) == 0x10000000000000000);
    assert(fine_dot(down) == 0x10000000000000000);
    assert(is_root(0x10000000000000000, 0x100000000));
    lemma_root_of(0x10000000000000000, 0x100000000);
    assert(up.y * ONE * ONE == 0x1000000000000);
    assert(0x1000000000000int / 0x100000000int == 0x10000);
    assert(-0x1000000000000int / 0x100000000int == -0x10000);
    assert(vunit(up) == up);
    assert(vunit(down) == down);
}

} // verus!
