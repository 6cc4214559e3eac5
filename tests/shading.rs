use rand::rngs::StdRng;
use rand::SeedableRng;
use raytrace::{
    clamp, pixel_color, render, render_pixel_with, sample_coord, schlick, sky, Camera, HitRecord, Material, Ray,
    Rgb, ScatterDraw, Sphere, Vec3, World, ONE,
};

fn draw(chance: i64) -> ScatterDraw {
    ScatterDraw {
        unit_dir: Vec3::new(0, 0, ONE),
        in_sphere: Vec3::new(0, -ONE / 2, 0),
        chance,
    }
}

fn floor_record(m: Material, front_face: bool) -> HitRecord {
    HitRecord { p: Vec3::new(0, 0, 0), n: Vec3::new(0, ONE, 0), t: ONE, material: m, front_face }
}

#[test]
fn sky_straight_up_and_down() {
    assert_eq!(sky(Vec3::new(0, ONE, 0)), Vec3::new(32768, 45875, ONE));
    assert_eq!(sky(Vec3::new(0, -ONE, 0)), Vec3::new(ONE, ONE, ONE));
}

#[test]
fn miss_returns_sky_through_trace() {
    let w = World::new();
    let up = Ray::new(Vec3::new(0, 0, 0), Vec3::new(0, ONE, 0));
    let down = Ray::new(Vec3::new(0, 0, 0), Vec3::new(0, -ONE, 0));
    assert_eq!(up.color_with(&w, &vec![draw(0)]), Vec3::new(32768, 45875, ONE));
    assert_eq!(down.color_with(&w, &vec![draw(0), draw(0)]), Vec3::new(ONE, ONE, ONE));
}

#[test]
fn depth_zero_is_black() {
    let mut w = World::new();
    w.add(Sphere::new(Vec3::new(0, 0, -ONE), ONE / 2, Material::Dielectric { ref_idx: 98304 }));
    let r = Ray::new(Vec3::new(0, 0, 0), Vec3::new(0, ONE, 0));
    assert_eq!(r.color_with(&w, &vec![]), Vec3::new(0, 0, 0));
    let mut rng = StdRng::seed_from_u64(7);
    assert_eq!(r.color(&w, 0, &mut rng), Vec3::new(0, 0, 0));
    assert_eq!(r.color(&w, -3, &mut rng), Vec3::new(0, 0, 0));
}

#[test]
fn lambertian_always_scatters_with_albedo() {
    let albedo = Vec3::new(45875, 19660, 19660);
    let m = Material::Lambertian { albedo };
    let rec = floor_record(m, true);
    let rin = Ray::new(Vec3::new(0, ONE, 0), Vec3::new(0, -ONE, 0));
    let (scattered, att) = m.scatter_with(rin, &rec, draw(0)).expect("scatters");
    assert_eq!(att, albedo);
    assert_eq!(scattered.origin, rec.p);
    assert_eq!(scattered.direction, Vec3::new(0, ONE, ONE));
    let mut rng = StdRng::seed_from_u64(11);
    for _ in 0..50 {
        let (_, a) = m.scatter(rin, &rec, &mut rng).expect("scatters");
        assert_eq!(a, albedo);
    }
}

#[test]
fn metal_absorbs_when_blur_points_into_surface() {
    let albedo = Vec3::new(52428, 39321, 13107);
    let rin = Ray::new(Vec3::new(0, ONE, 0), Vec3::new(0, -ONE, 0));
    let sharp = Material::Metal { albedo, fuzz: 0 };
    let (s, a) = sharp.scatter_with(rin, &floor_record(sharp, true), draw(0)).expect("reflects");
    assert_eq!(s.direction, Vec3::new(0, ONE, 0));
    assert_eq!(a, albedo);
    let blurred = Material::Metal { albedo, fuzz: 3 * ONE };
    assert!(blurred.scatter_with(rin, &floor_record(blurred, true), draw(0)).is_none());
}

#[test]
fn dielectric_reflects_past_critical_angle() {
    let glass = Material::Dielectric { ref_idx: 98304 };
    let rec = floor_record(glass, false);
    let rin = Ray::new(Vec3::new(-56756, 32768, 0), Vec3::new(56756, -32768, 0));
    let expected = rin.direction.unit().reflect(rec.n);
    for chance in [0, ONE / 2, ONE - 1] {
        let (s, a) = glass.scatter_with(rin, &rec, draw(chance)).expect("scatters");
        assert_eq!(s.direction, expected);
        assert_eq!(a, Vec3::new(ONE, ONE, ONE));
    }
}

#[test]
fn dielectric_refracts_head_on() {
    let glass = Material::Dielectric { ref_idx: 98304 };
    let rec = floor_record(glass, true);
    let rin = Ray::new(Vec3::new(0, ONE, 0), Vec3::new(0, -ONE, 0));
    let (s, _) = glass.scatter_with(rin, &rec, draw(ONE - 1)).expect("scatters");
    assert_eq!(s.direction, Vec3::new(0, -ONE, 0));
    let (r, _) = glass.scatter_with(rin, &rec, draw(0)).expect("scatters");
    assert_eq!(r.direction, Vec3::new(0, ONE, 0));
}

#[test]
fn schlick_values() {
    assert_eq!(schlick(ONE, 98304), 2621);
    assert_eq!(schlick(0, 98304), ONE);
}

#[test]
fn clamp_limits() {
    assert_eq!(clamp(5, 0, 10), 5);
    assert_eq!(clamp(-5, 0, 10), 0);
    assert_eq!(clamp(50, 0, 10), 10);
}

#[test]
fn pixel_quantisation() {
    assert_eq!(pixel_color(Vec3::new(ONE / 4, ONE, 0), 1), Rgb { r: 128, g: 255, b: 0 });
    assert_eq!(pixel_color(Vec3::new(ONE, 4 * ONE, -ONE), 4), Rgb { r: 128, g: 255, b: 0 });
}

#[test]
fn sample_coordinates() {
    assert_eq!(sample_coord(3, 9, ONE / 2), 28672);
    assert_eq!(sample_coord(0, 2, 0), 0);
    assert_eq!(sample_coord(1, 2, 0), ONE);
}

#[test]
fn random_samples_stay_in_bounds() {
    let mut rng = StdRng::seed_from_u64(3);
    let mut distinct = false;
    let first = Vec3::random(-ONE, ONE, &mut rng);
    for _ in 0..200 {
        let v = Vec3::random(-ONE, ONE, &mut rng);
        assert!(v.x >= -ONE && v.x < ONE && v.y >= -ONE && v.y < ONE && v.z >= -ONE && v.z < ONE);
        distinct |= v != first;
        let p = Vec3::random_in_unit_sphere(&mut rng);
        let sq = (p.x as i128) * (p.x as i128) + (p.y as i128) * (p.y as i128) + (p.z as i128) * (p.z as i128);
        assert!(sq < (ONE as i128) * (ONE as i128));
        let u = Vec3::random_unit(&mut rng);
        assert!((u.norm() - ONE).abs() <= 16, "{:?}", u);
        assert!(u.z >= -ONE && u.z < ONE);
        let n = Vec3::new(0, ONE, 0);
        let h = n.random_in_hemisphere(&mut rng);
        assert!(h.y >= 0);
        let d = ScatterDraw::draw(&mut rng);
        assert!(d.chance >= 0 && d.chance < ONE);
    }
    assert!(distinct);
}

fn ground_scene() -> World {
    let mut w = World::new();
    w.add(Sphere::new(
        Vec3::new(0, -100 * ONE - ONE / 2, -ONE),
        100 * ONE,
        Material::Lambertian { albedo: Vec3::new(52428, 52428, 0) },
    ));
    w
}

#[test]
fn render_is_reproducible_with_a_seed() {
    let w = ground_scene();
    let cam = Camera::default();
    let a = render(&w, cam, 16, 9, 1, 1, 42);
    let b = render(&w, cam, 16, 9, 1, 1, 42);
    assert_eq!(a.len(), 16 * 9);
    assert_eq!(a, b);
}

#[test]
fn render_top_row_is_sky_and_bottom_row_is_ground() {
    let w = ground_scene();
    let cam = Camera::default();
    let img = render(&w, cam, 16, 9, 1, 1, 5);
    let top = img[0];
    assert!(top.b > top.r, "top pixel {:?}", top);
    let bottom = img[img.len() - 1];
    assert_eq!(bottom, Rgb { r: 0, g: 0, b: 0 });
}

#[test]
fn pixel_with_given_draws_matches_its_parts() {
    let w = World::new();
    let cam = Camera::default();
    let jitters = vec![(0, 0), (ONE / 2, ONE / 2)];
    let draws = vec![vec![draw(0)], vec![draw(0)]];
    let px = render_pixel_with(&w, cam, 3, 2, 16, 9, &jitters, &draws);
    let mut sum = Vec3::new(0, 0, 0);
    for (ju, jv) in jitters.iter() {
        let ray = cam.get_ray(sample_coord(3, 16, *ju), sample_coord(2, 9, *jv));
        sum = sum.add(sky(ray.direction));
    }
    assert_eq!(px, pixel_color(sum, 2));
    assert!(px.b >= px.r);
}

#[test]
fn pixel_with_ground_hit_and_no_bounces_left_is_black() {
    let w = ground_scene();
    let cam = Camera::default();
    let px = render_pixel_with(&w, cam, 8, 0, 16, 9, &vec![(0, 0)], &vec![vec![draw(0)]]);
    assert_eq!(px, Rgb { r: 0, g: 0, b: 0 });
}
