use raytrace::{Camera, HitRecord, Material, Ray, Sphere, Vec3, World, EIGHTH, ONE, TURN};

fn lambertian() -> Material {
    Material::Lambertian { albedo: Vec3::new(ONE / 2, ONE / 2, ONE / 2) }
}

#[test]
fn unit_of_three_four_zero() {
    let u = Vec3::new(3 * ONE, 4 * ONE, 0).unit();
    assert_eq!(u, Vec3::new(39321, 52428, 0));
    let n = u.norm();
    assert!((n - ONE).abs() <= 2, "norm {}", n);
}

#[test]
fn unit_has_norm_one_for_many_vectors() {
    let samples = [
        Vec3::new(ONE, 0, 0),
        Vec3::new(-ONE, 2 * ONE, 7),
        Vec3::new(123456, -654321, 99999),
        Vec3::new(5 * ONE, 5 * ONE, 5 * ONE),
        Vec3::new(-70000, -80000, 90000),
    ];
    for v in samples.iter() {
        let u = v.unit();
        let n = u.norm();
        assert!((n - ONE).abs() <= 8, "{:?} has norm {}", u, n);
    }
}

#[test]
fn unit_of_zero_is_zero() {
    assert_eq!(Vec3::new(0, 0, 0).unit(), Vec3::new(0, 0, 0));
}

#[test]
fn vector_arithmetic() {
    let a = Vec3::new(ONE, 2 * ONE, 3 * ONE);
    let b = Vec3::new(-ONE, ONE / 2, 2 * ONE);
    assert_eq!(a.add(b), Vec3::new(0, 5 * ONE / 2, 5 * ONE));
    assert_eq!(a.sub(b), Vec3::new(2 * ONE, 3 * ONE / 2, ONE));
    assert_eq!(a.neg(), Vec3::new(-ONE, -2 * ONE, -3 * ONE));
    assert_eq!(a.mul(b), Vec3::new(-ONE, ONE, 6 * ONE));
    assert_eq!(a.scale(ONE / 2), Vec3::new(ONE / 2, ONE, 3 * ONE / 2));
    assert_eq!(a.div(2 * ONE), Vec3::new(ONE / 2, ONE, 3 * ONE / 2));
    assert_eq!(a.dot(b), 6 * ONE);
    assert_eq!(a.norm_squared(), 14 * ONE);
    assert_eq!(Vec3::new(3 * ONE, 4 * ONE, 0).norm(), 5 * ONE);
}

#[test]
fn cross_of_axes() {
    let x = Vec3::new(ONE, 0, 0);
    let y = Vec3::new(0, ONE, 0);
    assert_eq!(x.cross(y), Vec3::new(0, 0, ONE));
    assert_eq!(y.cross(x), Vec3::new(0, 0, -ONE));
}

#[test]
fn sums_saturate_instead_of_overflowing() {
    let big = Vec3::new(raytrace::LIMIT, -raytrace::LIMIT, 0);
    assert_eq!(big.add(big), big);
}

#[test]
fn reflect_and_refract() {
    let n = Vec3::new(0, ONE, 0);
    let down_right = Vec3::new(ONE, -ONE, 0);
    assert_eq!(down_right.reflect(n), Vec3::new(ONE, ONE, 0));
    let down = Vec3::new(0, -ONE, 0);
    assert_eq!(down.refract(n, ONE), down);
}

#[test]
fn ray_at_zero_is_origin() {
    let r = Ray::new(Vec3::new(ONE, 2 * ONE, 3 * ONE), Vec3::new(-ONE, ONE / 2, 0));
    assert_eq!(r.at(0), r.origin);
    assert_eq!(r.at(2 * ONE), Vec3::new(-ONE, 3 * ONE, 3 * ONE));
    let a = r.at(ONE);
    let b = r.at(3 * ONE);
    let mid = r.at(2 * ONE);
    assert_eq!(a.add(b).div(2 * ONE), mid);
}

#[test]
fn sphere_hit_straight_ahead() {
    let s = Sphere::new(Vec3::new(0, 0, -ONE), ONE / 2, lambertian());
    let r = Ray::new(Vec3::new(0, 0, 0), Vec3::new(0, 0, -ONE));
    let h = s.hit(r, 0, raytrace::LIMIT).expect("hit");
    assert_eq!(h.t, ONE / 2);
    assert_eq!(h.p, Vec3::new(0, 0, -ONE / 2));
    assert_eq!(h.n, Vec3::new(0, 0, ONE));
    assert!(h.front_face);
}

#[test]
fn sphere_hit_from_inside() {
    let s = Sphere::new(Vec3::new(0, 0, -ONE), ONE / 2, lambertian());
    let r = Ray::new(Vec3::new(0, 0, -ONE), Vec3::new(0, 0, -ONE));
    let h = s.hit(r, 0, raytrace::LIMIT).expect("hit");
    assert_eq!(h.t, ONE / 2);
    assert!(!h.front_face);
    assert_eq!(h.n, Vec3::new(0, 0, ONE));
    let back = r.origin.sub(h.p);
    assert!(h.n.dot(back) > 0);
}

#[test]
fn sphere_miss_and_interval() {
    let s = Sphere::new(Vec3::new(0, 0, -ONE), ONE / 2, lambertian());
    let up = Ray::new(Vec3::new(0, 0, 0), Vec3::new(0, ONE, 0));
    assert!(s.hit(up, 0, raytrace::LIMIT).is_none());
    let ahead = Ray::new(Vec3::new(0, 0, 0), Vec3::new(0, 0, -ONE));
    let far = s.hit(ahead, ONE, raytrace::LIMIT).expect("far side");
    assert_eq!(far.t, 3 * ONE / 2);
    assert!(!far.front_face);
    assert!(s.hit(ahead, 0, ONE / 4).is_none());
}

#[test]
fn negative_radius_turns_normal_inward() {
    let s = Sphere::new(Vec3::new(0, 0, -ONE), -ONE / 2, lambertian());
    let r = Ray::new(Vec3::new(0, 0, 0), Vec3::new(0, 0, -ONE));
    let h = s.hit(r, 0, raytrace::LIMIT).expect("hit");
    assert_eq!(h.t, ONE / 2);
    assert!(!h.front_face);
    assert_eq!(h.n, Vec3::new(0, 0, ONE));
}

#[test]
fn world_returns_nearest_of_overlapping_spheres() {
    let mut w = World::new();
    let far = Sphere::new(Vec3::new(0, 0, -2 * ONE), ONE, lambertian());
    let near = Sphere::new(Vec3::new(0, 0, -ONE), ONE / 2 + ONE / 4, lambertian());
    w.add(far);
    w.add(near);
    let r = Ray::new(Vec3::new(0, 0, 0), Vec3::new(0, 0, -ONE));
    let h = w.hit(r, 0, raytrace::LIMIT).expect("hit");
    assert_eq!(h.t, ONE / 4);
    let mut w2 = World::new();
    w2.add(near);
    w2.add(far);
    assert_eq!(w2.hit(r, 0, raytrace::LIMIT).expect("hit").t, ONE / 4);
}

#[test]
fn empty_world_has_no_hit() {
    let w = World::new();
    let r = Ray::new(Vec3::new(0, 0, 0), Vec3::new(0, 0, -ONE));
    assert!(w.hit(r, 0, raytrace::LIMIT).is_none());
}

#[test]
fn hit_record_faces_against_ray() {
    let r = Ray::new(Vec3::new(0, 0, 0), Vec3::new(0, 0, -ONE));
    let m = lambertian();
    let front = HitRecord::new(r, Vec3::new(0, 0, -ONE), Vec3::new(0, 0, ONE), ONE, m);
    assert!(front.front_face);
    assert_eq!(front.n, Vec3::new(0, 0, ONE));
    let back = HitRecord::new(r, Vec3::new(0, 0, -ONE), Vec3::new(0, 0, -ONE), ONE, m);
    assert!(!back.front_face);
    assert_eq!(back.n, Vec3::new(0, 0, ONE));
}

#[test]
fn default_camera_rays() {
    let cam = Camera::default();
    assert_eq!(cam.origin, Vec3::new(0, 0, 0));
    assert_eq!(cam.horizontal, Vec3::new(233016, 0, 0));
    assert_eq!(cam.vertical, Vec3::new(0, 2 * ONE, 0));
    assert_eq!(cam.lower_left_corner, Vec3::new(-116508, -ONE, -ONE));
    let centre = cam.get_ray(ONE / 2, ONE / 2);
    assert_eq!(centre.origin, cam.origin);
    assert_eq!(centre.direction, Vec3::new(0, 0, -ONE));
    let corner = cam.get_ray(0, 0);
    assert_eq!(corner.direction, cam.lower_left_corner);
}

#[test]
fn validity_checks() {
    assert!(Camera::default().is_valid());
    let mut w = World::new();
    w.add(Sphere::new(Vec3::new(0, 0, -ONE), ONE / 2, lambertian()));
    assert!(w.is_valid());
    w.add(Sphere::new(Vec3::new(0, 0, -ONE), ONE / 2, Material::Dielectric { ref_idx: 0 }));
    assert!(!w.is_valid());
    assert!(!Vec3::new(raytrace::LIMIT + 1, 0, 0).is_valid());
}

#[test]
fn cross_is_antisymmetric_bit_for_bit() {
    let pairs = [
        (Vec3::new(0, 1, 0), Vec3::new(0, 0, 1)),
        (Vec3::new(3, -7, 11), Vec3::new(-5, 2, 9)),
        (Vec3::new(ONE, 2 * ONE + 5, -ONE / 3), Vec3::new(-7 * ONE, 13, ONE / 2)),
    ];
    for (a, b) in pairs.iter() {
        assert_eq!(a.cross(*b), b.cross(*a).neg());
    }
    assert_eq!(Vec3::new(0, 1, 0).cross(Vec3::new(0, 0, 1)), Vec3::new(0, 0, 0));
}

#[test]
fn unit_of_short_vectors_has_length_one() {
    let samples = [
        Vec3::new(182, 182, 0),
        Vec3::new(1, 1, 0),
        Vec3::new(1, 0, 0),
        Vec3::new(-3, 5, 7),
    ];
    for v in samples.iter() {
        let u = v.unit();
        let sq = (u.x as i128) * (u.x as i128) + (u.y as i128) * (u.y as i128) + (u.z as i128) * (u.z as i128);
        let one = (ONE as i128) * (ONE as i128);
        assert!(sq >= one - 5 * ONE as i128 && sq <= one + 8 * ONE as i128, "{:?} -> {:?}", v, u);
        assert!((u.norm() - ONE).abs() <= 2, "{:?} has norm {}", u, u.norm());
    }
    assert_eq!(Vec3::new(1, 0, 0).unit(), Vec3::new(ONE, 0, 0));
}

#[test]
fn directions_from_angle_and_height() {
    assert_eq!(Vec3::from_angle_height(0, 0), Vec3::new(ONE, 0, 0));
    assert_eq!(Vec3::from_angle_height(2 * EIGHTH, 0), Vec3::new(0, ONE, 0));
    assert_eq!(Vec3::from_angle_height(4 * EIGHTH, 0), Vec3::new(-ONE, 0, 0));
    assert_eq!(Vec3::from_angle_height(EIGHTH, -ONE), Vec3::new(0, 0, -ONE));
    let one = (ONE as i128) * (ONE as i128);
    let mut angle: i64 = 0;
    while angle < TURN {
        for z in [-ONE, -ONE / 2, 0, 12345, ONE - 1] {
            let v = Vec3::from_angle_height(angle, z);
            assert_eq!(v.z, z);
            let sq = (v.x as i128) * (v.x as i128) + (v.y as i128) * (v.y as i128) + (v.z as i128) * (v.z as i128);
            assert!(sq >= one - 16 * ONE as i128 && sq <= one + 16 * ONE as i128, "{} {} -> {:?}", angle, z, v);
        }
        angle += 997;
    }
}

#[test]
fn tiny_sphere_hit_from_its_centre_is_reported() {
    let s = Sphere::new(Vec3::new(0, 0, -ONE), 1, lambertian());
    let r = Ray::new(Vec3::new(0, 0, -ONE), Vec3::new(0, 0, 2));
    let h = s.hit(r, 32767, raytrace::LIMIT).expect("far root in range");
    assert_eq!(h.t, 32768);
}

#[test]
fn division_by_negative_scalar() {
    let v = Vec3::new(ONE, -2 * ONE, 3 * ONE);
    assert_eq!(v.div(-2 * ONE), Vec3::new(-ONE / 2, ONE, -3 * ONE / 2));
}
