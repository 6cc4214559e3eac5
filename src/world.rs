//! The scene: spheres in insertion order, queried for the nearest hit.
use vstd::prelude::*;
use crate::fixed::in_range;
use crate::ray::Ray;
use crate::hittable::{HitRecord, Sphere, sphere_hit};

verus! {

pub struct World {
    pub objects: Vec<Sphere>,
}

/// The upper bound on `t` left after a scan that found `found`.
pub open spec fn bound_after(found: Option<HitRecord>, tmax: int) -> int {
    match found {
        Some(h) => h.t as int,
        None => tmax,
    }
}

/// Scans `s` in order, testing each sphere against the interval narrowed by
/// the hits found before it; a later sphere replaces the record only when it is
/// strictly nearer.
pub open spec fn scan(s: Seq<Sphere>, ray: Ray, tmin: int, tmax: int) -> Option<HitRecord>
    decreases s.len(),
{
    if s.len() == 0 {
        None
    } else {
        let prev = scan(s.drop_last(), ray, tmin, tmax);
        match sphere_hit(s.last(), ray, tmin, bound_after(prev, tmax)) {
            Some(h) => Some(h),
            None => prev,
        }
    }
}

pub open spec fn all_wf(s: Seq<Sphere>) -> bool {
    forall|i: int| 0 <= i < s.len() ==> (#[trigger] s[i]).wf()
}

impl World {
    pub open spec fn wf(&self) -> bool {
        all_wf(self.objects@)
    }

    /// Tests `wf`: every sphere is well formed.
    pub fn is_valid(&self) -> (r: bool)
        ensures
            r == self.wf(),
    {
        let n = self.objects.len();
        let mut i: usize = 0;
        while i < n
            invariant
                n == self.objects@.len(),
                i <= n,
                forall|k: int| 0 <= k < i ==> (#[trigger] self.objects@[k]).wf(),
            decreases n - i,
        {
            if !self.objects[i].is_valid() {
                return false;
            }
            i = i + 1;
        }
        true
    }

    pub fn new() -> (w: World)
        ensures
            w.objects@.len() == 0,
    {
        World { objects: Vec::new() }
    }

    pub fn add(&mut self, object: Sphere)
        ensures
            final(self).objects@ == old(self).objects@.push(object),
    {
        self.objects.push(object);
    }

    /// The nearest intersection with parameter in `(tmin, tmax)` over every
    /// sphere of the scene, if any.
    pub fn hit(&self, ray: Ray, tmin: i64, tmax: i64) -> (r: Option<HitRecord>)
        requires
            self.wf(),
            ray.wf(),
            in_range(tmin as int),
            in_range(tmax as int),
        ensures
            r == scan(self.objects@, ray, tmin as int, tmax as int),
            r matches Some(h) ==> h.wf() && tmin < h.t < tmax,
    {
        let mut closest_so_far = tmax;
        let mut ret: Option<HitRecord> = None;
        let n = self.objects.len();
        let mut i: usize = 0;
        while i < n
            invariant
                n == self.objects@.len(),
                0 <= i <= n,
                all_wf(self.objects@),
                ray.wf(),
                in_range(tmin as int),
                in_range(tmax as int),
                ret == scan(self.objects@.take(i as int), ray, tmin as int, tmax as int),
                closest_so_far == bound_after(ret, tmax as int),
                ret matches Some(h) ==> h.wf() && tmin < h.t < tmax,
            decreases n - i,
        {
            let ghost prefix = self.objects@.take(i as int + 1);
            assert(prefix.drop_last() == self.objects@.take(i as int));
            assert(prefix.last() == self.objects@[i as int]);
            let object = &self.objects[i];
            match object.hit(ray, tmin, closest_so_far) {
                Some(rec) => {
                    closest_so_far = rec.t;
                    ret = Some(rec);
                },
                None => {},
            }
            i = i + 1;
        }
        assert(self.objects@.take(n as int) == self.objects@);
        ret
    }
}

pub proof fn lemma_sphere_hit_in_interval(s: Sphere, ray: Ray, tmin: int, tmax: int)
    requires
        in_range(tmin),
        in_range(tmax),
    ensures
        sphere_hit(s, ray, tmin, tmax) matches Some(h) ==> tmin < h.t < tmax,
{
}

/// Narrowing the interval keeps a hit that still lies inside it.
pub proof fn lemma_sphere_hit_narrowed(s: Sphere, ray: Ray, tmin: int, tmax: int, b: int)
    requires
        in_range(tmin),
        in_range(tmax),
        b <= tmax,
        sphere_hit(s, ray, tmin, tmax) matches Some(h) && h.t < b,
    ensures
        sphere_hit(s, ray, tmin, b) == sphere_hit(s, ray, tmin, tmax),
{
}

pub proof fn lemma_scan_in_interval(s: Seq<Sphere>, ray: Ray, tmin: int, tmax: int)
    requires
        in_range(tmin),
        in_range(tmax),
    ensures
        scan(s, ray, tmin, tmax) matches Some(h) ==> tmin < h.t < tmax,
    decreases s.len(),
{
    if s.len() > 0 {
        let prev = scan(s.drop_last(), ray, tmin, tmax);
        lemma_scan_in_interval(s.drop_last(), ray, tmin, tmax);
        let b = bound_after(prev, tmax);
        lemma_sphere_hit_in_interval(s.last(), ray, tmin, b);
    }
}

/// The scene's hit is never farther than any single sphere's own hit in the
/// same interval: whichever sphere the ray meets, the scene reports that
/// intersection or a nearer one.
pub proof fn lemma_world_hit_nearest(s: Seq<Sphere>, ray: Ray, tmin: int, tmax: int, j: int)
    requires
        in_range(tmin),
        in_range(tmax),
        0 <= j < s.len(),
        sphere_hit(s[j], ray, tmin, tmax) is Some,
    ensures
        scan(s, ray, tmin, tmax) matches Some(r) && r.t <= sphere_hit(s[j], ray, tmin, tmax)->Some_0.t,
    decreases s.len(),
{
    let h = sphere_hit(s[j], ray, tmin, tmax)->Some_0;
    let prev = scan(s.drop_last(), ray, tmin, tmax);
    let b = bound_after(prev, tmax);
    lemma_scan_in_interval(s.drop_last(), ray, tmin, tmax);
    lemma_sphere_hit_in_interval(s[j], ray, tmin, tmax);
    lemma_sphere_hit_in_interval(s.last(), ray, tmin, b);
    if j == s.len() - 1 {
        if h.t < b {
            lemma_sphere_hit_narrowed(s[j], ray, tmin, tmax, b);
        }
    } else {
        assert(s.drop_last()[j] == s[j]);
        lemma_world_hit_nearest(s.drop_last(), ray, tmin, tmax, j);
    }
}

} // verus!
