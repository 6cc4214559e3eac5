//! The camera: maps image-plane coordinates to rays from the eye.
use vstd::prelude::*;
use crate::fixed::{ONE, in_range};
use crate::vec3::{Vec3, Point, mk, vadd, vsub, vscale};
use crate::ray::Ray;

verus! {

#[derive(Clone, Copy, Debug, PartialEq, Eq, Structural)]
pub struct Camera {
    pub origin: Point,
    pub lower_left_corner: Point,
    pub horizontal: Vec3,
    pub vertical: Vec3,
}

/// Direction from the eye through image-plane coordinate `(u, v)`.
pub open spec fn view_direction(c: Camera, u: int, v: int) -> Vec3 {
    vsub(vadd(vadd(c.lower_left_corner, vscale(c.horizontal, u)), vscale(c.vertical, v)), c.origin)
}

impl Camera {
    pub open spec fn wf(self) -> bool {
        self.origin.wf() && self.lower_left_corner.wf() && self.horizontal.wf() && self.vertical.wf()
    }

    /// Tests `wf`.
    pub fn is_valid(&self) -> (r: bool)
        ensures
            r == self.wf(),
    {
        self.origin.is_valid() && self.lower_left_corner.is_valid() && self.horizontal.is_valid()
            && self.vertical.is_valid()
    }

    pub fn new(origin: Point, lower_left_corner: Point, horizontal: Vec3, vertical: Vec3) -> (r: Camera)
        ensures
            r == (Camera { origin, lower_left_corner, horizontal, vertical }),
    {
        Camera { origin, lower_left_corner, horizontal, vertical }
    }

    /// A 16:9 view, two units high, with focal length one, from the world
    /// origin looking down the negative z axis.
    pub fn default() -> (r: Camera)
        ensures
            r.wf(),
            r.origin == (Vec3 { x: 0, y: 0, z: 0 }),
            r.horizontal == (Vec3 { x: 233016, y: 0, z: 0 }),
            r.vertical == (Vec3 { x: 0, y: 131072, z: 0 }),
            r.lower_left_corner == mk(-116508, -65536, -65536),
    {
        let height: i64 = 2 * ONE;
        let width: i64 = 16 * height / 9;
        let focal: i64 = ONE;
        let origin = Vec3::new(0, 0, 0);
        let horizontal = Vec3::new(width, 0, 0);
        let vertical = Vec3::new(0, height, 0);
        let half: i64 = 2 * ONE;
        let lower_left_corner = origin.sub(horizontal.div(half)).sub(vertical.div(half)).sub(
            Vec3::new(0, 0, focal),
        );
        Camera { origin, lower_left_corner, horizontal, vertical }
    }

    /// The ray from the eye through image-plane coordinate `(u, v)`, each in
    /// `[0, 1]` across the view.
    pub fn get_ray(self, u: i64, v: i64) -> (r: Ray)
        requires
            self.wf(),
            in_range(u as int),
            in_range(v as int),
        ensures
            r.origin == self.origin,
            r.direction == view_direction(self, u as int, v as int),
            r.wf(),
    {
        let d = self.lower_left_corner.add(self.horizontal.scale(u)).add(self.vertical.scale(v)).sub(
            self.origin,
        );
        Ray::new(self.origin, d)
    }
}

} // verus!
