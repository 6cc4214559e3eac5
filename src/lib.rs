//! A small path tracer over spheres, written in 16.16 fixed-point arithmetic.
//!
//! Scalars are `i64` values holding a real number times [`fixed::ONE`]; every
//! stored scalar saturates at `±LIMIT`, so no computation can overflow.
pub mod fixed;
pub mod vec3;
pub mod ray;
pub mod camera;
pub mod material;
pub mod hittable;
pub mod world;
pub mod direction;
pub mod sampling;
pub mod render;

pub use fixed::{ONE, LIMIT};
pub use vec3::{Vec3, Point, Color};
pub use ray::Ray;
pub use camera::Camera;
pub use direction::{EIGHTH, TURN};
pub use material::{Material, ScatterDraw, schlick};
pub use hittable::{HitRecord, Sphere};
pub use world::World;
pub use render::{Rgb, clamp, pixel_color, sample_coord, render, render_pixel_with, sky, T_EPSILON};
