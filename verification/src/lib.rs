use vstd::prelude::*;

pub mod math;
pub mod vec;
pub mod ray;
pub mod aabb;
pub mod triangle;
pub mod bvh;
pub mod color;
pub mod texture;
pub mod sampler;
pub mod rng;
pub mod material;
pub mod camera;
pub mod scene;
pub mod render;
pub mod statistics;
pub mod progress_bar;
pub mod image;

verus! {

/// Output image width in pixels.
pub const IMAGE_WIDTH: usize = 1024;

/// Output image height in pixels.
pub const IMAGE_HEIGHT: usize = 1024;

/// Bounce cap for the path tracer.
pub const BOUNCES: usize = 6;

} // verus!
