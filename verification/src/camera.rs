use vstd::prelude::*;

use crate::math::Frac;
use crate::ray::{Ray, ray_wf};
use crate::triangle::spec_clamp;
use crate::vec::{Vec3I, in_bounds, normalize_unit, spec_normalize_unit, COORD_LIMIT};

verus! {

/// A pinhole camera on the fixed-point grid: image size in pixels, grid
/// units per pixel and the focal length (both precomputed from the field of
/// view), and a rigid transform given as three fixed-point rotation rows
/// plus a translation.
pub struct Camera {
    pub pixel_width: usize,
    pub pixel_height: usize,
    /// Grid units per pixel, fixed-point.
    pub meter_per_pixel: i64,
    /// Distance from the eye to the image plane, in grid units.
    pub focal_length: i64,
    pub row_x: Vec3I,
    pub row_y: Vec3I,
    pub row_z: Vec3I,
    pub translation: Vec3I,
}

pub open spec fn camera_wf(c: Camera) -> bool {
    &&& 1 <= c.pixel_width <= 65536
    &&& 1 <= c.pixel_height <= 65536
    &&& 0 <= c.meter_per_pixel <= 0x2000_0000
    &&& 0 <= c.focal_length <= COORD_LIMIT
    &&& in_bounds(c.row_x, 65536)
    &&& in_bounds(c.row_y, 65536)
    &&& in_bounds(c.row_z, 65536)
    &&& in_bounds(c.translation, COORD_LIMIT as int)
}

/// One camera-space direction component: pixel offset from the image
/// center times the pixel pitch, clamped into range.
pub open spec fn spec_plane(offset_fp: int, mpp: int) -> int {
    spec_clamp(offset_fp * mpp / 0x1_0000_0000, 0x20_0000)
}

/// The world-space ray through a (jittered) pixel position.
pub open spec fn spec_camera_ray(c: Camera, x: usize, y: usize, jx: i64, jy: i64) -> Ray {
    let px = x * 65536 + jx - c.pixel_width * 32768;
    let py = c.pixel_height * 32768 - y * 65536 + jy;
    let dcx = spec_plane(px, c.meter_per_pixel as int);
    let dcy = spec_plane(py, c.meter_per_pixel as int);
    let dcz = -c.focal_length as int;
    let wx = spec_clamp(
        (c.row_x.x * dcx + c.row_x.y * dcy + c.row_x.z * dcz) / 65536,
        0x20_0000,
    );
    let wy = spec_clamp(
        (c.row_y.x * dcx + c.row_y.y * dcy + c.row_y.z * dcz) / 65536,
        0x20_0000,
    );
    let wz = spec_clamp(
        (c.row_z.x * dcx + c.row_z.y * dcy + c.row_z.z * dcz) / 65536,
        0x20_0000,
    );
    Ray {
        origin: c.translation,
        direction: spec_normalize_unit(
            Vec3I { x: wx as i64, y: wy as i64, z: wz as i64 },
        ),
    }
}

impl Camera {
    pub fn new(
        pixel_width: usize,
        pixel_height: usize,
        meter_per_pixel: i64,
        focal_length: i64,
        row_x: Vec3I,
        row_y: Vec3I,
        row_z: Vec3I,
        translation: Vec3I,
    ) -> (c: Camera)
        requires
            1 <= pixel_width <= 65536,
            1 <= pixel_height <= 65536,
            0 <= meter_per_pixel <= 0x2000_0000,
            0 <= focal_length <= COORD_LIMIT,
            in_bounds(row_x, 65536),
            in_bounds(row_y, 65536),
            in_bounds(row_z, 65536),
            in_bounds(translation, COORD_LIMIT as int),
        ensures
            camera_wf(c),
            c == (Camera {
                pixel_width,
                pixel_height,
                meter_per_pixel,
                focal_length,
                row_x,
                row_y,
                row_z,
                translation,
            }),
    {
        Camera {
            pixel_width,
            pixel_height,
            meter_per_pixel,
            focal_length,
            row_x,
            row_y,
            row_z,
            translation,
        }
    }

    /// The ray through the given pixel with an explicit sub-pixel jitter.
    pub fn ray_from_with(&self, x: usize, y: usize, jx: i64, jy: i64) -> (r: Ray)
        requires
            camera_wf(*self),
            x <= 65536,
            y <= 65536,
            -32768 <= jx <= 32768,
            -32768 <= jy <= 32768,
        ensures
            r == spec_camera_ray(*self, x, y, jx, jy),
            ray_wf(r),
    {
        let px = (x as i128) * 65536 + (jx as i128) - (self.pixel_width as i128) * 32768;
        let py = (self.pixel_height as i128) * 32768 - (y as i128) * 65536 + (jy as i128);
        proof {
            crate::math::lemma_mul_bounds(px as int, self.meter_per_pixel as int, 0x2_0000_0000, 0x2000_0000);
            crate::math::lemma_mul_bounds(py as int, self.meter_per_pixel as int, 0x2_0000_0000, 0x2000_0000);
            crate::math::lemma_div_bound(
                px as int * self.meter_per_pixel as int,
                0x1_0000_0000,
                0x4000_0000,
            );
            crate::math::lemma_div_bound(
                py as int * self.meter_per_pixel as int,
                0x1_0000_0000,
                0x4000_0000,
            );
        }
        let dcx = clamp_dir(crate::math::div_floor_i128(
            px * (self.meter_per_pixel as i128),
            0x1_0000_0000,
        ));
        let dcy = clamp_dir(crate::math::div_floor_i128(
            py * (self.meter_per_pixel as i128),
            0x1_0000_0000,
        ));
        let dcz = -(self.focal_length as i128);
        let wx = rotate_row(&self.row_x, dcx, dcy, dcz);
        let wy = rotate_row(&self.row_y, dcx, dcy, dcz);
        let wz = rotate_row(&self.row_z, dcx, dcy, dcz);
        let w = Vec3I { x: wx, y: wy, z: wz };
        let direction = normalize_unit(&w);
        Ray { origin: self.translation, direction }
    }

    /// The ray through the given pixel with fresh sub-pixel jitter: some
    /// admissible jitter explains the result exactly.
    pub fn ray_from(&self, x: usize, y: usize) -> (r: Ray)
        requires
            camera_wf(*self),
            x <= 65536,
            y <= 65536,
        ensures
            exists|jx: i64, jy: i64|
                -32768 <= jx <= 32768 && -32768 <= jy <= 32768 && r == #[trigger] spec_camera_ray(
                    *self,
                    x,
                    y,
                    jx,
                    jy,
                ),
            ray_wf(r),
    {
        let jx = crate::rng::rand_i64(-32768, 32767);
        let jy = crate::rng::rand_i64(-32768, 32767);
        let r = self.ray_from_with(x, y, jx, jy);
        proof {
            assert(r == spec_camera_ray(*self, x, y, jx, jy));
        }
        r
    }
}

/// One row of the rotation applied to a camera-space direction, clamped.
fn rotate_row(row: &Vec3I, dcx: i64, dcy: i64, dcz: i128) -> (r: i64)
    requires
        in_bounds(*row, 65536),
        -0x20_0000 <= dcx <= 0x20_0000,
        -0x20_0000 <= dcy <= 0x20_0000,
        -0x20_0000 <= dcz <= 0x20_0000,
    ensures
        r as int == spec_clamp(
            (row.x * dcx + row.y * dcy + row.z * dcz) / 65536,
            0x20_0000,
        ),
{
    proof {
        crate::math::lemma_mul_bounds(row.x as int, dcx as int, 65536, 0x20_0000);
        crate::math::lemma_mul_bounds(row.y as int, dcy as int, 65536, 0x20_0000);
        crate::math::lemma_mul_bounds(row.z as int, dcz as int, 65536, 0x20_0000);
        crate::math::lemma_div_bound(
            row.x as int * dcx as int + row.y as int * dcy as int + row.z as int * dcz as int,
            65536,
            0x6000_0000,
        );
    }
    let s = (row.x as i128) * (dcx as i128) + (row.y as i128) * (dcy as i128) + (row.z as i128)
        * dcz;
    let q = crate::math::div_floor_i128(s, 65536);
    if q > 0x20_0000 {
        0x20_0000
    } else if q < -0x20_0000 {
        -0x20_0000
    } else {
        q as i64
    }
}

fn clamp_dir(x: i128) -> (r: i64)
    ensures
        r as int == spec_clamp(x as int, 0x20_0000),
{
    if x > 0x20_0000 {
        0x20_0000
    } else if x < -0x20_0000 {
        -0x20_0000
    } else {
        x as i64
    }
}

} // verus!
