use vstd::prelude::*;

verus! {

/// A 3-component integer vector. World coordinates are fixed-point values on
/// an integer grid; keeping them within `COORD_LIMIT` lets every intersection
/// determinant fit in 64 bits and every cross-multiplied comparison in 128.
#[derive(Clone, Copy, Debug, PartialEq, Eq, Structural)]
pub struct Vec3I {
    pub x: i64,
    pub y: i64,
    pub z: i64,
}

/// Coordinate magnitude admitted for scene geometry and ray origins.
pub const COORD_LIMIT: i64 = 524288;

pub open spec fn in_bounds(v: Vec3I, m: int) -> bool {
    -m <= v.x <= m && -m <= v.y <= m && -m <= v.z <= m
}

pub open spec fn axis_of(v: Vec3I, a: int) -> int {
    if a == 0 {
        v.x as int
    } else if a == 1 {
        v.y as int
    } else {
        v.z as int
    }
}

pub open spec fn spec_dot(a: Vec3I, b: Vec3I) -> int {
    a.x * b.x + a.y * b.y + a.z * b.z
}

/// Cross product, one coordinate at a time, over unbounded integers.
pub open spec fn cross_x(a: Vec3I, b: Vec3I) -> int {
    a.y * b.z - a.z * b.y
}

pub open spec fn cross_y(a: Vec3I, b: Vec3I) -> int {
    a.z * b.x - a.x * b.z
}

pub open spec fn cross_z(a: Vec3I, b: Vec3I) -> int {
    a.x * b.y - a.y * b.x
}

pub open spec fn spec_min3(a: Vec3I, b: Vec3I) -> Vec3I {
    Vec3I {
        x: if a.x <= b.x { a.x } else { b.x },
        y: if a.y <= b.y { a.y } else { b.y },
        z: if a.z <= b.z { a.z } else { b.z },
    }
}

pub open spec fn spec_max3(a: Vec3I, b: Vec3I) -> Vec3I {
    Vec3I {
        x: if a.x >= b.x { a.x } else { b.x },
        y: if a.y >= b.y { a.y } else { b.y },
        z: if a.z >= b.z { a.z } else { b.z },
    }
}

impl Vec3I {
    pub fn new(x: i64, y: i64, z: i64) -> (r: Vec3I)
        ensures
            r == (Vec3I { x, y, z }),
    {
        Vec3I { x, y, z }
    }

    /// The coordinate on the given axis (0, 1 or 2).
    pub fn axis(&self, a: usize) -> (r: i64)
        requires
            a < 3,
        ensures
            r == axis_of(*self, a as int),
    {
        if a == 0 {
            self.x
        } else if a == 1 {
            self.y
        } else {
            self.z
        }
    }

    /// Component-wise minimum.
    pub fn min(&self, o: &Vec3I) -> (r: Vec3I)
        ensures
            r == spec_min3(*self, *o),
    {
        Vec3I {
            x: if self.x <= o.x { self.x } else { o.x },
            y: if self.y <= o.y { self.y } else { o.y },
            z: if self.z <= o.z { self.z } else { o.z },
        }
    }

    /// Component-wise maximum.
    pub fn max(&self, o: &Vec3I) -> (r: Vec3I)
        ensures
            r == spec_max3(*self, *o),
    {
        Vec3I {
            x: if self.x >= o.x { self.x } else { o.x },
            y: if self.y >= o.y { self.y } else { o.y },
            z: if self.z >= o.z { self.z } else { o.z },
        }
    }
}


/// The squared length as unbounded integer.
pub open spec fn spec_len2(v: Vec3I) -> int {
    v.x * v.x + v.y * v.y + v.z * v.z
}

/// Rescale to unit length on the fixed-point grid (floor per component);
/// the zero vector stays zero.
pub open spec fn spec_normalize_unit(v: Vec3I) -> Vec3I {
    if spec_len2(v) == 0 {
        Vec3I { x: 0, y: 0, z: 0 }
    } else {
        let len = crate::math::spec_isqrt(spec_len2(v) as nat) as int;
        Vec3I {
            x: (v.x * 65536 / len) as i64,
            y: (v.y * 65536 / len) as i64,
            z: (v.z * 65536 / len) as i64,
        }
    }
}

/// Mirror reflection of a unit-scale direction about a unit-scale normal.
pub open spec fn spec_reflect_unit(d: Vec3I, n: Vec3I) -> Vec3I {
    let dp = d.x * n.x + d.y * n.y + d.z * n.z;
    Vec3I {
        x: (d.x - 2 * dp * (n.x as int) / 0x1_0000_0000) as i64,
        y: (d.y - 2 * dp * (n.y as int) / 0x1_0000_0000) as i64,
        z: (d.z - 2 * dp * (n.z as int) / 0x1_0000_0000) as i64,
    }
}

/// A point nudged a sixteenth-of-a-grid-step along a unit direction and
/// clamped into the coordinate range: where bounced rays start.
pub open spec fn spec_offset_point(p: Vec3I, d: Vec3I) -> Vec3I {
    Vec3I {
        x: crate::triangle::spec_clamp(p.x + d.x * 16 / 65536, COORD_LIMIT as int) as i64,
        y: crate::triangle::spec_clamp(p.y + d.y * 16 / 65536, COORD_LIMIT as int) as i64,
        z: crate::triangle::spec_clamp(p.z + d.z * 16 / 65536, COORD_LIMIT as int) as i64,
    }
}

/// Exact rescaling of a bounded vector to (fixed-point) unit length.
pub fn normalize_unit(v: &Vec3I) -> (r: Vec3I)
    requires
        in_bounds(*v, 0x80_0000),
    ensures
        r == spec_normalize_unit(*v),
        in_bounds(r, 65536),
{
    proof {
        crate::math::lemma_mul_bounds(v.x as int, v.x as int, 0x80_0000, 0x80_0000);
        crate::math::lemma_mul_bounds(v.y as int, v.y as int, 0x80_0000, 0x80_0000);
        crate::math::lemma_mul_bounds(v.z as int, v.z as int, 0x80_0000, 0x80_0000);
    }
    let l2 = (v.x as i128) * (v.x as i128) + (v.y as i128) * (v.y as i128) + (v.z as i128) * (
    v.z as i128);
    proof {
        assert(l2 >= 0) by (nonlinear_arith)
            requires
                l2 == v.x as int * v.x as int + v.y as int * v.y as int + v.z as int * v.z
                    as int,
        ;
    }
    if l2 == 0 {
        Vec3I { x: 0, y: 0, z: 0 }
    } else {
        let len = crate::math::isqrt_u64(l2 as u64);
        proof {
            crate::math::lemma_isqrt_unique((l2 as u64) as nat, len as nat);
            if len == 0 {
                assert((len as int + 1) * (len as int + 1) == 1) by (nonlinear_arith)
                    requires
                        len as int == 0,
                ;
            }
            assert(len >= 1);
            assert(-(len as int) <= v.x as int <= len as int && -(len as int) <= v.y as int
                <= len as int && -(len as int) <= v.z as int <= len as int)
                by (nonlinear_arith)
                requires
                    l2 == v.x as int * v.x as int + v.y as int * v.y as int + v.z as int * v.z
                        as int,
                    l2 < (len as int + 1) * (len as int + 1),
                    len as int >= 0,
            ;
            crate::math::lemma_div_bound(v.x as int * 65536, len as int, 65536);
            crate::math::lemma_div_bound(v.y as int * 65536, len as int, 65536);
            crate::math::lemma_div_bound(v.z as int * 65536, len as int, 65536);
        }
        let ux = crate::math::div_floor_i128((v.x as i128) * 65536, len as i128);
        let uy = crate::math::div_floor_i128((v.y as i128) * 65536, len as i128);
        let uz = crate::math::div_floor_i128((v.z as i128) * 65536, len as i128);
        Vec3I { x: ux as i64, y: uy as i64, z: uz as i64 }
    }
}

/// Rescaling a vector whose squared length lies between half and full grid
/// radius lands within a sliver (well under a tenth of a percent) of exact
/// unit length.
pub proof fn lemma_normalize_near_unit(v: Vec3I)
    requires
        in_bounds(v, 0x80_0000),
        0x4000_0000 <= spec_len2(v) <= 0x1_0000_0000,
    ensures
        65536 * 65536 - 393216 <= spec_len2(spec_normalize_unit(v)),
        spec_len2(spec_normalize_unit(v)) <= 65536 * 65536 + 655363,
{
    let l2 = spec_len2(v);
    crate::math::lemma_spec_isqrt_bounds(l2 as nat);
    let len = crate::math::spec_isqrt(l2 as nat) as int;
    assert(len >= 32768) by (nonlinear_arith)
        requires
            l2 >= 0x4000_0000,
            l2 < (len + 1) * (len + 1),
            len >= 0,
    ;
    assert(len <= 65536) by (nonlinear_arith)
        requires
            len * len <= l2,
            l2 <= 0x1_0000_0000,
            len >= 0,
    ;
    assert(-len <= v.x <= len && -len <= v.y <= len && -len <= v.z <= len) by (nonlinear_arith)
        requires
            v.x * v.x + v.y * v.y + v.z * v.z == l2,
            l2 < (len + 1) * (len + 1),
            len >= 0,
    ;
    let wx = v.x * 65536;
    let wy = v.y * 65536;
    let wz = v.z * 65536;
    let qx = wx / len;
    let qy = wy / len;
    let qz = wz / len;
    vstd::arithmetic::div_mod::lemma_fundamental_div_mod(wx, len);
    vstd::arithmetic::div_mod::lemma_mod_bound(wx, len);
    vstd::arithmetic::div_mod::lemma_fundamental_div_mod(wy, len);
    vstd::arithmetic::div_mod::lemma_mod_bound(wy, len);
    vstd::arithmetic::div_mod::lemma_fundamental_div_mod(wz, len);
    vstd::arithmetic::div_mod::lemma_mod_bound(wz, len);
    crate::math::lemma_div_bound(wx, len, 65536);
    crate::math::lemma_div_bound(wy, len, 65536);
    crate::math::lemma_div_bound(wz, len, 65536);
    let r = spec_normalize_unit(v);
    assert(r.x as int == qx && r.y as int == qy && r.z as int == qz);
    assert(wx * wx - 131072 * (len * len) <= (len * qx) * (len * qx) <= wx * wx + 131073 * (len
        * len)) by (nonlinear_arith)
        requires
            len >= 1,
            len * qx <= wx < len * qx + len,
            -(65536 * len) <= wx <= 65536 * len,
    ;
    assert(wy * wy - 131072 * (len * len) <= (len * qy) * (len * qy) <= wy * wy + 131073 * (len
        * len)) by (nonlinear_arith)
        requires
            len >= 1,
            len * qy <= wy < len * qy + len,
            -(65536 * len) <= wy <= 65536 * len,
    ;
    assert(wz * wz - 131072 * (len * len) <= (len * qz) * (len * qz) <= wz * wz + 131073 * (len
        * len)) by (nonlinear_arith)
        requires
            len >= 1,
            len * qz <= wz < len * qz + len,
            -(65536 * len) <= wz <= 65536 * len,
    ;
    assert(wx * wx + wy * wy + wz * wz == 65536 * 65536 * l2) by (nonlinear_arith)
        requires
            wx == v.x * 65536,
            wy == v.y * 65536,
            wz == v.z * 65536,
            l2 == v.x * v.x + v.y * v.y + v.z * v.z,
    ;
    let l2r = spec_len2(r);
    let xx = len * len;
    let ax = qx * qx;
    let ay = qy * qy;
    let az = qz * qz;
    assert((len * qx) * (len * qx) == xx * ax) by (nonlinear_arith)
        requires
            xx == len * len,
            ax == qx * qx,
    ;
    assert((len * qy) * (len * qy) == xx * ay) by (nonlinear_arith)
        requires
            xx == len * len,
            ay == qy * qy,
    ;
    assert((len * qz) * (len * qz) == xx * az) by (nonlinear_arith)
        requires
            xx == len * len,
            az == qz * qz,
    ;
    assert(xx * l2r == xx * ax + xx * ay + xx * az) by (nonlinear_arith)
        requires
            l2r == ax + ay + az,
    ;
    assert(len * len <= l2);
    assert(l2 <= xx + 2 * len) by (nonlinear_arith)
        requires
            l2 < (len + 1) * (len + 1),
            xx == len * len,
    ;
    assert(65536 * 65536 * l2 >= 65536 * 65536 * xx) by (nonlinear_arith)
        requires
            l2 >= xx,
    ;
    assert(65536 * 65536 * l2 <= 65536 * 65536 * xx + 2 * (65536 * 65536) * len)
        by (nonlinear_arith)
        requires
            l2 <= xx + 2 * len,
    ;
    assert(2 * (65536 * 65536) * len <= 262144 * xx) by (nonlinear_arith)
        requires
            len >= 32768,
            xx == len * len,
    ;
    assert(xx * l2r >= 65536 * 65536 * l2 - 393216 * xx);
    assert(4294574080 * xx <= xx * l2r);
    assert(xx * l2r <= 65536 * 65536 * l2 + 393219 * xx);
    assert(xx * l2r <= 65536 * 65536 * xx + 2 * (65536 * 65536) * len + 393219 * xx);
    assert(xx * l2r <= 4295622659 * xx);
    assert(65536 * 65536 - 393216 <= l2r && l2r <= 65536 * 65536 + 655363) by (nonlinear_arith)
        requires
            xx >= 1,
            4294574080 * xx <= xx * l2r,
            xx * l2r <= 4295622659 * xx,
    ;
}

/// Mirror reflection about a unit-scale normal.
pub fn reflect_unit(d: &Vec3I, n: &Vec3I) -> (r: Vec3I)
    requires
        in_bounds(*d, 65536),
        in_bounds(*n, 65536),
    ensures
        r == spec_reflect_unit(*d, *n),
        in_bounds(r, 0x70000),
{
    proof {
        crate::math::lemma_mul_bounds(d.x as int, n.x as int, 65536, 65536);
        crate::math::lemma_mul_bounds(d.y as int, n.y as int, 65536, 65536);
        crate::math::lemma_mul_bounds(d.z as int, n.z as int, 65536, 65536);
    }
    let dp = (d.x as i128) * (n.x as i128) + (d.y as i128) * (n.y as i128) + (d.z as i128) * (
    n.z as i128);
    proof {
        crate::math::lemma_mul_bounds(2 * dp as int, n.x as int, 0x6_0000_0000, 65536);
        crate::math::lemma_mul_bounds(2 * dp as int, n.y as int, 0x6_0000_0000, 65536);
        crate::math::lemma_mul_bounds(2 * dp as int, n.z as int, 0x6_0000_0000, 65536);
        crate::math::lemma_div_bound(2 * dp as int * (n.x as int), 0x1_0000_0000, 0x60000);
        crate::math::lemma_div_bound(2 * dp as int * (n.y as int), 0x1_0000_0000, 0x60000);
        crate::math::lemma_div_bound(2 * dp as int * (n.z as int), 0x1_0000_0000, 0x60000);
    }
    let rx = (d.x as i128) - crate::math::div_floor_i128(2 * dp * (n.x as i128), 0x1_0000_0000);
    let ry = (d.y as i128) - crate::math::div_floor_i128(2 * dp * (n.y as i128), 0x1_0000_0000);
    let rz = (d.z as i128) - crate::math::div_floor_i128(2 * dp * (n.z as i128), 0x1_0000_0000);
    Vec3I { x: rx as i64, y: ry as i64, z: rz as i64 }
}

/// Signed fixed-point dot product of two bounded vectors, exact in 128 bits.
pub fn dot_i128(a: &Vec3I, b: &Vec3I) -> (r: i128)
    requires
        in_bounds(*a, 0x80_0000),
        in_bounds(*b, 0x80_0000),
    ensures
        r == spec_dot(*a, *b),
{
    proof {
        crate::math::lemma_mul_bounds(a.x as int, b.x as int, 0x80_0000, 0x80_0000);
        crate::math::lemma_mul_bounds(a.y as int, b.y as int, 0x80_0000, 0x80_0000);
        crate::math::lemma_mul_bounds(a.z as int, b.z as int, 0x80_0000, 0x80_0000);
    }
    (a.x as i128) * (b.x as i128) + (a.y as i128) * (b.y as i128) + (a.z as i128) * (b.z as i128)
}

/// Nudge a point along a unit direction and clamp it back into bounds.
pub fn offset_point(p: &Vec3I, d: &Vec3I) -> (r: Vec3I)
    requires
        in_bounds(*p, COORD_LIMIT as int),
        in_bounds(*d, 65536),
    ensures
        r == spec_offset_point(*p, *d),
        in_bounds(r, COORD_LIMIT as int),
{
    proof {
        crate::math::lemma_div_bound(p.x as int * 0 + d.x as int * 16, 65536, 16);
        crate::math::lemma_div_bound(p.y as int * 0 + d.y as int * 16, 65536, 16);
        crate::math::lemma_div_bound(p.z as int * 0 + d.z as int * 16, 65536, 16);
        assert(p.x as int * 0 + d.x as int * 16 == d.x as int * 16);
        assert(p.y as int * 0 + d.y as int * 16 == d.y as int * 16);
        assert(p.z as int * 0 + d.z as int * 16 == d.z as int * 16);
    }
    let ox = clamp_c((p.x as i128) + crate::math::div_floor_i128((d.x as i128) * 16, 65536));
    let oy = clamp_c((p.y as i128) + crate::math::div_floor_i128((d.y as i128) * 16, 65536));
    let oz = clamp_c((p.z as i128) + crate::math::div_floor_i128((d.z as i128) * 16, 65536));
    Vec3I { x: ox, y: oy, z: oz }
}

fn clamp_c(x: i128) -> (r: i64)
    ensures
        r as int == crate::triangle::spec_clamp(x as int, COORD_LIMIT as int),
{
    if x > 524288 {
        524288
    } else if x < -524288 {
        -524288
    } else {
        x as i64
    }
}

} // verus!

