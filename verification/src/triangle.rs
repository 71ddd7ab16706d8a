use vstd::prelude::*;

use crate::math::{Frac, frac_wf, lemma_mul_bounds};
use crate::vec::{Vec3I, in_bounds, COORD_LIMIT};
use crate::ray::{Ray, ray_wf};

verus! {

/// Magnitude admitted for stored and interpolated shading normals.
pub const NORMAL_LIMIT: i64 = 1048576;

/// Magnitude admitted for fixed-point texture coordinates.
pub const UV_LIMIT: i64 = 67108864;

/// A fixed-point texture coordinate pair.
#[derive(Clone, Copy, Debug, PartialEq, Eq, Structural)]
pub struct Uv {
    pub u: i64,
    pub v: i64,
}

/// A mesh vertex: grid position, fixed-point shading normal, optional
/// fixed-point texture coordinates.
#[derive(Clone, Copy, Debug, PartialEq, Eq, Structural)]
pub struct Vertex {
    pub position: Vec3I,
    pub normal: Vec3I,
    pub uv: Option<Uv>,
}

pub open spec fn uv_wf(uv: Option<Uv>) -> bool {
    match uv {
        Option::Some(c) => -UV_LIMIT <= c.u <= UV_LIMIT && -UV_LIMIT <= c.v <= UV_LIMIT,
        Option::None => true,
    }
}

pub open spec fn vertex_wf(v: Vertex) -> bool {
    &&& in_bounds(v.position, COORD_LIMIT as int)
    &&& in_bounds(v.normal, NORMAL_LIMIT as int)
    &&& uv_wf(v.uv)
}

/// A triangle: three vertices, three times the centroid (kept exact on the
/// integer grid, so no rounding enters the split decisions), and an optional
/// index into the scene's material table.
#[derive(Clone, Copy, Debug, PartialEq, Eq, Structural)]
pub struct Triangle {
    pub v1: Vertex,
    pub v2: Vertex,
    pub v3: Vertex,
    pub centroid3: Vec3I,
    pub material_index: Option<usize>,
}

pub open spec fn tri_wf(t: Triangle) -> bool {
    &&& vertex_wf(t.v1)
    &&& vertex_wf(t.v2)
    &&& vertex_wf(t.v3)
    &&& t.centroid3.x == t.v1.position.x + t.v2.position.x + t.v3.position.x
    &&& t.centroid3.y == t.v1.position.y + t.v2.position.y + t.v3.position.y
    &&& t.centroid3.z == t.v1.position.z + t.v2.position.z + t.v3.position.z
}

// Edge vectors, the vector from the first vertex to the ray origin, and the
// two cross products of the Moeller-Trumbore solve, one integer coordinate at
// a time.
pub open spec fn e1x(t: Triangle) -> int {
    t.v2.position.x - t.v1.position.x
}

pub open spec fn e1y(t: Triangle) -> int {
    t.v2.position.y - t.v1.position.y
}

pub open spec fn e1z(t: Triangle) -> int {
    t.v2.position.z - t.v1.position.z
}

pub open spec fn e2x(t: Triangle) -> int {
    t.v3.position.x - t.v1.position.x
}

pub open spec fn e2y(t: Triangle) -> int {
    t.v3.position.y - t.v1.position.y
}

pub open spec fn e2z(t: Triangle) -> int {
    t.v3.position.z - t.v1.position.z
}

pub open spec fn sx(t: Triangle, r: Ray) -> int {
    r.origin.x - t.v1.position.x
}

pub open spec fn sy(t: Triangle, r: Ray) -> int {
    r.origin.y - t.v1.position.y
}

pub open spec fn sz(t: Triangle, r: Ray) -> int {
    r.origin.z - t.v1.position.z
}

/// `direction x e2`.
pub open spec fn rcx(t: Triangle, r: Ray) -> int {
    r.direction.y * e2z(t) - r.direction.z * e2y(t)
}

pub open spec fn rcy(t: Triangle, r: Ray) -> int {
    r.direction.z * e2x(t) - r.direction.x * e2z(t)
}

pub open spec fn rcz(t: Triangle, r: Ray) -> int {
    r.direction.x * e2y(t) - r.direction.y * e2x(t)
}

/// `s x e1`.
pub open spec fn qx(t: Triangle, r: Ray) -> int {
    sy(t, r) * e1z(t) - sz(t, r) * e1y(t)
}

pub open spec fn qy(t: Triangle, r: Ray) -> int {
    sz(t, r) * e1x(t) - sx(t, r) * e1z(t)
}

pub open spec fn qz(t: Triangle, r: Ray) -> int {
    sx(t, r) * e1y(t) - sy(t, r) * e1x(t)
}

/// The determinant `e1 . (direction x e2)` of the intersection system.
pub open spec fn mt_det(t: Triangle, r: Ray) -> int {
    e1x(t) * rcx(t, r) + e1y(t) * rcy(t, r) + e1z(t) * rcz(t, r)
}

/// `u * det`: the first barycentric coordinate scaled by the determinant.
pub open spec fn mt_u(t: Triangle, r: Ray) -> int {
    sx(t, r) * rcx(t, r) + sy(t, r) * rcy(t, r) + sz(t, r) * rcz(t, r)
}

/// `v * det`.
pub open spec fn mt_v(t: Triangle, r: Ray) -> int {
    r.direction.x * qx(t, r) + r.direction.y * qy(t, r) + r.direction.z * qz(t, r)
}

/// `t * det`.
pub open spec fn mt_t(t: Triangle, r: Ray) -> int {
    e2x(t) * qx(t, r) + e2y(t) * qy(t, r) + e2z(t) * qz(t, r)
}

/// The exact ray/triangle intersection: `Some` exactly when the barycentric
/// solve lands inside the triangle strictly in front of the origin, with the
/// hit distance as an exact rational. A zero determinant (parallel or
/// degenerate geometry) is a miss.
pub open spec fn tri_hit(t: Triangle, r: Ray) -> Option<Frac> {
    let det = mt_det(t, r);
    if det == 0 {
        Option::None
    } else {
        let a = if det > 0 { det } else { -det };
        let un = if det > 0 { mt_u(t, r) } else { -mt_u(t, r) };
        let vn = if det > 0 { mt_v(t, r) } else { -mt_v(t, r) };
        let tn = if det > 0 { mt_t(t, r) } else { -mt_t(t, r) };
        if 0 <= un && un <= a && 0 <= vn && un + vn <= a && tn > 0 {
            Option::Some(Frac { num: tn as i64, den: a as i64 })
        } else {
            Option::None
        }
    }
}


/// Every determinant-like value of the solve stays within
/// `48 * COORD_LIMIT^3`, which fits in 64 bits.
pub proof fn lemma_mt_bounds(t: Triangle, r: Ray)
    requires
        tri_wf(t),
        ray_wf(r),
    ensures
        -0x6000_0000_0000_0000 <= mt_det(t, r) <= 0x6000_0000_0000_0000,
        -0x6000_0000_0000_0000 <= mt_u(t, r) <= 0x6000_0000_0000_0000,
        -0x6000_0000_0000_0000 <= mt_v(t, r) <= 0x6000_0000_0000_0000,
        -0x6000_0000_0000_0000 <= mt_t(t, r) <= 0x6000_0000_0000_0000,
{
    lemma_mul_bounds(r.direction.y as int, e2z(t), 524288, 1048576);
    lemma_mul_bounds(r.direction.z as int, e2y(t), 524288, 1048576);
    lemma_mul_bounds(r.direction.z as int, e2x(t), 524288, 1048576);
    lemma_mul_bounds(r.direction.x as int, e2z(t), 524288, 1048576);
    lemma_mul_bounds(r.direction.x as int, e2y(t), 524288, 1048576);
    lemma_mul_bounds(r.direction.y as int, e2x(t), 524288, 1048576);
    lemma_mul_bounds(sy(t, r), e1z(t), 1048576, 1048576);
    lemma_mul_bounds(sz(t, r), e1y(t), 1048576, 1048576);
    lemma_mul_bounds(sz(t, r), e1x(t), 1048576, 1048576);
    lemma_mul_bounds(sx(t, r), e1z(t), 1048576, 1048576);
    lemma_mul_bounds(sx(t, r), e1y(t), 1048576, 1048576);
    lemma_mul_bounds(sy(t, r), e1x(t), 1048576, 1048576);
    lemma_mul_bounds(e1x(t), rcx(t, r), 1048576, 0x200_0000_0000);
    lemma_mul_bounds(e1y(t), rcy(t, r), 1048576, 0x200_0000_0000);
    lemma_mul_bounds(e1z(t), rcz(t, r), 1048576, 0x200_0000_0000);
    lemma_mul_bounds(sx(t, r), rcx(t, r), 1048576, 0x200_0000_0000);
    lemma_mul_bounds(sy(t, r), rcy(t, r), 1048576, 0x200_0000_0000);
    lemma_mul_bounds(sz(t, r), rcz(t, r), 1048576, 0x200_0000_0000);
    lemma_mul_bounds(r.direction.x as int, qx(t, r), 524288, 0x200_0000_0000);
    lemma_mul_bounds(r.direction.y as int, qy(t, r), 524288, 0x200_0000_0000);
    lemma_mul_bounds(r.direction.z as int, qz(t, r), 524288, 0x200_0000_0000);
    lemma_mul_bounds(e2x(t), qx(t, r), 1048576, 0x200_0000_0000);
    lemma_mul_bounds(e2y(t), qy(t, r), 1048576, 0x200_0000_0000);
    lemma_mul_bounds(e2z(t), qz(t, r), 1048576, 0x200_0000_0000);
}

/// Cramer's rule for the intersection system, stated on the first component;
/// the other components follow by rotating every triple. Decomposed through
/// the vector triple product: `det*s - un*a` and `vn*b - tn*d` both equal
/// `(d x b) x (s x a)`.
#[verifier::rlimit(50)]
proof fn lemma_cramer(
    s1: int, s2: int, s3: int,
    d1: int, d2: int, d3: int,
    a1: int, a2: int, a3: int,
    b1: int, b2: int, b3: int,
)
    ensures
        (a1 * (d2 * b3 - d3 * b2) + a2 * (d3 * b1 - d1 * b3) + a3 * (d1 * b2 - d2 * b1)) * s1
            == (s1 * (d2 * b3 - d3 * b2) + s2 * (d3 * b1 - d1 * b3) + s3 * (d1 * b2 - d2 * b1))
            * a1 + (d1 * (s2 * a3 - s3 * a2) + d2 * (s3 * a1 - s1 * a3) + d3 * (s1 * a2 - s2
            * a1)) * b1 - (b1 * (s2 * a3 - s3 * a2) + b2 * (s3 * a1 - s1 * a3) + b3 * (s1 * a2
            - s2 * a1)) * d1,
{
    let m1 = d2 * b3 - d3 * b2;
    let m2 = d3 * b1 - d1 * b3;
    let m3 = d1 * b2 - d2 * b1;
    let p1 = s2 * a3 - s3 * a2;
    let p2 = s3 * a1 - s1 * a3;
    let p3 = s1 * a2 - s2 * a1;
    let det = a1 * m1 + a2 * m2 + a3 * m3;
    let un = s1 * m1 + s2 * m2 + s3 * m3;
    let vn = d1 * p1 + d2 * p2 + d3 * p3;
    let tn = b1 * p1 + b2 * p2 + b3 * p3;
    // det*s1 minus un*a1: expand, cancel the m1 terms, regroup.
    assert(det * s1 == a1 * m1 * s1 + a2 * m2 * s1 + a3 * m3 * s1) by (nonlinear_arith)
        requires det == a1 * m1 + a2 * m2 + a3 * m3,
    ;
    assert(un * a1 == s1 * m1 * a1 + s2 * m2 * a1 + s3 * m3 * a1) by (nonlinear_arith)
        requires un == s1 * m1 + s2 * m2 + s3 * m3,
    ;
    assert(a1 * m1 * s1 == s1 * m1 * a1) by (nonlinear_arith);
    assert(a2 * m2 * s1 == m2 * (s1 * a2)) by (nonlinear_arith);
    assert(s2 * m2 * a1 == m2 * (s2 * a1)) by (nonlinear_arith);
    assert(a3 * m3 * s1 == m3 * (s1 * a3)) by (nonlinear_arith);
    assert(s3 * m3 * a1 == m3 * (s3 * a1)) by (nonlinear_arith);
    assert(m2 * p3 == m2 * (s1 * a2) - m2 * (s2 * a1)) by (nonlinear_arith)
        requires p3 == s1 * a2 - s2 * a1,
    ;
    assert(m3 * p2 == m3 * (s3 * a1) - m3 * (s1 * a3)) by (nonlinear_arith)
        requires p2 == s3 * a1 - s1 * a3,
    ;
    assert(det * s1 - un * a1 == m2 * p3 - m3 * p2);
    // vn*b1 minus tn*d1: the same shape on the other pair.
    assert(vn * b1 == d1 * p1 * b1 + d2 * p2 * b1 + d3 * p3 * b1) by (nonlinear_arith)
        requires vn == d1 * p1 + d2 * p2 + d3 * p3,
    ;
    assert(tn * d1 == b1 * p1 * d1 + b2 * p2 * d1 + b3 * p3 * d1) by (nonlinear_arith)
        requires tn == b1 * p1 + b2 * p2 + b3 * p3,
    ;
    assert(d1 * p1 * b1 == b1 * p1 * d1) by (nonlinear_arith);
    assert(d3 * p3 * b1 == (d3 * b1) * p3) by (nonlinear_arith);
    assert(b3 * p3 * d1 == (d1 * b3) * p3) by (nonlinear_arith);
    assert(d2 * p2 * b1 == (d2 * b1) * p2) by (nonlinear_arith);
    assert(b2 * p2 * d1 == (d1 * b2) * p2) by (nonlinear_arith);
    assert(m2 * p3 == (d3 * b1) * p3 - (d1 * b3) * p3) by (nonlinear_arith)
        requires m2 == d3 * b1 - d1 * b3,
    ;
    assert(m3 * p2 == (d1 * b2) * p2 - (d2 * b1) * p2) by (nonlinear_arith)
        requires m3 == d1 * b2 - d2 * b1,
    ;
    assert(vn * b1 - tn * d1 == m2 * p3 - m3 * p2);
}

/// One component of the convexity argument: if the hit parameter solves the
/// system and the three vertex coordinates lie between `mn` and `mx`, the ray
/// point's coordinate (scaled by the positive determinant) does too.
proof fn lemma_axis_between(
    det: int, un: int, vn: int, tn: int,
    a: int, unp: int, vnp: int, tnp: int,
    v1: int, v2: int, v3: int,
    ox: int, dx: int,
    mn: int, mx: int,
)
    requires
        det * (ox - v1) == un * (v2 - v1) + vn * (v3 - v1) - tn * dx,
        (det > 0 && a == det && unp == un && vnp == vn && tnp == tn) || (det < 0 && a == -det
            && unp == -un && vnp == -vn && tnp == -tn),
        mn <= v1 <= mx,
        mn <= v2 <= mx,
        mn <= v3 <= mx,
        0 <= unp,
        0 <= vnp,
        unp + vnp <= a,
    ensures
        a * mn <= a * ox + tnp * dx <= a * mx,
{
    if det > 0 {
        assert(a * (ox - v1) == unp * (v2 - v1) + vnp * (v3 - v1) - tnp * dx);
    } else {
        assert(a * (ox - v1) == unp * (v2 - v1) + vnp * (v3 - v1) - tnp * dx)
            by (nonlinear_arith)
            requires
                det * (ox - v1) == un * (v2 - v1) + vn * (v3 - v1) - tn * dx,
                a == -det,
                unp == -un,
                vnp == -vn,
                tnp == -tn,
        ;
    }
    assert(a * ox + tnp * dx == (a - unp - vnp) * v1 + unp * v2 + vnp * v3) by (nonlinear_arith)
        requires
            a * (ox - v1) == unp * (v2 - v1) + vnp * (v3 - v1) - tnp * dx,
    ;
    assert((a - unp - vnp) * v1 + unp * v2 + vnp * v3 >= a * mn) by (nonlinear_arith)
        requires
            0 <= unp,
            0 <= vnp,
            unp + vnp <= a,
            mn <= v1,
            mn <= v2,
            mn <= v3,
    ;
    assert((a - unp - vnp) * v1 + unp * v2 + vnp * v3 <= a * mx) by (nonlinear_arith)
        requires
            0 <= unp,
            0 <= vnp,
            unp + vnp <= a,
            v1 <= mx,
            v2 <= mx,
            v3 <= mx,
    ;
}

/// A successful hit's rational distance is well formed and strictly
/// positive.
pub proof fn lemma_tri_hit_wf(t: Triangle, r: Ray)
    requires
        tri_wf(t),
        ray_wf(r),
    ensures
        tri_hit(t, r) is Some ==> frac_wf(tri_hit(t, r)->Some_0) && tri_hit(t, r)->Some_0.num
            > 0,
{
    lemma_mt_bounds(t, r);
}

/// The hit point of a successful intersection lies in every box that
/// contains the triangle's three vertices.
pub proof fn lemma_tri_hit_in_box(b: crate::aabb::Aabb, t: Triangle, r: Ray, f: Frac)
    requires
        crate::aabb::aabb_wf(b),
        tri_wf(t),
        ray_wf(r),
        crate::aabb::point_in_box(b, t.v1.position),
        crate::aabb::point_in_box(b, t.v2.position),
        crate::aabb::point_in_box(b, t.v3.position),
        tri_hit(t, r) == Option::Some(f),
    ensures
        crate::aabb::t_in_box(b, r, f),
        frac_wf(f),
        f.num > 0,
{
    lemma_mt_bounds(t, r);
    let det = mt_det(t, r);
    let un = mt_u(t, r);
    let vn = mt_v(t, r);
    let tn = mt_t(t, r);
    let a = if det > 0 { det } else { -det };
    let unp = if det > 0 { un } else { -un };
    let vnp = if det > 0 { vn } else { -vn };
    let tnp = if det > 0 { tn } else { -tn };
    assert(f.num == tnp && f.den == a);
    let s1 = sx(t, r);
    let s2 = sy(t, r);
    let s3 = sz(t, r);
    let d1 = r.direction.x as int;
    let d2 = r.direction.y as int;
    let d3 = r.direction.z as int;
    let a1 = e1x(t);
    let a2 = e1y(t);
    let a3 = e1z(t);
    let b1 = e2x(t);
    let b2 = e2y(t);
    let b3 = e2z(t);
    assert forall|i: int| 0 <= i < 3 implies {
        f.den * #[trigger] crate::vec::axis_of(b.minimum, i)
            <= f.den * crate::vec::axis_of(r.origin, i) + f.num * crate::vec::axis_of(
            r.direction,
            i,
        ) <= f.den * crate::vec::axis_of(b.maximum, i)
    } by {
        if i == 0 {
            lemma_cramer(s1, s2, s3, d1, d2, d3, a1, a2, a3, b1, b2, b3);
            assert(det * s1 == un * a1 + vn * b1 - tn * d1);
            assert(crate::vec::axis_of(b.minimum, 0) <= crate::vec::axis_of(t.v1.position, 0)
                <= crate::vec::axis_of(b.maximum, 0));
            assert(crate::vec::axis_of(b.minimum, 0) <= crate::vec::axis_of(t.v2.position, 0)
                <= crate::vec::axis_of(b.maximum, 0));
            assert(crate::vec::axis_of(b.minimum, 0) <= crate::vec::axis_of(t.v3.position, 0)
                <= crate::vec::axis_of(b.maximum, 0));
            lemma_axis_between(
                det, un, vn, tn, a, unp, vnp, tnp,
                t.v1.position.x as int, t.v2.position.x as int, t.v3.position.x as int,
                r.origin.x as int, d1,
                b.minimum.x as int, b.maximum.x as int,
            );
        } else if i == 1 {
            lemma_cramer(s2, s3, s1, d2, d3, d1, a2, a3, a1, b2, b3, b1);
            assert(det * s2 == un * a2 + vn * b2 - tn * d2);
            assert(crate::vec::axis_of(b.minimum, 1) <= crate::vec::axis_of(t.v1.position, 1)
                <= crate::vec::axis_of(b.maximum, 1));
            assert(crate::vec::axis_of(b.minimum, 1) <= crate::vec::axis_of(t.v2.position, 1)
                <= crate::vec::axis_of(b.maximum, 1));
            assert(crate::vec::axis_of(b.minimum, 1) <= crate::vec::axis_of(t.v3.position, 1)
                <= crate::vec::axis_of(b.maximum, 1));
            lemma_axis_between(
                det, un, vn, tn, a, unp, vnp, tnp,
                t.v1.position.y as int, t.v2.position.y as int, t.v3.position.y as int,
                r.origin.y as int, d2,
                b.minimum.y as int, b.maximum.y as int,
            );
        } else {
            lemma_cramer(s3, s1, s2, d3, d1, d2, a3, a1, a2, b3, b1, b2);
            assert(det * s3 == un * a3 + vn * b3 - tn * d3);
            assert(crate::vec::axis_of(b.minimum, 2) <= crate::vec::axis_of(t.v1.position, 2)
                <= crate::vec::axis_of(b.maximum, 2));
            assert(crate::vec::axis_of(b.minimum, 2) <= crate::vec::axis_of(t.v2.position, 2)
                <= crate::vec::axis_of(b.maximum, 2));
            assert(crate::vec::axis_of(b.minimum, 2) <= crate::vec::axis_of(t.v3.position, 2)
                <= crate::vec::axis_of(b.maximum, 2));
            lemma_axis_between(
                det, un, vn, tn, a, unp, vnp, tnp,
                t.v1.position.z as int, t.v2.position.z as int, t.v3.position.z as int,
                r.origin.z as int, d3,
                b.minimum.z as int, b.maximum.z as int,
            );
        }
    }
}


/// Clamp to the symmetric range `[-m, m]`.
pub open spec fn spec_clamp(x: int, m: int) -> int {
    if x > m {
        m
    } else if x < -m {
        -m
    } else {
        x
    }
}

/// The positive determinant of a successful hit.
pub open spec fn sh_a(t: Triangle, r: Ray) -> int {
    let det = mt_det(t, r);
    if det > 0 {
        det
    } else {
        -det
    }
}

pub open spec fn sh_un(t: Triangle, r: Ray) -> int {
    if mt_det(t, r) > 0 {
        mt_u(t, r)
    } else {
        -mt_u(t, r)
    }
}

pub open spec fn sh_vn(t: Triangle, r: Ray) -> int {
    if mt_det(t, r) > 0 {
        mt_v(t, r)
    } else {
        -mt_v(t, r)
    }
}

/// Fixed-point barycentric weights of the hit: the second and third vertex
/// weights floor-divided onto the fixed-point grid, the first what is left.
pub open spec fn sh_wu(t: Triangle, r: Ray) -> int {
    sh_un(t, r) * 65536 / sh_a(t, r)
}

pub open spec fn sh_wv(t: Triangle, r: Ray) -> int {
    sh_vn(t, r) * 65536 / sh_a(t, r)
}

pub open spec fn sh_ww(t: Triangle, r: Ray) -> int {
    65536 - sh_wu(t, r) - sh_wv(t, r)
}

pub open spec fn sh_nraw_x(t: Triangle, r: Ray) -> int {
    (sh_ww(t, r) * t.v1.normal.x + sh_wu(t, r) * t.v2.normal.x + sh_wv(t, r) * t.v3.normal.x)
        / 65536
}

pub open spec fn sh_nraw_y(t: Triangle, r: Ray) -> int {
    (sh_ww(t, r) * t.v1.normal.y + sh_wu(t, r) * t.v2.normal.y + sh_wv(t, r) * t.v3.normal.y)
        / 65536
}

pub open spec fn sh_nraw_z(t: Triangle, r: Ray) -> int {
    (sh_ww(t, r) * t.v1.normal.z + sh_wu(t, r) * t.v2.normal.z + sh_wv(t, r) * t.v3.normal.z)
        / 65536
}

pub open spec fn sh_len2(t: Triangle, r: Ray) -> int {
    sh_nraw_x(t, r) * sh_nraw_x(t, r) + sh_nraw_y(t, r) * sh_nraw_y(t, r) + sh_nraw_z(t, r)
        * sh_nraw_z(t, r)
}

/// The interpolated normal rescaled to unit length on the fixed-point grid;
/// the zero vector when the interpolation degenerates to zero.
pub open spec fn sh_nunit_x(t: Triangle, r: Ray) -> int {
    if sh_len2(t, r) == 0 {
        0
    } else {
        sh_nraw_x(t, r) * 65536 / (crate::math::spec_isqrt(sh_len2(t, r) as nat) as int)
    }
}

pub open spec fn sh_nunit_y(t: Triangle, r: Ray) -> int {
    if sh_len2(t, r) == 0 {
        0
    } else {
        sh_nraw_y(t, r) * 65536 / (crate::math::spec_isqrt(sh_len2(t, r) as nat) as int)
    }
}

pub open spec fn sh_nunit_z(t: Triangle, r: Ray) -> int {
    if sh_len2(t, r) == 0 {
        0
    } else {
        sh_nraw_z(t, r) * 65536 / (crate::math::spec_isqrt(sh_len2(t, r) as nat) as int)
    }
}

/// A back-face hit: the interpolated normal points along the ray.
pub open spec fn sh_backface(t: Triangle, r: Ray) -> bool {
    r.direction.x * sh_nunit_x(t, r) + r.direction.y * sh_nunit_y(t, r) + r.direction.z
        * sh_nunit_z(t, r) > 0
}

pub open spec fn sh_point_x(t: Triangle, r: Ray) -> int {
    let f = tri_hit(t, r)->Some_0;
    spec_clamp((f.den * r.origin.x + f.num * r.direction.x) / (f.den as int), COORD_LIMIT as int)
}

pub open spec fn sh_point_y(t: Triangle, r: Ray) -> int {
    let f = tri_hit(t, r)->Some_0;
    spec_clamp((f.den * r.origin.y + f.num * r.direction.y) / (f.den as int), COORD_LIMIT as int)
}

pub open spec fn sh_point_z(t: Triangle, r: Ray) -> int {
    let f = tri_hit(t, r)->Some_0;
    spec_clamp((f.den * r.origin.z + f.num * r.direction.z) / (f.den as int), COORD_LIMIT as int)
}

pub open spec fn sh_uv(t: Triangle, r: Ray) -> Option<Uv> {
    match (t.v1.uv, t.v2.uv, t.v3.uv) {
        (Option::Some(c1), Option::Some(c2), Option::Some(c3)) => Option::Some(
            Uv {
                u: ((sh_ww(t, r) * c1.u + sh_wu(t, r) * c2.u + sh_wv(t, r) * c3.u) / 65536) as i64,
                v: ((sh_ww(t, r) * c1.v + sh_wu(t, r) * c2.v + sh_wv(t, r) * c3.v) / 65536) as i64,
            },
        ),
        _ => Option::None,
    }
}

/// What a successful intersection reports: the exact hit distance, the hit
/// point snapped to the grid, the interpolated (and possibly flipped)
/// shading normal, interpolated texture coordinates, whether the front face
/// was struck, and the triangle's material.
#[derive(Clone, Copy, Debug, PartialEq, Eq, Structural)]
pub struct HitRecord {
    pub t: Frac,
    pub point: Vec3I,
    pub normal: Vec3I,
    pub uv: Option<Uv>,
    pub front_face: bool,
    pub material_index: Option<usize>,
}

/// The full record of a hit, as a function of the triangle and the ray.
pub open spec fn spec_hit_record(t: Triangle, r: Ray) -> HitRecord {
    let fx = if sh_backface(t, r) {
        -sh_nunit_x(t, r)
    } else {
        sh_nunit_x(t, r)
    };
    let fy = if sh_backface(t, r) {
        -sh_nunit_y(t, r)
    } else {
        sh_nunit_y(t, r)
    };
    let fz = if sh_backface(t, r) {
        -sh_nunit_z(t, r)
    } else {
        sh_nunit_z(t, r)
    };
    HitRecord {
        t: tri_hit(t, r)->Some_0,
        point: Vec3I {
            x: sh_point_x(t, r) as i64,
            y: sh_point_y(t, r) as i64,
            z: sh_point_z(t, r) as i64,
        },
        normal: Vec3I { x: fx as i64, y: fy as i64, z: fz as i64 },
        uv: sh_uv(t, r),
        front_face: !sh_backface(t, r),
        material_index: t.material_index,
    }
}

pub open spec fn hit_record_wf(h: HitRecord) -> bool {
    &&& frac_wf(h.t)
    &&& h.t.num > 0
    &&& in_bounds(h.point, COORD_LIMIT as int)
    &&& in_bounds(h.normal, 65536)
}

impl Vertex {
    pub fn new(position: Vec3I, normal: Vec3I, uv: Option<Uv>) -> (r: Vertex)
        ensures
            r == (Vertex { position, normal, uv }),
    {
        Vertex { position, normal, uv }
    }
}

impl Triangle {
    /// Builds a triangle and precomputes (three times) its centroid.
    pub fn new(v1: Vertex, v2: Vertex, v3: Vertex, material_index: Option<usize>) -> (r: Triangle)
        requires
            vertex_wf(v1),
            vertex_wf(v2),
            vertex_wf(v3),
        ensures
            tri_wf(r),
            r.v1 == v1 && r.v2 == v2 && r.v3 == v3,
            r.material_index == material_index,
    {
        let centroid3 = Vec3I {
            x: v1.position.x + v2.position.x + v3.position.x,
            y: v1.position.y + v2.position.y + v3.position.y,
            z: v1.position.z + v2.position.z + v3.position.z,
        };
        Triangle { v1, v2, v3, centroid3, material_index }
    }

    /// Moeller-Trumbore intersection, carried out exactly on the integer
    /// grid: the returned rational is the precise hit distance.
    pub fn hit(&self, ray: &Ray) -> (r: Option<Frac>)
        requires
            tri_wf(*self),
            ray_wf(*ray),
        ensures
            r == tri_hit(*self, *ray),
            r is Some ==> frac_wf(r->Some_0) && r->Some_0.num > 0,
    {
        let p1 = &self.v1.position;
        let p2 = &self.v2.position;
        let p3 = &self.v3.position;
        let d = &ray.direction;
        let o = &ray.origin;

        let e1_x = p2.x - p1.x;
        let e1_y = p2.y - p1.y;
        let e1_z = p2.z - p1.z;
        let e2_x = p3.x - p1.x;
        let e2_y = p3.y - p1.y;
        let e2_z = p3.z - p1.z;
        let s_x = o.x - p1.x;
        let s_y = o.y - p1.y;
        let s_z = o.z - p1.z;

        proof {
            lemma_mul_bounds(d.y as int, e2_z as int, 524288, 1048576);
            lemma_mul_bounds(d.z as int, e2_y as int, 524288, 1048576);
            lemma_mul_bounds(d.z as int, e2_x as int, 524288, 1048576);
            lemma_mul_bounds(d.x as int, e2_z as int, 524288, 1048576);
            lemma_mul_bounds(d.x as int, e2_y as int, 524288, 1048576);
            lemma_mul_bounds(d.y as int, e2_x as int, 524288, 1048576);
        }
        let rc_x = (d.y as i128) * (e2_z as i128) - (d.z as i128) * (e2_y as i128);
        let rc_y = (d.z as i128) * (e2_x as i128) - (d.x as i128) * (e2_z as i128);
        let rc_z = (d.x as i128) * (e2_y as i128) - (d.y as i128) * (e2_x as i128);

        proof {
            lemma_mul_bounds(e1_x as int, rc_x as int, 1048576, 0x200_0000_0000);
            lemma_mul_bounds(e1_y as int, rc_y as int, 1048576, 0x200_0000_0000);
            lemma_mul_bounds(e1_z as int, rc_z as int, 1048576, 0x200_0000_0000);
            lemma_mul_bounds(s_x as int, rc_x as int, 1048576, 0x200_0000_0000);
            lemma_mul_bounds(s_y as int, rc_y as int, 1048576, 0x200_0000_0000);
            lemma_mul_bounds(s_z as int, rc_z as int, 1048576, 0x200_0000_0000);
        }
        let det = (e1_x as i128) * rc_x + (e1_y as i128) * rc_y + (e1_z as i128) * rc_z;
        assert(det == mt_det(*self, *ray));
        if det == 0 {
            return Option::None;
        }

        let u = (s_x as i128) * rc_x + (s_y as i128) * rc_y + (s_z as i128) * rc_z;
        assert(u == mt_u(*self, *ray));

        proof {
            lemma_mul_bounds(s_y as int, e1_z as int, 1048576, 1048576);
            lemma_mul_bounds(s_z as int, e1_y as int, 1048576, 1048576);
            lemma_mul_bounds(s_z as int, e1_x as int, 1048576, 1048576);
            lemma_mul_bounds(s_x as int, e1_z as int, 1048576, 1048576);
            lemma_mul_bounds(s_x as int, e1_y as int, 1048576, 1048576);
            lemma_mul_bounds(s_y as int, e1_x as int, 1048576, 1048576);
        }
        let q_x = (s_y as i128) * (e1_z as i128) - (s_z as i128) * (e1_y as i128);
        let q_y = (s_z as i128) * (e1_x as i128) - (s_x as i128) * (e1_z as i128);
        let q_z = (s_x as i128) * (e1_y as i128) - (s_y as i128) * (e1_x as i128);

        proof {
            lemma_mul_bounds(d.x as int, q_x as int, 524288, 0x200_0000_0000);
            lemma_mul_bounds(d.y as int, q_y as int, 524288, 0x200_0000_0000);
            lemma_mul_bounds(d.z as int, q_z as int, 524288, 0x200_0000_0000);
            lemma_mul_bounds(e2_x as int, q_x as int, 1048576, 0x200_0000_0000);
            lemma_mul_bounds(e2_y as int, q_y as int, 1048576, 0x200_0000_0000);
            lemma_mul_bounds(e2_z as int, q_z as int, 1048576, 0x200_0000_0000);
        }
        let v = (d.x as i128) * q_x + (d.y as i128) * q_y + (d.z as i128) * q_z;
        assert(v == mt_v(*self, *ray));
        let tt = (e2_x as i128) * q_x + (e2_y as i128) * q_y + (e2_z as i128) * q_z;
        assert(tt == mt_t(*self, *ray));

        let (a, un, vn, tn) = if det > 0 {
            (det, u, v, tt)
        } else {
            (-det, -u, -v, -tt)
        };
        if 0 <= un && un <= a && 0 <= vn && un + vn <= a && tn > 0 {
            Option::Some(Frac { num: tn as i64, den: a as i64 })
        } else {
            Option::None
        }
    }

    /// Builds the full hit record for an accepted intersection: fixed-point
    /// barycentric interpolation of normal and texture coordinates, the
    /// normal rescaled to unit length and flipped on a back-face hit, and
    /// the hit point snapped (and clamped) to the coordinate grid.
    pub fn create_record(&self, ray: &Ray, t: &Frac) -> (r: HitRecord)
        requires
            tri_wf(*self),
            ray_wf(*ray),
            tri_hit(*self, *ray) == Option::Some(*t),
        ensures
            r == spec_hit_record(*self, *ray),
            hit_record_wf(r),
            r.t == *t,
    {
        let p1 = &self.v1.position;
        let p2 = &self.v2.position;
        let p3 = &self.v3.position;
        let d = &ray.direction;
        let o = &ray.origin;

        let e1_x = p2.x - p1.x;
        let e1_y = p2.y - p1.y;
        let e1_z = p2.z - p1.z;
        let e2_x = p3.x - p1.x;
        let e2_y = p3.y - p1.y;
        let e2_z = p3.z - p1.z;
        let s_x = o.x - p1.x;
        let s_y = o.y - p1.y;
        let s_z = o.z - p1.z;

        proof {
            lemma_mul_bounds(d.y as int, e2_z as int, 524288, 1048576);
            lemma_mul_bounds(d.z as int, e2_y as int, 524288, 1048576);
            lemma_mul_bounds(d.z as int, e2_x as int, 524288, 1048576);
            lemma_mul_bounds(d.x as int, e2_z as int, 524288, 1048576);
            lemma_mul_bounds(d.x as int, e2_y as int, 524288, 1048576);
            lemma_mul_bounds(d.y as int, e2_x as int, 524288, 1048576);
        }
        let rc_x = (d.y as i128) * (e2_z as i128) - (d.z as i128) * (e2_y as i128);
        let rc_y = (d.z as i128) * (e2_x as i128) - (d.x as i128) * (e2_z as i128);
        let rc_z = (d.x as i128) * (e2_y as i128) - (d.y as i128) * (e2_x as i128);
        proof {
            lemma_mul_bounds(e1_x as int, rc_x as int, 1048576, 0x200_0000_0000);
            lemma_mul_bounds(e1_y as int, rc_y as int, 1048576, 0x200_0000_0000);
            lemma_mul_bounds(e1_z as int, rc_z as int, 1048576, 0x200_0000_0000);
            lemma_mul_bounds(s_x as int, rc_x as int, 1048576, 0x200_0000_0000);
            lemma_mul_bounds(s_y as int, rc_y as int, 1048576, 0x200_0000_0000);
            lemma_mul_bounds(s_z as int, rc_z as int, 1048576, 0x200_0000_0000);
        }
        let det = (e1_x as i128) * rc_x + (e1_y as i128) * rc_y + (e1_z as i128) * rc_z;
        let u = (s_x as i128) * rc_x + (s_y as i128) * rc_y + (s_z as i128) * rc_z;
        proof {
            lemma_mul_bounds(s_y as int, e1_z as int, 1048576, 1048576);
            lemma_mul_bounds(s_z as int, e1_y as int, 1048576, 1048576);
            lemma_mul_bounds(s_z as int, e1_x as int, 1048576, 1048576);
            lemma_mul_bounds(s_x as int, e1_z as int, 1048576, 1048576);
            lemma_mul_bounds(s_x as int, e1_y as int, 1048576, 1048576);
            lemma_mul_bounds(s_y as int, e1_x as int, 1048576, 1048576);
        }
        let q_x = (s_y as i128) * (e1_z as i128) - (s_z as i128) * (e1_y as i128);
        let q_y = (s_z as i128) * (e1_x as i128) - (s_x as i128) * (e1_z as i128);
        let q_z = (s_x as i128) * (e1_y as i128) - (s_y as i128) * (e1_x as i128);
        proof {
            lemma_mul_bounds(d.x as int, q_x as int, 524288, 0x200_0000_0000);
            lemma_mul_bounds(d.y as int, q_y as int, 524288, 0x200_0000_0000);
            lemma_mul_bounds(d.z as int, q_z as int, 524288, 0x200_0000_0000);
        }
        let v = (d.x as i128) * q_x + (d.y as i128) * q_y + (d.z as i128) * q_z;
        assert(det == mt_det(*self, *ray));
        assert(u == mt_u(*self, *ray));
        assert(v == mt_v(*self, *ray));
        proof {
            lemma_mul_bounds(e2_x as int, q_x as int, 1048576, 0x200_0000_0000);
            lemma_mul_bounds(e2_y as int, q_y as int, 1048576, 0x200_0000_0000);
            lemma_mul_bounds(e2_z as int, q_z as int, 1048576, 0x200_0000_0000);
            assert(-0x6000_0000_0000_0000 <= mt_t(*self, *ray) <= 0x6000_0000_0000_0000);
        }

        let (a, unp, vnp) = if det > 0 {
            (det, u, v)
        } else {
            (-det, -u, -v)
        };
        assert(a == sh_a(*self, *ray) && unp == sh_un(*self, *ray) && vnp == sh_vn(*self, *ray));
        assert(0 <= unp && 0 <= vnp && unp + vnp <= a && a > 0);

        // Fixed-point barycentric weights; `wu + wv <= 65536`, so the first
        // vertex weight is what remains.
        let wu = (((unp as u128) * 65536) / (a as u128)) as i128;
        let wv = (((vnp as u128) * 65536) / (a as u128)) as i128;
        proof {
            crate::math::lemma_mul_le(unp as int, 65536, a as int, 65536);
            crate::math::lemma_mul_le(vnp as int, 65536, a as int, 65536);
            vstd::arithmetic::div_mod::lemma_div_is_ordered(
                unp as int * 65536, a as int * 65536, a as int);
            vstd::arithmetic::div_mod::lemma_div_is_ordered(
                vnp as int * 65536, a as int * 65536, a as int);
            vstd::arithmetic::div_mod::lemma_div_multiples_vanish(65536, a as int);
            assert(a as int * 65536 == (a as int) * 65536);
            vstd::arithmetic::div_mod::lemma_div_pos_is_pos(unp as int * 65536, a as int);
            vstd::arithmetic::div_mod::lemma_div_pos_is_pos(vnp as int * 65536, a as int);
            crate::math::lemma_div_mul_le(unp as int * 65536, a as int);
            crate::math::lemma_div_mul_le(vnp as int * 65536, a as int);
            assert(wu + wv <= 65536) by (nonlinear_arith)
                requires
                    a as int * (wu as int) <= unp as int * 65536,
                    a as int * (wv as int) <= vnp as int * 65536,
                    unp + vnp <= a,
                    a > 0,
                    wu >= 0,
                    wv >= 0,
            ;
        }
        assert(wu == sh_wu(*self, *ray) && wv == sh_wv(*self, *ray));
        let ww = 65536 - wu - wv;

        // Interpolated shading normal, floored back onto the fixed-point
        // grid, then rescaled to unit length.
        let n1 = &self.v1.normal;
        let n2 = &self.v2.normal;
        let n3 = &self.v3.normal;
        proof {
            lemma_mul_bounds(ww as int, n1.x as int, 65536, 1048576);
            lemma_mul_bounds(wu as int, n2.x as int, 65536, 1048576);
            lemma_mul_bounds(wv as int, n3.x as int, 65536, 1048576);
            lemma_mul_bounds(ww as int, n1.y as int, 65536, 1048576);
            lemma_mul_bounds(wu as int, n2.y as int, 65536, 1048576);
            lemma_mul_bounds(wv as int, n3.y as int, 65536, 1048576);
            lemma_mul_bounds(ww as int, n1.z as int, 65536, 1048576);
            lemma_mul_bounds(wu as int, n2.z as int, 65536, 1048576);
            lemma_mul_bounds(wv as int, n3.z as int, 65536, 1048576);
        }
        let nr_x_num = ww * (n1.x as i128) + wu * (n2.x as i128) + wv * (n3.x as i128);
        let nr_y_num = ww * (n1.y as i128) + wu * (n2.y as i128) + wv * (n3.y as i128);
        let nr_z_num = ww * (n1.z as i128) + wu * (n2.z as i128) + wv * (n3.z as i128);
        proof {
            crate::math::lemma_div_bound(nr_x_num as int, 65536, 3145728);
            crate::math::lemma_div_bound(nr_y_num as int, 65536, 3145728);
            crate::math::lemma_div_bound(nr_z_num as int, 65536, 3145728);
        }
        let nr_x = crate::math::div_floor_i128(nr_x_num, 65536);
        let nr_y = crate::math::div_floor_i128(nr_y_num, 65536);
        let nr_z = crate::math::div_floor_i128(nr_z_num, 65536);
        assert(nr_x == sh_nraw_x(*self, *ray));
        assert(nr_y == sh_nraw_y(*self, *ray));
        assert(nr_z == sh_nraw_z(*self, *ray));
        proof {
            lemma_mul_bounds(nr_x as int, nr_x as int, 3145728, 3145728);
            lemma_mul_bounds(nr_y as int, nr_y as int, 3145728, 3145728);
            lemma_mul_bounds(nr_z as int, nr_z as int, 3145728, 3145728);
        }
        let l2 = nr_x * nr_x + nr_y * nr_y + nr_z * nr_z;
        assert(l2 == sh_len2(*self, *ray));
        assert(l2 >= 0) by (nonlinear_arith)
            requires
                l2 == nr_x * nr_x + nr_y * nr_y + nr_z * nr_z,
        ;
        let (nu_x, nu_y, nu_z) = if l2 == 0 {
            (0i128, 0i128, 0i128)
        } else {
            let len = crate::math::isqrt_u64(l2 as u64);
            proof {
                assert(0 <= l2 < 0x1_0000_0000_0000_0000);
                assert((l2 as u64) as int == l2 as int);
                crate::math::lemma_isqrt_unique((l2 as u64) as nat, len as nat);
                if len == 0 {
                    assert((len as int + 1) * (len as int + 1) == 1) by (nonlinear_arith)
                        requires
                            len as int == 0,
                    ;
                }
                assert(len >= 1);
                assert(-(len as int) <= nr_x <= len as int && -(len as int) <= nr_y <= len as int
                    && -(len as int) <= nr_z <= len as int) by (nonlinear_arith)
                    requires
                        l2 == nr_x * nr_x + nr_y * nr_y + nr_z * nr_z,
                        l2 < (len as int + 1) * (len as int + 1),
                        len as int >= 0,
                ;
                crate::math::lemma_div_bound(nr_x as int * 65536, len as int, 65536);
                crate::math::lemma_div_bound(nr_y as int * 65536, len as int, 65536);
                crate::math::lemma_div_bound(nr_z as int * 65536, len as int, 65536);
            }
            let ux = crate::math::div_floor_i128(nr_x * 65536, len as i128);
            let uy = crate::math::div_floor_i128(nr_y * 65536, len as i128);
            let uz = crate::math::div_floor_i128(nr_z * 65536, len as i128);
            (ux, uy, uz)
        };
        assert(nu_x == sh_nunit_x(*self, *ray) && -65536 <= nu_x <= 65536);
        assert(nu_y == sh_nunit_y(*self, *ray) && -65536 <= nu_y <= 65536);
        assert(nu_z == sh_nunit_z(*self, *ray) && -65536 <= nu_z <= 65536);

        proof {
            lemma_mul_bounds(d.x as int, nu_x as int, 524288, 65536);
            lemma_mul_bounds(d.y as int, nu_y as int, 524288, 65536);
            lemma_mul_bounds(d.z as int, nu_z as int, 524288, 65536);
        }
        let dp = (d.x as i128) * nu_x + (d.y as i128) * nu_y + (d.z as i128) * nu_z;
        let backface = dp > 0;
        assert(backface == sh_backface(*self, *ray));
        let (fn_x, fn_y, fn_z) = if backface {
            (-nu_x, -nu_y, -nu_z)
        } else {
            (nu_x, nu_y, nu_z)
        };

        // Exact ray point, floored to the grid and clamped into bounds.
        proof {
            lemma_mul_bounds(t.den as int, o.x as int, 0x8000_0000_0000_0000, 524288);
            lemma_mul_bounds(t.num as int, d.x as int, 0x8000_0000_0000_0000, 524288);
            lemma_mul_bounds(t.den as int, o.y as int, 0x8000_0000_0000_0000, 524288);
            lemma_mul_bounds(t.num as int, d.y as int, 0x8000_0000_0000_0000, 524288);
            lemma_mul_bounds(t.den as int, o.z as int, 0x8000_0000_0000_0000, 524288);
            lemma_mul_bounds(t.num as int, d.z as int, 0x8000_0000_0000_0000, 524288);
        }
        let px = clamp_coord(crate::math::div_floor_i128(
            (t.den as i128) * (o.x as i128) + (t.num as i128) * (d.x as i128),
            t.den as i128,
        ));
        let py = clamp_coord(crate::math::div_floor_i128(
            (t.den as i128) * (o.y as i128) + (t.num as i128) * (d.y as i128),
            t.den as i128,
        ));
        let pz = clamp_coord(crate::math::div_floor_i128(
            (t.den as i128) * (o.z as i128) + (t.num as i128) * (d.z as i128),
            t.den as i128,
        ));
        assert(px as int == sh_point_x(*self, *ray));
        assert(py as int == sh_point_y(*self, *ray));
        assert(pz as int == sh_point_z(*self, *ray));

        let uv = match (self.v1.uv, self.v2.uv, self.v3.uv) {
            (Option::Some(c1), Option::Some(c2), Option::Some(c3)) => {
                proof {
                    lemma_mul_bounds(ww as int, c1.u as int, 65536, 67108864);
                    lemma_mul_bounds(wu as int, c2.u as int, 65536, 67108864);
                    lemma_mul_bounds(wv as int, c3.u as int, 65536, 67108864);
                    lemma_mul_bounds(ww as int, c1.v as int, 65536, 67108864);
                    lemma_mul_bounds(wu as int, c2.v as int, 65536, 67108864);
                    lemma_mul_bounds(wv as int, c3.v as int, 65536, 67108864);
                    crate::math::lemma_div_bound(
                        (ww * (c1.u as i128) + wu * (c2.u as i128) + wv * (c3.u as i128)) as int,
                        65536,
                        201326592,
                    );
                    crate::math::lemma_div_bound(
                        (ww * (c1.v as i128) + wu * (c2.v as i128) + wv * (c3.v as i128)) as int,
                        65536,
                        201326592,
                    );
                }
                let iu = crate::math::div_floor_i128(
                    ww * (c1.u as i128) + wu * (c2.u as i128) + wv * (c3.u as i128),
                    65536,
                );
                let iv = crate::math::div_floor_i128(
                    ww * (c1.v as i128) + wu * (c2.v as i128) + wv * (c3.v as i128),
                    65536,
                );
                Option::Some(Uv { u: iu as i64, v: iv as i64 })
            },
            _ => Option::None,
        };
        assert(uv == sh_uv(*self, *ray));

        let result = HitRecord {
            t: *t,
            point: Vec3I { x: px, y: py, z: pz },
            normal: Vec3I { x: fn_x as i64, y: fn_y as i64, z: fn_z as i64 },
            uv,
            front_face: !backface,
            material_index: self.material_index,
        };
        proof {
            let sr = spec_hit_record(*self, *ray);
            assert(result.t == sr.t);
            assert(result.point == sr.point);
            assert(result.normal == sr.normal);
            assert(result.uv == sr.uv);
            assert(result.front_face == sr.front_face);
            assert(result.material_index == sr.material_index);
        }
        result
    }
}

/// Clamp an already-floored coordinate into the admissible grid range.
fn clamp_coord(x: i128) -> (r: i64)
    ensures
        r as int == spec_clamp(x as int, COORD_LIMIT as int),
{
    if x > 524288 {
        524288
    } else if x < -524288 {
        -524288
    } else {
        x as i64
    }
}

} // verus!
