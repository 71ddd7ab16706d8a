use vstd::prelude::*;

use crate::color::{Color, color_wf, color_unit};
use crate::ray::{Ray, ray_wf};
use crate::sampler::{Sampler, sampler_wf, spec_sampled};
use crate::texture::Texture;
use crate::triangle::{HitRecord, hit_record_wf};
use crate::vec::{
    Vec3I, in_bounds, spec_dot, spec_normalize_unit, spec_reflect_unit, spec_offset_point,
    normalize_unit, reflect_unit, offset_point, dot_i128,
};

verus! {

/// Surface behaviors: a closed set dispatched by pattern match.
#[derive(Clone, Copy, Debug, PartialEq, Eq, Structural)]
pub enum Material {
    Diffuse(Diffuse),
    Metal(Metal),
    Glass(Glass),
    Emissive(Emissive),
}

#[derive(Clone, Copy, Debug, PartialEq, Eq, Structural)]
pub struct Diffuse {
    pub color_sampler: Sampler,
}

#[derive(Clone, Copy, Debug, PartialEq, Eq, Structural)]
pub struct Metal {
    pub color_sampler: Sampler,
    /// Fixed-point roughness in `[0, 65536]` scaling the perturbation of
    /// the mirror direction.
    pub roughness: u32,
}

#[derive(Clone, Copy, Debug, PartialEq, Eq, Structural)]
pub struct Glass {
    pub color_sampler: Sampler,
}

#[derive(Clone, Copy, Debug, PartialEq, Eq, Structural)]
pub struct Emissive {
    pub color: Color,
}

pub open spec fn material_wf(m: Material, textures: Seq<Texture>) -> bool {
    match m {
        Material::Diffuse(d) => sampler_wf(d.color_sampler, textures),
        Material::Metal(mt) => sampler_wf(mt.color_sampler, textures) && mt.roughness <= 65536,
        Material::Glass(g) => sampler_wf(g.color_sampler, textures),
        Material::Emissive(e) => color_wf(e.color),
    }
}

/// The diffuse continuation direction: a uniform hemisphere sample — the
/// random unit vector itself, flipped when it points below the shading
/// normal's plane.
pub open spec fn spec_diffuse_dir(rec: HitRecord, ru: Vec3I) -> Vec3I {
    if spec_dot(ru, rec.normal) >= 0 {
        ru
    } else {
        Vec3I { x: (-ru.x) as i64, y: (-ru.y) as i64, z: (-ru.z) as i64 }
    }
}

/// The metal continuation direction: the mirror reflection perturbed by
/// roughness times a random unit vector, rescaled.
pub open spec fn spec_metal_dir(r: Ray, rec: HitRecord, roughness: u32, ru: Vec3I) -> Vec3I {
    let d_u = spec_normalize_unit(r.direction);
    let refl = spec_reflect_unit(d_u, rec.normal);
    let pert = Vec3I {
        x: (refl.x + roughness * ru.x / 65536) as i64,
        y: (refl.y + roughness * ru.y / 65536) as i64,
        z: (refl.z + roughness * ru.z / 65536) as i64,
    };
    spec_normalize_unit(pert)
}

/// Relative refraction index of the glass boundary as a rational:
/// 38/25 is the refractive index 1.52.
pub open spec fn spec_glass_eta(front_face: bool) -> (int, int) {
    if front_face {
        (25, 38)
    } else {
        (38, 25)
    }
}

/// Cosine of the incidence angle on the fixed-point scale, clamped to
/// `[0, 65536]`.
pub open spec fn spec_glass_cos(r: Ray, rec: HitRecord) -> int {
    let d_u = spec_normalize_unit(r.direction);
    let md = -spec_dot(d_u, rec.normal) / 65536;
    if md > 65536 {
        65536
    } else if md < 0 {
        0
    } else {
        md
    }
}

/// Total internal reflection test: `eta^2 sin^2 > 1` with all scales
/// cleared.
pub open spec fn spec_glass_cannot_refract(r: Ray, rec: HitRecord) -> bool {
    let cos = spec_glass_cos(r, rec);
    let sin2 = 65536 * 65536 - cos * cos;
    let (en, ed) = spec_glass_eta(rec.front_face);
    en * en * sin2 > ed * ed * (65536 * 65536)
}

/// Schlick's reflectance approximation on the fixed-point scale.
pub open spec fn spec_glass_reflectance(r: Ray, rec: HitRecord) -> int {
    let cos = spec_glass_cos(r, rec);
    let (en, ed) = spec_glass_eta(rec.front_face);
    let r0 = (en - ed) * (en - ed) * 65536 / ((en + ed) * (en + ed));
    let x = 65536 - cos;
    let x2 = x * x / 65536;
    let x3 = x2 * x / 65536;
    let x4 = x3 * x / 65536;
    let x5 = x4 * x / 65536;
    r0 + (65536 - r0) * x5 / 65536
}

/// The refracted direction (before rescaling); meaningful when refraction
/// is possible.
pub open spec fn spec_glass_refract_raw(r: Ray, rec: HitRecord) -> Vec3I {
    let d_u = spec_normalize_unit(r.direction);
    let cos = spec_glass_cos(r, rec);
    let (en, ed) = spec_glass_eta(rec.front_face);
    let rpx = en * (d_u.x * 65536 + cos * rec.normal.x) / (ed * 65536);
    let rpy = en * (d_u.y * 65536 + cos * rec.normal.y) / (ed * 65536);
    let rpz = en * (d_u.z * 65536 + cos * rec.normal.z) / (ed * 65536);
    let pl2 = rpx * rpx + rpy * rpy + rpz * rpz;
    let k = 65536 * 65536 - pl2;
    if k <= 0 {
        spec_reflect_unit(d_u, rec.normal)
    } else {
        let par = crate::math::spec_isqrt(k as nat) as int;
        Vec3I {
            x: (rpx - par * rec.normal.x / 65536) as i64,
            y: (rpy - par * rec.normal.y / 65536) as i64,
            z: (rpz - par * rec.normal.z / 65536) as i64,
        }
    }
}

/// The glass continuation direction: reflection under total internal
/// reflection or when the stochastic Fresnel draw chooses it, refraction
/// otherwise; always rescaled to unit length.
pub open spec fn spec_glass_dir(r: Ray, rec: HitRecord, rand_frac: i64) -> Vec3I {
    let d_u = spec_normalize_unit(r.direction);
    if spec_glass_cannot_refract(r, rec) || spec_glass_reflectance(r, rec) > rand_frac {
        spec_normalize_unit(spec_reflect_unit(d_u, rec.normal))
    } else {
        spec_normalize_unit(spec_glass_refract_raw(r, rec))
    }
}

/// What one scatter returns: the proposed continuation ray (none when the
/// path is absorbed or the material emits) and the attenuation or emitted
/// color.
pub open spec fn spec_scatter(
    m: Material,
    r: Ray,
    rec: HitRecord,
    textures: Seq<Texture>,
    ru: Vec3I,
    rand_frac: i64,
) -> (Option<Ray>, Color) {
    match m {
        Material::Diffuse(d) => {
            let dir = spec_diffuse_dir(rec, ru);
            (
                Option::Some(Ray { origin: spec_offset_point(rec.point, dir), direction: dir }),
                spec_sampled(d.color_sampler, rec.uv, textures),
            )
        },
        Material::Metal(mt) => {
            let dir = spec_metal_dir(r, rec, mt.roughness, ru);
            if spec_dot(dir, rec.normal) <= 0 {
                (Option::None, Color { r: 0, g: 0, b: 0 })
            } else {
                (
                    Option::Some(
                        Ray { origin: spec_offset_point(rec.point, dir), direction: dir },
                    ),
                    spec_sampled(mt.color_sampler, rec.uv, textures),
                )
            }
        },
        Material::Glass(g) => {
            let dir = spec_glass_dir(r, rec, rand_frac);
            (
                Option::Some(Ray { origin: spec_offset_point(rec.point, dir), direction: dir }),
                spec_sampled(g.color_sampler, rec.uv, textures),
            )
        },
        Material::Emissive(e) => (Option::None, e.color),
    }
}

impl Material {
    pub fn get_color_texture_index(&self) -> (r: Option<usize>)
        ensures
            r == match *self {
                Material::Diffuse(d) => match d.color_sampler {
                    Sampler::Texture(i) => Option::Some(i),
                    Sampler::Color(_) => Option::<usize>::None,
                },
                Material::Metal(mt) => match mt.color_sampler {
                    Sampler::Texture(i) => Option::Some(i),
                    Sampler::Color(_) => Option::<usize>::None,
                },
                Material::Glass(g) => match g.color_sampler {
                    Sampler::Texture(i) => Option::Some(i),
                    Sampler::Color(_) => Option::<usize>::None,
                },
                Material::Emissive(_) => Option::<usize>::None,
            },
    {
        match self {
            Material::Diffuse(d) => d.color_sampler.texture_index(),
            Material::Metal(mt) => mt.color_sampler.texture_index(),
            Material::Glass(g) => g.color_sampler.texture_index(),
            Material::Emissive(_) => Option::None,
        }
    }

    /// Deterministic scatter once the random draws are fixed: the result is
    /// exactly `spec_scatter` of the inputs. For Metal and Glass the
    /// returned attenuation is the sampled base color (or black on
    /// absorption): energy is never created.
    pub fn scatter_with(
        &self,
        r: &Ray,
        rec: &HitRecord,
        textures: &Vec<Texture>,
        ru: &Vec3I,
        rand_frac: i64,
    ) -> (out: (Option<Ray>, Color))
        requires
            material_wf(*self, textures@),
            ray_wf(*r),
            hit_record_wf(*rec),
            in_bounds(*ru, 65536),
            0 <= rand_frac < 65536,
        ensures
            out == spec_scatter(*self, *r, *rec, textures@, *ru, rand_frac),
            !(*self is Emissive) ==> color_unit(out.1),
            *self is Emissive ==> color_wf(out.1),
            out.0 is Some ==> ray_wf(out.0->Some_0),
            *self is Diffuse ==> out.0 is Some && spec_dot(
                out.0->Some_0.direction,
                rec.normal,
            ) >= 0,
    {
        match self {
            Material::Diffuse(d) => {
                let dp = dot_i128(ru, &rec.normal);
                let dir = if dp >= 0 {
                    *ru
                } else {
                    Vec3I { x: -ru.x, y: -ru.y, z: -ru.z }
                };
                proof {
                    if dp < 0 {
                        assert(spec_dot(dir, rec.normal) == -spec_dot(*ru, rec.normal))
                            by (nonlinear_arith)
                            requires
                                dir.x == -ru.x && dir.y == -ru.y && dir.z == -ru.z,
                        ;
                    }
                }
                let origin = offset_point(&rec.point, &dir);
                (
                    Option::Some(Ray { origin, direction: dir }),
                    d.color_sampler.sample(rec.uv, textures),
                )
            },
            Material::Metal(mt) => {
                let d_u = normalize_unit(&r.direction);
                let refl = reflect_unit(&d_u, &rec.normal);
                proof {
                    crate::math::lemma_mul_bounds(mt.roughness as int, ru.x as int, 65536, 65536);
                    crate::math::lemma_mul_bounds(mt.roughness as int, ru.y as int, 65536, 65536);
                    crate::math::lemma_mul_bounds(mt.roughness as int, ru.z as int, 65536, 65536);
                    crate::math::lemma_div_bound(
                        mt.roughness as int * ru.x as int,
                        65536,
                        65536,
                    );
                    crate::math::lemma_div_bound(
                        mt.roughness as int * ru.y as int,
                        65536,
                        65536,
                    );
                    crate::math::lemma_div_bound(
                        mt.roughness as int * ru.z as int,
                        65536,
                        65536,
                    );
                }
                let px = crate::math::div_floor_i128(
                    (mt.roughness as i128) * (ru.x as i128),
                    65536,
                );
                let py = crate::math::div_floor_i128(
                    (mt.roughness as i128) * (ru.y as i128),
                    65536,
                );
                let pz = crate::math::div_floor_i128(
                    (mt.roughness as i128) * (ru.z as i128),
                    65536,
                );
                let pert = Vec3I {
                    x: refl.x + px as i64,
                    y: refl.y + py as i64,
                    z: refl.z + pz as i64,
                };
                let dir = normalize_unit(&pert);
                let dp = dot_i128(&dir, &rec.normal);
                if dp <= 0 {
                    (Option::None, Color { r: 0, g: 0, b: 0 })
                } else {
                    let origin = offset_point(&rec.point, &dir);
                    (
                        Option::Some(Ray { origin, direction: dir }),
                        mt.color_sampler.sample(rec.uv, textures),
                    )
                }
            },
            Material::Glass(g) => {
                let dir = glass_dir(r, rec, rand_frac);
                let origin = offset_point(&rec.point, &dir);
                (
                    Option::Some(Ray { origin, direction: dir }),
                    g.color_sampler.sample(rec.uv, textures),
                )
            },
            Material::Emissive(e) => (Option::None, e.color),
        }
    }

    /// Scatter with fresh randomness for the hemisphere sample and the
    /// Fresnel draw: some admissible draw explains the result exactly.
    pub fn scatter(&self, r: &Ray, rec: &HitRecord, textures: &Vec<Texture>) -> (out: (
        Option<Ray>,
        Color,
    ))
        requires
            material_wf(*self, textures@),
            ray_wf(*r),
            hit_record_wf(*rec),
        ensures
            exists|ru: Vec3I, rf: i64|
                in_bounds(ru, 65536) && 0 <= rf < 65536 && out == #[trigger] spec_scatter(
                    *self,
                    *r,
                    *rec,
                    textures@,
                    ru,
                    rf,
                ),
            !(*self is Emissive) ==> color_unit(out.1),
            *self is Emissive ==> color_wf(out.1),
            out.0 is Some ==> ray_wf(out.0->Some_0),
            *self is Diffuse ==> out.0 is Some && spec_dot(
                out.0->Some_0.direction,
                rec.normal,
            ) >= 0,
    {
        let ru = crate::rng::random_unit_vector();
        let rf = crate::rng::rand_i64(0, 65535);
        let out = self.scatter_with(r, rec, textures, &ru, rf);
        proof {
            assert(out == spec_scatter(*self, *r, *rec, textures@, ru, rf));
        }
        out
    }
}

/// The glass continuation direction, mirroring `spec_glass_dir` step by
/// step in 128-bit integers.
fn glass_dir(r: &Ray, rec: &HitRecord, rand_frac: i64) -> (dir: Vec3I)
    requires
        ray_wf(*r),
        hit_record_wf(*rec),
        0 <= rand_frac < 65536,
    ensures
        dir == spec_glass_dir(*r, *rec, rand_frac),
        in_bounds(dir, 65536),
{
    let d_u = normalize_unit(&r.direction);
    let (en, ed): (i128, i128) = if rec.front_face {
        (25, 38)
    } else {
        (38, 25)
    };
    let dp0 = dot_i128(&d_u, &rec.normal);
    proof {
        crate::math::lemma_mul_bounds(d_u.x as int, rec.normal.x as int, 65536, 65536);
        crate::math::lemma_mul_bounds(d_u.y as int, rec.normal.y as int, 65536, 65536);
        crate::math::lemma_mul_bounds(d_u.z as int, rec.normal.z as int, 65536, 65536);
    }
    let md0 = -dp0;
    proof {
        crate::math::lemma_div_bound(md0 as int, 65536, 0x3_0000);
    }
    let md = crate::math::div_floor_i128(md0, 65536);
    let cos: i128 = if md > 65536 {
        65536
    } else if md < 0 {
        0
    } else {
        md
    };
    assert(cos == spec_glass_cos(*r, *rec));
    proof {
        crate::math::lemma_mul_le(cos as int, cos as int, 65536, 65536);
        assert(en * en == 625 || en * en == 1444) by (nonlinear_arith)
            requires
                (en == 25 && ed == 38) || (en == 38 && ed == 25),
        ;
        assert(ed * ed == 625 || ed * ed == 1444) by (nonlinear_arith)
            requires
                (en == 25 && ed == 38) || (en == 38 && ed == 25),
        ;
        assert((en - ed) * (en - ed) == 169) by (nonlinear_arith)
            requires
                (en == 25 && ed == 38) || (en == 38 && ed == 25),
        ;
        assert((en + ed) * (en + ed) == 3969) by (nonlinear_arith)
            requires
                (en == 25 && ed == 38) || (en == 38 && ed == 25),
        ;
    }
    let sin2 = 65536 * 65536 - cos * cos;
    proof {
        assert(-0x1_0000_0000_0000 <= en * en * sin2 <= 0x1_0000_0000_0000)
            by (nonlinear_arith)
            requires
                en * en == 625 || en * en == 1444,
                -0x1_0000_0000 <= sin2 <= 0x1_0000_0000,
        ;
        assert(0 <= ed * ed * (65536 * 65536) <= 0x1_0000_0000_0000) by (nonlinear_arith)
            requires
                ed * ed == 625 || ed * ed == 1444,
        ;
    }
    let cannot = en * en * sin2 > ed * ed * (65536 * 65536);
    assert(cannot == spec_glass_cannot_refract(*r, *rec));

    let r0 = (en - ed) * (en - ed) * 65536 / ((en + ed) * (en + ed));
    proof {
        vstd::arithmetic::div_mod::lemma_div_pos_is_pos(169int * 65536, 3969);
        vstd::arithmetic::div_mod::lemma_div_nonincreasing(169int * 65536, 3969);
    }
    let x = 65536 - cos;
    proof {
        crate::math::lemma_mul_le(x as int, x as int, 65536, 65536);
        vstd::arithmetic::div_mod::lemma_div_pos_is_pos(x as int * x as int, 65536);
        crate::math::lemma_div_bound(x as int * x as int, 65536, 65536);
    }
    let x2 = x * x / 65536;
    proof {
        crate::math::lemma_mul_le(x2 as int, x as int, 65536, 65536);
        vstd::arithmetic::div_mod::lemma_div_pos_is_pos(x2 as int * x as int, 65536);
        crate::math::lemma_div_bound(x2 as int * x as int, 65536, 65536);
    }
    let x3 = x2 * x / 65536;
    proof {
        crate::math::lemma_mul_le(x3 as int, x as int, 65536, 65536);
        vstd::arithmetic::div_mod::lemma_div_pos_is_pos(x3 as int * x as int, 65536);
        crate::math::lemma_div_bound(x3 as int * x as int, 65536, 65536);
    }
    let x4 = x3 * x / 65536;
    proof {
        crate::math::lemma_mul_le(x4 as int, x as int, 65536, 65536);
        vstd::arithmetic::div_mod::lemma_div_pos_is_pos(x4 as int * x as int, 65536);
        crate::math::lemma_div_bound(x4 as int * x as int, 65536, 65536);
    }
    let x5 = x4 * x / 65536;
    proof {
        crate::math::lemma_mul_bounds(65536 - r0 as int, x5 as int, 0x2_0000, 65536);
        crate::math::lemma_div_bound((65536 - r0 as int) * (x5 as int), 65536, 0x2_0000);
    }
    let refl = r0 + (65536 - r0) * x5 / 65536;
    assert(refl == spec_glass_reflectance(*r, *rec));

    if cannot || refl > rand_frac as i128 {
        let rdir = reflect_unit(&d_u, &rec.normal);
        normalize_unit(&rdir)
    } else {
        proof {
            crate::math::lemma_mul_bounds(cos as int, rec.normal.x as int, 65536, 65536);
            crate::math::lemma_mul_bounds(cos as int, rec.normal.y as int, 65536, 65536);
            crate::math::lemma_mul_bounds(cos as int, rec.normal.z as int, 65536, 65536);
            crate::math::lemma_mul_bounds(
                en as int,
                d_u.x as int * 65536 + cos as int * (rec.normal.x as int),
                38,
                0x2_0000_0000,
            );
            crate::math::lemma_mul_bounds(
                en as int,
                d_u.y as int * 65536 + cos as int * (rec.normal.y as int),
                38,
                0x2_0000_0000,
            );
            crate::math::lemma_mul_bounds(
                en as int,
                d_u.z as int * 65536 + cos as int * (rec.normal.z as int),
                38,
                0x2_0000_0000,
            );
            crate::math::lemma_div_bound(
                en as int * (d_u.x as int * 65536 + cos as int * (rec.normal.x as int)),
                ed as int * 65536,
                0x30_0000,
            );
            crate::math::lemma_div_bound(
                en as int * (d_u.y as int * 65536 + cos as int * (rec.normal.y as int)),
                ed as int * 65536,
                0x30_0000,
            );
            crate::math::lemma_div_bound(
                en as int * (d_u.z as int * 65536 + cos as int * (rec.normal.z as int)),
                ed as int * 65536,
                0x30_0000,
            );
        }
        let rpx = crate::math::div_floor_i128(
            en * ((d_u.x as i128) * 65536 + cos * (rec.normal.x as i128)),
            ed * 65536,
        );
        let rpy = crate::math::div_floor_i128(
            en * ((d_u.y as i128) * 65536 + cos * (rec.normal.y as i128)),
            ed * 65536,
        );
        let rpz = crate::math::div_floor_i128(
            en * ((d_u.z as i128) * 65536 + cos * (rec.normal.z as i128)),
            ed * 65536,
        );
        proof {
            crate::math::lemma_mul_bounds(rpx as int, rpx as int, 0x30_0000, 0x30_0000);
            crate::math::lemma_mul_bounds(rpy as int, rpy as int, 0x30_0000, 0x30_0000);
            crate::math::lemma_mul_bounds(rpz as int, rpz as int, 0x30_0000, 0x30_0000);
        }
        let pl2 = rpx * rpx + rpy * rpy + rpz * rpz;
        proof {
            assert(pl2 >= 0) by (nonlinear_arith)
                requires
                    pl2 == rpx * rpx + rpy * rpy + rpz * rpz,
            ;
        }
        let k = 65536 * 65536 - pl2;
        if k <= 0 {
            let rdir = reflect_unit(&d_u, &rec.normal);
            normalize_unit(&rdir)
        } else {
            let par = crate::math::isqrt_u64(k as u64);
            proof {
                crate::math::lemma_isqrt_unique((k as u64) as nat, par as nat);
                if par > 65536 {
                    assert(par * par > 65536 * 65536) by (nonlinear_arith)
                        requires
                            par > 65536,
                    ;
                }
                crate::math::lemma_mul_bounds(par as int, rec.normal.x as int, 65536, 65536);
                crate::math::lemma_mul_bounds(par as int, rec.normal.y as int, 65536, 65536);
                crate::math::lemma_mul_bounds(par as int, rec.normal.z as int, 65536, 65536);
                crate::math::lemma_div_bound(par as int * (rec.normal.x as int), 65536, 65536);
                crate::math::lemma_div_bound(par as int * (rec.normal.y as int), 65536, 65536);
                crate::math::lemma_div_bound(par as int * (rec.normal.z as int), 65536, 65536);
            }
            let qx = crate::math::div_floor_i128((par as i128) * (rec.normal.x as i128), 65536);
            let qy = crate::math::div_floor_i128((par as i128) * (rec.normal.y as i128), 65536);
            let qz = crate::math::div_floor_i128((par as i128) * (rec.normal.z as i128), 65536);
            let raw = Vec3I {
                x: (rpx - qx) as i64,
                y: (rpy - qy) as i64,
                z: (rpz - qz) as i64,
            };
            normalize_unit(&raw)
        }
    }
}


/// Energy is never created by a scatter: for Metal and Glass the returned
/// attenuation is exactly the sampled base color, or black on absorption,
/// so no channel ever exceeds the base color's.
pub proof fn lemma_scatter_no_amplification(
    m: Material,
    r: Ray,
    rec: HitRecord,
    textures: Seq<Texture>,
    ru: Vec3I,
    rand_frac: i64,
)
    requires
        m is Metal || m is Glass,
    ensures
        ({
            let out = spec_scatter(m, r, rec, textures, ru, rand_frac);
            let base = match m {
                Material::Metal(mt) => spec_sampled(mt.color_sampler, rec.uv, textures),
                Material::Glass(g) => spec_sampled(g.color_sampler, rec.uv, textures),
                _ => out.1,
            };
            out.1.r <= base.r && out.1.g <= base.g && out.1.b <= base.b
        }),
{
}

} // verus!
