use vstd::prelude::*;

use crate::bvh::opt_before;
use crate::color::{Color, color_wf, color_unit};
use crate::material::{Material, Emissive};
use crate::ray::{Ray, ray_wf};
use crate::camera::spec_camera_ray;
use crate::scene::{Scene, scene_wf};
use crate::triangle::tri_hit;
use crate::vec::{spec_normalize_unit, normalize_unit};

verus! {

/// Sample paths per pixel.
pub const AA_SIZE: usize = 2;

/// The background: a vertical white-to-sky-blue gradient in the ray
/// direction.
pub open spec fn spec_sky(r: Ray) -> Color {
    let d = spec_normalize_unit(r.direction);
    let a = (d.y + 65536) / 2;
    Color {
        r: (((65536 - a) * 65536 + a * 32768) / 65536) as u32,
        g: (((65536 - a) * 65536 + a * 45875) / 65536) as u32,
        b: 65536,
    }
}

/// No triangle of the scene blocks the ray.
pub open spec fn spec_misses_all(s: Scene, r: Ray) -> bool {
    forall|j: int| 0 <= j < s.bvh.triangles@.len() ==> tri_hit(
        #[trigger] s.bvh.triangles@[j],
        r,
    ) is None
}

/// Triangle `j` scores a hit no other triangle beats.
pub open spec fn min_hit_at(s: Scene, r: Ray, j: int) -> bool {
    let tris = s.bvh.triangles@;
    &&& 0 <= j < tris.len()
    &&& tri_hit(tris[j], r) is Some
    &&& forall|k: int| 0 <= k < tris.len() ==> !opt_before(
        tri_hit(#[trigger] tris[k], r),
        tri_hit(tris[j], r),
    )
}

/// The ray hits something, and every nearest hit resolves to the same
/// emissive material: the path must end right there with its color.
pub open spec fn spec_min_hit_emissive(s: Scene, r: Ray, c: Color) -> bool {
    &&& exists|j: int| #[trigger] min_hit_at(s, r, j)
    &&& forall|j: int| #[trigger] min_hit_at(s, r, j) ==> {
        match s.bvh.triangles@[j].material_index {
            Option::Some(mi) => mi < s.materials@.len() && s.materials@[mi as int]
                == Material::Emissive(Emissive { color: c }),
            Option::None => false,
        }
    }
}

/// The ray hits something, and every nearest hit fails to resolve a
/// material (no index, or one outside the table): the path must end right
/// there with the reserved fallback color.
pub open spec fn spec_min_hit_unresolved(s: Scene, r: Ray) -> bool {
    &&& exists|j: int| #[trigger] min_hit_at(s, r, j)
    &&& forall|j: int| #[trigger] min_hit_at(s, r, j) ==> {
        match s.bvh.triangles@[j].material_index {
            Option::Some(mi) => mi >= s.materials@.len(),
            Option::None => true,
        }
    }
}

/// The fixed output conversion of one accumulated color: gamma correction,
/// then 8-bit quantization packed as `0x00RRGGBB`.
pub open spec fn spec_packed(c: Color) -> int {
    crate::color::spec_quant_channel(crate::color::spec_gamma_channel(c.r) as u32) * 65536
        + crate::color::spec_quant_channel(crate::color::spec_gamma_channel(c.g) as u32) * 256
        + crate::color::spec_quant_channel(crate::color::spec_gamma_channel(c.b) as u32)
}

/// Every admissible jittered camera ray of the pixel lands on the same
/// nearest emissive surface: the pixel must carry exactly its emitted
/// color through the output conversion.
pub open spec fn spec_pixel_emissive(s: Scene, x: usize, y: usize, c: Color) -> bool {
    forall|jx: i64, jy: i64| -32768 <= jx <= 32768 && -32768 <= jy <= 32768
        ==> spec_min_hit_emissive(s, #[trigger] spec_camera_ray(s.camera, x, y, jx, jy), c)
}

/// Every admissible jittered camera ray of the pixel misses all geometry
/// and shades to the same sky value: the pixel must carry exactly that
/// background through the output conversion.
pub open spec fn spec_pixel_sky(s: Scene, x: usize, y: usize, c: Color) -> bool {
    forall|jx: i64, jy: i64| -32768 <= jx <= 32768 && -32768 <= jy <= 32768 ==> {
        let r = #[trigger] spec_camera_ray(s.camera, x, y, jx, jy);
        spec_misses_all(s, r) && spec_sky(r) == c
    }
}

/// The radiance a path from `r` with `depth` bounces left can return, for
/// some admissible random draws: black when the budget is spent; the sky on
/// a miss; at a nearest hit, the reserved fallback when no material
/// resolves, a terminal scatter's own color, or the sampled color
/// attenuating (channel-wise) a radiance the continuation ray can return.
pub open spec fn spec_possible_radiance(s: Scene, r: Ray, depth: nat, out: Color) -> bool
    decreases depth, 0int,
{
    if depth == 0 {
        out == (Color { r: 0u32, g: 0u32, b: 0u32 })
    } else if spec_misses_all(s, r) {
        out == spec_sky(r)
    } else {
        exists|j: int|
            #[trigger] min_hit_at(s, r, j) && {
                let rec = crate::triangle::spec_hit_record(s.bvh.triangles@[j], r);
                match rec.material_index {
                    Option::None => out == (Color { r: 65536u32, g: 0u32, b: 65536u32 }),
                    Option::Some(mi) => if mi >= s.materials@.len() {
                        out == (Color { r: 65536u32, g: 0u32, b: 65536u32 })
                    } else {
                        exists|ru: crate::vec::Vec3I, rf: i64|
                            crate::vec::in_bounds(ru, 65536) && 0 <= rf < 65536
                                && spec_scatter_radiance(
                                s,
                                #[trigger] crate::material::spec_scatter(
                                    s.materials@[mi as int],
                                    r,
                                    rec,
                                    s.textures@,
                                    ru,
                                    rf,
                                ),
                                (depth - 1) as nat,
                                out,
                            )
                    },
                }
            }
    }
}

/// What one scatter outcome contributes: a terminal scatter returns its own
/// color; a continuation attenuates, channel by channel, some radiance the
/// proposed ray can return with the remaining budget.
pub open spec fn spec_scatter_radiance(
    s: Scene,
    sc: (Option<Ray>, Color),
    depth: nat,
    out: Color,
) -> bool
    decreases depth, 1int,
{
    if sc.0 is None {
        out == sc.1
    } else {
        exists|rest: Color|
            #![trigger crate::color::spec_mul_channel(sc.1.r, rest.r)]
            spec_possible_radiance(s, sc.0->Some_0, depth, rest) && out.r
                == crate::color::spec_mul_channel(sc.1.r, rest.r) && out.g
                == crate::color::spec_mul_channel(sc.1.g, rest.g) && out.b
                == crate::color::spec_mul_channel(sc.1.b, rest.b)
    }
}

/// A continuation's radiance attenuated by the sampled color is an
/// admissible scatter outcome.
proof fn lemma_scatter_radiance_step(
    s: Scene,
    sc: (Option<Ray>, Color),
    depth: nat,
    rest: Color,
    out: Color,
)
    requires
        sc.0 is Some,
        spec_possible_radiance(s, sc.0->Some_0, depth, rest),
        out.r == crate::color::spec_mul_channel(sc.1.r, rest.r),
        out.g == crate::color::spec_mul_channel(sc.1.g, rest.g),
        out.b == crate::color::spec_mul_channel(sc.1.b, rest.b),
    ensures
        spec_scatter_radiance(s, sc, depth, out),
{
    assert(exists|rest2: Color|
        #![trigger crate::color::spec_mul_channel(sc.1.r, rest2.r)]
        spec_possible_radiance(s, sc.0->Some_0, depth, rest2) && out.r
            == crate::color::spec_mul_channel(sc.1.r, rest2.r) && out.g
            == crate::color::spec_mul_channel(sc.1.g, rest2.g) && out.b
            == crate::color::spec_mul_channel(sc.1.b, rest2.b));
}

/// One path: walk the hierarchy, scatter at the nearest hit, and recurse
/// until the bounce budget runs out. Misses shade as the sky gradient; a
/// hit without a resolvable material shades as the reserved fallback color;
/// a hit on an emissive surface ends the path with exactly the emitted
/// color.
pub fn trace_ray(ray: Ray, depth: usize, scene: &Scene) -> (out: Color)
    requires
        scene_wf(*scene),
        ray_wf(ray),
    ensures
        color_wf(out),
        depth == 0 ==> out == (Color { r: 0u32, g: 0u32, b: 0u32 }),
        depth > 0 && spec_misses_all(*scene, ray) ==> out == spec_sky(ray),
        forall|c: Color| depth > 0 && #[trigger] spec_min_hit_emissive(*scene, ray, c) ==> out
            == c,
        depth > 0 && spec_min_hit_unresolved(*scene, ray) ==> out == (Color {
            r: 65536u32,
            g: 0u32,
            b: 65536u32,
        }),
        spec_possible_radiance(*scene, ray, depth as nat, out),
    decreases depth,
{
    if depth == 0 {
        return Color { r: 0, g: 0, b: 0 };
    }
    match scene.bvh.intersects(&ray) {
        Option::None => {
            proof {
                if spec_min_hit_unresolved(*scene, ray) {
                    let j0 = choose|j: int| #[trigger] min_hit_at(*scene, ray, j);
                    assert(tri_hit(scene.bvh.triangles@[j0], ray) is Some);
                    assert(false);
                }
            }
            sky_color(&ray)
        },
        Option::Some(rec) => {
            proof {
                assert(!spec_misses_all(*scene, ray));
            }
            let resolved = match rec.material_index {
                Option::Some(mi) => if mi < scene.materials.len() {
                    Option::Some(mi)
                } else {
                    Option::None
                },
                Option::None => Option::None,
            };
            match resolved {
                Option::None => {
                    proof {
                        lemma_unresolved_not_emissive(*scene, ray, rec);
                        let j0 = lemma_record_min_hit(*scene, ray, rec);
                        assert(spec_possible_radiance(
                            *scene,
                            ray,
                            depth as nat,
                            Color { r: 65536u32, g: 0u32, b: 65536u32 },
                        ));
                    }
                    Color { r: 65536, g: 0, b: 65536 }
                },
                Option::Some(mi) => {
                    proof {
                        lemma_resolved_not_unresolved(*scene, ray, rec, mi);
                    }
                    let out_pair = scene.materials[mi].scatter(
                        &ray,
                        &rec,
                        &scene.textures,
                    );
                    let cont = out_pair.0;
                    let col = out_pair.1;
                    let ghost (ru, rf) = choose|ru: crate::vec::Vec3I, rf: i64|
                        crate::vec::in_bounds(ru, 65536) && 0 <= rf < 65536 && out_pair
                            == #[trigger] crate::material::spec_scatter(
                            scene.materials@[mi as int],
                            ray,
                            rec,
                            scene.textures@,
                            ru,
                            rf,
                        );
                    match cont {
                        Option::None => {
                            proof {
                                lemma_terminal_matches_emissive(*scene, ray, rec, mi, col);
                                let j0 = lemma_record_min_hit(*scene, ray, rec);
                                assert(spec_scatter_radiance(
                                    *scene,
                                    crate::material::spec_scatter(
                                        scene.materials@[mi as int],
                                        ray,
                                        rec,
                                        scene.textures@,
                                        ru,
                                        rf,
                                    ),
                                    (depth - 1) as nat,
                                    col,
                                ));
                                assert(spec_possible_radiance(*scene, ray, depth as nat, col));
                            }
                            col
                        },
                        Option::Some(next) => {
                            proof {
                                lemma_continuing_not_emissive(*scene, ray, rec, mi);
                            }
                            let rest = trace_ray(next, depth - 1, scene);
                            let shaded = col.mul(rest);
                            proof {
                                let j0 = lemma_record_min_hit(*scene, ray, rec);
                                let sc = crate::material::spec_scatter(
                                    scene.materials@[mi as int],
                                    ray,
                                    rec,
                                    scene.textures@,
                                    ru,
                                    rf,
                                );
                                assert(sc.0 == Option::Some(next) && sc.1 == col);
                                assert(spec_possible_radiance(
                                    *scene,
                                    next,
                                    (depth - 1) as nat,
                                    rest,
                                ) && shaded.r == crate::color::spec_mul_channel(sc.1.r, rest.r)
                                    && shaded.g == crate::color::spec_mul_channel(sc.1.g, rest.g)
                                    && shaded.b == crate::color::spec_mul_channel(
                                    sc.1.b,
                                    rest.b,
                                ));
                                lemma_scatter_radiance_step(
                                    *scene,
                                    sc,
                                    (depth - 1) as nat,
                                    rest,
                                    shaded,
                                );
                                assert(spec_possible_radiance(*scene, ray, depth as nat, shaded));
                            }
                            shaded
                        },
                    }
                },
            }
        },
    }
}

/// The sky gradient for a ray, exactly `spec_sky`.
pub fn sky_color(r: &Ray) -> (c: Color)
    requires
        ray_wf(*r),
    ensures
        c == spec_sky(*r),
        color_unit(c),
{
    let d = normalize_unit(&r.direction);
    let a = ((d.y as i64) + 65536) / 2;
    proof {
        crate::math::lemma_mul_le(65536 - a as int, 65536, 65536, 65536);
        crate::math::lemma_mul_le(a as int, 32768, 65536, 32768);
        crate::math::lemma_mul_le(a as int, 45875, 65536, 45875);
        vstd::arithmetic::div_mod::lemma_div_pos_is_pos(
            (65536 - a as int) * 65536 + a as int * 32768,
            65536,
        );
        vstd::arithmetic::div_mod::lemma_div_pos_is_pos(
            (65536 - a as int) * 65536 + a as int * 45875,
            65536,
        );
        crate::math::lemma_div_bound(
            (65536 - a as int) * 65536 + a as int * 32768,
            65536,
            98304,
        );
        crate::math::lemma_div_bound(
            (65536 - a as int) * 65536 + a as int * 45875,
            65536,
            112640,
        );
        assert((65536 - a as int) * 65536 + a as int * 32768 <= 65536 * 65536)
            by (nonlinear_arith)
            requires
                0 <= a as int <= 65536,
        ;
        assert((65536 - a as int) * 65536 + a as int * 45875 <= 65536 * 65536)
            by (nonlinear_arith)
            requires
                0 <= a as int <= 65536,
        ;
        vstd::arithmetic::div_mod::lemma_div_is_ordered(
            (65536 - a as int) * 65536 + a as int * 32768,
            65536int * 65536,
            65536,
        );
        vstd::arithmetic::div_mod::lemma_div_is_ordered(
            (65536 - a as int) * 65536 + a as int * 45875,
            65536int * 65536,
            65536,
        );
        vstd::arithmetic::div_mod::lemma_div_multiples_vanish(65536, 65536);
    }
    let cr = (((65536 - a) as i128) * 65536 + (a as i128) * 32768) / 65536;
    let cg = (((65536 - a) as i128) * 65536 + (a as i128) * 45875) / 65536;
    Color { r: cr as u32, g: cg as u32, b: 65536 }
}

/// The record the traversal hands back names a nearest hit: some triangle
/// index scores it, and no triangle beats it.
proof fn lemma_record_min_hit(s: Scene, r: Ray, rec: crate::triangle::HitRecord) -> (j0: int)
    requires
        exists|j: int| 0 <= j < s.bvh.triangles@.len() && tri_hit(
            #[trigger] s.bvh.triangles@[j],
            r,
        ) == Option::Some(rec.t) && rec == crate::triangle::spec_hit_record(
            s.bvh.triangles@[j],
            r,
        ),
        forall|j: int| 0 <= j < s.bvh.triangles@.len() ==> !opt_before(
            tri_hit(#[trigger] s.bvh.triangles@[j], r),
            Option::Some(rec.t),
        ),
    ensures
        min_hit_at(s, r, j0),
        rec == crate::triangle::spec_hit_record(s.bvh.triangles@[j0], r),
{
    let tris = s.bvh.triangles@;
    let j = choose|j: int|
        0 <= j < tris.len() && tri_hit(#[trigger] tris[j], r) == Option::Some(rec.t) && rec
            == crate::triangle::spec_hit_record(tris[j], r);
    assert(forall|k: int| 0 <= k < tris.len() ==> !opt_before(
        tri_hit(#[trigger] tris[k], r),
        tri_hit(tris[j], r),
    ));
    assert(min_hit_at(s, r, j));
    j
}

/// A nearest emissive hit implies the record's material resolves, so the
/// fallback branch contradicts it.
#[verifier::rlimit(60)]
proof fn lemma_unresolved_not_emissive(
    s: Scene,
    r: Ray,
    rec: crate::triangle::HitRecord,
)
    requires
        scene_wf(s),
        exists|j: int| 0 <= j < s.bvh.triangles@.len() && tri_hit(
            #[trigger] s.bvh.triangles@[j],
            r,
        ) == Option::Some(rec.t) && rec == crate::triangle::spec_hit_record(
            s.bvh.triangles@[j],
            r,
        ),
        forall|j: int| 0 <= j < s.bvh.triangles@.len() ==> !opt_before(
            tri_hit(#[trigger] s.bvh.triangles@[j], r),
            Option::Some(rec.t),
        ),
        match rec.material_index {
            Option::Some(mi) => mi >= s.materials@.len(),
            Option::None => true,
        },
    ensures
        forall|c: Color| !spec_min_hit_emissive(s, r, c),
{
    let tris = s.bvh.triangles@;
    let j0 = choose|j: int|
        0 <= j < tris.len() && tri_hit(#[trigger] tris[j], r) == Option::Some(rec.t) && rec
            == crate::triangle::spec_hit_record(tris[j], r);
    assert forall|c: Color| !spec_min_hit_emissive(s, r, c) by {
        if spec_min_hit_emissive(s, r, c) {
            assert(forall|k: int| 0 <= k < tris.len() ==> !opt_before(
                tri_hit(#[trigger] tris[k], r),
                tri_hit(tris[j0], r),
            ));
            assert(min_hit_at(s, r, j0));
            assert(tris[j0].material_index == rec.material_index);
            assert(false);
        }
    }
}

/// A nearest hit whose material resolves contradicts the unresolved-hit
/// predicate.
#[verifier::rlimit(60)]
proof fn lemma_resolved_not_unresolved(
    s: Scene,
    r: Ray,
    rec: crate::triangle::HitRecord,
    mi: usize,
)
    requires
        scene_wf(s),
        exists|j: int| 0 <= j < s.bvh.triangles@.len() && tri_hit(
            #[trigger] s.bvh.triangles@[j],
            r,
        ) == Option::Some(rec.t) && rec == crate::triangle::spec_hit_record(
            s.bvh.triangles@[j],
            r,
        ),
        forall|j: int| 0 <= j < s.bvh.triangles@.len() ==> !opt_before(
            tri_hit(#[trigger] s.bvh.triangles@[j], r),
            Option::Some(rec.t),
        ),
        rec.material_index == Option::Some(mi),
        mi < s.materials@.len(),
    ensures
        !spec_min_hit_unresolved(s, r),
{
    let tris = s.bvh.triangles@;
    let j0 = choose|j: int|
        0 <= j < tris.len() && tri_hit(#[trigger] tris[j], r) == Option::Some(rec.t) && rec
            == crate::triangle::spec_hit_record(tris[j], r);
    if spec_min_hit_unresolved(s, r) {
        assert(forall|k: int| 0 <= k < tris.len() ==> !opt_before(
            tri_hit(#[trigger] tris[k], r),
            tri_hit(tris[j0], r),
        ));
        assert(min_hit_at(s, r, j0));
        assert(tris[j0].material_index == rec.material_index);
        assert(false);
    }
}

/// A terminal scatter on the nearest hit returns exactly the emitted color
/// whenever every nearest hit is the same emitter.
#[verifier::rlimit(60)]
proof fn lemma_terminal_matches_emissive(
    s: Scene,
    r: Ray,
    rec: crate::triangle::HitRecord,
    mi: usize,
    col: Color,
)
    requires
        scene_wf(s),
        exists|j: int| 0 <= j < s.bvh.triangles@.len() && tri_hit(
            #[trigger] s.bvh.triangles@[j],
            r,
        ) == Option::Some(rec.t) && rec == crate::triangle::spec_hit_record(
            s.bvh.triangles@[j],
            r,
        ),
        forall|j: int| 0 <= j < s.bvh.triangles@.len() ==> !opt_before(
            tri_hit(#[trigger] s.bvh.triangles@[j], r),
            Option::Some(rec.t),
        ),
        rec.material_index == Option::Some(mi),
        mi < s.materials@.len(),
        s.materials@[mi as int] is Emissive ==> col == s.materials@[mi as int]->Emissive_0.color,
    ensures
        forall|c: Color| #[trigger] spec_min_hit_emissive(s, r, c) ==> col == c,
{
    let tris = s.bvh.triangles@;
    let j0 = choose|j: int|
        0 <= j < tris.len() && tri_hit(#[trigger] tris[j], r) == Option::Some(rec.t) && rec
            == crate::triangle::spec_hit_record(tris[j], r);
    assert forall|c: Color| #[trigger] spec_min_hit_emissive(s, r, c) implies col == c by {
        assert(forall|k: int| 0 <= k < tris.len() ==> !opt_before(
            tri_hit(#[trigger] tris[k], r),
            tri_hit(tris[j0], r),
        ));
        assert(min_hit_at(s, r, j0));
        assert(tris[j0].material_index == Option::Some(mi));
        assert(s.materials@[mi as int] == Material::Emissive(Emissive { color: c }));
    }
}

/// A scatter that proposes a continuation cannot have hit an emitter, so
/// the emissive clause holds vacuously on this path.
#[verifier::rlimit(60)]
proof fn lemma_continuing_not_emissive(
    s: Scene,
    r: Ray,
    rec: crate::triangle::HitRecord,
    mi: usize,
)
    requires
        scene_wf(s),
        exists|j: int| 0 <= j < s.bvh.triangles@.len() && tri_hit(
            #[trigger] s.bvh.triangles@[j],
            r,
        ) == Option::Some(rec.t) && rec == crate::triangle::spec_hit_record(
            s.bvh.triangles@[j],
            r,
        ),
        forall|j: int| 0 <= j < s.bvh.triangles@.len() ==> !opt_before(
            tri_hit(#[trigger] s.bvh.triangles@[j], r),
            Option::Some(rec.t),
        ),
        rec.material_index == Option::Some(mi),
        mi < s.materials@.len(),
        !(s.materials@[mi as int] is Emissive),
    ensures
        forall|c: Color| !spec_min_hit_emissive(s, r, c),
{
    let tris = s.bvh.triangles@;
    let j0 = choose|j: int|
        0 <= j < tris.len() && tri_hit(#[trigger] tris[j], r) == Option::Some(rec.t) && rec
            == crate::triangle::spec_hit_record(tris[j], r);
    assert forall|c: Color| !spec_min_hit_emissive(s, r, c) by {
        if spec_min_hit_emissive(s, r, c) {
            assert(forall|k: int| 0 <= k < tris.len() ==> !opt_before(
                tri_hit(#[trigger] tris[k], r),
                tri_hit(tris[j0], r),
            ));
            assert(min_hit_at(s, r, j0));
            assert(tris[j0].material_index == rec.material_index);
            assert(false);
        }
    }
}

/// One image row: every pixel averages `AA_SIZE * AA_SIZE` jittered sample
/// paths, gamma-corrects, and packs to `0x00RRGGBB`. A pixel all of whose
/// admissible rays land on one emissive surface carries exactly its emitted
/// color, and one all of whose admissible rays miss to the same sky value
/// carries exactly that background, both through the fixed output
/// conversion.
pub fn render_line(y: usize, scene: &Scene) -> (row: Vec<u32>)
    requires
        scene_wf(*scene),
        y < scene.camera.pixel_height,
    ensures
        row@.len() == scene.camera.pixel_width,
        forall|i: int| 0 <= i < row@.len() ==> #[trigger] row@[i] <= 0xFF_FFFF,
        forall|i: int, c: Color| 0 <= i < row@.len() && #[trigger] spec_pixel_emissive(
            *scene,
            i as usize,
            y,
            c,
        ) ==> row@[i] == spec_packed(c),
        forall|i: int, c: Color| 0 <= i < row@.len() && #[trigger] spec_pixel_sky(
            *scene,
            i as usize,
            y,
            c,
        ) ==> row@[i] == spec_packed(c),
{
    let width = scene.camera.pixel_width;
    let mut row: Vec<u32> = Vec::new();
    let mut x: usize = 0;
    while x < width
        invariant
            x <= width,
            width == scene.camera.pixel_width,
            scene_wf(*scene),
            y < scene.camera.pixel_height,
            row@.len() == x,
            forall|i: int| 0 <= i < row@.len() ==> #[trigger] row@[i] <= 0xFF_FFFF,
            forall|i: int, c: Color| 0 <= i < row@.len() && #[trigger] spec_pixel_emissive(
                *scene,
                i as usize,
                y,
                c,
            ) ==> row@[i] == spec_packed(c),
            forall|i: int, c: Color| 0 <= i < row@.len() && #[trigger] spec_pixel_sky(
                *scene,
                i as usize,
                y,
                c,
            ) ==> row@[i] == spec_packed(c),
        decreases width - x,
    {
        let mut color = Color { r: 0, g: 0, b: 0 };
        let mut sample: usize = 0;
        while sample < AA_SIZE * AA_SIZE
            invariant
                sample <= AA_SIZE * AA_SIZE,
                scene_wf(*scene),
                x < scene.camera.pixel_width,
                y < scene.camera.pixel_height,
                color.r <= sample * 0x100_0000,
                color.g <= sample * 0x100_0000,
                color.b <= sample * 0x100_0000,
                forall|c: Color| #[trigger] spec_pixel_emissive(*scene, x, y, c) ==> (sample > 0
                    ==> color_wf(c)) && color.r == sample * c.r && color.g == sample * c.g
                    && color.b == sample * c.b,
                forall|c: Color| #[trigger] spec_pixel_sky(*scene, x, y, c) ==> (sample > 0
                    ==> color_wf(c)) && color.r == sample * c.r && color.g == sample * c.g
                    && color.b == sample * c.b,
            decreases AA_SIZE * AA_SIZE - sample,
        {
            let ghost pre = color;
            let ghost presample = sample as int;
            let ray = scene.camera.ray_from(x, y);
            let sc = trace_ray(ray, crate::BOUNCES, scene);
            proof {
                let (jx, jy) = choose|jx: i64, jy: i64|
                    -32768 <= jx <= 32768 && -32768 <= jy <= 32768 && ray
                        == #[trigger] spec_camera_ray(scene.camera, x, y, jx, jy);
                assert forall|c: Color| #[trigger] spec_pixel_emissive(*scene, x, y, c)
                    implies sc == c by {
                    assert(spec_min_hit_emissive(*scene, ray, c));
                }
                assert forall|c: Color| #[trigger] spec_pixel_sky(*scene, x, y, c)
                    implies sc == c && spec_misses_all(*scene, ray) by {
                    assert(spec_misses_all(*scene, ray) && spec_sky(ray) == c);
                }
            }
            color = color.add(sc);
            sample = sample + 1;
            proof {
                assert forall|c: Color| #[trigger] spec_pixel_emissive(*scene, x, y, c)
                    implies color_wf(c) && color.r == sample * c.r && color.g == sample * c.g
                    && color.b == sample * c.b by {
                    assert(sc == c);
                    assert((presample + 1) * c.r == presample * c.r + c.r) by (nonlinear_arith);
                    assert((presample + 1) * c.g == presample * c.g + c.g) by (nonlinear_arith);
                    assert((presample + 1) * c.b == presample * c.b + c.b) by (nonlinear_arith);
                }
                assert forall|c: Color| #[trigger] spec_pixel_sky(*scene, x, y, c)
                    implies color_wf(c) && color.r == sample * c.r && color.g == sample * c.g
                    && color.b == sample * c.b by {
                    assert(sc == c);
                    assert((presample + 1) * c.r == presample * c.r + c.r) by (nonlinear_arith);
                    assert((presample + 1) * c.g == presample * c.g + c.g) by (nonlinear_arith);
                    assert((presample + 1) * c.b == presample * c.b + c.b) by (nonlinear_arith);
                }
            }
        }
        let averaged = color.div_by((AA_SIZE * AA_SIZE) as u32);
        let packed = averaged.gamma_correct().into_u32();
        proof {
            assert forall|c: Color| #[trigger] spec_pixel_emissive(*scene, x, y, c)
                implies packed == spec_packed(c) by {
                lemma_average_recovers(color, c);
                assert(averaged == c);
            }
            assert forall|c: Color| #[trigger] spec_pixel_sky(*scene, x, y, c)
                implies packed == spec_packed(c) by {
                lemma_average_recovers(color, c);
                assert(averaged == c);
            }
        }
        row.push(packed);
        x = x + 1;
    }
    row
}

/// Summing one color four times and dividing by four hands it back exactly.
proof fn lemma_average_recovers(sum: Color, c: Color)
    requires
        sum.r == 4 * c.r,
        sum.g == 4 * c.g,
        sum.b == 4 * c.b,
    ensures
        sum.r as int / 4 == c.r,
        sum.g as int / 4 == c.g,
        sum.b as int / 4 == c.b,
{
    vstd::arithmetic::div_mod::lemma_div_multiples_vanish(c.r as int, 4);
    vstd::arithmetic::div_mod::lemma_div_multiples_vanish(c.g as int, 4);
    vstd::arithmetic::div_mod::lemma_div_multiples_vanish(c.b as int, 4);
}

/// The whole image, row-major: the serial render loop. Each slot
/// `y * width + x` is row `y`'s pixel `x`, so the per-pixel emissive and
/// sky guarantees of `render_line` hold of every pixel of the image.
pub fn render_scene(scene: &Scene) -> (pixels: Vec<u32>)
    requires
        scene_wf(*scene),
    ensures
        pixels@.len() == scene.camera.pixel_width * scene.camera.pixel_height,
        forall|i: int| 0 <= i < pixels@.len() ==> #[trigger] pixels@[i] <= 0xFF_FFFF,
        forall|xx: int, yy: int, c: Color|
            0 <= xx < scene.camera.pixel_width && 0 <= yy < scene.camera.pixel_height
                && #[trigger] spec_pixel_emissive(*scene, xx as usize, yy as usize, c)
                ==> pixels@[yy * scene.camera.pixel_width + xx] == spec_packed(c),
        forall|xx: int, yy: int, c: Color|
            0 <= xx < scene.camera.pixel_width && 0 <= yy < scene.camera.pixel_height
                && #[trigger] spec_pixel_sky(*scene, xx as usize, yy as usize, c)
                ==> pixels@[yy * scene.camera.pixel_width + xx] == spec_packed(c),
{
    let width = scene.camera.pixel_width;
    let height = scene.camera.pixel_height;
    let mut pixels: Vec<u32> = Vec::new();
    let mut y: usize = 0;
    proof {
        crate::math::lemma_mul_le(height as int, width as int, 65536, 65536);
    }
    while y < height
        invariant
            y <= height,
            width == scene.camera.pixel_width,
            height == scene.camera.pixel_height,
            scene_wf(*scene),
            pixels@.len() == y * width,
            y * width <= 65536 * 65536,
            forall|i: int| 0 <= i < pixels@.len() ==> #[trigger] pixels@[i] <= 0xFF_FFFF,
            forall|xx: int, yy: int, c: Color|
                0 <= xx < width && 0 <= yy < y && #[trigger] spec_pixel_emissive(
                    *scene,
                    xx as usize,
                    yy as usize,
                    c,
                ) ==> pixels@[yy * width + xx] == spec_packed(c),
            forall|xx: int, yy: int, c: Color|
                0 <= xx < width && 0 <= yy < y && #[trigger] spec_pixel_sky(
                    *scene,
                    xx as usize,
                    yy as usize,
                    c,
                ) ==> pixels@[yy * width + xx] == spec_packed(c),
        decreases height - y,
    {
        let ghost base = pixels@.len() as int;
        let ghost pixels_snap = pixels@;
        let mut row = render_line(y, scene);
        let mut i: usize = 0;
        let ghost row_snap = row@;
        let rlen = row.len();
        while i < rlen
            invariant
                i <= rlen,
                rlen == row@.len(),
                row@ == row_snap,
                forall|k: int| 0 <= k < row@.len() ==> #[trigger] row@[k] <= 0xFF_FFFF,
                base == y * width,
                pixels@.len() == y * width + i,
                y * width + rlen <= 0xFFFF_FFFF_FFFF,
                forall|k: int| 0 <= k < pixels@.len() ==> #[trigger] pixels@[k] <= 0xFF_FFFF,
                forall|k: int| 0 <= k < base ==> #[trigger] pixels@[k] == pixels_snap[k],
                forall|k: int| base <= k < pixels@.len() ==> #[trigger] pixels@[k] == row_snap[k
                    - base],
            decreases rlen - i,
        {
            let v = row[i];
            pixels.push(v);
            i = i + 1;
        }
        proof {
            assert((y + 1) * width == y * width + width) by (nonlinear_arith);
            crate::math::lemma_mul_le((y + 1) as int, width as int, 65536, 65536);
            assert forall|xx: int, yy: int, c: Color|
                0 <= xx < width && 0 <= yy < y + 1 && #[trigger] spec_pixel_emissive(
                    *scene,
                    xx as usize,
                    yy as usize,
                    c,
                ) implies pixels@[yy * width + xx] == spec_packed(c) by {
                lemma_row_slot(width as int, y as int, yy, xx);
                if yy == y {
                    assert(pixels@[yy * width + xx] == row_snap[xx]);
                } else {
                    assert(pixels@[yy * width + xx] == pixels_snap[yy * width + xx]);
                }
            }
            assert forall|xx: int, yy: int, c: Color|
                0 <= xx < width && 0 <= yy < y + 1 && #[trigger] spec_pixel_sky(
                    *scene,
                    xx as usize,
                    yy as usize,
                    c,
                ) implies pixels@[yy * width + xx] == spec_packed(c) by {
                lemma_row_slot(width as int, y as int, yy, xx);
                if yy == y {
                    assert(pixels@[yy * width + xx] == row_snap[xx]);
                } else {
                    assert(pixels@[yy * width + xx] == pixels_snap[yy * width + xx]);
                }
            }
        }
        y = y + 1;
    }
    proof {
        assert(height * width == width * height) by (nonlinear_arith);
    }
    pixels
}

/// Row-major addressing: an earlier row's slot lies before the current
/// row's base, and the current row's slots lie at `base + x`.
proof fn lemma_row_slot(width: int, y: int, yy: int, xx: int)
    requires
        0 <= xx < width,
        0 <= yy <= y,
    ensures
        yy < y ==> 0 <= yy * width + xx < y * width,
        yy == y ==> yy * width + xx == y * width + xx,
{
    if yy < y {
        assert(0 <= yy * width) by (nonlinear_arith)
            requires
                0 <= yy,
                0 <= width,
        ;
        assert((yy + 1) * width <= y * width) by (nonlinear_arith)
            requires
                yy + 1 <= y,
                0 <= width,
        ;
        assert((yy + 1) * width == yy * width + width) by (nonlinear_arith);
    }
}

} // verus!
