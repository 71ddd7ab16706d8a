use raytracer::bvh::Bvh;
use raytracer::camera::Camera;
use raytracer::color::Color;
use raytracer::material::{Material, Diffuse, Metal, Glass, Emissive};
use raytracer::ray::Ray;
use raytracer::render::{trace_ray, render_scene, sky_color};
use raytracer::sampler::Sampler;
use raytracer::scene::Scene;
use raytracer::statistics::{Statistics, usize_to_string};
use raytracer::texture::Texture;
use raytracer::triangle::{Triangle, Vertex, Uv};
use raytracer::vec::Vec3I;
use raytracer::image::Image;

fn v(x: i64, y: i64, z: i64) -> Vec3I {
    Vec3I { x, y, z }
}

fn vert(x: i64, y: i64, z: i64) -> Vertex {
    Vertex { position: v(x, y, z), normal: v(0, 0, 65536), uv: None }
}

fn big_triangle(z: i64) -> Triangle {
    Triangle::new(
        vert(-400000, -400000, z),
        vert(400000, -400000, z),
        vert(0, 400000, z),
        Some(0),
    )
}

fn straight_camera(width: usize, height: usize, toward_negative_z: bool) -> Camera {
    let zrow = if toward_negative_z { v(0, 0, 65536) } else { v(0, 0, -65536) };
    // zero pitch: every pixel looks exactly along the axis, so the test is
    // independent of sub-pixel jitter
    Camera::new(
        width,
        height,
        0,
        100,
        v(65536, 0, 0),
        v(0, 65536, 0),
        zrow,
        v(0, 0, 0),
    )
}

#[test]
fn color_mul_never_amplifies() {
    let a = Color::rgb(30000, 65536, 0);
    let b = Color::rgb(50000, 123, 70000);
    let m = a.mul(b);
    assert!(m.r <= b.r && m.g <= b.g && m.b <= b.b);
    assert_eq!(m.g, b.g);
    assert_eq!(m.b, 0);
}

#[test]
fn color_gamma_and_packing() {
    let black = Color::rgb(0, 0, 0);
    assert_eq!(black.gamma_correct().into_u32(), 0);
    let white = Color::rgb(65536, 65536, 65536);
    assert_eq!(white.gamma_correct().into_u32(), 0xFFFFFF);
    // below the 0.0031308 knee the transfer is linear: 12.92 * c
    let dark = Color::rgb(100, 100, 100);
    assert_eq!(dark.gamma_correct().r, 1292);
    // a quarter intensity maps through the sRGB power branch:
    // 1.055 * 0.25^(1/2.4) - 0.055, about 0.537
    let quarter = Color::rgb(16384, 16384, 16384);
    let g = quarter.gamma_correct();
    assert_eq!(g.r, 35198);
    // half and three-quarter intensity, same branch
    assert_eq!(Color::rgb(32768, 0, 0).gamma_correct().r, 48191);
    assert_eq!(Color::rgb(49152, 0, 0).gamma_correct().r, 57724);
    // overbright channels clamp before packing
    let hot = Color::rgb(200000, 0, 0);
    assert_eq!(hot.gamma_correct().into_u32(), 255 * 65536);
}

#[test]
fn gamma_is_monotone_across_the_knee() {
    // the knee sits between 205 and 206 on the fixed-point scale; the curve
    // must not dip when the branch switches
    let mut prev = 0u32;
    for c in [0u32, 1, 100, 205, 206, 207, 500, 4096, 16384, 32768, 65535, 65536] {
        let g = Color::rgb(c, 0, 0).gamma_correct().r;
        assert!(g >= prev, "gamma dipped at {}", c);
        prev = g;
    }
    assert_eq!(Color::rgb(205, 0, 0).gamma_correct().r, 2648);
    assert_eq!(Color::rgb(206, 0, 0).gamma_correct().r, 2661);
}

#[test]
fn texture_nearest_and_wraparound() {
    // a two-by-one texture: left black, right white
    let pixels = vec![Color::rgb(0, 0, 0), Color::rgb(65536, 65536, 65536)];
    let t = Texture::new(2, 1, pixels);
    let left = t.sample(Uv { u: 0, v: 0 });
    assert_eq!(left.r, 0);
    let right = t.sample(Uv { u: 65535, v: 0 });
    assert_eq!(right.r, 65536);
    // wraparound: one full period to the right lands on the same texel
    let wrapped = t.sample(Uv { u: 65536, v: 0 });
    assert_eq!(wrapped.r, 0);
    let wrapped_right = t.sample(Uv { u: 65536 + 65535, v: 0 });
    assert_eq!(wrapped_right.r, 65536);
}

#[test]
fn sampler_missing_coordinates_fall_back() {
    let pixels = vec![Color::rgb(0, 65536, 0)];
    let textures = vec![Texture::new(1, 1, pixels)];
    let s = Sampler::Texture(0);
    let c = s.sample(None, &textures);
    // the reserved magenta fallback marks the data problem
    assert_eq!((c.r, c.g, c.b), (65536, 0, 65536));
    let ok = s.sample(Some(Uv { u: 0, v: 0 }), &textures);
    assert_eq!((ok.r, ok.g, ok.b), (0, 65536, 0));
}

fn hit_record_for(t: &Triangle, ray: &Ray) -> raytracer::triangle::HitRecord {
    let f = t.hit(ray).expect("test geometry must be hit");
    t.create_record(ray, &f)
}

#[test]
fn metal_scatter_conserves_energy() {
    let t = big_triangle(10);
    let ray = Ray::new(v(0, 0, 0), v(0, 0, 5));
    let rec = hit_record_for(&t, &ray);
    let base = Color::rgb(40000, 50000, 60000);
    let m = Material::Metal(Metal { color_sampler: Sampler::Color(base), roughness: 16384 });
    let textures: Vec<Texture> = Vec::new();
    let ru = v(0, 65536, 0);
    let (_cont, col) = m.scatter_with(&ray, &rec, &textures, &ru, 100);
    assert!(col.r <= base.r && col.g <= base.g && col.b <= base.b);
}

#[test]
fn glass_scatter_conserves_energy_and_continues() {
    let t = big_triangle(10);
    let ray = Ray::new(v(0, 0, 0), v(0, 0, 5));
    let rec = hit_record_for(&t, &ray);
    let base = Color::rgb(60000, 65536, 62000);
    let m = Material::Glass(Glass { color_sampler: Sampler::Color(base) });
    let textures: Vec<Texture> = Vec::new();
    let ru = v(0, 65536, 0);
    for rf in [0i64, 20000, 65535] {
        let (cont, col) = m.scatter_with(&ray, &rec, &textures, &ru, rf);
        assert!(cont.is_some(), "glass always proposes a continuation");
        assert!(col.r <= base.r && col.g <= base.g && col.b <= base.b);
    }
}

#[test]
fn diffuse_scatter_continues_with_base_color() {
    let t = big_triangle(10);
    let ray = Ray::new(v(0, 0, 0), v(0, 0, 5));
    let rec = hit_record_for(&t, &ray);
    let base = Color::rgb(100, 200, 300);
    let m = Material::Diffuse(Diffuse { color_sampler: Sampler::Color(base) });
    let textures: Vec<Texture> = Vec::new();
    let (cont, col) = m.scatter_with(&ray, &rec, &textures, &v(0, 65536, 0), 0);
    assert!(cont.is_some());
    assert_eq!((col.r, col.g, col.b), (100, 200, 300));
}

#[test]
fn emissive_scatter_terminates() {
    let t = big_triangle(10);
    let ray = Ray::new(v(0, 0, 0), v(0, 0, 5));
    let rec = hit_record_for(&t, &ray);
    let m = Material::Emissive(Emissive { color: Color::rgb(1, 2, 3) });
    let textures: Vec<Texture> = Vec::new();
    let (cont, col) = m.scatter_with(&ray, &rec, &textures, &v(0, 65536, 0), 0);
    assert!(cont.is_none(), "emission ends the path");
    assert_eq!((col.r, col.g, col.b), (1, 2, 3));
}

fn emissive_scene(width: usize, height: usize) -> Scene {
    let tris = vec![big_triangle(-200)];
    let bvh = Bvh::new(tris);
    let materials = vec![Material::Emissive(Emissive {
        color: Color::rgb(65536, 65536, 65536),
    })];
    Scene::new(
        String::from("glow"),
        straight_camera(width, height, true),
        bvh,
        materials,
        Vec::new(),
    )
}

#[test]
fn emissive_panel_renders_exactly() {
    // a single emissive triangle covering the whole view: every pixel is
    // exactly the emitted color, gamma-corrected white
    let scene = emissive_scene(4, 3);
    let pixels = render_scene(&scene);
    assert_eq!(pixels.len(), 12);
    for p in pixels {
        assert_eq!(p, 0xFFFFFF);
    }
}

#[test]
fn sky_renders_outside_silhouette() {
    // the same scene looked at from behind: nothing is hit, so every pixel
    // equals the background gradient for the (jitter-independent) ray
    let tris = vec![big_triangle(-200)];
    let bvh = Bvh::new(tris);
    let materials = vec![Material::Emissive(Emissive {
        color: Color::rgb(65536, 65536, 65536),
    })];
    let scene = Scene::new(
        String::from("sky"),
        straight_camera(2, 2, false),
        bvh,
        materials,
        Vec::new(),
    );
    let ray = scene.camera.ray_from_with(0, 0, 0, 0);
    let expected = sky_color(&ray).gamma_correct().into_u32();
    let pixels = render_scene(&scene);
    assert_eq!(pixels.len(), 4);
    for p in pixels {
        assert_eq!(p, expected);
    }
}

#[test]
fn trace_depth_zero_is_black() {
    let scene = emissive_scene(2, 2);
    let ray = scene.camera.ray_from_with(0, 0, 0, 0);
    let c = trace_ray(ray, 0, &scene);
    assert_eq!((c.r, c.g, c.b), (0, 0, 0));
}

#[test]
fn unresolved_material_shades_fallback() {
    // the triangle references no material at all
    let mut t = big_triangle(-200);
    t.material_index = None;
    let bvh = Bvh::new(vec![t]);
    let scene = Scene::new(
        String::from("bad"),
        straight_camera(2, 2, true),
        bvh,
        Vec::new(),
        Vec::new(),
    );
    let ray = scene.camera.ray_from_with(0, 0, 0, 0);
    let c = trace_ray(ray, 4, &scene);
    assert_eq!((c.r, c.g, c.b), (65536, 0, 65536));
}

#[test]
fn decimal_rendering() {
    assert_eq!(usize_to_string(0), "0");
    assert_eq!(usize_to_string(7), "7");
    assert_eq!(usize_to_string(12345), "12345");
    assert_eq!(usize_to_string(1000000), "1000000");
}

#[test]
fn statistics_rows_align() {
    let mut s = Statistics::new();
    s.add_str("Resolution", "64x64");
    s.add("Samples", 32);
    assert_eq!(s.header, "| Resolution | Samples |");
    assert_eq!(s.values, "| 64x64      | 32      |");
}

#[test]
fn image_holds_its_buffer() {
    let img = Image::new(2, 2, vec![1, 2, 3, 4]);
    assert_eq!(img.width, 2);
    assert_eq!(img.height, 2);
    assert_eq!(img.bytes, vec![1, 2, 3, 4]);
}

#[test]
fn random_draws_stay_in_range() {
    for _ in 0..50 {
        let d = raytracer::rng::rand_i64(-3, 7);
        assert!(-3 <= d && d <= 7);
    }
    assert_eq!(raytracer::rng::rand_i64(5, 5), 5);
    for _ in 0..20 {
        let u = raytracer::rng::random_unit_vector();
        assert!(u.x.abs() <= 65536 && u.y.abs() <= 65536 && u.z.abs() <= 65536);
        let l2 = (u.x as i128) * (u.x as i128) + (u.y as i128) * (u.y as i128) + (u.z as i128)
            * (u.z as i128);
        assert!(65536i128 * 65536 - 393216 <= l2 && l2 <= 65536i128 * 65536 + 655363);
    }
}

#[test]
fn diffuse_direction_lands_in_normal_hemisphere() {
    let t = big_triangle(10);
    let ray = Ray::new(v(0, 0, 0), v(0, 0, 5));
    let rec = hit_record_for(&t, &ray);
    assert_eq!(rec.normal, v(0, 0, -65536));
    let base = Color::rgb(100, 100, 100);
    let m = Material::Diffuse(Diffuse { color_sampler: Sampler::Color(base) });
    let textures: Vec<Texture> = Vec::new();
    // a draw below the shading normal's plane is flipped onto the hemisphere
    let (cont, _) = m.scatter_with(&ray, &rec, &textures, &v(0, 0, 65536), 0);
    assert_eq!(cont.unwrap().direction, v(0, 0, -65536));
    // one already in the hemisphere is kept as drawn
    let (cont2, _) = m.scatter_with(&ray, &rec, &textures, &v(39322, 0, -52429), 0);
    assert_eq!(cont2.unwrap().direction, v(39322, 0, -52429));
}

#[test]
fn byte_colors_rescale_exactly() {
    let c = Color::rgb_u8(255, 0, 51);
    assert_eq!(c.r, 65536);
    assert_eq!(c.g, 0);
    assert_eq!(c.b, 51 * 65536 / 255);
}

#[test]
fn progress_bar_renders() {
    let mut pb = raytracer::progress_bar::ProgressBar::new(5);
    let line = pb.update();
    assert_eq!(line, "[                    ] | 0% | 0/5");
    assert_eq!(pb.pos, 1);
    let line2 = pb.update();
    assert_eq!(line2, "[####                ] | 20% | 1/5");
}
