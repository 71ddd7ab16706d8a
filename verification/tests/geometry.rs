use raytracer::aabb::Aabb;
use raytracer::bvh::Bvh;
use raytracer::math::{isqrt_u64, div_floor_i128, Frac};
use raytracer::ray::Ray;
use raytracer::triangle::{Triangle, Vertex, Uv};
use raytracer::vec::Vec3I;

fn v(x: i64, y: i64, z: i64) -> Vec3I {
    Vec3I { x, y, z }
}

fn vert(x: i64, y: i64, z: i64) -> Vertex {
    Vertex { position: v(x, y, z), normal: v(0, 0, 65536), uv: None }
}

fn tri(a: (i64, i64, i64), b: (i64, i64, i64), c: (i64, i64, i64)) -> Triangle {
    Triangle::new(
        vert(a.0, a.1, a.2),
        vert(b.0, b.1, b.2),
        vert(c.0, c.1, c.2),
        None,
    )
}

fn frac_is(f: &Frac, num: i64, den: i64) -> bool {
    // equality of rationals by cross-multiplication
    (f.num as i128) * (den as i128) == (num as i128) * (f.den as i128)
}

#[test]
fn isqrt_values() {
    assert_eq!(isqrt_u64(0), 0);
    assert_eq!(isqrt_u64(1), 1);
    assert_eq!(isqrt_u64(3), 1);
    assert_eq!(isqrt_u64(4), 2);
    assert_eq!(isqrt_u64(65535 * 65535 + 100), 65535);
    assert_eq!(isqrt_u64(u64::MAX), 4294967295);
}

#[test]
fn div_floor_rounds_down() {
    assert_eq!(div_floor_i128(7, 2), 3);
    assert_eq!(div_floor_i128(-7, 2), -4);
    assert_eq!(div_floor_i128(-8, 2), -4);
    assert_eq!(div_floor_i128(0, 5), 0);
}

#[test]
fn aabb_slab_entry_is_one() {
    // the unit box scaled by two and a ray starting one (scaled) unit
    // before it, flying straight at it: entry distance exactly one
    let b = Aabb::new(v(0, 0, 0), v(2, 2, 2));
    let ray = Ray::new(v(-2, 1, 1), v(2, 0, 0));
    let hit = b.hit(&ray, &None).expect("frontal ray must hit the box");
    assert!(frac_is(&hit, 1, 1));
}

#[test]
fn aabb_slab_pointing_away_misses() {
    let b = Aabb::new(v(0, 0, 0), v(2, 2, 2));
    let ray = Ray::new(v(4, 1, 1), v(2, 0, 0));
    assert!(b.hit(&ray, &None).is_none());
}

#[test]
fn aabb_parallel_ray_inside_slab_hits() {
    let b = Aabb::new(v(0, 0, 0), v(2, 2, 2));
    let inside = Ray::new(v(-2, 1, 1), v(1, 0, 0));
    assert!(b.hit(&inside, &None).is_some());
    let outside = Ray::new(v(-2, 5, 1), v(1, 0, 0));
    assert!(b.hit(&outside, &None).is_none());
}

#[test]
fn triangle_hit_distance_exact() {
    // the canonical triangle scaled by four; the ray drops straight down
    // from height four, so the hit distance is exactly one
    let t = tri((0, 0, 0), (4, 0, 0), (0, 4, 0));
    let ray = Ray::new(v(1, 1, 4), v(0, 0, -4));
    let hit = t.hit(&ray).expect("interior ray must hit");
    assert!(frac_is(&hit, 1, 1));
}

#[test]
fn triangle_outside_uv_sum_misses() {
    // aimed where u + v > 1: outside the triangle
    let t = tri((0, 0, 0), (20, 0, 0), (0, 20, 0));
    let ray = Ray::new(v(18, 18, 4), v(0, 0, -4));
    assert!(t.hit(&ray).is_none());
}

#[test]
fn triangle_degenerate_misses() {
    // all three vertices on a line: zero determinant, silently no hit
    let t = tri((0, 0, 0), (4, 0, 0), (8, 0, 0));
    let ray = Ray::new(v(1, 1, 4), v(0, 0, -4));
    assert!(t.hit(&ray).is_none());
}

#[test]
fn triangle_behind_origin_misses() {
    let t = tri((0, 0, 0), (4, 0, 0), (0, 4, 0));
    let ray = Ray::new(v(1, 1, 4), v(0, 0, 4));
    assert!(t.hit(&ray).is_none());
}

struct Lcg(u64);

impl Lcg {
    fn next(&mut self) -> u64 {
        self.0 = self
            .0
            .wrapping_mul(6364136223846793005)
            .wrapping_add(1442695040888963407);
        self.0 >> 16
    }

    fn coord(&mut self) -> i64 {
        (self.next() % 2000) as i64 - 1000
    }
}

fn random_soup(seed: u64, n: usize) -> Vec<Triangle> {
    let mut g = Lcg(seed);
    let mut tris = Vec::new();
    for _ in 0..n {
        tris.push(tri(
            (g.coord(), g.coord(), g.coord()),
            (g.coord(), g.coord(), g.coord()),
            (g.coord(), g.coord(), g.coord()),
        ));
    }
    tris
}

fn brute_force_min(tris: &Vec<Triangle>, ray: &Ray) -> Option<Frac> {
    let mut best: Option<Frac> = None;
    for t in tris.iter() {
        if let Some(d) = t.hit(ray) {
            let better = match &best {
                Some(b) => (d.num as i128) * (b.den as i128) < (b.num as i128) * (d.den as i128),
                None => true,
            };
            if better {
                best = Some(d);
            }
        }
    }
    best
}

#[test]
fn bvh_matches_brute_force() {
    // the hierarchy must report exactly the brute-force nearest hit
    // distance for every ray, on several random soups
    for seed in 1..4u64 {
        let tris = random_soup(seed, 60);
        let bvh = Bvh::new(tris);
        let mut g = Lcg(seed ^ 0xabcdef);
        for _ in 0..25 {
            let ray = Ray::new(
                v(g.coord(), g.coord(), g.coord()),
                v(g.coord() / 4 + 1, g.coord() / 4, g.coord() / 4),
            );
            let brute = brute_force_min(&bvh.triangles, &ray);
            let fast = bvh.intersects(&ray);
            match (brute, fast) {
                (None, None) => {},
                (Some(b), Some(rec)) => {
                    assert!(
                        frac_is(&rec.t, b.num, b.den),
                        "hierarchy and brute force disagree on the nearest distance"
                    );
                },
                (b, f) => panic!("hit disagreement: brute {:?} fast {:?}", b.is_some(), f.is_some()),
            }
        }
    }
}

#[test]
fn bvh_leaves_partition_buffer() {
    // walking leaves left to right must cover the whole buffer without
    // overlap or gap
    let tris = random_soup(7, 50);
    let n = tris.len();
    let bvh = Bvh::new(tris);
    let mut stack = vec![0usize];
    let mut expected_first = 0usize;
    while let Some(i) = stack.pop() {
        let node = &bvh.nodes[i];
        if node.tri_count > 0 {
            assert_eq!(node.first_tri, expected_first, "leaf ranges must be contiguous");
            expected_first += node.tri_count;
        } else {
            // right child after the left one, so push it first
            stack.push(node.left_child + 1);
            stack.push(node.left_child);
        }
    }
    assert_eq!(expected_first, n, "leaf ranges must cover the whole buffer");
}

#[test]
fn bvh_build_is_deterministic() {
    let a = Bvh::new(random_soup(99, 40));
    let b = Bvh::new(random_soup(99, 40));
    assert_eq!(a.nodes_used, b.nodes_used);
    assert_eq!(a.nodes.len(), b.nodes.len());
    for i in 0..a.nodes.len() {
        assert_eq!(a.nodes[i], b.nodes[i], "node arrays must be structurally identical");
    }
    assert_eq!(a.triangles.len(), b.triangles.len());
    for i in 0..a.triangles.len() {
        assert_eq!(a.triangles[i], b.triangles[i]);
    }
}

#[test]
fn create_record_interpolates_and_flips() {
    let mut t = tri((0, 0, 0), (4, 0, 0), (0, 4, 0));
    t.v1.uv = Some(Uv { u: 0, v: 0 });
    t.v2.uv = Some(Uv { u: 65536, v: 0 });
    t.v3.uv = Some(Uv { u: 0, v: 65536 });
    // from above, against the +z normal: a front face for a downward ray
    let ray = Ray::new(v(1, 1, 4), v(0, 0, -4));
    let hit = t.hit(&ray).unwrap();
    let rec = t.create_record(&ray, &hit);
    assert!(rec.front_face);
    assert_eq!(rec.normal, v(0, 0, 65536));
    assert_eq!(rec.point, v(1, 1, 0));
    let uv = rec.uv.unwrap();
    // barycentric weights 1/4 each for the second and third vertex
    assert_eq!(uv.u, 16384);
    assert_eq!(uv.v, 16384);
    // from below: the geometric normal opposes, so it must flip
    let ray_up = Ray::new(v(1, 1, -4), v(0, 0, 4));
    let hit_up = t.hit(&ray_up).unwrap();
    let rec_up = t.create_record(&ray_up, &hit_up);
    assert!(!rec_up.front_face);
    assert_eq!(rec_up.normal, v(0, 0, -65536));
}

#[test]
fn bvh_prunes_against_best_hit() {
    // a near triangle and a far triangle on the same ray: the near one wins
    let near = tri((-10, -10, 10), (20, -10, 10), (-10, 20, 10));
    let far = tri((-10, -10, 100), (20, -10, 100), (-10, 20, 100));
    let bvh = Bvh::new(vec![far, near]);
    let ray = Ray::new(v(0, 0, 0), v(0, 0, 5));
    let rec = bvh.intersects(&ray).unwrap();
    assert!(frac_is(&rec.t, 2, 1));
}

#[test]
fn bvh_node_count_within_budget() {
    // a hierarchy over n triangles never allocates more than 2n - 1 nodes
    for n in [1usize, 2, 7, 40] {
        let bvh = Bvh::new(random_soup(7, n));
        assert!(1 <= bvh.nodes_used && bvh.nodes_used <= 2 * n - 1);
        assert_eq!(bvh.nodes_used, bvh.nodes.len());
    }
}

#[test]
fn root_box_is_tight_over_all_vertices() {
    let soup = random_soup(3, 12);
    let mut lo = v(i64::MAX, i64::MAX, i64::MAX);
    let mut hi = v(i64::MIN, i64::MIN, i64::MIN);
    for t in soup.iter() {
        for p in [t.v1.position, t.v2.position, t.v3.position] {
            lo = Vec3I { x: lo.x.min(p.x), y: lo.y.min(p.y), z: lo.z.min(p.z) };
            hi = Vec3I { x: hi.x.max(p.x), y: hi.y.max(p.y), z: hi.z.max(p.z) };
        }
    }
    let bvh = Bvh::new(soup);
    assert_eq!(bvh.nodes[0].aabb.minimum, lo);
    assert_eq!(bvh.nodes[0].aabb.maximum, hi);
}
