use vstd::prelude::*;

use crate::math::{Frac, frac_wf, frac_lt, frac_lt_x, lemma_mul_le};
use vstd::arithmetic::power2::pow2;
use crate::vec::{Vec3I, axis_of};
use crate::ray::{Ray, ray_wf};
use crate::aabb::{Aabb, aabb_wf, aabb_nonempty, point_in_box, slab_hit, t_in_box, spec_area};
use crate::triangle::{
    Triangle, tri_wf, tri_hit, HitRecord, spec_hit_record, hit_record_wf,
};

verus! {

/// Index of the root node: always the first entry of the node array.
pub const ROOT_IDX: usize = 0;

/// Candidate split planes per axis are placed at the `SPACES - 1` interior
/// even subdivisions of the node's extent.
pub const SPACES: usize = 10;

/// One node of the hierarchy: its bounding box, the index of its left child
/// (the right child is the next entry), and the owned triangle range. A node
/// is a leaf exactly when `tri_count > 0`.
#[derive(Clone, Copy, Debug, PartialEq, Eq, Structural)]
pub struct BvhNode {
    pub aabb: Aabb,
    pub left_child: usize,
    pub first_tri: usize,
    pub tri_count: usize,
}

/// The hierarchy: the node array (index 0 is the root), the owned and
/// reordered triangle buffer, the number of nodes in use, and the ghost
/// record of the triangle range each node owns (for internal nodes the
/// executable code zeroes `tri_count`, so the range is kept in ghost state).
pub struct Bvh {
    pub nodes: Vec<BvhNode>,
    pub triangles: Vec<Triangle>,
    pub nodes_used: usize,
    pub ranges: Ghost<Seq<(int, int)>>,
}

pub open spec fn tri_in_box(b: Aabb, t: Triangle) -> bool {
    &&& point_in_box(b, t.v1.position)
    &&& point_in_box(b, t.v2.position)
    &&& point_in_box(b, t.v3.position)
}

/// The sentinel empty box: the identity of box growth.
pub open spec fn spec_empty_box() -> Aabb {
    Aabb {
        minimum: Vec3I { x: 524288i64, y: 524288i64, z: 524288i64 },
        maximum: Vec3I { x: -524288i64, y: -524288i64, z: -524288i64 },
    }
}

/// A box grown over the three vertices of one triangle.
pub open spec fn grow_tri(b: Aabb, t: Triangle) -> Aabb {
    Aabb {
        minimum: crate::vec::spec_min3(
            crate::vec::spec_min3(crate::vec::spec_min3(b.minimum, t.v1.position), t.v2.position),
            t.v3.position,
        ),
        maximum: crate::vec::spec_max3(
            crate::vec::spec_max3(crate::vec::spec_max3(b.maximum, t.v1.position), t.v2.position),
            t.v3.position,
        ),
    }
}

/// The box of a triangle range: the fold of `grow_tri` from the empty
/// sentinel, exactly what the builder computes — the tight box over every
/// vertex of the range, and the sentinel itself when the range is empty.
pub open spec fn range_box(tris: Seq<Triangle>, f: int, j: int) -> Aabb
    decreases j - f,
{
    if j <= f {
        spec_empty_box()
    } else {
        grow_tri(range_box(tris, f, j - 1), tris[j - 1])
    }
}

/// Local well-formedness of one node against the ghost range table: its box
/// bounds every triangle it owns; a leaf's stored range agrees with the
/// table; an internal node's children partition its range contiguously.
pub open spec fn node_ok(
    nodes: Seq<BvhNode>,
    tris: Seq<Triangle>,
    rg: Seq<(int, int)>,
    i: int,
) -> bool {
    let n = nodes[i];
    let f = rg[i].0;
    let c = rg[i].1;
    &&& aabb_wf(n.aabb)
    &&& 0 <= f
    &&& 0 <= c
    &&& f + c <= tris.len()
    &&& forall|j: int| f <= j < f + c ==> tri_in_box(n.aabb, #[trigger] tris[j])
    &&& if n.tri_count > 0 {
        n.first_tri == f && n.tri_count == c
    } else {
        let l = n.left_child as int;
        &&& i < l
        &&& l + 1 < nodes.len()
        &&& rg[l].0 == f
        &&& rg[l + 1].0 == f + rg[l].1
        &&& rg[l].1 + rg[l + 1].1 == c
        &&& rg[l].1 >= 1
        &&& rg[l + 1].1 >= 1
    }
}

/// Distinct leaves own disjoint ranges, and any node range that meets a
/// leaf's range contains it whole: the ranges form a laminar family, which
/// is what lets the builder permute a leaf's triangles in place.
pub open spec fn ranges_laminar(nodes: Seq<BvhNode>, rg: Seq<(int, int)>) -> bool {
    &&& forall|i: int, k: int|
        #![trigger rg[i], rg[k]]
        0 <= i < nodes.len() && 0 <= k < nodes.len() && nodes[i].tri_count > 0 && !(rg[i].0
            + rg[i].1 <= rg[k].0 || rg[k].0 + rg[k].1 <= rg[i].0) ==> rg[k].0 <= rg[i].0
            && rg[i].0 + rg[i].1 <= rg[k].0 + rg[k].1
    &&& forall|i: int, k: int|
        #![trigger rg[i], rg[k]]
        0 <= i < nodes.len() && 0 <= k < nodes.len() && i != k && nodes[i].tri_count > 0
            && nodes[k].tri_count > 0 ==> (rg[i].0 + rg[i].1 <= rg[k].0 || rg[k].0 + rg[k].1
            <= rg[i].0)
}

pub open spec fn bvh_wf(b: Bvh) -> bool {
    &&& b.nodes_used == b.nodes@.len()
    &&& b.ranges@.len() == b.nodes@.len()
    &&& b.nodes@.len() >= 1
    &&& b.ranges@[0] == (0int, b.triangles@.len() as int)
    &&& forall|j: int| 0 <= j < b.triangles@.len() ==> tri_wf(#[trigger] b.triangles@[j])
    &&& forall|i: int| 0 <= i < b.nodes@.len() ==> #[trigger] node_ok(
        b.nodes@,
        b.triangles@,
        b.ranges@,
        i,
    )
    &&& ranges_laminar(b.nodes@, b.ranges@)
}

/// Position `j` of the new buffer holds a value the old buffer held inside
/// the window `[f, f+c)`.
pub open spec fn came_from(
    new: Seq<Triangle>,
    old_s: Seq<Triangle>,
    f: int,
    c: int,
    j: int,
) -> bool {
    old_s.subrange(f, f + c).contains(new[j])
}

/// The new buffer holds, inside `[f, f+c)`, only values the old buffer held
/// inside the same window, and is untouched elsewhere.
pub open spec fn from_range(
    new: Seq<Triangle>,
    old_s: Seq<Triangle>,
    f: int,
    c: int,
) -> bool {
    &&& new.len() == old_s.len()
    &&& forall|j: int| 0 <= j < new.len() && !(f <= j < f + c) ==> #[trigger] new[j] == old_s[j]
    &&& forall|j: int| f <= j < f + c ==> #[trigger] came_from(new, old_s, f, c, j)
}


/// Left side of a candidate split: the triangle's centroid lies strictly
/// below the plane `pn / SPACES` on the given axis (the centroid is stored
/// times three, so both sides are scaled to clear the denominators).
pub open spec fn goes_left(t: Triangle, axis: int, pn: int) -> bool {
    10 * axis_of(t.centroid3, axis) < 3 * pn
}

fn goes_left_x(t: &Triangle, axis: usize, pn: i64) -> (r: bool)
    requires
        tri_wf(*t),
        axis < 3,
        -10485760 <= pn <= 10485760,
    ensures
        r == goes_left(*t, axis as int, pn as int),
{
    let c = t.centroid3.axis(axis);
    10 * c < 3 * pn
}

/// The scaled candidate plane numbered `k` of a box: axes in ascending
/// order, nine interior planes each (`k / 9` is the axis, `k % 9 + 1` the
/// subdivision), the plane carrying the factor ten that `goes_left` expects.
pub open spec fn spec_plane_of(b: Aabb, k: int) -> int {
    (10 - (k % 9 + 1)) * axis_of(b.minimum, k / 9) + (k % 9 + 1) * axis_of(b.maximum, k / 9)
}

/// Candidate `k` lies on a flat axis of the box and is skipped.
pub open spec fn spec_axis_flat(b: Aabb, k: int) -> bool {
    axis_of(b.minimum, k / 9) == axis_of(b.maximum, k / 9)
}

/// The cheapest of the first `k` candidates, as `(axis, plane, cost)`; on a
/// tie the earliest candidate stands (ascending axis, then ascending plane:
/// a later candidate wins only by strict improvement).
pub open spec fn spec_best_upto(tris: Seq<Triangle>, f: int, c: int, b: Aabb, k: int) -> Option<
    (int, int, int),
>
    decreases k,
{
    if k <= 0 {
        Option::<(int, int, int)>::None
    } else {
        let prev = spec_best_upto(tris, f, c, b, k - 1);
        if spec_axis_flat(b, k - 1) {
            prev
        } else {
            match spec_sah_cost(tris, f, c, (k - 1) / 9, spec_plane_of(b, k - 1)) {
                Option::None => prev,
                Option::Some(cv) => match prev {
                    Option::None => Option::Some(((k - 1) / 9, spec_plane_of(b, k - 1), cv)),
                    Option::Some(pv) => if cv < pv.2 {
                        Option::Some(((k - 1) / 9, spec_plane_of(b, k - 1), cv))
                    } else {
                        prev
                    },
                },
            }
        }
    }
}

/// The cheapest of all twenty-seven candidate planes (three axes, nine
/// interior planes each, flat axes skipped).
pub open spec fn spec_best_split(tris: Seq<Triangle>, f: int, c: int, b: Aabb) -> Option<
    (int, int, int),
> {
    spec_best_upto(tris, f, c, b, 27)
}

/// The split rule of the builder: a leaf is split exactly when the best
/// candidate's cost strictly beats the cost of leaving it whole.
pub open spec fn spec_should_split(tris: Seq<Triangle>, f: int, c: int, b: Aabb) -> bool {
    match spec_best_split(tris, f, c, b) {
        Option::None => false,
        Option::Some(bs) => bs.2 < c * spec_area(b),
    }
}

/// The executable best-candidate state matches the spec fold.
spec fn best_matches(bc: Option<i128>, ba: usize, bp: i64, s: Option<(int, int, int)>) -> bool {
    match bc {
        Option::None => s is None,
        Option::Some(cv) => s is Some && ba as int == s->Some_0.0 && bp as int == s->Some_0.1
            && cv as int == s->Some_0.2,
    }
}

/// Candidates on flat axes leave the running best untouched.
proof fn lemma_best_skip_flat(tris: Seq<Triangle>, f: int, c: int, b: Aabb, k0: int, k1: int)
    requires
        0 <= k0 <= k1,
        forall|k: int| k0 <= k < k1 ==> #[trigger] spec_axis_flat(b, k),
    ensures
        spec_best_upto(tris, f, c, b, k1) == spec_best_upto(tris, f, c, b, k0),
    decreases k1 - k0,
{
    if k0 < k1 {
        lemma_best_skip_flat(tris, f, c, b, k0, k1 - 1);
    }
}

/// The best candidate's cost is the cost of its own plane.
proof fn lemma_best_cost_sound(tris: Seq<Triangle>, f: int, c: int, b: Aabb, k: int)
    requires
        spec_best_upto(tris, f, c, b, k) is Some,
    ensures
        ({
            let bs = spec_best_upto(tris, f, c, b, k)->Some_0;
            spec_sah_cost(tris, f, c, bs.0, bs.1) == Option::Some(bs.2)
        }),
    decreases k,
{
    if k > 0 {
        let prev = spec_best_upto(tris, f, c, b, k - 1);
        if spec_best_upto(tris, f, c, b, k) == prev {
            lemma_best_cost_sound(tris, f, c, b, k - 1);
        }
    }
}

/// The two bucket counts of a scan are nonnegative and total the window.
proof fn lemma_scan_total(tris: Seq<Triangle>, f: int, j: int, axis: int, pn: int)
    requires
        f <= j,
    ensures
        sah_scan(tris, f, j, axis, pn).0 + sah_scan(tris, f, j, axis, pn).2 == j - f,
        sah_scan(tris, f, j, axis, pn).0 >= 0,
        sah_scan(tris, f, j, axis, pn).2 >= 0,
    decreases j - f,
{
    if f < j {
        lemma_scan_total(tris, f, j - 1, axis, pn);
    }
}

/// A positive left count names a left-going member of the window, and a
/// positive right count a right-going one.
proof fn lemma_scan_members(tris: Seq<Triangle>, f: int, j: int, axis: int, pn: int)
    requires
        f <= j,
    ensures
        sah_scan(tris, f, j, axis, pn).0 > 0 ==> exists|jj: int|
            f <= jj < j && goes_left(#[trigger] tris[jj], axis, pn),
        sah_scan(tris, f, j, axis, pn).2 > 0 ==> exists|jj: int|
            f <= jj < j && !goes_left(#[trigger] tris[jj], axis, pn),
    decreases j - f,
{
    if f < j {
        lemma_scan_members(tris, f, j - 1, axis, pn);
        if goes_left(tris[j - 1], axis, pn) {
            assert(f <= j - 1 < j && goes_left(tris[j - 1], axis, pn));
        } else {
            assert(f <= j - 1 < j && !goes_left(tris[j - 1], axis, pn));
        }
    }
}

/// A reordering that leaves everything outside a window untouched and the
/// whole buffer's multiset intact keeps the window's multiset too.
proof fn lemma_window_multiset(cur: Seq<Triangle>, orig: Seq<Triangle>, f: int, c: int)
    requires
        cur.len() == orig.len(),
        0 <= f,
        0 <= c,
        f + c <= cur.len(),
        forall|j: int| 0 <= j < cur.len() && !(f <= j < f + c) ==> #[trigger] cur[j] == orig[j],
        cur.to_multiset() == orig.to_multiset(),
    ensures
        cur.subrange(f, f + c).to_multiset() == orig.subrange(f, f + c).to_multiset(),
{
    broadcast use vstd::multiset::group_multiset_axioms;

    let n = cur.len() as int;
    let c1 = cur.subrange(0, f);
    let c2 = cur.subrange(f, f + c);
    let c3 = cur.subrange(f + c, n);
    let o1 = orig.subrange(0, f);
    let o2 = orig.subrange(f, f + c);
    let o3 = orig.subrange(f + c, n);
    assert(cur =~= (c1 + c2) + c3);
    assert(orig =~= (o1 + o2) + o3);
    vstd::seq_lib::lemma_multiset_commutative(c1 + c2, c3);
    vstd::seq_lib::lemma_multiset_commutative(c1, c2);
    vstd::seq_lib::lemma_multiset_commutative(o1 + o2, o3);
    vstd::seq_lib::lemma_multiset_commutative(o1, o2);
    assert(c1 =~= o1);
    assert(c3 =~= o3);
    assert forall|t: Triangle| c2.to_multiset().count(t) == #[trigger] o2.to_multiset().count(
        t,
    ) by {
        assert(cur.to_multiset().count(t) == c1.to_multiset().count(t) + c2.to_multiset().count(
            t,
        ) + c3.to_multiset().count(t));
        assert(orig.to_multiset().count(t) == o1.to_multiset().count(t) + o2.to_multiset().count(
            t,
        ) + o3.to_multiset().count(t));
    }
    assert(c2.to_multiset() =~= o2.to_multiset());
}

/// A winning candidate has both sides nonempty, so partitioning the window
/// in place around its plane cannot degenerate.
proof fn lemma_partition_nondegenerate(
    cur: Seq<Triangle>,
    orig: Seq<Triangle>,
    f: int,
    c: int,
    mid: int,
    axis: int,
    pn: int,
)
    requires
        cur.len() == orig.len(),
        0 <= f,
        1 <= c,
        f + c <= cur.len(),
        f <= mid <= f + c,
        forall|j: int| 0 <= j < cur.len() && !(f <= j < f + c) ==> #[trigger] cur[j] == orig[j],
        cur.to_multiset() == orig.to_multiset(),
        forall|j: int| f <= j < mid ==> goes_left(#[trigger] cur[j], axis, pn),
        forall|j: int| mid <= j < f + c ==> !goes_left(#[trigger] cur[j], axis, pn),
        spec_sah_cost(orig, f, c, axis, pn) is Some,
    ensures
        f < mid < f + c,
{
    broadcast use vstd::seq_lib::group_to_multiset_ensures;

    lemma_scan_total(orig, f, f + c, axis, pn);
    lemma_scan_members(orig, f, f + c, axis, pn);
    lemma_window_multiset(cur, orig, f, c);
    let subo = orig.subrange(f, f + c);
    let subc = cur.subrange(f, f + c);
    let jl = choose|jj: int| f <= jj < f + c && goes_left(#[trigger] orig[jj], axis, pn);
    assert(subo[jl - f] == orig[jl]);
    assert(subo.contains(orig[jl]));
    assert(subc.to_multiset().count(orig[jl]) > 0);
    assert(subc.contains(orig[jl]));
    let il = choose|ii: int| 0 <= ii < subc.len() && subc[ii] == orig[jl];
    assert(cur[f + il] == orig[jl]);
    if f + il >= mid {
        assert(!goes_left(cur[f + il], axis, pn));
        assert(false);
    }
    let jr = choose|jj: int| f <= jj < f + c && !goes_left(#[trigger] orig[jj], axis, pn);
    assert(subo[jr - f] == orig[jr]);
    assert(subo.contains(orig[jr]));
    assert(subc.to_multiset().count(orig[jr]) > 0);
    assert(subc.contains(orig[jr]));
    let ir = choose|ii: int| 0 <= ii < subc.len() && subc[ii] == orig[jr];
    assert(cur[f + ir] == orig[jr]);
    if f + ir < mid {
        assert(goes_left(cur[f + ir], axis, pn));
        assert(false);
    }
}

impl BvhNode {
    /// A fresh leaf over `[first_tri, first_tri + tri_count)`, with a box
    /// grown over every vertex of the owned triangles.
    pub fn new(first_tri: usize, tri_count: usize, triangles: &Vec<Triangle>) -> (r: BvhNode)
        requires
            first_tri + tri_count <= triangles@.len(),
            forall|j: int| 0 <= j < triangles@.len() ==> tri_wf(#[trigger] triangles@[j]),
        ensures
            r.first_tri == first_tri,
            r.tri_count == tri_count,
            r.left_child == 0,
            r.aabb == range_box(triangles@, first_tri as int, first_tri + tri_count),
            aabb_wf(r.aabb),
            forall|j: int| first_tri <= j < first_tri + tri_count ==> tri_in_box(
                r.aabb,
                #[trigger] triangles@[j],
            ),
    {
        let n = triangles.len();
        let end = first_tri + tri_count;
        let mut aabb = Aabb::empty();
        let mut j: usize = first_tri;
        while j < end
            invariant
                first_tri <= j <= end,
                end == first_tri + tri_count,
                end <= triangles@.len(),
                forall|jj: int| 0 <= jj < triangles@.len() ==> tri_wf(#[trigger] triangles@[jj]),
                aabb_wf(aabb),
                aabb == range_box(triangles@, first_tri as int, j as int),
                forall|jj: int| first_tri <= jj < j ==> tri_in_box(
                    aabb,
                    #[trigger] triangles@[jj],
                ),
            decreases end - j,
        {
            let t = &triangles[j];
            let ghost before = aabb;
            aabb.grow(t.v1.position);
            aabb.grow(t.v2.position);
            aabb.grow(t.v3.position);
            proof {
                lemma_grown(before, aabb, t.v1.position, t.v2.position, t.v3.position);
                assert(aabb == grow_tri(before, triangles@[j as int]));
                assert forall|jj: int| first_tri <= jj < j + 1 implies tri_in_box(
                    aabb,
                    #[trigger] triangles@[jj],
                ) by {
                    if jj < j {
                        lemma_box_monotone(before, aabb, triangles@[jj]);
                    }
                }
            }
            j = j + 1;
        }
        BvhNode { aabb, left_child: 0, first_tri, tri_count }
    }
}

/// Growing a box three times leaves a box that contains the old one and the
/// three grown points.
proof fn lemma_grown(b0: Aabb, b3: Aabb, p1: Vec3I, p2: Vec3I, p3: Vec3I)
    requires
        b3.minimum == crate::vec::spec_min3(
            crate::vec::spec_min3(crate::vec::spec_min3(b0.minimum, p1), p2),
            p3,
        ),
        b3.maximum == crate::vec::spec_max3(
            crate::vec::spec_max3(crate::vec::spec_max3(b0.maximum, p1), p2),
            p3,
        ),
    ensures
        box_covers(b3, b0),
        point_in_box(b3, p1),
        point_in_box(b3, p2),
        point_in_box(b3, p3),
{
    assert forall|a: int| 0 <= a < 3 implies axis_of(b3.minimum, a) <= axis_of(b0.minimum, a)
        && axis_of(b0.maximum, a) <= #[trigger] axis_of(b3.maximum, a) by {}
    assert forall|a: int| 0 <= a < 3 implies axis_of(b3.minimum, a) <= #[trigger] axis_of(p1, a)
        <= axis_of(b3.maximum, a) by {}
    assert forall|a: int| 0 <= a < 3 implies axis_of(b3.minimum, a) <= #[trigger] axis_of(p2, a)
        <= axis_of(b3.maximum, a) by {}
    assert forall|a: int| 0 <= a < 3 implies axis_of(b3.minimum, a) <= #[trigger] axis_of(p3, a)
        <= axis_of(b3.maximum, a) by {}
}

/// `outer` spans at least the volume of `inner` on every axis.
pub open spec fn box_covers(outer: Aabb, inner: Aabb) -> bool {
    forall|a: int| 0 <= a < 3 ==> axis_of(outer.minimum, a) <= axis_of(inner.minimum, a)
        && axis_of(inner.maximum, a) <= #[trigger] axis_of(outer.maximum, a)
}

proof fn lemma_point_monotone(inner: Aabb, outer: Aabb, p: Vec3I)
    requires
        box_covers(outer, inner),
        point_in_box(inner, p),
    ensures
        point_in_box(outer, p),
{
    assert forall|a: int| 0 <= a < 3 implies axis_of(outer.minimum, a) <= #[trigger] axis_of(p, a)
        <= axis_of(outer.maximum, a) by {
        assert(axis_of(inner.maximum, a) <= axis_of(outer.maximum, a));
    }
}

proof fn lemma_box_monotone(inner: Aabb, outer: Aabb, t: Triangle)
    requires
        box_covers(outer, inner),
        tri_in_box(inner, t),
    ensures
        tri_in_box(outer, t),
{
    lemma_point_monotone(inner, outer, t.v1.position);
    lemma_point_monotone(inner, outer, t.v2.position);
    lemma_point_monotone(inner, outer, t.v3.position);
}


/// Left and right bucket counts and boxes of the centroid partition of
/// `[f, j)` against the plane `pn` on `axis`: what one cost scan computes.
pub open spec fn sah_scan(tris: Seq<Triangle>, f: int, j: int, axis: int, pn: int) -> (
    int,
    Aabb,
    int,
    Aabb,
)
    decreases j - f,
{
    if j <= f {
        (0int, spec_empty_box(), 0int, spec_empty_box())
    } else {
        let prev = sah_scan(tris, f, j - 1, axis, pn);
        if goes_left(tris[j - 1], axis, pn) {
            (prev.0 + 1, grow_tri(prev.1, tris[j - 1]), prev.2, prev.3)
        } else {
            (prev.0, prev.1, prev.2 + 1, grow_tri(prev.3, tris[j - 1]))
        }
    }
}

/// The binned split cost of one candidate plane: each side's triangle count
/// times the area of its bounding box, or nothing when either side is empty
/// or the cost degenerates to zero (such candidates are never selectable).
pub open spec fn spec_sah_cost(
    tris: Seq<Triangle>,
    f: int,
    c: int,
    axis: int,
    pn: int,
) -> Option<int> {
    let scan = sah_scan(tris, f, f + c, axis, pn);
    if scan.0 == 0 || scan.2 == 0 {
        Option::None
    } else {
        let cost = scan.0 * spec_area(scan.1) + scan.2 * spec_area(scan.3);
        if cost > 0 {
            Option::Some(cost)
        } else {
            Option::None
        }
    }
}

/// Binned split cost on one candidate plane, exactly `spec_sah_cost`.
fn evaluate_sah(
    triangles: &Vec<Triangle>,
    first: usize,
    count: usize,
    axis: usize,
    pn: i64,
) -> (r: Option<i128>)
    requires
        first + count <= triangles@.len(),
        axis < 3,
        -10485760 <= pn <= 10485760,
        forall|j: int| 0 <= j < triangles@.len() ==> tri_wf(#[trigger] triangles@[j]),
    ensures
        r is Some <==> spec_sah_cost(
            triangles@,
            first as int,
            count as int,
            axis as int,
            pn as int,
        ) is Some,
        r is Some ==> r->Some_0 == spec_sah_cost(
            triangles@,
            first as int,
            count as int,
            axis as int,
            pn as int,
        )->Some_0,
        r is Some ==> r->Some_0 > 0,
{
    let n = triangles.len();
    let end = first + count;
    let mut left_box = Aabb::empty();
    let mut right_box = Aabb::empty();
    let mut left_count: usize = 0;
    let mut right_count: usize = 0;
    let mut j: usize = first;
    while j < end
        invariant
            first <= j <= end,
            end <= triangles@.len(),
            end == first + count,
            axis < 3,
            -10485760 <= pn <= 10485760,
            forall|jj: int| 0 <= jj < triangles@.len() ==> tri_wf(#[trigger] triangles@[jj]),
            aabb_wf(left_box),
            aabb_wf(right_box),
            left_count + right_count == j - first,
            sah_scan(triangles@, first as int, j as int, axis as int, pn as int) == (
                left_count as int,
                left_box,
                right_count as int,
                right_box,
            ),
            left_count > 0 ==> aabb_nonempty(left_box),
            right_count > 0 ==> aabb_nonempty(right_box),
        decreases end - j,
    {
        let t = &triangles[j];
        if goes_left_x(t, axis, pn) {
            left_count = left_count + 1;
            let ghost before = left_box;
            left_box.grow(t.v1.position);
            left_box.grow(t.v2.position);
            left_box.grow(t.v3.position);
            proof {
                lemma_grown(before, left_box, t.v1.position, t.v2.position, t.v3.position);
                assert(left_box == grow_tri(before, triangles@[j as int]));
                assert forall|a: int| 0 <= a < 3 implies axis_of(left_box.minimum, a)
                    <= #[trigger] axis_of(left_box.maximum, a) by {
                    assert(axis_of(left_box.minimum, a) <= axis_of(t.v1.position, a));
                }
            }
        } else {
            right_count = right_count + 1;
            let ghost before = right_box;
            right_box.grow(t.v1.position);
            right_box.grow(t.v2.position);
            right_box.grow(t.v3.position);
            proof {
                lemma_grown(before, right_box, t.v1.position, t.v2.position, t.v3.position);
                assert(right_box == grow_tri(before, triangles@[j as int]));
                assert forall|a: int| 0 <= a < 3 implies axis_of(right_box.minimum, a)
                    <= #[trigger] axis_of(right_box.maximum, a) by {
                    assert(axis_of(right_box.minimum, a) <= axis_of(t.v1.position, a));
                }
            }
        }
        j = j + 1;
    }
    if left_count == 0 || right_count == 0 {
        return Option::None;
    }
    let left_area = left_box.area();
    let right_area = right_box.area();
    proof {
        lemma_mul_le(left_count as int, left_area as int, 0xFFFF_FFFF_FFFF_FFFF, 0x300_0000_0000);
        lemma_mul_le(
            right_count as int,
            right_area as int,
            0xFFFF_FFFF_FFFF_FFFF,
            0x300_0000_0000,
        );
    }
    let cost = (left_count as i128) * (left_area as i128) + (right_count as i128) * (right_area
        as i128);
    if cost > 0 {
        Option::Some(cost)
    } else {
        Option::None
    }
}

/// The cheapest candidate split of a window, exactly `spec_best_split`:
/// the winning cost with its axis and scaled plane, or no cost when no
/// candidate is admissible.
fn find_best_split(triangles: &Vec<Triangle>, f: usize, c: usize, b: &Aabb) -> (r: (
    Option<i128>,
    usize,
    i64,
))
    requires
        f + c <= triangles@.len(),
        forall|j: int| 0 <= j < triangles@.len() ==> tri_wf(#[trigger] triangles@[j]),
        aabb_wf(*b),
    ensures
        best_matches(r.0, r.1, r.2, spec_best_split(triangles@, f as int, c as int, *b)),
        r.1 < 3,
        -10485760 <= r.2 <= 10485760,
{
    let mut best_cost: Option<i128> = Option::None;
    let mut best_axis: usize = 0;
    let mut best_pn: i64 = 0;
    let mut axis: usize = 0;
    while axis < 3
        invariant
            f + c <= triangles@.len(),
            forall|j: int| 0 <= j < triangles@.len() ==> tri_wf(#[trigger] triangles@[j]),
            aabb_wf(*b),
            axis <= 3,
            best_axis < 3,
            -10485760 <= best_pn <= 10485760,
            best_matches(
                best_cost,
                best_axis,
                best_pn,
                spec_best_upto(triangles@, f as int, c as int, *b, axis as int * 9),
            ),
        decreases 3 - axis,
    {
        let bmin = b.minimum.axis(axis);
        let bmax = b.maximum.axis(axis);
        if bmin != bmax {
            let mut i: usize = 1;
            while i < SPACES
                invariant
                    f + c <= triangles@.len(),
                    forall|j: int| 0 <= j < triangles@.len() ==> tri_wf(#[trigger] triangles@[j]),
                    aabb_wf(*b),
                    1 <= i <= SPACES,
                    axis < 3,
                    best_axis < 3,
                    -10485760 <= best_pn <= 10485760,
                    -524288 <= bmin <= 524288,
                    -524288 <= bmax <= 524288,
                    bmin == axis_of(b.minimum, axis as int),
                    bmax == axis_of(b.maximum, axis as int),
                    bmin != bmax,
                    best_matches(
                        best_cost,
                        best_axis,
                        best_pn,
                        spec_best_upto(
                            triangles@,
                            f as int,
                            c as int,
                            *b,
                            axis as int * 9 + i as int - 1,
                        ),
                    ),
                decreases SPACES - i,
            {
                proof {
                    crate::math::lemma_mul_bounds(10 - i as int, bmin as int, 10, 524288);
                    crate::math::lemma_mul_bounds(i as int, bmax as int, 10, 524288);
                }
                let pn = (10 - i as i64) * bmin + (i as i64) * bmax;
                let ghost k = axis as int * 9 + i as int - 1;
                proof {
                    vstd::arithmetic::div_mod::lemma_fundamental_div_mod_converse(
                        k,
                        9,
                        axis as int,
                        i as int - 1,
                    );
                    assert(pn as int == spec_plane_of(*b, k));
                    assert(!spec_axis_flat(*b, k));
                }
                let cost = evaluate_sah(triangles, f, c, axis, pn);
                let take = match (cost, best_cost) {
                    (Option::Some(cv), Option::Some(bv)) => cv < bv,
                    (Option::Some(_), Option::None) => true,
                    _ => false,
                };
                if take {
                    best_cost = cost;
                    best_axis = axis;
                    best_pn = pn;
                }
                proof {
                    assert(best_matches(
                        best_cost,
                        best_axis,
                        best_pn,
                        spec_best_upto(triangles@, f as int, c as int, *b, k + 1),
                    ));
                }
                i = i + 1;
            }
        } else {
            proof {
                assert forall|k: int| axis as int * 9 <= k < axis as int * 9 + 9
                    implies #[trigger] spec_axis_flat(*b, k) by {
                    vstd::arithmetic::div_mod::lemma_fundamental_div_mod_converse(
                        k,
                        9,
                        axis as int,
                        k - axis as int * 9,
                    );
                }
                lemma_best_skip_flat(
                    triangles@,
                    f as int,
                    c as int,
                    *b,
                    axis as int * 9,
                    axis as int * 9 + 9,
                );
            }
        }
        axis = axis + 1;
    }
    (best_cost, best_axis, best_pn)
}

impl Bvh {
    /// Recursively splits the leaf `node_idx` exactly while the best binned
    /// candidate plane beats the cost of leaving the leaf whole,
    /// partitioning the leaf's triangle range in place around the winning
    /// plane and appending the two child nodes. Every step keeps the whole
    /// hierarchy well formed; the leaf's range is only ever reordered within
    /// itself, the leaf's box is never recomputed, and the node array grows
    /// by at most two nodes per owned triangle beyond the first.
    #[verifier::loop_isolation(false)]
    #[verifier::rlimit(100)]
    fn subdivide(&mut self, node_idx: usize)
        requires
            bvh_wf(*old(self)),
            node_idx < old(self).nodes@.len(),
            old(self).nodes@[node_idx as int].tri_count >= 1,
            old(self).nodes@.len() + 2 * old(self).ranges@[node_idx as int].1 <= usize::MAX as int
                + 1,
        ensures
            bvh_wf(*final (self)),
            final (self).nodes@.len() >= old(self).nodes@.len(),
            final (self).nodes@.len() <= old(self).nodes@.len() + 2 * old(
                self,
            ).ranges@[node_idx as int].1 - 2,
            final (self).triangles@.len() == old(self).triangles@.len(),
            forall|k: int| 0 <= k < old(self).nodes@.len() && k != node_idx
                ==> #[trigger] final (self).nodes@[k] == old(self).nodes@[k],
            forall|k: int| 0 <= k < old(self).nodes@.len() ==> #[trigger] final (self).ranges@[k]
                == old(self).ranges@[k],
            final (self).nodes@[node_idx as int].aabb == old(self).nodes@[node_idx as int].aabb,
            from_range(
                final (self).triangles@,
                old(self).triangles@,
                old(self).ranges@[node_idx as int].0,
                old(self).ranges@[node_idx as int].1,
            ),
            final (self).triangles@.to_multiset() == old(self).triangles@.to_multiset(),
            !spec_should_split(
                old(self).triangles@,
                old(self).ranges@[node_idx as int].0,
                old(self).ranges@[node_idx as int].1,
                old(self).nodes@[node_idx as int].aabb,
            ) ==> *final (self) == *old(self),
            spec_should_split(
                old(self).triangles@,
                old(self).ranges@[node_idx as int].0,
                old(self).ranges@[node_idx as int].1,
                old(self).nodes@[node_idx as int].aabb,
            ) ==> ({
                let f = old(self).ranges@[node_idx as int].0;
                let c = old(self).ranges@[node_idx as int].1;
                let bs = spec_best_split(
                    old(self).triangles@,
                    f,
                    c,
                    old(self).nodes@[node_idx as int].aabb,
                )->Some_0;
                let l = old(self).nodes@.len() as int;
                let lc = final (self).ranges@[l].1;
                &&& final (self).nodes@[node_idx as int].tri_count == 0
                &&& final (self).nodes@[node_idx as int].left_child == l
                &&& final (self).ranges@[l] == (f, lc)
                &&& final (self).ranges@[l + 1] == (f + lc, c - lc)
                &&& 1 <= lc && lc < c
                &&& forall|j: int| f <= j < f + lc ==> goes_left(
                    #[trigger] final (self).triangles@[j],
                    bs.0,
                    bs.1,
                )
                &&& forall|j: int| f + lc <= j < f + c ==> !goes_left(
                    #[trigger] final (self).triangles@[j],
                    bs.0,
                    bs.1,
                )
            }),
        decreases old(self).nodes@[node_idx as int].tri_count,
    {
        proof {
            assert(node_ok(self.nodes@, self.triangles@, self.ranges@, node_idx as int));
        }
        let nd = self.nodes[node_idx];
        let f = nd.first_tri;
        let c = nd.tri_count;
        let ghost rg0 = self.ranges@;
        let ghost tris0 = self.triangles@;
        assert(rg0[node_idx as int] == (f as int, c as int));

        // Search the twenty-seven candidate planes for the cheapest split.
        let (best_cost, best_axis, best_pn) = find_best_split(&self.triangles, f, c, &nd.aabb);

        // Compare against the cost of keeping the leaf whole.
        proof {
            assert(tri_in_box(nd.aabb, self.triangles@[f as int]));
            assert forall|a: int| 0 <= a < 3 implies axis_of(nd.aabb.minimum, a)
                <= #[trigger] axis_of(nd.aabb.maximum, a) by {
                assert(axis_of(nd.aabb.minimum, a) <= axis_of(
                    self.triangles@[f as int].v1.position,
                    a,
                ));
            }
        }
        let parent_area = nd.aabb.area();
        proof {
            lemma_mul_le(c as int, parent_area as int, 0xFFFF_FFFF_FFFF_FFFF, 0x300_0000_0000);
        }
        let parent_cost = (c as i128) * (parent_area as i128);
        let (do_split, axis, split_pn) = match best_cost {
            Option::None => (false, 0usize, 0i64),
            Option::Some(bc) => (bc < parent_cost, best_axis, best_pn),
        };
        let ghost should = spec_should_split(tris0, f as int, c as int, nd.aabb);
        proof {
            assert(do_split == should);
        }
        if !do_split {
            proof {
                lemma_from_range_refl(self.triangles@, f as int, c as int);
            }
            return ;
        }
        let ghost bs = spec_best_split(tris0, f as int, c as int, nd.aabb)->Some_0;
        proof {
            assert(axis as int == bs.0 && split_pn as int == bs.1);
            lemma_best_cost_sound(tris0, f as int, c as int, nd.aabb, 27);
        }
        assert(axis < 3 && -10485760 <= split_pn <= 10485760);

        // Partition the leaf's range in place around the winning plane.
        let ntris = self.triangles.len();
        assert(f + c <= ntris);
        proof {
            lemma_from_range_refl(self.triangles@, f as int, c as int);
        }
        let mut i: usize = f;
        let mut k: usize = f + c;
        while i < k
            invariant
                f <= i <= k <= f + c,
                self.nodes@ == old(self).nodes@,
                self.ranges@ == rg0,
                self.nodes_used == old(self).nodes_used,
                self.triangles@.len() == tris0.len(),
                from_range(self.triangles@, tris0, f as int, c as int),
                self.triangles@.to_multiset() == tris0.to_multiset(),
                forall|j: int| 0 <= j < self.triangles@.len() ==> tri_wf(
                    #[trigger] self.triangles@[j],
                ),
                forall|j: int| f <= j < i ==> goes_left(
                    #[trigger] self.triangles@[j],
                    axis as int,
                    split_pn as int,
                ),
                forall|j: int| k <= j < f + c ==> !goes_left(
                    #[trigger] self.triangles@[j],
                    axis as int,
                    split_pn as int,
                ),
            decreases k - i,
        {
            let ghost before = self.triangles@;
            if goes_left_x(&self.triangles[i], axis, split_pn) {
                i = i + 1;
            } else {
                let a_t = self.triangles[i];
                let b_t = self.triangles[k - 1];
                self.triangles.set(i, b_t);
                self.triangles.set(k - 1, a_t);
                k = k - 1;
                proof {
                    assert(self.triangles@ =~= before.update(i as int, before[k as int]).update(
                        k as int,
                        before[i as int],
                    ));
                    lemma_swap_multiset(before, i as int, k as int);
                    assert forall|j: int| f <= j < f + c implies #[trigger] came_from(
                        self.triangles@,
                        tris0,
                        f as int,
                        c as int,
                        j,
                    ) by {
                        let jo = if j == i { k as int } else if j == k { i as int } else { j };
                        assert(self.triangles@[j] == before[jo]);
                        assert(came_from(before, tris0, f as int, c as int, jo));
                    }
                }
            }
        }
        let left_count = i - f;
        // The whole hierarchy is still well formed after the in-place
        // reordering: the reordered window is exactly a leaf's range, and the
        // laminar structure means every other node either owns all of it or
        // none of it. The winning plane's cost exists, so neither side of
        // the partition can be empty.
        proof {
            lemma_permuted_wf(*old(self), *self, node_idx as int);
            assert forall|j: int| 0 <= j < self.triangles@.len() && !(f <= j < f + c)
                implies #[trigger] self.triangles@[j] == tris0[j] by {}
            lemma_partition_nondegenerate(
                self.triangles@,
                tris0,
                f as int,
                c as int,
                i as int,
                axis as int,
                split_pn as int,
            );
        }
        if left_count == 0 || left_count == c {
            proof {
                assert(false);
            }
            return ;
        }

        let ghost bm = *self;
        let lidx = self.nodes_used;
        let lnode = BvhNode::new(f, left_count, &self.triangles);
        let rnode = BvhNode::new(i, c - left_count, &self.triangles);
        let mut parent = self.nodes[node_idx];
        parent.left_child = lidx;
        parent.tri_count = 0;
        self.nodes.set(node_idx, parent);
        self.nodes.push(lnode);
        self.nodes.push(rnode);
        self.nodes_used = self.nodes_used + 2;
        self.ranges = Ghost(
            rg0.push((f as int, left_count as int)).push(
                (f as int + left_count as int, c as int - left_count as int),
            ),
        );
        proof {
            lemma_split_wf(bm, *self, node_idx as int, lidx as int);
        }

        let ghost snap1 = *self;
        self.subdivide(lidx);
        let ghost snap2 = *self;
        proof {
            assert(snap2.nodes@[lidx as int + 1] == snap1.nodes@[lidx as int + 1]);
            assert(snap2.ranges@[lidx as int + 1] == snap1.ranges@[lidx as int + 1]);
        }
        self.subdivide(lidx + 1);
        proof {
            let fi = f as int;
            let ci = c as int;
            let lc = left_count as int;
            assert(from_range(snap1.triangles@, tris0, fi, ci));
            assert(snap1.ranges@[lidx as int] == (fi, lc));
            assert(from_range(snap2.triangles@, snap1.triangles@, fi, lc));
            lemma_from_range_trans(snap2.triangles@, snap1.triangles@, tris0, fi, lc, fi, ci);
            assert(snap2.ranges@[lidx as int + 1] == (fi + lc, ci - lc));
            assert(from_range(self.triangles@, snap2.triangles@, fi + lc, ci - lc));
            lemma_from_range_trans(
                self.triangles@,
                snap2.triangles@,
                tris0,
                fi + lc,
                ci - lc,
                fi,
                ci,
            );
            // Centroid-sidedness of the two final child ranges: recursion
            // only reorders each child's window within itself.
            assert forall|j: int| fi <= j < fi + lc implies goes_left(
                #[trigger] snap2.triangles@[j],
                bs.0,
                bs.1,
            ) by {
                assert(came_from(snap2.triangles@, snap1.triangles@, fi, lc, j));
                let sub = snap1.triangles@.subrange(fi, fi + lc);
                let j2 = choose|j2: int| 0 <= j2 < sub.len() && sub[j2] == snap2.triangles@[j];
                assert(snap1.triangles@[fi + j2] == snap2.triangles@[j]);
            }
            assert forall|j: int| fi <= j < fi + lc implies goes_left(
                #[trigger] self.triangles@[j],
                bs.0,
                bs.1,
            ) by {
                assert(self.triangles@[j] == snap2.triangles@[j]);
            }
            assert forall|j: int| fi + lc <= j < fi + ci implies !goes_left(
                #[trigger] self.triangles@[j],
                bs.0,
                bs.1,
            ) by {
                assert(came_from(self.triangles@, snap2.triangles@, fi + lc, ci - lc, j));
                let sub = snap2.triangles@.subrange(fi + lc, fi + ci);
                let j2 = choose|j2: int| 0 <= j2 < sub.len() && sub[j2] == self.triangles@[j];
                assert(snap2.triangles@[fi + lc + j2] == self.triangles@[j]);
                assert(snap2.triangles@[fi + lc + j2] == snap1.triangles@[fi + lc + j2]);
            }
        }
    }
}

/// In-place reordering of one leaf's triangle window keeps every node of the
/// hierarchy well formed: by laminarity, each node's range either avoids the
/// window or contains it whole.
proof fn lemma_permuted_wf(b0: Bvh, b1: Bvh, li: int)
    requires
        bvh_wf(b0),
        0 <= li < b0.nodes@.len(),
        b0.nodes@[li].tri_count >= 1,
        b1.nodes@ == b0.nodes@,
        b1.ranges@ == b0.ranges@,
        b1.nodes_used == b0.nodes_used,
        b1.triangles@.len() == b0.triangles@.len(),
        from_range(b1.triangles@, b0.triangles@, b0.ranges@[li].0, b0.ranges@[li].1),
        forall|j: int| 0 <= j < b1.triangles@.len() ==> tri_wf(#[trigger] b1.triangles@[j]),
    ensures
        bvh_wf(b1),
{
    let lf = b0.ranges@[li].0;
    let lc = b0.ranges@[li].1;
    assert(node_ok(b0.nodes@, b0.triangles@, b0.ranges@, li));
    assert forall|ii: int| 0 <= ii < b1.nodes@.len() implies #[trigger] node_ok(
        b1.nodes@,
        b1.triangles@,
        b1.ranges@,
        ii,
    ) by {
        assert(node_ok(b0.nodes@, b0.triangles@, b0.ranges@, ii));
        let n = b1.nodes@[ii];
        let fi = b1.ranges@[ii].0;
        let ci = b1.ranges@[ii].1;
        assert forall|j: int| fi <= j < fi + ci implies tri_in_box(
            n.aabb,
            #[trigger] b1.triangles@[j],
        ) by {
            if j < lf || j >= lf + lc {
                assert(b1.triangles@[j] == b0.triangles@[j]);
            } else {
                // the leaf's window meets this node's range, so it lies
                // wholly inside it
                assert(!(lf + lc <= b1.ranges@[ii].0 || b1.ranges@[ii].0 + b1.ranges@[ii].1
                    <= lf));
                assert(fi <= lf && lf + lc <= fi + ci);
                assert(came_from(b1.triangles@, b0.triangles@, lf, lc, j));
                let sub0 = b0.triangles@.subrange(lf, lf + lc);
                let j2 = choose|j2: int| 0 <= j2 < sub0.len() && sub0[j2] == b1.triangles@[j];
                assert(b0.triangles@[lf + j2] == b1.triangles@[j]);
                assert(tri_in_box(n.aabb, b0.triangles@[lf + j2]));
            }
        }
    }
}

/// Turning the leaf `li` into an internal node with two freshly built child
/// leaves keeps the hierarchy well formed.
proof fn lemma_split_wf(bm: Bvh, b1: Bvh, li: int, lidx: int)
    requires
        bvh_wf(bm),
        0 <= li < bm.nodes@.len(),
        bm.nodes@[li].tri_count >= 1,
        lidx == bm.nodes@.len(),
        b1.triangles@ == bm.triangles@,
        b1.nodes@.len() == bm.nodes@.len() + 2,
        b1.nodes_used == lidx + 2,
        b1.ranges@ == bm.ranges@.push(
            (bm.ranges@[li].0, b1.ranges@[lidx].1),
        ).push((bm.ranges@[li].0 + b1.ranges@[lidx].1, bm.ranges@[li].1 - b1.ranges@[lidx].1)),
        1 <= b1.ranges@[lidx].1 < bm.ranges@[li].1,
        forall|k: int| 0 <= k < lidx && k != li ==> #[trigger] b1.nodes@[k] == bm.nodes@[k],
        b1.nodes@[li].aabb == bm.nodes@[li].aabb,
        b1.nodes@[li].tri_count == 0,
        b1.nodes@[li].left_child == lidx,
        b1.nodes@[lidx].tri_count == b1.ranges@[lidx].1,
        b1.nodes@[lidx].first_tri == bm.ranges@[li].0,
        aabb_wf(b1.nodes@[lidx].aabb),
        forall|j: int| b1.ranges@[lidx].0 <= j < b1.ranges@[lidx].0 + b1.ranges@[lidx].1
            ==> tri_in_box(b1.nodes@[lidx].aabb, #[trigger] b1.triangles@[j]),
        b1.nodes@[lidx + 1].tri_count == bm.ranges@[li].1 - b1.ranges@[lidx].1,
        b1.nodes@[lidx + 1].first_tri == bm.ranges@[li].0 + b1.ranges@[lidx].1,
        aabb_wf(b1.nodes@[lidx + 1].aabb),
        forall|j: int| b1.ranges@[lidx + 1].0 <= j < b1.ranges@[lidx + 1].0 + b1.ranges@[lidx
            + 1].1 ==> tri_in_box(b1.nodes@[lidx + 1].aabb, #[trigger] b1.triangles@[j]),
    ensures
        bvh_wf(b1),
{
    let f = bm.ranges@[li].0;
    let c = bm.ranges@[li].1;
    let lc = b1.ranges@[lidx].1;
    assert(node_ok(bm.nodes@, bm.triangles@, bm.ranges@, li));
    assert(b1.ranges@[li] == bm.ranges@[li]);
    assert forall|ii: int| 0 <= ii < b1.nodes@.len() implies #[trigger] node_ok(
        b1.nodes@,
        b1.triangles@,
        b1.ranges@,
        ii,
    ) by {
        if ii < lidx {
            assert(node_ok(bm.nodes@, bm.triangles@, bm.ranges@, ii));
            assert(b1.ranges@[ii] == bm.ranges@[ii]);
            if ii != li {
                assert(b1.nodes@[ii] == bm.nodes@[ii]);
                if bm.nodes@[ii].tri_count == 0 {
                    let l = bm.nodes@[ii].left_child as int;
                    assert(b1.ranges@[l] == bm.ranges@[l]);
                    assert(b1.ranges@[l + 1] == bm.ranges@[l + 1]);
                }
            } else {
                assert(b1.ranges@[lidx] == (f, lc));
                assert(b1.ranges@[lidx + 1] == (f + lc, c - lc));
            }
        } else if ii == lidx {
            assert(b1.ranges@[lidx] == (f, lc));
        } else {
            assert(b1.ranges@[lidx + 1] == (f + lc, c - lc));
        }
    }
    assert forall|i2: int, k: int|
        #![trigger b1.ranges@[i2], b1.ranges@[k]]
        0 <= i2 < b1.nodes@.len() && 0 <= k < b1.nodes@.len() && b1.nodes@[i2].tri_count > 0 && !(
        b1.ranges@[i2].0 + b1.ranges@[i2].1 <= b1.ranges@[k].0 || b1.ranges@[k].0
            + b1.ranges@[k].1 <= b1.ranges@[i2].0) implies b1.ranges@[k].0 <= b1.ranges@[i2].0
        && b1.ranges@[i2].0 + b1.ranges@[i2].1 <= b1.ranges@[k].0 + b1.ranges@[k].1 by {
        lemma_split_laminar_cases(bm, b1, li, lidx, i2, k);
    }
    assert forall|i2: int, k: int|
        #![trigger b1.ranges@[i2], b1.ranges@[k]]
        0 <= i2 < b1.nodes@.len() && 0 <= k < b1.nodes@.len() && i2 != k && b1.nodes@[
        i2].tri_count > 0 && b1.nodes@[k].tri_count > 0 implies (b1.ranges@[i2].0
        + b1.ranges@[i2].1 <= b1.ranges@[k].0 || b1.ranges@[k].0 + b1.ranges@[k].1
        <= b1.ranges@[i2].0) by {
        lemma_split_disjoint_cases(bm, b1, li, lidx, i2, k);
    }
    assert(b1.ranges@[0] == bm.ranges@[0]);
}

proof fn lemma_split_laminar_cases(bm: Bvh, b1: Bvh, li: int, lidx: int, i2: int, k: int)
    requires
        bvh_wf(bm),
        0 <= li < bm.nodes@.len(),
        bm.nodes@[li].tri_count >= 1,
        lidx == bm.nodes@.len(),
        b1.nodes@.len() == lidx + 2,
        b1.ranges@ == bm.ranges@.push((bm.ranges@[li].0, b1.ranges@[lidx].1)).push(
            (bm.ranges@[li].0 + b1.ranges@[lidx].1, bm.ranges@[li].1 - b1.ranges@[lidx].1),
        ),
        1 <= b1.ranges@[lidx].1 < bm.ranges@[li].1,
        forall|kk: int| 0 <= kk < lidx && kk != li ==> #[trigger] b1.nodes@[kk] == bm.nodes@[kk],
        b1.nodes@[li].tri_count == 0,
        b1.nodes@[lidx].tri_count == b1.ranges@[lidx].1,
        b1.nodes@[lidx + 1].tri_count == bm.ranges@[li].1 - b1.ranges@[lidx].1,
        0 <= i2 < b1.nodes@.len(),
        0 <= k < b1.nodes@.len(),
        b1.nodes@[i2].tri_count > 0,
        !(b1.ranges@[i2].0 + b1.ranges@[i2].1 <= b1.ranges@[k].0 || b1.ranges@[k].0
            + b1.ranges@[k].1 <= b1.ranges@[i2].0),
    ensures
        b1.ranges@[k].0 <= b1.ranges@[i2].0 && b1.ranges@[i2].0 + b1.ranges@[i2].1
            <= b1.ranges@[k].0 + b1.ranges@[k].1,
{
    let f = bm.ranges@[li].0;
    let c = bm.ranges@[li].1;
    let lc = b1.ranges@[lidx].1;
    assert(b1.ranges@[li] == bm.ranges@[li]);
    assert(b1.ranges@[lidx] == (f, lc));
    assert(b1.ranges@[lidx + 1] == (f + lc, c - lc));
    if i2 < lidx && k < lidx {
        assert(b1.ranges@[i2] == bm.ranges@[i2] && b1.ranges@[k] == bm.ranges@[k]);
        assert(bm.nodes@[i2].tri_count > 0);
    } else if i2 < lidx {
        // old leaf against a fresh child range: the old leaf is distinct
        // from li, hence disjoint from li's whole range
        assert(bm.nodes@[i2].tri_count > 0);
        assert(i2 != li);
        assert(bm.ranges@[i2].0 + bm.ranges@[i2].1 <= f || f + c <= bm.ranges@[i2].0);
        assert(false);
    } else {
        // fresh child leaf against any node
        if k < lidx {
            if k == li {
            } else {
                // the child range lies inside li's range, so the overlap
                // extends to li's range
                assert(!(f + c <= bm.ranges@[k].0 || bm.ranges@[k].0 + bm.ranges@[k].1 <= f));
                assert(bm.ranges@[k].0 <= f && f + c <= bm.ranges@[k].0 + bm.ranges@[k].1);
            }
        } else {
            // two fresh ranges: disjoint unless identical
        }
    }
}

proof fn lemma_split_disjoint_cases(bm: Bvh, b1: Bvh, li: int, lidx: int, i2: int, k: int)
    requires
        bvh_wf(bm),
        0 <= li < bm.nodes@.len(),
        bm.nodes@[li].tri_count >= 1,
        lidx == bm.nodes@.len(),
        b1.nodes@.len() == lidx + 2,
        b1.ranges@ == bm.ranges@.push((bm.ranges@[li].0, b1.ranges@[lidx].1)).push(
            (bm.ranges@[li].0 + b1.ranges@[lidx].1, bm.ranges@[li].1 - b1.ranges@[lidx].1),
        ),
        1 <= b1.ranges@[lidx].1 < bm.ranges@[li].1,
        forall|kk: int| 0 <= kk < lidx && kk != li ==> #[trigger] b1.nodes@[kk] == bm.nodes@[kk],
        b1.nodes@[li].tri_count == 0,
        0 <= i2 < b1.nodes@.len(),
        0 <= k < b1.nodes@.len(),
        i2 != k,
        b1.nodes@[i2].tri_count > 0,
        b1.nodes@[k].tri_count > 0,
    ensures
        b1.ranges@[i2].0 + b1.ranges@[i2].1 <= b1.ranges@[k].0 || b1.ranges@[k].0
            + b1.ranges@[k].1 <= b1.ranges@[i2].0,
{
    let f = bm.ranges@[li].0;
    let c = bm.ranges@[li].1;
    let lc = b1.ranges@[lidx].1;
    assert(b1.ranges@[li] == bm.ranges@[li]);
    assert(b1.ranges@[lidx] == (f, lc));
    assert(b1.ranges@[lidx + 1] == (f + lc, c - lc));
    if i2 < lidx && k < lidx {
        assert(b1.ranges@[i2] == bm.ranges@[i2] && b1.ranges@[k] == bm.ranges@[k]);
        assert(bm.nodes@[i2].tri_count > 0 && bm.nodes@[k].tri_count > 0);
    } else if i2 < lidx {
        assert(bm.nodes@[i2].tri_count > 0 && i2 != li);
        assert(bm.ranges@[i2].0 + bm.ranges@[i2].1 <= f || f + c <= bm.ranges@[i2].0);
    } else if k < lidx {
        assert(bm.nodes@[k].tri_count > 0 && k != li);
        assert(bm.ranges@[k].0 + bm.ranges@[k].1 <= f || f + c <= bm.ranges@[k].0);
    } else {
    }
}

/// Composing two reorderings, the inner one confined to a subwindow, yields
/// a reordering of the outer window.
proof fn lemma_from_range_trans(
    t2: Seq<Triangle>,
    t1: Seq<Triangle>,
    t0: Seq<Triangle>,
    f2: int,
    c2: int,
    f: int,
    c: int,
)
    requires
        from_range(t2, t1, f2, c2),
        from_range(t1, t0, f, c),
        f <= f2,
        f2 + c2 <= f + c,
        0 <= f,
        f + c <= t2.len(),
    ensures
        from_range(t2, t0, f, c),
{
    assert forall|j: int| 0 <= j < t2.len() && !(f <= j < f + c) implies #[trigger] t2[j]
        == t0[j] by {
        assert(t2[j] == t1[j]);
    }
    assert forall|j: int| f <= j < f + c implies #[trigger] came_from(t2, t0, f, c, j) by {
        if f2 <= j < f2 + c2 {
            assert(came_from(t2, t1, f2, c2, j));
            let sub1 = t1.subrange(f2, f2 + c2);
            let ja = choose|ja: int| 0 <= ja < sub1.len() && sub1[ja] == t2[j];
            assert(t1[f2 + ja] == t2[j]);
            assert(came_from(t1, t0, f, c, f2 + ja));
        } else {
            assert(t2[j] == t1[j]);
            assert(came_from(t1, t0, f, c, j));
        }
    }
}

/// Swapping two slots leaves the buffer's multiset of triangles unchanged.
proof fn lemma_swap_multiset(s: Seq<Triangle>, i: int, j: int)
    requires
        0 <= i < s.len(),
        0 <= j < s.len(),
    ensures
        s.update(i, s[j]).update(j, s[i]).to_multiset() == s.to_multiset(),
{
    broadcast use vstd::seq_lib::to_multiset_update;
    broadcast use vstd::seq_lib::group_to_multiset_ensures;
    if i == j {
        assert(s.update(i, s[j]).update(j, s[i]) =~= s);
    } else {
        let a = s[i];
        let b = s[j];
        let s1 = s.update(i, b);
        let s2 = s1.update(j, a);
        assert(s.contains(a));
        assert(s.to_multiset().count(a) > 0);
        assert(s1.to_multiset() == s.to_multiset().insert(b).remove(a));
        assert(s1[j] == b);
        assert(s2.to_multiset() == s1.to_multiset().insert(a).remove(b));
        assert(s2.to_multiset() =~= s.to_multiset());
    }
}

/// `from_range` is reflexive.
proof fn lemma_from_range_refl(t: Seq<Triangle>, f: int, c: int)
    requires
        0 <= f,
        0 <= c,
        f + c <= t.len(),
    ensures
        from_range(t, t, f, c),
{
    assert forall|j: int| f <= j < f + c implies #[trigger] came_from(t, t, f, c, j) by {
        assert(t.subrange(f, f + c)[j - f] == t[j]);
    }
}


/// `h` would strictly improve on the best hit `cur`.
pub open spec fn opt_before(h: Option<Frac>, cur: Option<Frac>) -> bool {
    h is Some && (cur is None || frac_lt(h->Some_0, cur->Some_0))
}

/// Triangle slot `j` lies in the range of some node still on the stack.
pub open spec fn in_rg(rg: Seq<(int, int)>, ni: int, j: int) -> bool {
    rg[ni].0 <= j < rg[ni].0 + rg[ni].1
}

pub open spec fn in_pending(rg: Seq<(int, int)>, st: Seq<usize>, j: int) -> bool {
    exists|si: int| 0 <= si < st.len() && in_rg(rg, #[trigger] st[si] as int, j)
}

/// Termination potential of the traversal stack: a node at index `i` can
/// spawn work only at strictly larger indices, so weighting it by
/// `2^(n - i)` shrinks whenever a node is traded for its two children.
spec fn stack_pot(st: Seq<usize>, n: nat) -> int
    decreases st.len(),
{
    if st.len() == 0 {
        0
    } else {
        stack_pot(st.drop_last(), n) + (if (st.last() as nat) < n {
            pow2((n - st.last()) as nat) as int
        } else {
            1
        })
    }
}

proof fn lemma_stack_pot_nonneg(st: Seq<usize>, n: nat)
    ensures
        stack_pot(st, n) >= 0,
    decreases st.len(),
{
    if st.len() > 0 {
        lemma_stack_pot_nonneg(st.drop_last(), n);
    }
}

proof fn lemma_stack_pot_push(st: Seq<usize>, x: usize, n: nat)
    ensures
        stack_pot(st.push(x), n) == stack_pot(st, n) + (if (x as nat) < n {
            pow2((n - x) as nat) as int
        } else {
            1
        }),
{
    assert(st.push(x).drop_last() =~= st);
    assert(st.push(x).last() == x);
}

/// A popped internal node's two children cost strictly less potential than
/// the node itself.
proof fn lemma_pot_children(i: nat, l: nat, n: nat)
    requires
        i < l,
        l + 1 < n,
    ensures
        pow2((n - l) as nat) + pow2((n - l - 1) as nat) < pow2((n - i) as nat),
{
    vstd::arithmetic::power2::lemma_pow2_adds(1, (n - i - 1) as nat);
    vstd::arithmetic::power2::lemma2_to64();
    assert(pow2((n - i) as nat) == 2 * pow2((n - i - 1) as nat));
    if l > i + 1 {
        vstd::arithmetic::power2::lemma_pow2_strictly_increases((n - l) as nat, (n - i - 1) as nat);
    }
    vstd::arithmetic::power2::lemma_pow2_strictly_increases((n - l - 1) as nat, (n - i - 1) as nat);
}

/// Settled hits stay settled when the best hit improves.
proof fn lemma_settled_update(h: Option<Frac>, cur: Option<Frac>, nv: Frac)
    requires
        !opt_before(h, cur),
        opt_before(Option::Some(nv), cur),
        frac_wf(nv),
        h is Some ==> frac_wf(h->Some_0),
        cur is Some ==> frac_wf(cur->Some_0),
    ensures
        !opt_before(h, Option::Some(nv)),
{
    if h is Some {
        let hf = h->Some_0;
        let c0 = cur->Some_0;
        assert(!frac_lt(hf, c0));
        assert(frac_lt(nv, c0));
        crate::math::lemma_frac_lt_le_trans(nv, c0, hf);
    }
}

impl Bvh {
    /// Builds the hierarchy over the given triangles, consuming and
    /// reordering the buffer in place: the root spans everything, and leaves
    /// are split as long as a binned split plane beats the parent's cost.
    pub fn new(triangles: Vec<Triangle>) -> (r: Bvh)
        requires
            triangles@.len() >= 1,
            triangles@.len() <= (usize::MAX as int - 1) / 2,
            forall|j: int| 0 <= j < triangles@.len() ==> tri_wf(#[trigger] triangles@[j]),
        ensures
            bvh_wf(r),
            r.triangles@.len() == triangles@.len(),
            from_range(r.triangles@, triangles@, 0, triangles@.len() as int),
            r.triangles@.to_multiset() == triangles@.to_multiset(),
            r.ranges@[0] == (0int, triangles@.len() as int),
            1 <= r.nodes@.len() <= 2 * triangles@.len() - 1,
            r.nodes@[0].aabb == range_box(triangles@, 0, triangles@.len() as int),
            !spec_should_split(
                triangles@,
                0,
                triangles@.len() as int,
                range_box(triangles@, 0, triangles@.len() as int),
            ) ==> r.nodes@.len() == 1 && r.triangles@ == triangles@,
            spec_should_split(
                triangles@,
                0,
                triangles@.len() as int,
                range_box(triangles@, 0, triangles@.len() as int),
            ) ==> ({
                let n = triangles@.len() as int;
                let bs = spec_best_split(
                    triangles@,
                    0,
                    n,
                    range_box(triangles@, 0, n),
                )->Some_0;
                let lc = r.ranges@[1].1;
                &&& r.nodes@[0].tri_count == 0
                &&& r.nodes@[0].left_child == 1
                &&& r.ranges@[1] == (0int, lc)
                &&& r.ranges@[2] == (lc, n - lc)
                &&& 1 <= lc && lc < n
                &&& forall|j: int| 0 <= j < lc ==> goes_left(#[trigger] r.triangles@[j], bs.0, bs.1)
                &&& forall|j: int| lc <= j < n ==> !goes_left(
                    #[trigger] r.triangles@[j],
                    bs.0,
                    bs.1,
                )
            }),
    {
        let n = triangles.len();
        let root = BvhNode::new(0, n, &triangles);
        let mut nodes: Vec<BvhNode> = Vec::new();
        nodes.push(root);
        let ghost rg1: Seq<(int, int)> = seq![(0int, n as int)];
        let mut bvh = Bvh { nodes, triangles, nodes_used: 1, ranges: Ghost(rg1) };
        proof {
            assert forall|i: int| 0 <= i < bvh.nodes@.len() implies #[trigger] node_ok(
                bvh.nodes@,
                bvh.triangles@,
                bvh.ranges@,
                i,
            ) by {
                assert(bvh.nodes@[0] == root);
            }
            assert(bvh_wf(bvh));
        }
        bvh.subdivide(ROOT_IDX);
        bvh
    }

    /// Nearest-hit query: an iterative depth-first walk of the hierarchy
    /// with the near child visited first and child boxes clipped against the
    /// best hit found so far. Returns the record of a triangle whose hit
    /// distance no other triangle beats, or `None` exactly when nothing is
    /// hit: brute force over the buffer would find the same distance.
    #[verifier::loop_isolation(false)]
    pub fn intersects(&self, ray: &Ray) -> (r: Option<HitRecord>)
        requires
            bvh_wf(*self),
            ray_wf(*ray),
        ensures
            match r {
                Option::None => forall|j: int| 0 <= j < self.triangles@.len() ==> tri_hit(
                    #[trigger] self.triangles@[j],
                    *ray,
                ) is None,
                Option::Some(rec) => {
                    &&& exists|j: int| 0 <= j < self.triangles@.len() && tri_hit(
                        #[trigger] self.triangles@[j],
                        *ray,
                    ) == Option::Some(rec.t) && rec == spec_hit_record(
                        self.triangles@[j],
                        *ray,
                    )
                    &&& forall|j: int| 0 <= j < self.triangles@.len() ==> !opt_before(
                        tri_hit(#[trigger] self.triangles@[j], *ray),
                        Option::Some(rec.t),
                    )
                    &&& hit_record_wf(rec)
                },
            },
    {
        let n_nodes = self.nodes.len();
        let n_tris = self.triangles.len();
        let ghost rg = self.ranges@;
        let mut stack: Vec<usize> = Vec::new();
        stack.push(ROOT_IDX);
        let mut nearest: Option<Frac> = Option::None;
        let mut nearest_idx: usize = 0;
        proof {
            assert forall|j: int| 0 <= j < n_tris && !in_pending(rg, stack@, j) implies !opt_before(
                tri_hit(#[trigger] self.triangles@[j], *ray),
                nearest,
            ) by {
                assert(stack@[0] == ROOT_IDX);
                assert(in_rg(rg, 0, j));
                assert(in_pending(rg, stack@, j));
            }
        }
        while stack.len() != 0
            invariant
                forall|si: int| 0 <= si < stack@.len() ==> #[trigger] stack@[si] < n_nodes,
                match nearest {
                    Option::Some(fr) => frac_wf(fr) && fr.num > 0 && nearest_idx < n_tris
                        && tri_hit(self.triangles@[nearest_idx as int], *ray)
                        == Option::Some(fr),
                    Option::None => true,
                },
                forall|j: int| 0 <= j < n_tris && !in_pending(rg, stack@, j) ==> !opt_before(
                    tri_hit(#[trigger] self.triangles@[j], *ray),
                    nearest,
                ),
            decreases stack_pot(stack@, n_nodes as nat),
        {
            let ghost st0 = stack@;
            let node_idx = stack.pop().unwrap();
            proof {
                assert(st0.subrange(0, st0.len() - 1) =~= st0.drop_last());
                lemma_stack_pot_nonneg(stack@, n_nodes as nat);
                vstd::arithmetic::power2::lemma_pow2_pos((n_nodes - node_idx) as nat);
                assert(node_ok(self.nodes@, self.triangles@, rg, node_idx as int));
            }
            let node = self.nodes[node_idx];
            if node.tri_count > 0 {
                let f = node.first_tri;
                let c = node.tri_count;
                assert(rg[node_idx as int] == (f as int, c as int));
                let end = f + c;
                proof {
                    assert forall|jj: int| 0 <= jj < n_tris && !in_pending(rg, stack@, jj) && !(
                    f <= jj < end) implies !opt_before(
                        tri_hit(#[trigger] self.triangles@[jj], *ray),
                        nearest,
                    ) by {
                        if in_pending(rg, st0, jj) {
                            let si = choose|si: int| 0 <= si < st0.len() && in_rg(
                                rg,
                                #[trigger] st0[si] as int,
                                jj,
                            );
                            if si < st0.len() - 1 {
                                assert(stack@[si] == st0[si]);
                                assert(in_pending(rg, stack@, jj));
                            } else {
                                assert(st0[si] == node_idx);
                            }
                            assert(false);
                        }
                    }
                }
                let mut j = f;
                while j < end
                    invariant
                        f <= j <= end,
                        match nearest {
                            Option::Some(fr) => frac_wf(fr) && fr.num > 0 && nearest_idx < n_tris
                                && tri_hit(self.triangles@[nearest_idx as int], *ray)
                                == Option::Some(fr),
                            Option::None => true,
                        },
                        forall|jj: int| 0 <= jj < n_tris && !in_pending(rg, stack@, jj) && !(
                        f <= jj < end) ==> !opt_before(
                            tri_hit(#[trigger] self.triangles@[jj], *ray),
                            nearest,
                        ),
                        forall|jj: int| f <= jj < j ==> !opt_before(
                            tri_hit(#[trigger] self.triangles@[jj], *ray),
                            nearest,
                        ),
                    decreases end - j,
                {
                    let ghost old_nearest = nearest;
                    let hit = self.triangles[j].hit(ray);
                    let better = match (&hit, &nearest) {
                        (Option::Some(d), Option::Some(b)) => frac_lt_x(d, b),
                        (Option::Some(_), Option::None) => true,
                        _ => false,
                    };
                    if better {
                        nearest = hit;
                        nearest_idx = j;
                        proof {
                            let nv = hit->Some_0;
                            assert forall|jj: int| 0 <= jj < n_tris && !in_pending(
                                rg,
                                stack@,
                                jj,
                            ) && !(f <= jj < end) implies !opt_before(
                                tri_hit(#[trigger] self.triangles@[jj], *ray),
                                nearest,
                            ) by {
                                crate::triangle::lemma_tri_hit_wf(self.triangles@[jj], *ray);
                                lemma_settled_update(
                                    tri_hit(self.triangles@[jj], *ray),
                                    old_nearest,
                                    nv,
                                );
                            }
                            assert forall|jj: int| f <= jj < j + 1 implies !opt_before(
                                tri_hit(#[trigger] self.triangles@[jj], *ray),
                                nearest,
                            ) by {
                                if jj < j {
                                    crate::triangle::lemma_tri_hit_wf(self.triangles@[jj], *ray);
                                    lemma_settled_update(
                                        tri_hit(self.triangles@[jj], *ray),
                                        old_nearest,
                                        nv,
                                    );
                                } else {
                                    assert(!frac_lt(nv, nv));
                                }
                            }
                        }
                    } else {
                        proof {
                            assert(!opt_before(tri_hit(self.triangles@[j as int], *ray), nearest));
                        }
                    }
                    j = j + 1;
                }
                proof {
                    assert forall|jj: int| 0 <= jj < n_tris && !in_pending(
                        rg,
                        stack@,
                        jj,
                    ) implies !opt_before(tri_hit(#[trigger] self.triangles@[jj], *ray), nearest) by {
                        if !(f <= jj < end) {
                            if in_pending(rg, st0, jj) {
                                let si = choose|si: int| 0 <= si < st0.len() && in_rg(
                                    rg,
                                    #[trigger] st0[si] as int,
                                    jj,
                                );
                                if si < st0.len() - 1 {
                                    assert(stack@[si] == st0[si]);
                                    assert(in_pending(rg, stack@, jj));
                                } else {
                                    assert(st0[si] == node_idx);
                                    assert(false);
                                }
                            }
                        }
                    }
                }
            } else {
                let l = node.left_child;
                proof {
                    assert(node_ok(self.nodes@, self.triangles@, rg, l as int));
                    assert(node_ok(self.nodes@, self.triangles@, rg, l as int + 1));
                }
                let d1 = self.nodes[l].aabb.hit(ray, &nearest);
                let d2 = self.nodes[l + 1].aabb.hit(ray, &nearest);
                proof {
                    if d1 is None {
                        lemma_child_pruned(*self, *ray, l as int, nearest);
                    }
                    if d2 is None {
                        lemma_child_pruned(*self, *ray, l as int + 1, nearest);
                    }
                }
                let ghost st1 = stack@;
                match (d1, d2) {
                    (Option::Some(e1), Option::Some(e2)) => {
                        if frac_lt_x(&e2, &e1) {
                            stack.push(l);
                            stack.push(l + 1);
                        } else {
                            stack.push(l + 1);
                            stack.push(l);
                        }
                    },
                    (Option::Some(_), Option::None) => {
                        stack.push(l);
                    },
                    (Option::None, Option::Some(_)) => {
                        stack.push(l + 1);
                    },
                    (Option::None, Option::None) => {},
                }
                proof {
                    lemma_stack_pot_push(st1, l, n_nodes as nat);
                    lemma_stack_pot_push(st1.push(l), (l + 1) as usize, n_nodes as nat);
                    lemma_stack_pot_push(st1, (l + 1) as usize, n_nodes as nat);
                    lemma_stack_pot_push(st1.push((l + 1) as usize), l, n_nodes as nat);
                    lemma_pot_children(node_idx as nat, l as nat, n_nodes as nat);
                    lemma_stack_pot_nonneg(st1, n_nodes as nat);
                    assert forall|jj: int| 0 <= jj < n_tris && !in_pending(
                        rg,
                        stack@,
                        jj,
                    ) implies !opt_before(tri_hit(#[trigger] self.triangles@[jj], *ray), nearest) by {
                        lemma_internal_settles(
                            *self, *ray, node_idx as int, l as int, nearest, st0, st1, stack@,
                            d1, d2, jj,
                        );
                    }
                }
            }
        }
        match nearest {
            Option::None => {
                proof {
                    assert forall|j: int| 0 <= j < self.triangles@.len() implies tri_hit(
                        #[trigger] self.triangles@[j],
                        *ray,
                    ) is None by {
                        assert(!in_pending(rg, stack@, j));
                        assert(!opt_before(tri_hit(self.triangles@[j], *ray), nearest));
                    }
                }
                Option::None
            },
            Option::Some(fr) => {
                let rec = self.triangles[nearest_idx].create_record(ray, &fr);
                proof {
                    assert forall|j: int| 0 <= j < self.triangles@.len() implies !opt_before(
                        tri_hit(#[trigger] self.triangles@[j], *ray),
                        Option::Some(rec.t),
                    ) by {
                        assert(!in_pending(rg, stack@, j));
                    }
                    assert(tri_hit(self.triangles@[nearest_idx as int], *ray) == Option::Some(
                        rec.t,
                    ) && rec == spec_hit_record(self.triangles@[nearest_idx as int], *ray));
                }
                Option::Some(rec)
            },
        }
    }
}

/// A child box the slab test rejected holds no triangle that would improve
/// on the current best hit: any such hit's ray point would lie in the box,
/// which the completeness of the slab test rules out.
proof fn lemma_child_pruned(b: Bvh, r: Ray, ci: int, cur: Option<Frac>)
    requires
        bvh_wf(b),
        ray_wf(r),
        0 <= ci < b.nodes@.len(),
        slab_hit(b.nodes@[ci].aabb, r, cur) is None,
        cur is Some ==> frac_wf(cur->Some_0),
    ensures
        forall|j: int| in_rg(b.ranges@, ci, j) ==> !opt_before(
            tri_hit(#[trigger] b.triangles@[j], r),
            cur,
        ),
{
    assert(node_ok(b.nodes@, b.triangles@, b.ranges@, ci));
    assert forall|j: int| in_rg(b.ranges@, ci, j) implies !opt_before(
        tri_hit(#[trigger] b.triangles@[j], r),
        cur,
    ) by {
        let h = tri_hit(b.triangles@[j], r);
        if opt_before(h, cur) {
            let hf = h->Some_0;
            assert(tri_in_box(b.nodes@[ci].aabb, b.triangles@[j]));
            crate::triangle::lemma_tri_hit_in_box(b.nodes@[ci].aabb, b.triangles@[j], r, hf);
            crate::aabb::lemma_slab_complete(b.nodes@[ci].aabb, r, hf, cur);
            assert(false);
        }
    }
}

/// After popping an internal node and pushing its unpruned children, every
/// triangle no longer pending is settled against the current best hit.
proof fn lemma_internal_settles(
    b: Bvh,
    r: Ray,
    ni: int,
    l: int,
    cur: Option<Frac>,
    st0: Seq<usize>,
    st1: Seq<usize>,
    st2: Seq<usize>,
    d1: Option<Frac>,
    d2: Option<Frac>,
    jj: int,
)
    requires
        bvh_wf(b),
        ray_wf(r),
        0 <= ni < b.nodes@.len(),
        b.nodes@[ni].tri_count == 0,
        b.nodes@[ni].left_child == l,
        cur is Some ==> frac_wf(cur->Some_0),
        st0.len() >= 1,
        st1 == st0.drop_last(),
        st0.last() == ni,
        d1 == slab_hit(b.nodes@[l].aabb, r, cur),
        d2 == slab_hit(b.nodes@[l + 1].aabb, r, cur),
        (d1 is Some && d2 is Some) ==> (st2 == st1.push((l + 1) as usize).push(l as usize)
            || st2 == st1.push(l as usize).push((l + 1) as usize)),
        (d1 is Some && d2 is None) ==> st2 == st1.push(l as usize),
        (d1 is None && d2 is Some) ==> st2 == st1.push((l + 1) as usize),
        (d1 is None && d2 is None) ==> st2 == st1,
        forall|j: int| 0 <= j < b.triangles@.len() && !in_pending(b.ranges@, st0, j)
            ==> !opt_before(tri_hit(#[trigger] b.triangles@[j], r), cur),
        0 <= jj < b.triangles@.len(),
        !in_pending(b.ranges@, st2, jj),
    ensures
        !opt_before(tri_hit(b.triangles@[jj], r), cur),
{
    assert(node_ok(b.nodes@, b.triangles@, b.ranges@, ni));
    let rg = b.ranges@;
    if in_pending(rg, st0, jj) {
        let si = choose|si: int| 0 <= si < st0.len() && in_rg(rg, #[trigger] st0[si] as int, jj);
        if si < st0.len() - 1 {
            // still pending through an untouched stack entry
            assert(st1[si] == st0[si]);
            assert(in_pending(rg, st1, jj));
            lemma_pending_monotone(rg, st1, st2, d1, d2, l, jj);
            assert(false);
        } else {
            // was pending through the popped node: lies in one child's range
            assert(in_rg(rg, ni, jj));
            assert(rg[l].0 == rg[ni].0 && rg[l + 1].0 == rg[l].0 + rg[l].1 && rg[l].1 + rg[l
                + 1].1 == rg[ni].1);
            if in_rg(rg, l, jj) {
                if d1 is Some {
                    lemma_pushed_pending(rg, st1, st2, d1, d2, l, l, jj);
                    assert(false);
                } else {
                    lemma_child_pruned(b, r, l, cur);
                }
            } else {
                assert(in_rg(rg, l + 1, jj));
                if d2 is Some {
                    lemma_pushed_pending(rg, st1, st2, d1, d2, l, l + 1, jj);
                    assert(false);
                } else {
                    lemma_child_pruned(b, r, l + 1, cur);
                }
            }
        }
    }
}

/// Entries of the remaining stack are still present after the pushes.
proof fn lemma_pending_monotone(
    rg: Seq<(int, int)>,
    st1: Seq<usize>,
    st2: Seq<usize>,
    d1: Option<Frac>,
    d2: Option<Frac>,
    l: int,
    jj: int,
)
    requires
        in_pending(rg, st1, jj),
        (d1 is Some && d2 is Some) ==> (st2 == st1.push((l + 1) as usize).push(l as usize)
            || st2 == st1.push(l as usize).push((l + 1) as usize)),
        (d1 is Some && d2 is None) ==> st2 == st1.push(l as usize),
        (d1 is None && d2 is Some) ==> st2 == st1.push((l + 1) as usize),
        (d1 is None && d2 is None) ==> st2 == st1,
    ensures
        in_pending(rg, st2, jj),
{
    let si = choose|si: int| 0 <= si < st1.len() && in_rg(rg, #[trigger] st1[si] as int, jj);
    assert(st2[si] == st1[si]);
    assert(in_pending(rg, st2, jj));
}

/// A pushed child keeps its whole range pending.
proof fn lemma_pushed_pending(
    rg: Seq<(int, int)>,
    st1: Seq<usize>,
    st2: Seq<usize>,
    d1: Option<Frac>,
    d2: Option<Frac>,
    l: int,
    ci: int,
    jj: int,
)
    requires
        in_rg(rg, ci, jj),
        ci == l || ci == l + 1,
        ci == l ==> d1 is Some,
        ci == l + 1 ==> d2 is Some,
        (d1 is Some && d2 is Some) ==> (st2 == st1.push((l + 1) as usize).push(l as usize)
            || st2 == st1.push(l as usize).push((l + 1) as usize)),
        (d1 is Some && d2 is None) ==> st2 == st1.push(l as usize),
        (d1 is None && d2 is Some) ==> st2 == st1.push((l + 1) as usize),
        (d1 is None && d2 is None) ==> st2 == st1,
        0 <= l,
        l + 1 <= usize::MAX,
    ensures
        in_pending(rg, st2, jj),
{
    if d1 is Some && d2 is Some {
        if st2 == st1.push((l + 1) as usize).push(l as usize) {
            if ci == l {
                assert(st2[st2.len() - 1] == l as usize);
                assert(in_rg(rg, st2[st2.len() - 1] as int, jj));
            } else {
                assert(st2[st2.len() - 2] == (l + 1) as usize);
                assert(in_rg(rg, st2[st2.len() - 2] as int, jj));
            }
        } else {
            if ci == l {
                assert(st2[st2.len() - 2] == l as usize);
                assert(in_rg(rg, st2[st2.len() - 2] as int, jj));
            } else {
                assert(st2[st2.len() - 1] == (l + 1) as usize);
                assert(in_rg(rg, st2[st2.len() - 1] as int, jj));
            }
        }
    } else {
        assert(st2[st2.len() - 1] == ci as usize);
        assert(in_rg(rg, st2[st2.len() - 1] as int, jj));
    }
    assert(in_pending(rg, st2, jj));
}


/// The partition invariant of the hierarchy: every internal node's two
/// children own disjoint, contiguous triangle ranges whose union is exactly
/// the parent's range, and the root owns the whole buffer.
pub proof fn lemma_partition_invariant(b: Bvh, i: int)
    requires
        bvh_wf(b),
        0 <= i < b.nodes@.len(),
        b.nodes@[i].tri_count == 0,
    ensures
        ({
            let l = b.nodes@[i].left_child as int;
            &&& i < l && l + 1 < b.nodes@.len()
            &&& b.ranges@[l].0 == b.ranges@[i].0
            &&& b.ranges@[l + 1].0 == b.ranges@[l].0 + b.ranges@[l].1
            &&& b.ranges@[l].1 + b.ranges@[l + 1].1 == b.ranges@[i].1
            &&& 0 <= b.ranges@[l].1 && 0 <= b.ranges@[l + 1].1
            &&& 0 <= b.ranges@[i].0 && b.ranges@[i].0 + b.ranges@[i].1 <= b.triangles@.len()
        }),
        b.ranges@[0] == (0int, b.triangles@.len() as int),
{
    assert(node_ok(b.nodes@, b.triangles@, b.ranges@, i));
    let l = b.nodes@[i].left_child as int;
    assert(node_ok(b.nodes@, b.triangles@, b.ranges@, l));
    assert(node_ok(b.nodes@, b.triangles@, b.ranges@, l + 1));
}

} // verus!


