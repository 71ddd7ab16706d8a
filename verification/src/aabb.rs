use vstd::prelude::*;

use crate::math::{
    Frac, frac_wf, frac_le, frac_lt, lemma_frac_le_trans, lemma_frac_le_lt_trans, frac_lt_x,
};
use crate::vec::{Vec3I, in_bounds, axis_of, COORD_LIMIT};
use crate::ray::{Ray, ray_wf};

verus! {

/// An axis-aligned bounding box. The sentinel empty box has
/// `minimum = COORD_LIMIT` and `maximum = -COORD_LIMIT` on every axis, the
/// identity element for `grow`.
#[derive(Clone, Copy, Debug, PartialEq, Eq, Structural)]
pub struct Aabb {
    pub minimum: Vec3I,
    pub maximum: Vec3I,
}

pub open spec fn aabb_wf(b: Aabb) -> bool {
    in_bounds(b.minimum, COORD_LIMIT as int) && in_bounds(b.maximum, COORD_LIMIT as int)
}

/// The box spans nonnegative extents on every axis.
pub open spec fn aabb_nonempty(b: Aabb) -> bool {
    forall|a: int| 0 <= a < 3 ==> axis_of(b.minimum, a) <= #[trigger] axis_of(b.maximum, a)
}

pub open spec fn point_in_box(b: Aabb, p: Vec3I) -> bool {
    forall|a: int| 0 <= a < 3
        ==> axis_of(b.minimum, a) <= #[trigger] axis_of(p, a) <= axis_of(b.maximum, a)
}

/// The point `origin + (t.num / t.den) * direction` lies inside the box,
/// stated with every inequality scaled by the positive denominator.
pub open spec fn t_in_box(b: Aabb, r: Ray, t: Frac) -> bool {
    forall|a: int| 0 <= a < 3 ==> {
        t.den * #[trigger] axis_of(b.minimum, a)
            <= t.den * axis_of(r.origin, a) + t.num * axis_of(r.direction, a)
            <= t.den * axis_of(b.maximum, a)
    }
}

/// Entry distance of the slab interval on one non-parallel axis, with a
/// positive denominator.
pub open spec fn slab_lo(b: Aabb, r: Ray, a: int) -> Frac {
    if axis_of(r.direction, a) > 0 {
        Frac {
            num: (axis_of(b.minimum, a) - axis_of(r.origin, a)) as i64,
            den: axis_of(r.direction, a) as i64,
        }
    } else {
        Frac {
            num: (axis_of(r.origin, a) - axis_of(b.maximum, a)) as i64,
            den: (-axis_of(r.direction, a)) as i64,
        }
    }
}

/// Exit distance of the slab interval on one non-parallel axis.
pub open spec fn slab_hi(b: Aabb, r: Ray, a: int) -> Frac {
    if axis_of(r.direction, a) > 0 {
        Frac {
            num: (axis_of(b.maximum, a) - axis_of(r.origin, a)) as i64,
            den: axis_of(r.direction, a) as i64,
        }
    } else {
        Frac {
            num: (axis_of(r.origin, a) - axis_of(b.minimum, a)) as i64,
            den: (-axis_of(r.direction, a)) as i64,
        }
    }
}

pub open spec fn fmax(a: Frac, b: Frac) -> Frac {
    if frac_lt(a, b) {
        b
    } else {
        a
    }
}

pub open spec fn fmin_opt(a: Option<Frac>, b: Frac) -> Option<Frac> {
    match a {
        Option::None => Option::Some(b),
        Option::Some(x) => if frac_lt(b, x) {
            Option::Some(b)
        } else {
            Option::Some(x)
        },
    }
}

/// Running entry distance over the first `k` axes, clamped below at zero.
pub open spec fn entry_upto(b: Aabb, r: Ray, k: nat) -> Frac
    decreases k,
{
    if k == 0 {
        Frac { num: 0, den: 1 }
    } else if axis_of(r.direction, k - 1) != 0 {
        fmax(entry_upto(b, r, (k - 1) as nat), slab_lo(b, r, k - 1))
    } else {
        entry_upto(b, r, (k - 1) as nat)
    }
}

/// Running exit distance over the first `k` axes; `None` stands for "no
/// constraint yet".
pub open spec fn exit_upto(b: Aabb, r: Ray, k: nat) -> Option<Frac>
    decreases k,
{
    if k == 0 {
        Option::None
    } else if axis_of(r.direction, k - 1) != 0 {
        fmin_opt(exit_upto(b, r, (k - 1) as nat), slab_hi(b, r, k - 1))
    } else {
        exit_upto(b, r, (k - 1) as nat)
    }
}

/// On every axis the ray is parallel to, the origin lies between the slabs.
pub open spec fn parallel_ok(b: Aabb, r: Ray) -> bool {
    forall|a: int| 0 <= a < 3 && #[trigger] axis_of(r.direction, a) == 0
        ==> axis_of(b.minimum, a) <= axis_of(r.origin, a) <= axis_of(b.maximum, a)
}

/// The exact result of the slab test against a best-known-hit limit: the
/// entry distance when the clamped slab intervals overlap in front of the
/// limit, `None` otherwise.
pub open spec fn slab_hit(b: Aabb, r: Ray, limit: Option<Frac>) -> Option<Frac> {
    let entry = entry_upto(b, r, 3);
    let exit = exit_upto(b, r, 3);
    if parallel_ok(b, r) && (match exit {
        Option::None => true,
        Option::Some(x) => frac_le(entry, x),
    }) && (match limit {
        Option::None => true,
        Option::Some(l) => frac_lt(entry, l),
    }) {
        Option::Some(entry)
    } else {
        Option::None
    }
}

impl Aabb {
    pub fn new(minimum: Vec3I, maximum: Vec3I) -> (r: Aabb)
        ensures
            r == (Aabb { minimum, maximum }),
    {
        Aabb { minimum, maximum }
    }

    /// The sentinel empty box, identity for `grow`.
    pub fn empty() -> (r: Aabb)
        ensures
            r.minimum.x == COORD_LIMIT && r.minimum.y == COORD_LIMIT && r.minimum.z == COORD_LIMIT,
            r.maximum.x == -COORD_LIMIT && r.maximum.y == -COORD_LIMIT && r.maximum.z
                == -COORD_LIMIT,
            aabb_wf(r),
    {
        Aabb {
            minimum: Vec3I { x: COORD_LIMIT, y: COORD_LIMIT, z: COORD_LIMIT },
            maximum: Vec3I { x: -COORD_LIMIT, y: -COORD_LIMIT, z: -COORD_LIMIT },
        }
    }

    /// Extends the box to contain the point.
    pub fn grow(&mut self, v: Vec3I)
        ensures
            final (self).minimum == crate::vec::spec_min3(old(self).minimum, v),
            final (self).maximum == crate::vec::spec_max3(old(self).maximum, v),
    {
        self.minimum = self.minimum.min(&v);
        self.maximum = self.maximum.max(&v);
    }

    /// The surface-area proxy used by the split cost model:
    /// the sum of pairwise extent products (half the surface area).
    pub fn area(&self) -> (r: i64)
        requires
            aabb_wf(*self),
            aabb_nonempty(*self),
        ensures
            r == spec_area(*self),
            0 <= r <= 0x300_0000_0000,
    {
        proof {
            assert(axis_of(self.minimum, 0) <= axis_of(self.maximum, 0));
            assert(axis_of(self.minimum, 1) <= axis_of(self.maximum, 1));
            assert(axis_of(self.minimum, 2) <= axis_of(self.maximum, 2));
            crate::math::lemma_mul_le(
                self.maximum.x - self.minimum.x,
                self.maximum.y - self.minimum.y,
                2 * COORD_LIMIT,
                2 * COORD_LIMIT,
            );
            crate::math::lemma_mul_le(
                self.maximum.y - self.minimum.y,
                self.maximum.z - self.minimum.z,
                2 * COORD_LIMIT,
                2 * COORD_LIMIT,
            );
            crate::math::lemma_mul_le(
                self.maximum.z - self.minimum.z,
                self.maximum.x - self.minimum.x,
                2 * COORD_LIMIT,
                2 * COORD_LIMIT,
            );
        }
        let ex = self.maximum.x - self.minimum.x;
        let ey = self.maximum.y - self.minimum.y;
        let ez = self.maximum.z - self.minimum.z;
        ex * ey + ey * ez + ez * ex
    }

    /// Slab test: intersects the ray with the three slab intervals, clipped
    /// against the best hit found so far.
    pub fn hit(&self, ray: &Ray, limit: &Option<Frac>) -> (r: Option<Frac>)
        requires
            aabb_wf(*self),
            ray_wf(*ray),
            match limit {
                Option::Some(l) => frac_wf(*l),
                Option::None => true,
            },
        ensures
            r == slab_hit(*self, *ray, *limit),
            r is Some ==> frac_wf(r->Some_0) && r->Some_0.num >= 0,
    {
        let mut entry = Frac { num: 0, den: 1 };
        let mut exit: Option<Frac> = Option::None;
        let mut a: usize = 0;
        while a < 3
            invariant
                aabb_wf(*self),
                ray_wf(*ray),
                a <= 3,
                entry == entry_upto(*self, *ray, a as nat),
                exit == exit_upto(*self, *ray, a as nat),
                frac_wf(entry),
                entry.num >= 0,
                match exit {
                    Option::Some(x) => frac_wf(x),
                    Option::None => true,
                },
                forall|j: int| 0 <= j < a && #[trigger] axis_of(ray.direction, j) == 0
                    ==> axis_of(self.minimum, j) <= axis_of(ray.origin, j)
                        <= axis_of(self.maximum, j),
            decreases 3 - a,
        {
            let d = ray.direction.axis(a);
            let o = ray.origin.axis(a);
            let mn = self.minimum.axis(a);
            let mx = self.maximum.axis(a);
            if d == 0 {
                if !(mn <= o && o <= mx) {
                    assert(!parallel_ok(*self, *ray));
                    return Option::None;
                }
            } else {
                let lo = if d > 0 {
                    Frac { num: mn - o, den: d }
                } else {
                    Frac { num: o - mx, den: -d }
                };
                let hi = if d > 0 {
                    Frac { num: mx - o, den: d }
                } else {
                    Frac { num: o - mn, den: -d }
                };
                assert(lo == slab_lo(*self, *ray, a as int));
                assert(hi == slab_hi(*self, *ray, a as int));
                if frac_lt_x(&entry, &lo) {
                    proof {
                        assert(lo.num > 0) by (nonlinear_arith)
                            requires
                                entry.num * lo.den < lo.num * entry.den,
                                entry.num >= 0,
                                entry.den > 0,
                                lo.den > 0,
                        ;
                    }
                    entry = lo;
                }
                exit = match exit {
                    Option::None => Option::Some(hi),
                    Option::Some(x) => if frac_lt_x(&hi, &x) {
                        Option::Some(hi)
                    } else {
                        Option::Some(x)
                    },
                };
            }
            a = a + 1;
        }
        let feasible = match &exit {
            Option::None => true,
            Option::Some(x) => crate::math::frac_le_x(&entry, x),
        };
        if !feasible {
            return Option::None;
        }
        match limit {
            Option::None => Option::Some(entry),
            Option::Some(l) => {
                if frac_lt_x(&entry, l) {
                    Option::Some(entry)
                } else {
                    Option::None
                }
            },
        }
    }
}

pub open spec fn spec_area(b: Aabb) -> int {
    let ex = b.maximum.x - b.minimum.x;
    let ey = b.maximum.y - b.minimum.y;
    let ez = b.maximum.z - b.minimum.z;
    ex * ey + ey * ez + ez * ex
}


/// Well-formedness of the running entry and exit values: positive
/// denominators throughout, and a nonnegative entry.
proof fn lemma_entry_exit_wf(b: Aabb, r: Ray, k: nat)
    requires
        aabb_wf(b),
        ray_wf(r),
        k <= 3,
    ensures
        frac_wf(entry_upto(b, r, k)),
        match exit_upto(b, r, k) {
            Option::None => true,
            Option::Some(x) => frac_wf(x),
        },
    decreases k,
{
    if k > 0 {
        lemma_entry_exit_wf(b, r, (k - 1) as nat);
    }
}

/// Completeness of the slab test: any nonnegative rational parameter whose
/// ray point lies inside the box, and which beats the limit, makes the test
/// report a hit whose entry distance does not exceed that parameter.
pub proof fn lemma_slab_complete(b: Aabb, r: Ray, t: Frac, limit: Option<Frac>)
    requires
        aabb_wf(b),
        ray_wf(r),
        frac_wf(t),
        t.num >= 0,
        t_in_box(b, r, t),
        match limit {
            Option::Some(l) => frac_wf(l) && frac_lt(t, l),
            Option::None => true,
        },
    ensures
        slab_hit(b, r, limit) is Some,
        frac_le(slab_hit(b, r, limit)->Some_0, t),
{
    assert forall|a: int| 0 <= a < 3 && #[trigger] axis_of(r.direction, a) == 0 implies axis_of(b.minimum, a)
        <= axis_of(r.origin, a) <= axis_of(b.maximum, a) by {
        let mn = axis_of(b.minimum, a);
        let o = axis_of(r.origin, a);
        let mx = axis_of(b.maximum, a);
        assert(mn <= o <= mx) by (nonlinear_arith)
            requires
                t.den * mn <= t.den * o + t.num * 0 <= t.den * mx,
                t.den > 0,
        ;
    }
    assert forall|a: int| 0 <= a < 3 && axis_of(r.direction, a) != 0 implies frac_le(
        #[trigger] slab_lo(b, r, a),
        t,
    ) by {
        let mn = axis_of(b.minimum, a);
        let o = axis_of(r.origin, a);
        let mx = axis_of(b.maximum, a);
        let d = axis_of(r.direction, a);
        let lo = slab_lo(b, r, a);
        if d > 0 {
            assert(lo.num == mn - o && lo.den == d);
            assert((mn - o) * t.den <= t.num * d) by (nonlinear_arith)
                requires
                    t.den * mn <= t.den * o + t.num * d,
                    t.den > 0,
            ;
        } else {
            assert(lo.num == o - mx && lo.den == -d);
            assert((o - mx) * t.den <= t.num * (-d)) by (nonlinear_arith)
                requires
                    t.den * o + t.num * d <= t.den * mx,
                    t.den > 0,
            ;
        }
    }
    assert forall|a: int| 0 <= a < 3 && axis_of(r.direction, a) != 0 implies frac_le(
        t,
        #[trigger] slab_hi(b, r, a),
    ) by {
        let mn = axis_of(b.minimum, a);
        let o = axis_of(r.origin, a);
        let mx = axis_of(b.maximum, a);
        let d = axis_of(r.direction, a);
        let hi = slab_hi(b, r, a);
        if d > 0 {
            assert(hi.num == mx - o && hi.den == d);
            assert(t.num * d <= (mx - o) * t.den) by (nonlinear_arith)
                requires
                    t.den * o + t.num * d <= t.den * mx,
                    t.den > 0,
            ;
        } else {
            assert(hi.num == o - mn && hi.den == -d);
            assert(t.num * (-d) <= (o - mn) * t.den) by (nonlinear_arith)
                requires
                    t.den * mn <= t.den * o + t.num * d,
                    t.den > 0,
            ;
        }
    }
    lemma_entry_le(b, r, t, 3);
    lemma_exit_ge(b, r, t, 3);
    let entry = entry_upto(b, r, 3);
    let exit = exit_upto(b, r, 3);
    lemma_entry_exit_wf(b, r, 3);
    match exit {
        Option::None => {},
        Option::Some(x) => {
            lemma_frac_le_trans(entry, t, x);
        },
    }
    match limit {
        Option::None => {},
        Option::Some(l) => {
            lemma_frac_le_lt_trans(entry, t, l);
        },
    }
}

proof fn lemma_entry_le(b: Aabb, r: Ray, t: Frac, k: nat)
    requires
        aabb_wf(b),
        ray_wf(r),
        frac_wf(t),
        t.num >= 0,
        k <= 3,
        forall|a: int| 0 <= a < 3 && axis_of(r.direction, a) != 0 ==> frac_le(
            #[trigger] slab_lo(b, r, a),
            t,
        ),
    ensures
        frac_le(entry_upto(b, r, k), t),
    decreases k,
{
    if k == 0 {
        assert(frac_le(Frac { num: 0, den: 1 }, t)) by (nonlinear_arith)
            requires
                t.num >= 0,
                t.den > 0,
        ;
    } else {
        lemma_entry_le(b, r, t, (k - 1) as nat);
    }
}

proof fn lemma_exit_ge(b: Aabb, r: Ray, t: Frac, k: nat)
    requires
        aabb_wf(b),
        ray_wf(r),
        frac_wf(t),
        k <= 3,
        forall|a: int| 0 <= a < 3 && axis_of(r.direction, a) != 0 ==> frac_le(
            t,
            #[trigger] slab_hi(b, r, a),
        ),
    ensures
        match exit_upto(b, r, k) {
            Option::None => true,
            Option::Some(x) => frac_le(t, x),
        },
    decreases k,
{
    if k > 0 {
        lemma_exit_ge(b, r, t, (k - 1) as nat);
    }
}

} // verus!
