use vstd::prelude::*;

use crate::vec::{Vec3I, in_bounds, COORD_LIMIT};

verus! {

/// A ray: origin plus direction, both on the integer coordinate grid.
/// The point at parameter `t = n / d` is `origin + (n / d) * direction`;
/// all queries keep `t` as an exact rational, so no reciprocal is stored.
#[derive(Clone, Copy, Debug, PartialEq, Eq, Structural)]
pub struct Ray {
    pub origin: Vec3I,
    pub direction: Vec3I,
}

pub open spec fn ray_wf(r: Ray) -> bool {
    in_bounds(r.origin, COORD_LIMIT as int) && in_bounds(r.direction, COORD_LIMIT as int)
}

impl Ray {
    pub fn new(origin: Vec3I, direction: Vec3I) -> (r: Ray)
        ensures
            r == (Ray { origin, direction }),
    {
        Ray { origin, direction }
    }
}

} // verus!
