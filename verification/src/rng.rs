use vstd::prelude::*;

verus! {

/// Relies on fastrand::i64 over an inclusive range: its source clamps the
/// draw into the range and panics only on an empty one, which the
/// precondition rules out. Nothing else is assumed of the value: callers
/// must be correct for every outcome.
#[verifier::external_body]
pub fn rand_i64(lo: i64, hi: i64) -> (r: i64)
    requires
        lo <= hi,
    ensures
        lo <= r <= hi,
{
    fastrand::i64(lo..=hi)
}

/// A vector drawn from the half-to-full-radius shell of the unit ball and
/// rescaled to unit length, by rejection sampling with a deterministic
/// fallback after a bounded number of draws (so the function always
/// returns; the fallback is an axis direction). The result never collapses:
/// its squared length stays within a sliver of the exact unit length.
pub fn random_unit_vector() -> (r: crate::vec::Vec3I)
    ensures
        crate::vec::in_bounds(r, 65536),
        65536 * 65536 - 393216 <= crate::vec::spec_len2(r) <= 65536 * 65536 + 655363,
{
    let mut tries: usize = 0;
    while tries < 64
        invariant
            tries <= 64,
        decreases 64 - tries,
    {
        let x = rand_i64(-65536, 65536);
        let y = rand_i64(-65536, 65536);
        let z = rand_i64(-65536, 65536);
        proof {
            crate::math::lemma_mul_bounds(x as int, x as int, 65536, 65536);
            crate::math::lemma_mul_bounds(y as int, y as int, 65536, 65536);
            crate::math::lemma_mul_bounds(z as int, z as int, 65536, 65536);
        }
        let l2 = (x as i128) * (x as i128) + (y as i128) * (y as i128) + (z as i128) * (
        z as i128);
        if 0x4000_0000 <= l2 && l2 <= 65536 * 65536 {
            let v = crate::vec::Vec3I { x, y, z };
            proof {
                crate::vec::lemma_normalize_near_unit(v);
            }
            return crate::vec::normalize_unit(&v);
        }
        tries = tries + 1;
    }
    crate::vec::Vec3I { x: 0, y: 0, z: 65536 }
}

} // verus!
