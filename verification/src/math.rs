use vstd::prelude::*;

verus! {

/// An exact rational distance along a ray: `num / den` with `den > 0`.
/// Hit distances are compared without ever dividing, by cross-multiplying
/// into 128-bit intermediates.
#[derive(Clone, Copy, Debug, PartialEq, Eq, Structural)]
pub struct Frac {
    pub num: i64,
    pub den: i64,
}

pub open spec fn frac_wf(f: Frac) -> bool {
    f.den > 0
}

pub open spec fn frac_le(a: Frac, b: Frac) -> bool {
    a.num * b.den <= b.num * a.den
}

pub open spec fn frac_lt(a: Frac, b: Frac) -> bool {
    a.num * b.den < b.num * a.den
}

/// `a * b` stays within the product of the bounds of `a` and `b`.
pub proof fn lemma_mul_bounds(a: int, b: int, m: int, n: int)
    by (nonlinear_arith)
    requires
        -m <= a <= m,
        -n <= b <= n,
        0 <= m,
        0 <= n,
    ensures
        -(m * n) <= a * b <= m * n,
{
}

/// Multiplying two nonnegative values bounded by `m` and `n` stays below `m * n`.
pub proof fn lemma_mul_le(a: int, b: int, m: int, n: int)
    by (nonlinear_arith)
    requires
        0 <= a <= m,
        0 <= b <= n,
    ensures
        0 <= a * b <= m * n,
{
}

pub proof fn lemma_frac_le_trans(a: Frac, b: Frac, c: Frac)
    by (nonlinear_arith)
    requires
        frac_wf(a),
        frac_wf(b),
        frac_wf(c),
        frac_le(a, b),
        frac_le(b, c),
    ensures
        frac_le(a, c),
{
}

pub proof fn lemma_frac_lt_le_trans(a: Frac, b: Frac, c: Frac)
    by (nonlinear_arith)
    requires
        frac_wf(a),
        frac_wf(b),
        frac_wf(c),
        frac_lt(a, b),
        frac_le(b, c),
    ensures
        frac_lt(a, c),
{
}

pub proof fn lemma_frac_le_lt_trans(a: Frac, b: Frac, c: Frac)
    by (nonlinear_arith)
    requires
        frac_wf(a),
        frac_wf(b),
        frac_wf(c),
        frac_le(a, b),
        frac_lt(b, c),
    ensures
        frac_lt(a, c),
{
}


/// Cross-multiplied comparison, exact for all well-formed rationals.
pub fn frac_le_x(a: &Frac, b: &Frac) -> (r: bool)
    requires
        frac_wf(*a),
        frac_wf(*b),
    ensures
        r == frac_le(*a, *b),
{
    proof {
        lemma_mul_bounds(a.num as int, b.den as int, 0x8000_0000_0000_0000, 0x8000_0000_0000_0000);
        lemma_mul_bounds(b.num as int, a.den as int, 0x8000_0000_0000_0000, 0x8000_0000_0000_0000);
    }
    (a.num as i128) * (b.den as i128) <= (b.num as i128) * (a.den as i128)
}

pub fn frac_lt_x(a: &Frac, b: &Frac) -> (r: bool)
    requires
        frac_wf(*a),
        frac_wf(*b),
    ensures
        r == frac_lt(*a, *b),
{
    proof {
        lemma_mul_bounds(a.num as int, b.den as int, 0x8000_0000_0000_0000, 0x8000_0000_0000_0000);
        lemma_mul_bounds(b.num as int, a.den as int, 0x8000_0000_0000_0000, 0x8000_0000_0000_0000);
    }
    (a.num as i128) * (b.den as i128) < (b.num as i128) * (a.den as i128)
}

/// Largest `r` with `r * r <= n`: the integer square root.
pub fn isqrt_u64(n: u64) -> (r: u64)
    ensures
        r * r <= n < (r + 1) * (r + 1),
{
    let mut lo: u64 = 0;
    let mut hi: u64 = 4294967296;
    while lo + 1 < hi
        invariant
            lo < hi <= 4294967296,
            lo * lo <= n,
            n < hi * hi,
        decreases hi - lo,
    {
        let mid: u64 = lo + (hi - lo) / 2;
        proof {
            lemma_mul_le(mid as int, mid as int, 0x1_0000_0000, 0x1_0000_0000);
        }
        if (mid as u128) * (mid as u128) <= n as u128 {
            lo = mid;
        } else {
            hi = mid;
        }
    }
    lo
}

/// Floor division of a signed 128-bit value by a positive one; agrees with
/// mathematical division for a positive divisor.
pub fn div_floor_i128(n: i128, d: i128) -> (r: i128)
    requires
        d > 0,
        -0x4000_0000_0000_0000_0000_0000_0000_0000 < n,
    ensures
        r == n as int / d as int,
{
    if n >= 0 {
        proof {
            vstd::arithmetic::div_mod::lemma_div_nonincreasing(n as int, d as int);
            vstd::arithmetic::div_mod::lemma_div_pos_is_pos(n as int, d as int);
        }
        let q = (n as u128) / (d as u128);
        q as i128
    } else {
        let nu = (-n) as u128;
        let du = d as u128;
        proof {
            vstd::arithmetic::div_mod::lemma_div_nonincreasing(nu as int, du as int);
            vstd::arithmetic::div_mod::lemma_div_pos_is_pos(nu as int, du as int);
            vstd::arithmetic::div_mod::lemma_fundamental_div_mod(nu as int, du as int);
            vstd::arithmetic::div_mod::lemma_mod_bound(nu as int, du as int);
        }
        let q = nu / du;
        let rem = nu % du;
        if rem == 0 {
            proof {
                assert((n as int) == (-(q as int)) * (d as int) + 0) by (nonlinear_arith)
                    requires
                        nu as int == du as int * (q as int) + 0,
                        n as int == -(nu as int),
                        d as int == du as int,
                ;
                vstd::arithmetic::div_mod::lemma_fundamental_div_mod_converse(
                    n as int, d as int, -(q as int), 0);
            }
            -(q as i128)
        } else {
            proof {
                assert((n as int) == (-(q as int) - 1) * (d as int) + ((du - rem) as int))
                    by (nonlinear_arith)
                    requires
                        nu as int == du as int * (q as int) + (rem as int),
                        n as int == -(nu as int),
                        d as int == du as int,
                ;
                vstd::arithmetic::div_mod::lemma_fundamental_div_mod_converse(
                    n as int, d as int, -(q as int) - 1, (du - rem) as int);
            }
            -(q as i128) - 1
        }
    }
}


/// The mathematical integer square root, defined by counting up; the
/// executable `isqrt_u64` is proved to agree with it.
pub open spec fn spec_isqrt(n: nat) -> nat
    decreases n,
{
    if n == 0 {
        0
    } else {
        let r = spec_isqrt((n - 1) as nat);
        if (r + 1) * (r + 1) <= n {
            r + 1
        } else {
            r
        }
    }
}

pub proof fn lemma_spec_isqrt_bounds(n: nat)
    ensures
        spec_isqrt(n) * spec_isqrt(n) <= n,
        n < (spec_isqrt(n) + 1) * (spec_isqrt(n) + 1),
    decreases n,
{
    if n > 0 {
        lemma_spec_isqrt_bounds((n - 1) as nat);
        let r = spec_isqrt((n - 1) as nat);
        if (r + 1) * (r + 1) <= n {
            assert(spec_isqrt(n) == r + 1);
            assert(n < ((r + 1) + 1) * ((r + 1) + 1)) by (nonlinear_arith)
                requires
                    ((n - 1) as nat) < (r + 1) * (r + 1),
                    (r + 1) * (r + 1) <= n,
                    0 <= r,
            ;
            assert(n < (spec_isqrt(n) + 1) * (spec_isqrt(n) + 1)) by (nonlinear_arith)
                requires
                    spec_isqrt(n) == r + 1,
                    n < ((r + 1) + 1) * ((r + 1) + 1),
            ;
        } else {
            assert(spec_isqrt(n) == r);
            assert(r * r <= (n - 1) as nat);
            assert(n < (spec_isqrt(n) + 1) * (spec_isqrt(n) + 1)) by (nonlinear_arith)
                requires
                    spec_isqrt(n) == r,
                    !((r + 1) * (r + 1) <= n),
            ;
        }
    } else {
        assert(spec_isqrt(0) == 0);
        assert(0nat < (0nat + 1) * (0nat + 1)) by (nonlinear_arith);
    }
}

/// Any value satisfying the floor-square-root bracketing is the square root.
pub proof fn lemma_isqrt_unique(n: nat, r: nat)
    requires
        r * r <= n,
        n < (r + 1) * (r + 1),
    ensures
        r == spec_isqrt(n),
{
    let s = spec_isqrt(n);
    lemma_spec_isqrt_bounds(n);
    if r < s {
        assert((r + 1) * (r + 1) <= s * s) by (nonlinear_arith)
            requires
                r + 1 <= s,
                0 <= r,
        ;
    }
    if s < r {
        assert((s + 1) * (s + 1) <= r * r) by (nonlinear_arith)
            requires
                s + 1 <= r,
                0 <= s,
        ;
    }
}

/// A quotient with a positive divisor stays within `m` when the dividend
/// stays within `d * m`.
pub proof fn lemma_div_bound(num: int, d: int, m: int)
    requires
        d > 0,
        0 <= m,
        -(d * m) <= num <= d * m,
    ensures
        -m <= num / d <= m,
{
    vstd::arithmetic::div_mod::lemma_div_is_ordered(-(d * m), num, d);
    vstd::arithmetic::div_mod::lemma_div_is_ordered(num, d * m, d);
    vstd::arithmetic::div_mod::lemma_div_multiples_vanish(m, d);
    vstd::arithmetic::div_mod::lemma_div_multiples_vanish(-m, d);
    assert(d * (-m) == -(d * m)) by (nonlinear_arith);
}

/// Multiplying a floored quotient back by the divisor stays at or below the
/// dividend.
pub proof fn lemma_div_mul_le(x: int, d: int)
    requires
        d > 0,
        0 <= x,
    ensures
        d * (x / d) <= x,
        0 <= x / d,
{
    vstd::arithmetic::div_mod::lemma_fundamental_div_mod(x, d);
    vstd::arithmetic::div_mod::lemma_mod_bound(x, d);
    vstd::arithmetic::div_mod::lemma_div_pos_is_pos(x, d);
}

} // verus!

