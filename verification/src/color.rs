use vstd::prelude::*;

verus! {

/// Fixed-point color scale: `65536` is full intensity 1.0.
pub const COLOR_ONE: u32 = 65536;

/// Largest channel value a color may carry (headroom for emitters and
/// accumulation).
pub const COLOR_MAX: u32 = 0x100_0000;

/// A linear RGB color with fixed-point channels.
#[derive(Clone, Copy, Debug, PartialEq, Eq, Structural)]
pub struct Color {
    pub r: u32,
    pub g: u32,
    pub b: u32,
}

pub open spec fn color_wf(c: Color) -> bool {
    c.r <= COLOR_MAX && c.g <= COLOR_MAX && c.b <= COLOR_MAX
}

/// Channels at or below full intensity: what samplers hand out.
pub open spec fn color_unit(c: Color) -> bool {
    c.r <= COLOR_ONE && c.g <= COLOR_ONE && c.b <= COLOR_ONE
}

/// Channel-wise fixed-point product.
pub open spec fn spec_mul_channel(a: u32, b: u32) -> int {
    a * b / 65536
}

/// Fifth power.
pub open spec fn spec_pow5(u: int) -> int {
    u * u * u * u * u
}

/// Twelfth power, nested so every proof step stays low-degree.
pub open spec fn spec_pow12(p: int) -> int {
    let c = p * p * p;
    let s = c * c;
    s * s
}

/// `p` is `floor(65536 * (u/65536)^(5/12))`: clearing the denominators of
/// `p/65536 <= (u/65536)^(5/12) < (p+1)/65536` by taking twelfth powers
/// leaves this integer bracket (the constant is `2^112 == 65536^12 / 65536^5`).
pub open spec fn spec_srgb_bracket(u: int, p: int) -> bool {
    &&& spec_pow12(p) <= 0x10000000000000000000000000000 * spec_pow5(u)
    &&& 0x10000000000000000000000000000 * spec_pow5(u) < spec_pow12(p + 1)
}

/// The floor twelfth root the sRGB power branch uses:
/// `floor(65536 * (u/65536)^(5/12))`, `5/12 == 1/2.4`.
pub open spec fn spec_srgb_root(u: int) -> int {
    choose|p: int| 0 <= p && spec_srgb_bracket(u, p)
}

/// One channel of the sRGB transfer on the fixed-point scale, after
/// clamping at full intensity: `12.92 * t` below the knee `t <= 0.0031308`,
/// and `1.055 * t^(1/2.4) - 0.055` above it (`3604480 == 55 * 65536` is the
/// `0.055` offset), every division floored.
pub open spec fn spec_gamma_channel(c: u32) -> int {
    let u: int = if c > 65536 {
        65536
    } else {
        c as int
    };
    if u * 10000000 <= 31308 * 65536 {
        1292 * u / 100
    } else {
        let scaled = 1055 * spec_srgb_root(u);
        if scaled <= 3604480 {
            0
        } else {
            (scaled - 3604480) / 1000
        }
    }
}

/// 8-bit quantization of one channel.
pub open spec fn spec_quant_channel(c: u32) -> int {
    (if c > 65536 { 65536 as u32 } else { c }) * 255 / 65536
}

impl Color {
    pub fn rgb(r: u32, g: u32, b: u32) -> (c: Color)
        ensures
            c == (Color { r, g, b }),
    {
        Color { r, g, b }
    }

    pub fn black() -> (c: Color)
        ensures
            c == (Color { r: 0u32, g: 0u32, b: 0u32 }),
    {
        Color { r: 0, g: 0, b: 0 }
    }

    pub fn white() -> (c: Color)
        ensures
            c == (Color { r: COLOR_ONE, g: COLOR_ONE, b: COLOR_ONE }),
    {
        Color { r: COLOR_ONE, g: COLOR_ONE, b: COLOR_ONE }
    }

    /// A color from 8-bit channels, rescaled onto the fixed-point range.
    pub fn rgb_u8(r: u8, g: u8, b: u8) -> (c: Color)
        ensures
            c.r == r * 65536 / 255,
            c.g == g * 65536 / 255,
            c.b == b * 65536 / 255,
            color_unit(c),
    {
        proof {
            vstd::arithmetic::div_mod::lemma_div_is_ordered(r as int * 65536, 255int * 65536, 255);
            vstd::arithmetic::div_mod::lemma_div_is_ordered(g as int * 65536, 255int * 65536, 255);
            vstd::arithmetic::div_mod::lemma_div_is_ordered(b as int * 65536, 255int * 65536, 255);
            vstd::arithmetic::div_mod::lemma_div_multiples_vanish(65536, 255);
            vstd::arithmetic::div_mod::lemma_div_pos_is_pos(r as int * 65536, 255);
            vstd::arithmetic::div_mod::lemma_div_pos_is_pos(g as int * 65536, 255);
            vstd::arithmetic::div_mod::lemma_div_pos_is_pos(b as int * 65536, 255);
        }
        Color {
            r: ((r as u32) * 65536 / 255),
            g: ((g as u32) * 65536 / 255),
            b: ((b as u32) * 65536 / 255),
        }
    }

    /// Channel-wise sum, used when accumulating radiance.
    pub fn add(self, rhs: Color) -> (c: Color)
        requires
            self.r + rhs.r <= u32::MAX,
            self.g + rhs.g <= u32::MAX,
            self.b + rhs.b <= u32::MAX,
        ensures
            c.r == self.r + rhs.r && c.g == self.g + rhs.g && c.b == self.b + rhs.b,
    {
        Color { r: self.r + rhs.r, g: self.g + rhs.g, b: self.b + rhs.b }
    }

    /// Channel-wise fixed-point product: attenuation of `rhs` by a unit
    /// color never amplifies any channel.
    pub fn mul(self, rhs: Color) -> (c: Color)
        requires
            color_unit(self),
        ensures
            c.r == spec_mul_channel(self.r, rhs.r),
            c.g == spec_mul_channel(self.g, rhs.g),
            c.b == spec_mul_channel(self.b, rhs.b),
            c.r <= rhs.r && c.g <= rhs.g && c.b <= rhs.b,
    {
        proof {
            crate::math::lemma_mul_le(self.r as int, rhs.r as int, 65536, 0xFFFF_FFFF);
            crate::math::lemma_mul_le(self.g as int, rhs.g as int, 65536, 0xFFFF_FFFF);
            crate::math::lemma_mul_le(self.b as int, rhs.b as int, 65536, 0xFFFF_FFFF);
            lemma_channel_no_amp(self.r, rhs.r);
            lemma_channel_no_amp(self.g, rhs.g);
            lemma_channel_no_amp(self.b, rhs.b);
            vstd::arithmetic::div_mod::lemma_div_pos_is_pos(self.r as int * rhs.r as int, 65536);
            vstd::arithmetic::div_mod::lemma_div_pos_is_pos(self.g as int * rhs.g as int, 65536);
            vstd::arithmetic::div_mod::lemma_div_pos_is_pos(self.b as int * rhs.b as int, 65536);
        }
        Color {
            r: (((self.r as u64) * (rhs.r as u64)) / 65536) as u32,
            g: (((self.g as u64) * (rhs.g as u64)) / 65536) as u32,
            b: (((self.b as u64) * (rhs.b as u64)) / 65536) as u32,
        }
    }

    /// Channel-wise division by a sample count.
    pub fn div_by(self, n: u32) -> (c: Color)
        requires
            n > 0,
        ensures
            c.r == self.r as int / n as int,
            c.g == self.g as int / n as int,
            c.b == self.b as int / n as int,
    {
        proof {
            vstd::arithmetic::div_mod::lemma_div_nonincreasing(self.r as int, n as int);
            vstd::arithmetic::div_mod::lemma_div_nonincreasing(self.g as int, n as int);
            vstd::arithmetic::div_mod::lemma_div_nonincreasing(self.b as int, n as int);
            vstd::arithmetic::div_mod::lemma_div_pos_is_pos(self.r as int, n as int);
            vstd::arithmetic::div_mod::lemma_div_pos_is_pos(self.g as int, n as int);
            vstd::arithmetic::div_mod::lemma_div_pos_is_pos(self.b as int, n as int);
        }
        Color { r: self.r / n, g: self.g / n, b: self.b / n }
    }

    /// Gamma correction before quantization: the sRGB transfer curve on the
    /// fixed-point scale, clamping at full intensity first.
    pub fn gamma_correct(self) -> (c: Color)
        ensures
            c.r == spec_gamma_channel(self.r),
            c.g == spec_gamma_channel(self.g),
            c.b == spec_gamma_channel(self.b),
            color_unit(c),
    {
        Color {
            r: gamma_channel(self.r),
            g: gamma_channel(self.g),
            b: gamma_channel(self.b),
        }
    }

    /// Packs the color into `0x00RRGGBB` with 8 bits per channel.
    pub fn into_u32(self) -> (p: u32)
        ensures
            p == spec_quant_channel(self.r) * 65536 + spec_quant_channel(self.g) * 256
                + spec_quant_channel(self.b),
    {
        let r = quant_channel(self.r);
        let g = quant_channel(self.g);
        let b = quant_channel(self.b);
        r * 65536 + g * 256 + b
    }
}

fn gamma_channel(c: u32) -> (r: u32)
    ensures
        r == spec_gamma_channel(c),
        r <= 65536,
{
    let u: u32 = if c > 65536 {
        65536
    } else {
        c
    };
    if (u as u64) * 10000000 <= 2051801088 {
        proof {
            assert(u <= 205);
            vstd::arithmetic::div_mod::lemma_div_is_ordered(1292 * u as int, 264860, 100);
            vstd::arithmetic::div_mod::lemma_div_pos_is_pos(1292 * u as int, 100);
            assert(264860int / 100 == 2648);
        }
        1292 * u / 100
    } else {
        let p = srgb_root(u);
        let v = 1055u64 * (p as u64);
        if v <= 3604480 {
            0
        } else {
            proof {
                vstd::arithmetic::div_mod::lemma_div_is_ordered(
                    v as int - 3604480,
                    65536000,
                    1000,
                );
                vstd::arithmetic::div_mod::lemma_div_pos_is_pos(v as int - 3604480, 1000);
                assert(65536000int / 1000 == 65536);
            }
            ((v - 3604480) / 1000) as u32
        }
    }
}

/// Ground values of the powers that the knee, range and root proofs
/// compare, staged one literal product at a time.
proof fn lemma_srgb_ground_facts()
    ensures
        spec_pow12(65536) == 0x10000000000000000000000000000 * spec_pow5(65536),
        0x10000000000000000000000000000 * spec_pow5(65535) < spec_pow12(65536),
        spec_pow12(65537) > 0x10000000000000000000000000000 * spec_pow5(65536),
        spec_pow12(5934) <= 0x10000000000000000000000000000 * spec_pow5(206),
{
    assert(65536int * 65536 == 0x100000000) by (nonlinear_arith);
    assert(0x100000000int * 65536 == 0x1000000000000) by (nonlinear_arith);
    assert(0x1000000000000int * 65536 == 0x10000000000000000) by (nonlinear_arith);
    assert(0x10000000000000000int * 65536 == 0x100000000000000000000) by (nonlinear_arith);
    assert(spec_pow5(65536) == 0x100000000000000000000);
    assert(65535int * 65535 == 0xfffe0001) by (nonlinear_arith);
    assert(0xfffe0001int * 65535 == 0xfffd0002ffff) by (nonlinear_arith);
    assert(0xfffd0002ffffint * 65535 == 0xfffc0005fffc0001) by (nonlinear_arith);
    assert(0xfffc0005fffc0001int * 65535 == 0xfffb0009fff60004ffff) by (nonlinear_arith);
    assert(spec_pow5(65535) == 0xfffb0009fff60004ffff);
    assert(206int * 206 == 0xa5c4) by (nonlinear_arith);
    assert(0xa5c4int * 206 == 0x8563b8) by (nonlinear_arith);
    assert(0x8563b8int * 206 == 0x6b563e10) by (nonlinear_arith);
    assert(0x6b563e10int * 206 == 0x565f65f0e0) by (nonlinear_arith);
    assert(spec_pow5(206) == 0x565f65f0e0);
    assert(0x1000000000000int * 0x1000000000000 == 0x1000000000000000000000000) by (nonlinear_arith);
    assert(0x1000000000000000000000000int * 0x1000000000000000000000000
        == 0x1000000000000000000000000000000000000000000000000) by (nonlinear_arith);
    assert(spec_pow12(65536) == 0x1000000000000000000000000000000000000000000000000);
    assert(65537int * 65537 == 0x100020001) by (nonlinear_arith);
    assert(0x100020001int * 65537 == 0x1000300030001) by (nonlinear_arith);
    assert(0x1000300030001int * 0x1000300030001 == 0x10006000f0014000f00060001) by (nonlinear_arith);
    assert(0x10006000f0014000f00060001int * 0x10006000f0014000f00060001
        == 0x1000c004200dc01ef0318039c031801ef00dc0042000c0001) by (nonlinear_arith);
    assert(spec_pow12(65537) == 0x1000c004200dc01ef0318039c031801ef00dc0042000c0001);
    assert(5934int * 5934 == 0x2194c44) by (nonlinear_arith);
    assert(0x2194c44int * 5934 == 0x30a665d038) by (nonlinear_arith);
    assert(0x30a665d038int * 0x30a665d038 == 0x93ed2564786958b0c40) by (nonlinear_arith);
    assert(0x93ed2564786958b0c40int * 0x93ed2564786958b0c40
        == 0x557a349fa3c62125f6f63940b77ac8ce161000) by (nonlinear_arith);
    assert(spec_pow12(5934) == 0x557a349fa3c62125f6f63940b77ac8ce161000);
    assert(0x10000000000000000000000000000int * 0x100000000000000000000
        == 0x1000000000000000000000000000000000000000000000000) by (nonlinear_arith);
    assert(0x10000000000000000000000000000int * 0xfffb0009fff60004ffff
        == 0xfffb0009fff60004ffff0000000000000000000000000000) by (nonlinear_arith);
    assert(0x10000000000000000000000000000int * 0x565f65f0e0
        == 0x565f65f0e00000000000000000000000000000) by (nonlinear_arith);
}

/// Fifth powers are monotone on the nonnegative range.
proof fn lemma_pow5_monotone(a: int, b: int)
    requires
        0 <= a <= b,
    ensures
        0 <= spec_pow5(a) <= spec_pow5(b),
{
    let a2 = a * a;
    let b2 = b * b;
    assert(0 <= a2 <= b2) by (nonlinear_arith)
        requires
            a2 == a * a,
            b2 == b * b,
            0 <= a <= b,
    ;
    let a4 = a2 * a2;
    let b4 = b2 * b2;
    assert(0 <= a4 <= b4) by (nonlinear_arith)
        requires
            a4 == a2 * a2,
            b4 == b2 * b2,
            0 <= a2 <= b2,
    ;
    assert(0 <= a4 * a <= b4 * b) by (nonlinear_arith)
        requires
            0 <= a4 <= b4,
            0 <= a <= b,
    ;
    assert(a * a * a * a * a == a4 * a) by (nonlinear_arith)
        requires
            a2 == a * a,
            a4 == a2 * a2,
    ;
    assert(b * b * b * b * b == b4 * b) by (nonlinear_arith)
        requires
            b2 == b * b,
            b4 == b2 * b2,
    ;
}

/// Twelfth powers are monotone on the nonnegative range.
proof fn lemma_pow12_monotone(a: int, b: int)
    requires
        0 <= a <= b,
    ensures
        0 <= spec_pow12(a) <= spec_pow12(b),
{
    let ca = a * a * a;
    let cb = b * b * b;
    assert(0 <= ca <= cb) by (nonlinear_arith)
        requires
            ca == a * a * a,
            cb == b * b * b,
            0 <= a <= b,
    ;
    let sa = ca * ca;
    let sb = cb * cb;
    assert(0 <= sa <= sb) by (nonlinear_arith)
        requires
            sa == ca * ca,
            sb == cb * cb,
            0 <= ca <= cb,
    ;
    assert(0 <= sa * sa <= sb * sb) by (nonlinear_arith)
        requires
            0 <= sa <= sb,
    ;
}

/// Twelfth powers are strictly monotone on the nonnegative range.
proof fn lemma_pow12_strictly_monotone(a: int, b: int)
    requires
        0 <= a < b,
    ensures
        spec_pow12(a) < spec_pow12(b),
{
    let ca = a * a * a;
    let cb = b * b * b;
    assert(0 <= ca < cb) by (nonlinear_arith)
        requires
            ca == a * a * a,
            cb == b * b * b,
            0 <= a < b,
    ;
    let sa = ca * ca;
    let sb = cb * cb;
    assert(0 <= sa < sb) by (nonlinear_arith)
        requires
            sa == ca * ca,
            sb == cb * cb,
            0 <= ca < cb,
    ;
    assert(sa * sa < sb * sb) by (nonlinear_arith)
        requires
            0 <= sa < sb,
    ;
}

/// The bracket pins the root: any witness is the chosen value.
proof fn lemma_srgb_root_unique(u: int, p: int)
    requires
        0 <= p,
        spec_srgb_bracket(u, p),
    ensures
        spec_srgb_root(u) == p,
{
    let q = spec_srgb_root(u);
    assert(0 <= q && spec_srgb_bracket(u, q)) by {
        assert(0 <= p && spec_srgb_bracket(u, p));
    }
    if q < p {
        lemma_pow12_monotone(q + 1, p);
        assert(false);
    }
    if p < q {
        lemma_pow12_monotone(p + 1, q);
        assert(false);
    }
}

/// Walking up from a lower bound finds the bracketing root.
proof fn lemma_srgb_root_from(u: int, p: int)
    requires
        0 <= u <= 65536,
        0 <= p <= 65536,
        spec_pow12(p) <= 0x10000000000000000000000000000 * spec_pow5(u),
    ensures
        exists|q: int| p <= q <= 65536 && #[trigger] spec_srgb_bracket(u, q),
    decreases 65536 - p,
{
    if 0x10000000000000000000000000000 * spec_pow5(u) < spec_pow12(p + 1) {
        assert(spec_srgb_bracket(u, p));
    } else {
        if p == 65536 {
            lemma_pow5_monotone(u, 65536);
            lemma_srgb_ground_facts();
            assert(false);
        }
        lemma_srgb_root_from(u, p + 1);
    }
}

/// The chosen root exists, satisfies its bracket, and stays within the
/// fixed-point unit range.
pub proof fn lemma_srgb_root_bracket(u: int)
    requires
        0 <= u <= 65536,
    ensures
        0 <= spec_srgb_root(u) <= 65536,
        spec_srgb_bracket(u, spec_srgb_root(u)),
{
    lemma_pow5_monotone(0, u);
    assert(spec_pow12(0) == 0);
    lemma_srgb_root_from(u, 0);
    let q = choose|q: int| 0 <= q <= 65536 && #[trigger] spec_srgb_bracket(u, q);
    lemma_srgb_root_unique(u, q);
}

/// The floor twelfth root is monotone in its argument.
proof fn lemma_srgb_root_monotone(a: int, b: int)
    requires
        0 <= a <= b <= 65536,
    ensures
        spec_srgb_root(a) <= spec_srgb_root(b),
{
    lemma_srgb_root_bracket(a);
    lemma_srgb_root_bracket(b);
    let pa = spec_srgb_root(a);
    let pb = spec_srgb_root(b);
    lemma_pow5_monotone(a, b);
    if pb < pa {
        lemma_pow12_monotone(pb + 1, pa);
        assert(false);
    }
}

/// Exact comparison `p^12 <= 2^112 * u^5`, with `p^12` split into 96-bit
/// halves so every intermediate fits 128 bits.
fn pow12_le_scaled_pow5(p: u32, u: u32) -> (r: bool)
    requires
        p <= 65535,
        u <= 65535,
    ensures
        r == (spec_pow12(p as int) <= 0x10000000000000000000000000000 * spec_pow5(u as int)),
{
    let pw = p as u128;
    proof {
        assert(pw * pw <= 0x100000000) by (nonlinear_arith)
            requires
                pw <= 65535,
        ;
    }
    let p2 = pw * pw;
    proof {
        assert(p2 * pw < 0x1000000000000) by (nonlinear_arith)
            requires
                p2 <= 0x100000000,
                pw <= 65535,
        ;
    }
    let p3 = p2 * pw;
    proof {
        assert(p3 * p3 < 0x1000000000000000000000000) by (nonlinear_arith)
            requires
                p3 < 0x1000000000000,
        ;
    }
    let q = p3 * p3;
    let uw = u as u128;
    proof {
        assert(uw * uw <= 0x100000000) by (nonlinear_arith)
            requires
                uw <= 65535,
        ;
    }
    let u2 = uw * uw;
    proof {
        assert(u2 * u2 <= 0x10000000000000000) by (nonlinear_arith)
            requires
                u2 <= 0x100000000,
        ;
    }
    let u4 = u2 * u2;
    proof {
        assert(u4 * uw < 0x100000000000000000000) by (nonlinear_arith)
            requires
                u4 <= 0x10000000000000000,
                uw <= 65535,
        ;
    }
    let w = u4 * uw;
    let c = w * 0x10000;
    let qh = q / 0x1000000000000;
    let ql = q % 0x1000000000000;
    proof {
        assert(qh < 0x1000000000000);
        assert(qh * qh < 0x1000000000000000000000000) by (nonlinear_arith)
            requires
                0 <= qh < 0x1000000000000,
        ;
        assert(qh * ql < 0x1000000000000000000000000) by (nonlinear_arith)
            requires
                0 <= qh < 0x1000000000000,
                0 <= ql < 0x1000000000000,
        ;
        assert(ql * ql < 0x1000000000000000000000000) by (nonlinear_arith)
            requires
                0 <= ql < 0x1000000000000,
        ;
        assert(q * q == qh * qh * 0x1000000000000000000000000 + 2 * (qh * ql) * 0x1000000000000
            + ql * ql) by (nonlinear_arith)
            requires
                q == qh * 0x1000000000000 + ql,
        ;
    }
    let a = qh * qh;
    let m = 2 * (qh * ql);
    let m1 = m / 0x1000000000000;
    let m0 = m % 0x1000000000000;
    let s = m0 * 0x1000000000000 + ql * ql;
    let s1 = s / 0x1000000000000000000000000;
    let s0 = s % 0x1000000000000000000000000;
    let hi = a + m1 + s1;
    proof {
        assert(q * q == hi * 0x1000000000000000000000000 + s0);
        assert(p3 == p as int * (p as int) * (p as int));
        assert(spec_pow12(p as int) == q * q);
        assert(u4 * uw == uw * uw * uw * uw * uw) by (nonlinear_arith)
            requires
                u2 == uw * uw,
                u4 == u2 * u2,
        ;
        assert(w == spec_pow5(u as int));
        assert(c * 0x1000000000000000000000000 == w * 0x10000000000000000000000000000)
            by (nonlinear_arith)
            requires
                c == w * 0x10000,
        ;
    }
    if hi < c {
        true
    } else if hi == c {
        s0 == 0
    } else {
        false
    }
}

/// The exact floor twelfth root `spec_srgb_root`, by binary search over the
/// fixed-point unit range.
fn srgb_root(u: u32) -> (p: u32)
    requires
        u <= 65536,
    ensures
        p as int == spec_srgb_root(u as int),
        p <= 65536,
{
    if u == 65536 {
        proof {
            lemma_srgb_ground_facts();
            lemma_pow12_strictly_monotone(65536, 65537);
            assert(spec_srgb_bracket(65536, 65536));
            lemma_srgb_root_unique(65536, 65536);
        }
        return 65536;
    }
    proof {
        lemma_pow5_monotone(0, u as int);
        assert(spec_pow12(0) == 0);
        lemma_pow5_monotone(u as int, 65535);
        lemma_srgb_ground_facts();
    }
    let mut lo: u32 = 0;
    let mut hi: u32 = 65535;
    while lo < hi
        invariant
            lo <= hi <= 65535,
            u <= 65535,
            spec_pow12(lo as int) <= 0x10000000000000000000000000000 * spec_pow5(u as int),
            0x10000000000000000000000000000 * spec_pow5(u as int) < spec_pow12(hi as int + 1),
        decreases hi - lo,
    {
        let mid = lo + (hi - lo + 1) / 2;
        if pow12_le_scaled_pow5(mid, u) {
            lo = mid;
        } else {
            hi = mid - 1;
        }
    }
    proof {
        assert(spec_srgb_bracket(u as int, lo as int));
        lemma_srgb_root_unique(u as int, lo as int);
    }
    lo
}

/// The gamma transfer fixes black, sends the unit range into itself, and is
/// monotone: a channel at or below another maps at or below it.
pub proof fn lemma_gamma_monotone(a: u32, b: u32)
    requires
        a <= b,
    ensures
        spec_gamma_channel(0) == 0,
        0 <= spec_gamma_channel(a) <= 65536,
        spec_gamma_channel(a) <= spec_gamma_channel(b),
{
    lemma_gamma_channel_range(a);
    lemma_gamma_channel_range(b);
    let ua: int = if a > 65536 {
        65536
    } else {
        a as int
    };
    let ub: int = if b > 65536 {
        65536
    } else {
        b as int
    };
    assert(ua <= ub);
    if ua * 10000000 <= 31308 * 65536 && ub * 10000000 <= 31308 * 65536 {
        vstd::arithmetic::div_mod::lemma_div_is_ordered(1292 * ua, 1292 * ub, 100);
    } else if ua * 10000000 <= 31308 * 65536 {
        assert(ua <= 205 && ub >= 206);
        vstd::arithmetic::div_mod::lemma_div_is_ordered(1292 * ua, 264860, 100);
        assert(264860int / 100 == 2648);
        lemma_srgb_root_bracket(206);
        lemma_srgb_root_monotone(206, ub);
        let p206 = spec_srgb_root(206);
        lemma_srgb_ground_facts();
        if p206 + 1 <= 5934 {
            lemma_pow12_monotone(p206 + 1, 5934);
            assert(false);
        }
        let pb = spec_srgb_root(ub);
        assert(pb >= 5934);
        vstd::arithmetic::div_mod::lemma_div_is_ordered(2655890, 1055 * pb - 3604480, 1000);
        assert(2655890int / 1000 == 2655);
    } else {
        assert(ub * 10000000 > 31308 * 65536);
        lemma_srgb_root_monotone(ua, ub);
        let pa = spec_srgb_root(ua);
        let pb = spec_srgb_root(ub);
        if 1055 * pa > 3604480 {
            vstd::arithmetic::div_mod::lemma_div_is_ordered(
                1055 * pa - 3604480,
                1055 * pb - 3604480,
                1000,
            );
        }
    }
}

/// Every channel lands in the fixed-point unit range, and black stays black.
proof fn lemma_gamma_channel_range(a: u32)
    ensures
        spec_gamma_channel(0) == 0,
        0 <= spec_gamma_channel(a) <= 65536,
{
    let ua: int = if a > 65536 {
        65536
    } else {
        a as int
    };
    if ua * 10000000 <= 31308 * 65536 {
        assert(ua <= 205);
        vstd::arithmetic::div_mod::lemma_div_pos_is_pos(1292 * ua, 100);
        vstd::arithmetic::div_mod::lemma_div_is_ordered(1292 * ua, 264860, 100);
        assert(264860int / 100 == 2648);
    } else {
        lemma_srgb_root_bracket(ua);
        let p = spec_srgb_root(ua);
        if 1055 * p > 3604480 {
            vstd::arithmetic::div_mod::lemma_div_pos_is_pos(1055 * p - 3604480, 1000);
            vstd::arithmetic::div_mod::lemma_div_is_ordered(1055 * p - 3604480, 65536000, 1000);
            assert(65536000int / 1000 == 65536);
        }
    }
}

fn quant_channel(c: u32) -> (r: u32)
    ensures
        r == spec_quant_channel(c),
        r <= 255,
{
    let cc: u32 = if c > 65536 {
        65536
    } else {
        c
    };
    proof {
        vstd::arithmetic::div_mod::lemma_div_is_ordered(
            cc as int * 255,
            65536int * 255,
            65536,
        );
        vstd::arithmetic::div_mod::lemma_div_pos_is_pos(cc as int * 255, 65536);
        assert((65536int * 255) / 65536 == 255) by {
            vstd::arithmetic::div_mod::lemma_div_multiples_vanish(255, 65536);
        };
    }
    (((cc as u64) * 255) / 65536) as u32
}

/// Attenuating by a unit color never amplifies: each output channel stays at
/// or below the attenuated color's channel.
pub proof fn lemma_no_amplification(a: Color, b: Color)
    requires
        color_unit(a),
    ensures
        spec_mul_channel(a.r, b.r) <= b.r,
        spec_mul_channel(a.g, b.g) <= b.g,
        spec_mul_channel(a.b, b.b) <= b.b,
{
    lemma_channel_no_amp(a.r, b.r);
    lemma_channel_no_amp(a.g, b.g);
    lemma_channel_no_amp(a.b, b.b);
}

proof fn lemma_channel_no_amp(a: u32, b: u32)
    requires
        a <= 65536,
    ensures
        spec_mul_channel(a, b) <= b,
{
    crate::math::lemma_mul_le(a as int, b as int, 65536, b as int);
    vstd::arithmetic::div_mod::lemma_div_is_ordered(a as int * b as int, 65536int * b, 65536);
    assert((65536int * b) / 65536 == b) by {
        vstd::arithmetic::div_mod::lemma_div_multiples_vanish(b as int, 65536);
    };
}

} // verus!
