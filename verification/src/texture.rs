use vstd::prelude::*;

use crate::color::{Color, color_unit};
use crate::triangle::Uv;

verus! {

/// A decoded texture: fixed-point linear colors in row-major order.
pub struct Texture {
    pub width: usize,
    pub height: usize,
    pub pixels: Vec<Color>,
}

pub open spec fn texture_wf(t: Texture) -> bool {
    &&& 1 <= t.width <= 65536
    &&& 1 <= t.height <= 65536
    &&& t.pixels@.len() == t.width * t.height
    &&& forall|i: int| 0 <= i < t.pixels@.len() ==> color_unit(#[trigger] t.pixels@[i])
}

/// Texel coordinate for one wrapped fixed-point texture coordinate: the
/// fractional part addresses the image, rounded to the nearest texel.
pub open spec fn spec_texel(c: i64, extent: int) -> int {
    ((c as int % 65536) * (extent - 1) + 32768) / 65536
}

pub open spec fn spec_sample(t: Texture, uv: Uv) -> Color {
    t.pixels@[spec_texel(uv.v, t.height as int) * t.width + spec_texel(uv.u, t.width as int)]
}

impl Texture {
    pub fn new(width: usize, height: usize, pixels: Vec<Color>) -> (r: Texture)
        requires
            1 <= width <= 65536,
            1 <= height <= 65536,
            pixels@.len() == width * height,
            forall|i: int| 0 <= i < pixels@.len() ==> color_unit(#[trigger] pixels@[i]),
        ensures
            r.width == width && r.height == height && r.pixels@ == pixels@,
            texture_wf(r),
    {
        Texture { width, height, pixels }
    }

    /// Nearest-neighbor lookup with wraparound addressing.
    pub fn sample(&self, uv: Uv) -> (c: Color)
        requires
            texture_wf(*self),
        ensures
            c == spec_sample(*self, uv),
            color_unit(c),
    {
        let x = texel(uv.u, self.width);
        let y = texel(uv.v, self.height);
        proof {
            crate::math::lemma_mul_le(y as int, self.width as int, self.height as int - 1, self.width as int);
            crate::math::lemma_mul_le(self.height as int - 1, self.width as int, 65535, 65536);
            assert((self.height - 1) * self.width + (self.width - 1) < self.height * self.width)
                by (nonlinear_arith)
                requires
                    self.width >= 1,
                    self.height >= 1,
            ;
            assert(self.pixels@.len() == self.width * self.height);
            assert(self.height * self.width == self.width * self.height) by (nonlinear_arith);
        }
        let idx = y * self.width + x;
        self.pixels[idx]
    }
}

/// Wrapped, rounded texel index along one axis.
fn texel(c: i64, extent: usize) -> (r: usize)
    requires
        1 <= extent <= 65536,
    ensures
        r == spec_texel(c, extent as int),
        r < extent,
{
    proof {
        vstd::arithmetic::div_mod::lemma_mod_bound(c as int, 65536);
    }
    let q = crate::math::div_floor_i128(c as i128, 65536);
    let m = (c as i128) - 65536 * q;
    proof {
        vstd::arithmetic::div_mod::lemma_fundamental_div_mod(c as int, 65536);
        assert(m == c as int % 65536);
        crate::math::lemma_mul_le(m as int, extent as int - 1, 65535, 65535);
        vstd::arithmetic::div_mod::lemma_div_pos_is_pos(m as int * (extent as int - 1) + 32768, 65536);
        assert(m as int * (extent as int - 1) + 32768 < 65536 * extent as int) by (nonlinear_arith)
            requires
                0 <= m as int <= 65535,
                1 <= extent as int,
        ;
        assert((65536 * extent as int) / 65536 == extent as int) by {
            vstd::arithmetic::div_mod::lemma_div_multiples_vanish(extent as int, 65536);
        };
        vstd::arithmetic::div_mod::lemma_div_is_ordered(
            m as int * (extent as int - 1) + 32768,
            65536 * extent as int - 1,
            65536,
        );
        assert((65536 * extent as int - 1) / 65536 < extent as int) by {
            vstd::arithmetic::div_mod::lemma_div_multiples_vanish(extent as int, 65536);
            vstd::arithmetic::div_mod::lemma_div_is_ordered(
                65536 * extent as int - 1,
                65536 * extent as int,
                65536,
            );
            if (65536 * extent as int - 1) / 65536 == extent as int {
                vstd::arithmetic::div_mod::lemma_fundamental_div_mod(
                    65536 * extent as int - 1,
                    65536,
                );
                vstd::arithmetic::div_mod::lemma_mod_bound(65536 * extent as int - 1, 65536);
                assert(false) by (nonlinear_arith)
                    requires
                        65536 * extent as int - 1 == 65536 * ((65536 * extent as int - 1)
                            / 65536) + (65536 * extent as int - 1) % 65536,
                        (65536 * extent as int - 1) / 65536 == extent as int,
                        0 <= (65536 * extent as int - 1) % 65536 < 65536,
                ;
            }
        };
    }
    let t = ((m * (extent as i128 - 1)) + 32768) / 65536;
    t as usize
}

} // verus!
