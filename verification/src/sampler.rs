use vstd::prelude::*;

use crate::color::{Color, color_unit};
use crate::texture::{Texture, texture_wf, spec_sample};
use crate::triangle::Uv;

verus! {

/// Where a material reads its base color from: a constant color or a
/// texture table entry addressed by interpolated coordinates.
#[derive(Clone, Copy, Debug, PartialEq, Eq, Structural)]
pub enum Sampler {
    Color(Color),
    Texture(usize),
}

pub open spec fn sampler_wf(s: Sampler, textures: Seq<Texture>) -> bool {
    match s {
        Sampler::Color(c) => color_unit(c),
        Sampler::Texture(i) => i < textures.len() && texture_wf(textures[i as int]),
    }
}

/// A texture sampler asked without coordinates answers the reserved
/// fallback color, making the data problem visible instead of failing.
pub open spec fn spec_sampled(s: Sampler, uv: Option<Uv>, textures: Seq<Texture>) -> Color {
    match s {
        Sampler::Color(c) => c,
        Sampler::Texture(i) => match uv {
            Option::Some(coords) => spec_sample(textures[i as int], coords),
            Option::None => Color { r: 65536, g: 0, b: 65536 },
        },
    }
}

impl Sampler {
    pub fn sample(&self, uv: Option<Uv>, textures: &Vec<Texture>) -> (c: Color)
        requires
            sampler_wf(*self, textures@),
        ensures
            c == spec_sampled(*self, uv, textures@),
            color_unit(c),
    {
        match self {
            Sampler::Color(c) => *c,
            Sampler::Texture(i) => match uv {
                Option::Some(coords) => textures[*i].sample(coords),
                Option::None => Color { r: 65536, g: 0, b: 65536 },
            },
        }
    }

    pub fn texture_index(&self) -> (r: Option<usize>)
        ensures
            r == match *self {
                Sampler::Texture(i) => Option::Some(i),
                Sampler::Color(_) => Option::<usize>::None,
            },
    {
        match self {
            Sampler::Texture(i) => Option::Some(*i),
            Sampler::Color(_) => Option::None,
        }
    }
}

} // verus!
