use vstd::prelude::*;

verus! {

/// A rendered image: dimensions and packed `0x00RRGGBB` pixels in row-major
/// order. Encoding to a file format is the embedding program's business.
pub struct Image {
    pub width: u32,
    pub height: u32,
    pub bytes: Vec<u32>,
}

impl Image {
    pub fn new(width: u32, height: u32, bytes: Vec<u32>) -> (r: Image)
        ensures
            r.width == width,
            r.height == height,
            r.bytes@ == bytes@,
    {
        Image { width, height, bytes }
    }
}

} // verus!
