use vstd::prelude::*;

use crate::bvh::{Bvh, bvh_wf};
use crate::camera::{Camera, camera_wf};
use crate::material::{Material, material_wf};
use crate::texture::Texture;

verus! {

/// Everything one render works on: the camera, the built hierarchy over the
/// triangle soup, and the material and texture tables. Importing a scene
/// from an interchange format is the embedding program's business; the
/// library receives plain values.
pub struct Scene {
    pub name: String,
    pub camera: Camera,
    pub bvh: Bvh,
    pub materials: Vec<Material>,
    pub textures: Vec<Texture>,
}

pub open spec fn scene_wf(s: Scene) -> bool {
    &&& camera_wf(s.camera)
    &&& bvh_wf(s.bvh)
    &&& forall|i: int| 0 <= i < s.materials@.len() ==> material_wf(
        #[trigger] s.materials@[i],
        s.textures@,
    )
}

impl Scene {
    pub fn new(
        name: String,
        camera: Camera,
        bvh: Bvh,
        materials: Vec<Material>,
        textures: Vec<Texture>,
    ) -> (s: Scene)
        requires
            camera_wf(camera),
            bvh_wf(bvh),
            forall|i: int| 0 <= i < materials@.len() ==> material_wf(
                #[trigger] materials@[i],
                textures@,
            ),
        ensures
            scene_wf(s),
            s.camera == camera && s.bvh == bvh && s.materials@ == materials@ && s.textures@
                == textures@,
    {
        Scene { name, camera, bvh, materials, textures }
    }
}

} // verus!
