//! Materials: a color source plus at most one of a metal fuzz factor or a
//! dielectric refraction index, which selects the scatter behavior.

use vstd::prelude::*;
use crate::fixed::SCALE;
use crate::texture::Texture;
use crate::texture::texture_wf;

verus! {

/// Represents the material of a surface.
#[derive(Clone, Copy, Debug)]
pub struct Material {
    /// The material's texture.
    pub texture: Texture,
    /// The metal fuzz factor in `[0, SCALE]`, if the material is a metal.
    pub reflectivity: Option<i64>,
    /// The refraction index in `(SCALE, 4 * SCALE]`, if the material is a
    /// dielectric.
    pub refraction_index: Option<i64>,
}

/// A valid texture, fuzz within `[0, 1]`, and a refraction index above `1`.
pub open spec fn material_wf(m: Material) -> bool {
    &&& texture_wf(m.texture)
    &&& match m.reflectivity {
        Some(f) => 0 <= f <= SCALE,
        None => true,
    }
    &&& match m.refraction_index {
        Some(i) => SCALE < i <= 4 * SCALE,
        None => true,
    }
}

impl Material {
    /// Returns a Material with the given color source and behavior.
    pub fn new(texture: Texture, reflectivity: Option<i64>, refraction_index: Option<i64>) -> (m:
        Self)
        requires
            texture_wf(texture),
            match reflectivity {
                Some(f) => 0 <= f <= SCALE,
                None => true,
            },
            match refraction_index {
                Some(i) => SCALE < i <= 4 * SCALE,
                None => true,
            },
        ensures
            m.texture == texture,
            m.reflectivity == reflectivity,
            m.refraction_index == refraction_index,
            material_wf(m),
    {
        Self { texture, reflectivity, refraction_index }
    }
}

} // verus!
