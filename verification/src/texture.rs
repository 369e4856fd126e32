//! Color sources sampled at a hit point: a solid color, or a checker pattern
//! over the integer lattice of cells of a given width.

use vstd::prelude::*;
use crate::color::Color;
use crate::color::c_in_range;
use crate::fixed::SCALE;
use crate::fixed::floor_div;

verus! {

/// Represents the color source of a material.
#[derive(Clone, Copy, Debug)]
pub enum Texture {
    /// A single color everywhere.
    Monochrome { color: Color },
    /// Two colors alternating over a cubic lattice of the given cell width.
    Checkered { color1: Color, color2: Color, width: i64 },
}

/// Channels within intensity range, and a positive checker cell width.
pub open spec fn texture_wf(t: Texture) -> bool {
    match t {
        Texture::Monochrome { color } => c_in_range(color@, SCALE as int),
        Texture::Checkered { color1, color2, width } => c_in_range(color1@, SCALE as int)
            && c_in_range(color2@, SCALE as int) && 0 < width,
    }
}

/// True on the even cells of the lattice with the given cell width.
pub open spec fn checker_even(p: (int, int, int), width: int) -> bool {
    (p.0 / width + p.1 / width + p.2 / width) % 2 == 0
}

/// The texture's color at the given point.
pub open spec fn texture_color_at(t: Texture, p: (int, int, int)) -> (int, int, int) {
    match t {
        Texture::Monochrome { color } => color@,
        Texture::Checkered { color1, color2, width } => if checker_even(p, width as int) {
            color1@
        } else {
            color2@
        },
    }
}

impl Texture {
    /// Returns a monochrome texture of the given color.
    pub fn monochrome(color: Color) -> (t: Texture)
        ensures
            t == (Texture::Monochrome { color }),
    {
        Texture::Monochrome { color }
    }

    /// Returns a checkered texture of the two given colors with the given
    /// lattice cell width.
    pub fn checkered(color1: Color, color2: Color, width: i64) -> (t: Texture)
        requires
            width > 0,
        ensures
            t == (Texture::Checkered { color1, color2, width }),
    {
        Texture::Checkered { color1, color2, width }
    }

    /// Returns the texture's color at the given point.
    pub fn get_color(&self, point: crate::vector3::Point3) -> (c: Color)
        requires
            texture_wf(*self),
            crate::vector3::v_bounded(point@, 1152921504606846976),
        ensures
            c@ == texture_color_at(*self, point@),
            c_in_range(c@, SCALE as int),
    {
        match self {
            Texture::Monochrome { color } => *color,
            Texture::Checkered { color1, color2, width } => {
                let qx = floor_div(point.x, *width);
                let qy = floor_div(point.y, *width);
                let qz = floor_div(point.z, *width);
                proof {
                    lemma_cell_sum_in_range(point@, *width as int);
                }
                let s = qx + qy + qz;
                let h = floor_div(s, 2);
                proof {
                    vstd::arithmetic::div_mod::lemma_fundamental_div_mod(s as int, 2);
                }
                if s == 2 * h {
                    *color1
                } else {
                    *color2
                }
            },
        }
    }
}

/// The three lattice cell indices of a bounded point sum without overflow.
proof fn lemma_cell_sum_in_range(p: (int, int, int), w: int)
    requires
        w >= 1,
        crate::vector3::v_bounded(p, 1152921504606846976),
    ensures
        -4611686018427387907 <= p.0 / w + p.1 / w + p.2 / w <= 4611686018427387907,
        -1152921504606846977 <= p.0 / w <= 1152921504606846976,
        -1152921504606846977 <= p.1 / w <= 1152921504606846976,
        -1152921504606846977 <= p.2 / w <= 1152921504606846976,
{
    crate::fixed::lemma_div_magnitude(p.0, w);
    crate::fixed::lemma_div_magnitude(p.1, w);
    crate::fixed::lemma_div_magnitude(p.2, w);
}

} // verus!
