//! The whole-number side of the texture generators: image sizes, tiles and stripes.
//! What a pixel looks like is left to the generator; where it lies is decided here.

use vstd::prelude::*;

verus! {

/// The size of the images that a generator makes.
pub struct GeneratorProperties {
    pub width: u32,
    pub height: u32,
}

impl GeneratorProperties {
    /// Images of 128 by 128 pixels.
    pub fn default() -> (properties: Self)
        ensures
            properties.width == 128,
            properties.height == 128,
    {
        GeneratorProperties { width: 128, height: 128 }
    }
}

/// The direction in which a gradient runs.
pub enum GradientNodeDirection {
    /// From left to right, the same in every row.
    HORIZONTAL,
    /// From top to bottom, the same in every column.
    VERTICAL,
    /// From the centre of the image to its corners.
    RADIAL,
}

/// Where a line lies in its stripe.
pub enum LinesPosition {
    Start,
    Middle,
    End,
}

/// The length of one of `parts` equal sections of `extent` pixels, rounded down.
/// There is none where `parts` is zero.
pub fn section_length(extent: u32, parts: u32) -> (length: Option<u32>)
    ensures
        parts == 0 ==> length is None,
        parts > 0 ==> length == Some((extent / parts) as u32),
{
    if parts == 0 {
        None
    } else {
        Some(extent / parts)
    }
}

/// The tile of a checkerboard that holds the pixel has the colour of the tile in the top
/// left corner: tiles alternate along rows and along columns.
pub open spec fn spec_on_first_colour(x: u32, y: u32, tile_width: u32, tile_height: u32) -> bool {
    (x / tile_width + y / tile_height) % 2 == 0
}

/// Whether the pixel lies on a tile with the colour of the top left tile.
pub fn on_first_colour(x: u32, y: u32, tile_width: u32, tile_height: u32) -> (first: bool)
    requires
        tile_width > 0,
        tile_height > 0,
    ensures
        first == spec_on_first_colour(x, y, tile_width, tile_height),
{
    (x / tile_width) % 2 == (y / tile_height) % 2
}

/// How far below the top of its stripe a row lies.
pub fn stripe_offset(y: u32, stripe_height: u32) -> (offset: u32)
    requires
        stripe_height > 0,
    ensures
        offset == y % stripe_height,
        offset < stripe_height,
{
    y % stripe_height
}

/// Whether a blend can work on images of these sizes, each given as width and height:
/// there are two of them, and they are equally wide and equally high.
pub fn blendable(sizes: &Vec<(u32, u32)>) -> (valid: bool)
    ensures
        valid == (sizes@.len() == 2 && sizes@[0] == sizes@[1]),
{
    sizes.len() == 2 && sizes[0].0 == sizes[1].0 && sizes[0].1 == sizes[1].1
}

} // verus!
