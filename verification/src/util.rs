//! Generation options.
use vstd::prelude::*;

verus! {

/// How a heightmap is turned into bricks.
pub struct GenOptions {
    /// Horizontal half-extent of one tile, in brick units.
    pub size: u16,
    /// Vertical scale: brick units per unit of terrain height.
    pub scale: u32,
    /// Name of the procedural brick asset.
    pub asset: String,
    /// Leave out fully transparent tiles.
    pub cull: bool,
    /// Microbrick output.
    pub micro: bool,
    /// Stud-height bricks (heights in steps of five).
    pub stud: bool,
    /// Snap brick tops and heights to the four-unit grid.
    pub snap: bool,
    /// Flat image output: every brick at ground level.
    pub img: bool,
    /// Glowing material.
    pub glow: bool,
    /// High-detail map.
    pub hdmap: bool,
    /// Colors are converted to linear RGB.
    pub lrgb: bool,
    /// Bricks without collision.
    pub nocollide: bool,
    /// Run the quadtree pass before the line pass.
    pub quadtree: bool,
    /// Use greedy meshing instead of the quadtree.
    pub greedy: bool,
    /// Height threshold above which to generate full solid fill layers (0 = disabled)
    pub gen_full_layers_above_height: u32,
}

} // verus!
