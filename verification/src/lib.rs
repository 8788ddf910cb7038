//! Heightmap-to-brick generation: quadtree and line merging of terrain
//! tiles, and the layout of the bricks that fill them.
use vstd::prelude::*;

pub mod brick;
pub mod map;
pub mod opt;
pub mod util;

verus! {

} // verus!
