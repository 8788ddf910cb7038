//! Bricks as the generator lays them out.
use vstd::prelude::*;

verus! {

/// Half-extents of a brick, in brick units.
#[derive(Clone, Copy, Debug, PartialEq, Eq, Structural)]
pub struct BrickSize {
    pub x: u16,
    pub y: u16,
    pub z: u16,
}

/// Center of a brick, in brick units.
#[derive(Clone, Copy, Debug, PartialEq, Eq, Structural)]
pub struct Position {
    pub x: i32,
    pub y: i32,
    pub z: i32,
}

/// What a brick collides with.
#[derive(Clone, Copy, Debug, PartialEq, Eq, Structural)]
pub struct Collision {
    pub player: bool,
    pub weapon: bool,
    pub interact: bool,
    pub tool: bool,
}

/// Brick color.
#[derive(Clone, Copy, Debug, PartialEq, Eq, Structural)]
pub struct Color {
    pub r: u8,
    pub g: u8,
    pub b: u8,
}

/// Brick material.
#[derive(Clone, Copy, Debug, PartialEq, Eq, Structural)]
pub enum Material {
    Plastic,
    Glow,
}

/// One procedural brick.
#[derive(Debug)]
pub struct Brick {
    /// Procedural brick asset name.
    pub asset: String,
    pub size: BrickSize,
    pub position: Position,
    pub collision: Collision,
    pub color: Color,
    pub material: Material,
    pub material_intensity: u8,
}

} // verus!
