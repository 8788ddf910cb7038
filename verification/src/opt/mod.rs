pub mod blocks;
pub mod construct;
pub mod cover;
pub mod generate;
pub mod greedy;
pub mod laws;
pub mod layout;
pub mod lines;
pub mod model;
pub mod placement;
pub mod quad;
pub mod rules;
