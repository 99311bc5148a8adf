//! A loose quadtree over integer world coordinates, backed by slot arenas,
//! together with the integer decisions of a flocking step.

pub mod coord;
pub mod region;
pub mod slot_map;
pub mod node;
pub mod tree;
pub mod flock;
