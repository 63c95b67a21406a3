//! A staggered hexagonal tile grid for a 2D isometric tile world, with a
//! pixel-exact mapping between screen coordinates and tile coordinates, and a
//! bounded A* pathfinder over that grid.

pub mod point;
pub mod direction;
pub mod grid;
pub mod path;
pub mod laws;
