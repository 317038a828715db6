//! Procedural level-generation and spatial-intelligence core for a top-down
//! grid-based game: geometry primitives, BSP room generation, cellular-automata
//! cave carving, spatial indices, field-of-view, pathfinding and mob perception.

pub mod geometry;
pub mod grid;
pub mod flood;
pub mod fov;
pub mod rng;
pub mod tiles;
pub mod bsp;
pub mod roomgraph;
pub mod items;
pub mod mob;
pub mod spawn;
pub mod mapgen;
pub mod pathfind;
pub mod index;
