//! A procedural dungeon generator with a tile-based visibility and lighting
//! engine for a grid world: randomized non-overlapping room placement joined
//! by L-shaped corridors, an occlusion-aware field-of-view sweep, and additive
//! multi-source lighting with distance falloff.

pub mod map;
pub mod mapgen;
pub mod rng;
pub mod fov;
pub mod light;
pub mod object;
pub mod rect;
