//! Physics and collision core of a 2D tile-based platformer.
//!
//! All geometry is carried out exactly over scaled integers: world positions
//! are `i64` values measured in subunits (`vec2::SUBUNIT` subunits per world
//! unit), and polygon edge normals are primitive integer direction vectors.
//! Depth comparisons between collision axes are made exactly by comparing
//! cross-multiplied squares, so the separating-axis tests and the tile map's
//! minimum-depth queries are free of rounding.

pub mod aabb;
pub mod game_builder;
pub mod hull;
pub mod level;
pub mod math;
pub mod player;
pub mod rect;
pub mod tile;
pub mod tile_map;
pub mod vec2;
