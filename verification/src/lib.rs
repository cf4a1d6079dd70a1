//! Exact line-of-sight geometry: rays, height maps, tiles and the traversal of a ray
//! through the pixel grid.

pub mod ratio;
pub mod ray;
pub mod grid;
pub mod tiles;
pub mod nodes;
pub mod traversal;
