//! A voxel world core: height-field terrain generation and a rising sea.
//!
//! The library owns a dense, coordinate-keyed voxel store. `GenerateMap`
//! populates an empty store from a per-column height field and vegetation
//! flags; `Flood` raises the waterline by one plane, converting exactly the
//! columns that are reachable from the `y = 0` edge through non-terrain
//! space at that plane.

pub mod laws;
pub mod mapgen;
pub mod reach;
pub mod store;
