//! Climate parameters and biome lookup by nearest parameter point.

pub mod build_laws;
pub mod lookup_laws;
pub mod nearest;
pub mod order;
pub mod parameter_list;
pub mod tree_shape;
pub mod types;
