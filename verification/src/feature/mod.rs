//! Features: the things that are placed into generated terrain.

pub mod vanilla_collections;
pub mod ore;
pub mod ore_application;
pub mod ore_draws;
pub mod ore_exposure;
pub mod ore_laws;
pub mod tree;
pub mod tree_laws;
