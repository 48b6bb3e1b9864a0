//! Terrain density over a chunk, and the surface levels kept between chunks.

pub mod corner_laws;
pub mod fill_blocks;
pub mod noise_chunk;
pub mod prelim_surface_cache;
