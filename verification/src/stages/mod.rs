//! Steps of chunk generation.

pub mod ring_laws;
pub mod surface;
