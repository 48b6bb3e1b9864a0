//! Structures: how their pieces are put into the world.

pub mod piece_laws;
pub mod piece_placer;
