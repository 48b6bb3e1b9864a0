//! What the game's registries know of their entries.

pub mod tags;
