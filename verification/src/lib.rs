//! World generation machinery with machine-checked contracts.

pub mod atomic_wait_queue;
pub mod climate;
pub mod cpu;
pub mod density;
pub mod feature;
pub mod ffi;
pub mod fx;
pub mod noise;
pub mod pos;
pub mod registry;
pub mod server;
pub mod small;
pub mod stages;
pub mod structure;
pub mod text;
pub mod text_laws;
