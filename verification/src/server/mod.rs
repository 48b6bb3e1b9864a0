//! Server start-up: pregeneration of the spawn area and thread placement.

pub mod affinity_laws;
pub mod epoch_cost;
pub mod generation_affinity;
pub mod memory;
pub mod memory_laws;
pub mod plan_laws;
pub mod pregen;
pub mod pregen_run;
pub mod run_laws;
pub mod window_laws;
pub mod windows;
