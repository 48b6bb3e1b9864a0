//! What the machine's processors are, and which of them a thread may use.

pub mod affinity;
pub mod list_laws;
pub mod parallelism;
pub mod topology;
