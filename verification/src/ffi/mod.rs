//! World generation for a host process: what crosses the boundary, and what is
//! decided on this side of it.

pub mod snapshot;
pub mod snapshot_reading;
pub mod status;
pub mod handle;
pub mod boundary_laws;
pub mod engine;
pub mod resident;
pub mod abi;
