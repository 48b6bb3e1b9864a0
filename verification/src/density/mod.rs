//! Build-time lowering of density functions and surface rules.

pub mod analysis_laws;
pub mod bounds;
pub mod bounds_enclosure;
pub mod bounds_meaning;
pub mod functions;
pub mod magnitude;
pub mod surface_laws;
pub mod surface_meaning;
pub mod surface_rules;
