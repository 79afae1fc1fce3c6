//! State of the CI runners that the monitor tracks: the names that tie a
//! runner id to its GitHub registration and its libvirt guest, the status of
//! each runner, and the ordered collection of runners with its lookups.

pub mod names;
pub mod github;
pub mod runner;
pub mod runners;
pub mod utm;
pub mod laws;
