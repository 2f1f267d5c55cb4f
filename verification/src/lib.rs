//! A cache of deferred resources keyed by descriptor values.
//!
//! Resources are requested by descriptor, constructed at most once per
//! distinct descriptor, and delivered through promises that settle as soon as
//! everything they depend on has settled.

pub mod cache;
pub mod descriptor;
pub mod pon_to_resource;
pub mod promise;
pub mod renderer;
pub mod resources;
pub mod viewport;
pub mod worker;

pub use crate::viewport::ViewportSubSystem;
