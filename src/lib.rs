//! A tick-based entity-state replication engine for a process that is at once
//! the authoritative simulation and a local client (host-server mode), with
//! client-side prediction, reconciliation and interpolation.
//!
//! All quantities are integers: positions are in milli-units and headings are
//! fixed-point unit vectors, so that every step is exact and reproducible.
pub mod transform;
pub mod prediction;
pub mod replication;
pub mod interpolation;
pub mod clock;
pub mod registry;
pub mod input;
pub mod host;
pub mod client;
