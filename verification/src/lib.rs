//! Disk-space reclamation for build artifacts: a verified core.
//!
//! The crate models a filesystem snapshot, discovers project roots in it via
//! detection strategies, removes nested matches, sizes the artifact
//! directories, and drives the interactive selection state machine that the
//! presentation layer reads from.

pub mod app_state;
pub mod events;
pub mod order;
pub mod path;
pub mod snapshot;
pub mod scanner;
pub mod strategy;
pub mod tree;
