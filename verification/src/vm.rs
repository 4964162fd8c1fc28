//! Virtual machine instances.

pub mod id;
pub mod instance;
pub mod schedule;
pub mod setup;
