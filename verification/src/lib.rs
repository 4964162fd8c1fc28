//! Core of a scriptable virtual machine for an entity-component world.

pub mod component;
pub mod config;
pub mod dict;
pub mod document;
pub mod entity;
pub mod error;
pub mod event;
pub mod order;
pub mod paths;
pub mod plugin;
pub mod plugin_loader;
pub mod random;
pub mod render;
pub mod resource;
pub mod system;
pub mod text;
pub mod value;
pub mod vm;
pub mod world_access;

pub use error::VmError;
pub use vm::id::{VmId, VmTag};
pub use vm::instance::{VmInstance, VmInstanceBuilder, VmRegistry};
