//! Script systems.

pub mod attach;
pub mod const_fold;
pub mod convert;
pub mod dynamic;
pub mod host;
