//! Components that make entities pickable.
use vstd::prelude::*;

verus! {

/// Marks an entity that can be picked with the pointer.
#[derive(Debug, Default, Clone, Copy, PartialEq, Eq)]
pub struct Pickable;

} // verus!
