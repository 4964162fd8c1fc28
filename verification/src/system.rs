//! Systems: what runs each tick.
use vstd::prelude::*;

pub mod script;

verus! {

/// Whether the clock of a virtual machine stands still. Scripts set this and read it.
#[derive(Debug, Clone, Copy, PartialEq, Eq, Structural)]
pub struct Pause {
    pub paused: bool,
}

impl Default for Pause {
    fn default() -> (pause: Self)
        ensures
            !pause.paused,
    {
        Pause { paused: false }
    }
}

} // verus!
