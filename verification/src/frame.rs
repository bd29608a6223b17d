//! The value handed to every system on a run.

use crate::tick::Tick;
use vstd::prelude::*;

verus! {

/// Carries the tick that a run of the schedule works at.
pub struct Frame {
    pub current_tick: Tick,
}

impl Frame {
    /// The frame of a run at the given tick.
    pub fn new(current_tick: Tick) -> (f: Self)
        ensures
            f.current_tick == current_tick,
    {
        Self { current_tick }
    }
}

impl Default for Frame {
    fn default() -> (f: Self)
        ensures
            f.current_tick == Tick(0),
    {
        Self { current_tick: Tick(0) }
    }
}

} // verus!
