//! Logical time.

use vstd::prelude::*;

verus! {

/// A logical time step; the unit of rollback granularity.
#[derive(Clone, Copy, Debug, PartialEq, Eq, Structural, Hash)]
pub struct Tick(pub u32);

impl Tick {
    /// The step's number.
    pub fn value(&self) -> (v: u32)
        ensures
            v == self.0,
    {
        self.0
    }

    /// The step after this one; the counter wraps at `u32::MAX`.
    pub fn next(&self) -> (t: Tick)
        ensures
            t.0 == (if self.0 == u32::MAX {
                0
            } else {
                self.0 + 1
            }),
    {
        Tick(self.0.wrapping_add(1))
    }
}

} // verus!
