//! Failures that the engine reports as values.

use vstd::prelude::*;

verus! {

/// What can go wrong in the engine.
#[derive(Clone, Copy, Debug, PartialEq, Eq, Structural)]
pub enum EcsError {
    /// A slot index at or beyond the storage's 64 * 64 * 64 slots.
    OutOfRange,
    /// Every slot of the entity storage is occupied.
    NoFreeSlot,
    /// A mask, a count or a journal record contradicts the data it summarises.
    InvariantViolation,
    /// The target tick lies before the oldest journal that is still retained.
    RollbackBeyondWindow,
    /// Every component identifier below the cap has been handed out.
    TooManyComponents,
}

} // verus!
