//! Registration of component types.

use crate::component::{COMPONENT_CAP, FIRST_FREE_ID};
use crate::error::EcsError;
use vstd::prelude::*;

verus! {

/// Hands out component identifiers, dense from the first free one upward.
pub struct Ecs {
    pub next_id: u32,
}

impl Ecs {
    /// The next identifier lies between the first free one and the cap.
    pub open spec fn wf(&self) -> bool {
        FIRST_FREE_ID <= self.next_id <= COMPONENT_CAP
    }

    /// A registry that has handed out nothing yet.
    pub fn new() -> (ecs: Self)
        ensures
            ecs.wf(),
            ecs.next_id == FIRST_FREE_ID,
    {
        Ecs { next_id: FIRST_FREE_ID }
    }

    /// Registers one more component type and gives its identifier, the next
    /// in line. Fails, and changes nothing, when every identifier below the
    /// cap is taken.
    pub fn register(&mut self) -> (r: Result<u32, EcsError>)
        requires
            old(self).wf(),
        ensures
            final(self).wf(),
            old(self).next_id < COMPONENT_CAP ==> r == Ok::<u32, EcsError>(old(self).next_id) && final(self).next_id
                == old(self).next_id + 1,
            old(self).next_id == COMPONENT_CAP ==> r == Err::<u32, EcsError>(EcsError::TooManyComponents)
                && final(self).next_id == old(self).next_id,
    {
        if self.next_id >= COMPONENT_CAP {
            return Err(EcsError::TooManyComponents);
        }
        let id = self.next_id;
        self.next_id = id + 1;
        Ok(id)
    }

    /// How many component types are registered.
    pub fn registered(&self) -> (n: u32)
        requires
            self.wf(),
        ensures
            n == self.next_id - FIRST_FREE_ID,
    {
        self.next_id - FIRST_FREE_ID
    }
}

impl Default for Ecs {
    fn default() -> (ecs: Self)
        ensures
            ecs.wf(),
            ecs.next_id == FIRST_FREE_ID,
    {
        Ecs::new()
    }
}

} // verus!
