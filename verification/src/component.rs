//! Component types and their identifiers.

use crate::entity::Entity;
use vstd::prelude::*;

verus! {

/// The identifier of the entity storage.
pub const ENTITY_ID: u32 = 0;

/// The identifier of the destroyed markers.
pub const DESTROYED_ID: u32 = 1;

/// The first identifier that registration hands out.
pub const FIRST_FREE_ID: u32 = 2;

/// Every component identifier is below this cap.
pub const COMPONENT_CAP: u32 = 256;

/// A value that can be stored as a component: it tells the identifier of
/// its component type.
pub trait Component {
    fn id(&self) -> u32;
}

/// The marker of an entity that is to be destroyed. It has no content; its
/// presence at a slot is all it says.
#[derive(Clone, Copy, Debug, PartialEq, Eq, Structural)]
pub struct Destroyed();

impl Component for Destroyed {
    fn id(&self) -> (id: u32)
        ensures
            id == DESTROYED_ID,
    {
        DESTROYED_ID
    }
}

impl Component for Entity {
    fn id(&self) -> (id: u32)
        ensures
            id == ENTITY_ID,
    {
        ENTITY_ID
    }
}

} // verus!
