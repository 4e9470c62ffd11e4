//! Entity handles.

use vstd::prelude::*;
use crate::archetype::EntityId;

pub use crate::world::EntityBuilder;

verus! {

/// Handle to an entity of a world.
#[derive(Clone, Copy, Debug, PartialEq, Eq, Structural, Hash)]
pub struct EntityHandle(pub EntityId);

impl EntityHandle {
    pub fn id(&self) -> (r: EntityId)
        ensures
            r == self.0,
    {
        self.0
    }
}

} // verus!
