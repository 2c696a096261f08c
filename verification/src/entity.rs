//! Identifiers of the things that live in the world.

use vstd::prelude::*;
use vstd::std_specs::ops::AddSpecImpl;

verus! {

/// The identifier of one entity.
#[derive(Copy, Clone, PartialEq, Eq, PartialOrd, Ord, Hash, Debug, Structural)]
pub struct EntityId(pub u32);

impl Default for EntityId {
    /// The first identifier.
    fn default() -> (id: EntityId)
        ensures
            id == EntityId(0),
    {
        EntityId(0)
    }
}

impl AddSpecImpl<u32> for EntityId {
    open spec fn obeys_add_spec() -> bool {
        true
    }

    open spec fn add_req(self, rhs: u32) -> bool {
        self.0 + rhs <= u32::MAX
    }

    open spec fn add_spec(self, rhs: u32) -> EntityId {
        EntityId((self.0 + rhs) as u32)
    }
}

impl core::ops::Add<u32> for EntityId {
    type Output = EntityId;

    /// The identifier `rhs` places after this one.
    fn add(self, rhs: u32) -> EntityId {
        let EntityId(i) = self;
        EntityId(i + rhs)
    }
}

} // verus!
