//! Entity identifiers.

use vstd::prelude::*;

verus! {

/// Identifies one row of the world.
///
/// `index` names a slot of the entity table and `generation` tells apart the
/// successive entities that occupy that slot, so that an identifier kept after
/// its entity was destroyed never designates a later entity.
#[derive(Clone, Copy, Debug, PartialEq, Eq, Hash, Structural)]
pub struct EntityId {
    pub index: usize,
    pub generation: u32,
}

impl Default for EntityId {
    fn default() -> (id: Self)
        ensures
            id == (EntityId { index: 0, generation: 0 }),
    {
        EntityId { index: 0, generation: 0 }
    }
}

} // verus!
