use vstd::prelude::*;

verus! {

/// A handle to an entity: its slot index and the generation of that slot
/// at the time the handle was handed out.
#[derive(Clone, Copy, PartialEq, Eq, Structural, Debug, Hash)]
pub struct Entity {
    pub id: u32,
    pub generation: u32,
}

/// Where an entity slot stands: its generation, the archetype holding it
/// (`u32::MAX` when the slot holds no live entity) and its row there.
#[derive(Clone, Copy, PartialEq, Eq, Structural, Debug)]
pub struct EntityRecord {
    pub generation: u32,
    pub archetype_id: u32,
    pub row: u32,
}

/// The archetype id that marks a slot without a live entity.
pub const NO_ARCHETYPE: u32 = 0xffff_ffff;

impl EntityRecord {
    /// A slot that has never held an entity.
    pub open spec fn dead_spec() -> EntityRecord {
        EntityRecord { generation: 0, archetype_id: NO_ARCHETYPE, row: 0 }
    }

    /// Returns the record of a slot that has never held an entity.
    pub fn dead() -> (r: EntityRecord)
        ensures
            r == EntityRecord::dead_spec(),
    {
        EntityRecord { generation: 0, archetype_id: NO_ARCHETYPE, row: 0 }
    }
}

} // verus!
