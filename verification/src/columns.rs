use vstd::prelude::*;

use crate::archetype::NO_COLUMN;
use crate::world::World;

verus! {

impl World {
    /// Archetype `a` exists and holds the component registered as `key`.
    pub open spec fn holds_column(&self, a: int, key: u64) -> bool {
        &&& 0 <= a < self.n_archetypes()
        &&& self.component_id(key) matches Some(c) && self.archetypes@[a].has_component(c)
    }

    /// The rows of the column of component type `key` in archetype `a`.
    pub open spec fn column_rows(&self, a: int, key: u64) -> Seq<Seq<u8>> {
        let arch = self.archetypes@[a];
        arch.columns@[arch.col_of(self.component_id(key)->Some_0)].data@
    }

    /// The index of the column of `key` in archetype `a`, when `a` exists
    /// and holds that component.
    fn column_index(&self, key: u64, archetype_id: u32) -> (r: Option<usize>)
        requires
            self.wf(),
        ensures
            r is Some <==> self.holds_column(archetype_id as int, key),
            r matches Some(i) ==> {
                &&& i == self.archetypes@[archetype_id as int].col_of(self.component_id(key)->Some_0)
                &&& i < self.archetypes@[archetype_id as int].columns@.len()
            },
    {
        let c = match self.get_component_id(key) {
            Some(c) => c,
            None => {
                return None;
            },
        };
        let a = archetype_id as usize;
        if a >= self.archetypes.len() {
            return None;
        }
        let arch = &self.archetypes[a];
        proof {
            assert(arch.wf(a as int, self.component_layouts@));
            let i = choose|i: int| 0 <= i < self.component_ids@.len() && #[trigger] self.component_ids@[i].0 == key;
            assert(self.component_ids@[i].1 < self.n_components());
        }
        let col = arch.component_to_column[c];
        if col == NO_COLUMN {
            proof {
                if arch.has_component(c) {
                    crate::world::lemma_sorted_len(arch.signature@, self.n_components());
                    let k = arch.signature@.index_of(c);
                    assert(arch.signature@[k] == c);
                }
            }
            return None;
        }
        proof {
            assert(arch.signature@[col as int] == c);
        }
        Some(col as usize)
    }

    /// The rows of the column of component type `key` in archetype
    /// `archetype_id`, when it exists and holds that component.
    pub fn get_column_ptr(&self, key: u64, archetype_id: u32) -> (r: Option<&[Vec<u8>]>)
        requires
            self.wf(),
        ensures
            r is Some <==> self.holds_column(archetype_id as int, key),
            r matches Some(rows) ==> rows@.map_values(|v: Vec<u8>| v@) == self.column_rows(
                archetype_id as int,
                key,
            ),
    {
        match self.column_index(key, archetype_id) {
            Some(i) => Some(self.archetypes[archetype_id as usize].columns[i].data.as_ptr()),
            None => None,
        }
    }

    /// The number of entities in archetype `archetype_id` (0 when there is
    /// none).
    pub fn get_column_len(&self, archetype_id: u32) -> (n: usize)
        ensures
            (archetype_id as int) < self.n_archetypes() ==> n == self.archetypes@[archetype_id as int].entities@.len(),
            (archetype_id as int) >= self.n_archetypes() ==> n == 0,
    {
        let a = archetype_id as usize;
        if a < self.archetypes.len() {
            self.archetypes[a].entities.len()
        } else {
            0
        }
    }

    /// The capacity of the column of component type `key` in archetype
    /// `archetype_id`, when it exists and holds that component.
    pub fn get_column_capacity(&self, key: u64, archetype_id: u32) -> (r: Option<usize>)
        requires
            self.wf(),
        ensures
            r is Some <==> self.holds_column(archetype_id as int, key),
            r matches Some(cap) ==> cap == self.archetypes@[archetype_id as int].columns@[self.archetypes@[archetype_id as int].col_of(
                self.component_id(key)->Some_0,
            )].data.spec_capacity(),
    {
        match self.column_index(key, archetype_id) {
            Some(i) => Some(self.archetypes[archetype_id as usize].columns[i].data.capacity()),
            None => None,
        }
    }
}

} // verus!
