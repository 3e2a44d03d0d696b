use vstd::prelude::*;

use crate::entity::{Entity, EntityRecord, NO_ARCHETYPE};
use crate::world::{has_id, ids_distinct, lemma_live_slots_kill, live_slots, Links, World};

verus! {

/// The slots of `s` that hold a live entity.
pub open spec fn live_ids(s: Seq<EntityRecord>) -> Set<int> {
    Set::new(|k: int| 0 <= k < s.len() && s[k].archetype_id != NO_ARCHETYPE)
}

/// The live slots of `s` are as many as `live_slots` counts.
proof fn lemma_live_ids_len(s: Seq<EntityRecord>)
    ensures
        live_ids(s).finite(),
        live_ids(s).len() == live_slots(s),
    decreases s.len(),
{
    if s.len() == 0 {
        assert(live_ids(s) =~= Set::<int>::empty());
    } else {
        let t = s.drop_last();
        lemma_live_ids_len(t);
        let n = s.len() - 1;
        if s[n].archetype_id != NO_ARCHETYPE {
            assert(live_ids(s) =~= live_ids(t).insert(n));
            assert(!live_ids(t).contains(n));
        } else {
            assert(live_ids(s) =~= live_ids(t));
        }
    }
}

/// Placing an entity in a dead or new slot adds one live slot: `t` is `s`
/// grown with dead slots, with slot `id` turned live.
pub proof fn lemma_live_slots_place(s: Seq<EntityRecord>, t: Seq<EntityRecord>, id: int)
    requires
        0 <= id < t.len(),
        s.len() <= t.len(),
        t[id].archetype_id != NO_ARCHETYPE,
        id < s.len() ==> s[id].archetype_id == NO_ARCHETYPE,
        forall|k: int| 0 <= k < s.len() && k != id ==> (#[trigger] t[k]).archetype_id == s[k].archetype_id,
        forall|k: int| s.len() <= k < t.len() && k != id ==> (#[trigger] t[k]).archetype_id == NO_ARCHETYPE,
    ensures
        live_slots(t) == live_slots(s) + 1,
{
    lemma_live_ids_len(s);
    lemma_live_ids_len(t);
    assert(live_ids(t) =~= live_ids(s).insert(id));
    assert(!live_ids(s).contains(id));
}

/// The generation a slot takes when its entity dies (wrapping at `u32::MAX`).
pub open spec fn next_generation(g: u32) -> u32 {
    if g == u32::MAX {
        0
    } else {
        (g + 1) as u32
    }
}

impl World {
    /// A slot can be handed out: the free list has one, or fresh slot ids
    /// remain.
    pub open spec fn can_reserve(&self) -> bool {
        self.free_entities@.len() > 0 || self.next_entity_id < u32::MAX
    }

    /// The entity that the next reservation hands out.
    pub open spec fn next_reserved(&self) -> Entity {
        if self.free_entities@.len() > 0 {
            self.free_entities@.last()
        } else {
            Entity { id: self.next_entity_id, generation: 0 }
        }
    }

    /// Slot `id` holds no live entity: every handle to it is dead.
    pub proof fn lemma_dead_slot_detached(&self, id: u32)
        requires
            self.wf(),
            id < self.records@.len(),
            self.records@[id as int].archetype_id == NO_ARCHETYPE,
        ensures
            self.wf_detached(id),
    {
        assert forall|a: int, r: int|
            0 <= a < self.n_archetypes() && 0 <= r < self.archetypes@[a].entities@.len() implies (#[trigger] self.archetypes@[a].entities@[r]).id != id by {
        }
    }

    /// Whether `entity` is live.
    pub fn is_alive(&self, entity: Entity) -> (b: bool)
        ensures
            b == self.alive(entity),
    {
        let id = entity.id as usize;
        id < self.records.len() && {
            let rec = self.records[id];
            rec.generation == entity.generation && rec.archetype_id != NO_ARCHETYPE
        }
    }

    /// The current generation of slot `id`, if the slot was ever recorded.
    pub fn generation_of(&self, id: u32) -> (g: Option<u32>)
        ensures
            id < self.records@.len() ==> g == Some(self.record(id).generation),
            id >= self.records@.len() ==> g is None,
    {
        if (id as usize) < self.records.len() {
            Some(self.records[id as usize].generation)
        } else {
            None
        }
    }

    /// Hands out an entity handle to be spawned later: the last freed slot
    /// with its new generation, or else the next fresh slot.
    pub fn reserve_entity(&mut self) -> (e: Entity)
        requires
            old(self).wf(),
            old(self).can_reserve(),
        ensures
            final(self).wf(),
            e == old(self).next_reserved(),
            final(self).spawnable(e),
            !old(self).alive(e),
            old(self).free_entities@.len() > 0 ==> {
                &&& final(self).free_entities@ == old(self).free_entities@.drop_last()
                &&& final(self).next_entity_id == old(self).next_entity_id
            },
            old(self).free_entities@.len() == 0 ==> {
                &&& final(self).free_entities@ == old(self).free_entities@
                &&& final(self).next_entity_id == old(self).next_entity_id + 1
            },
            *final(self) == (World {
                free_entities: final(self).free_entities,
                next_entity_id: final(self).next_entity_id,
                ..*old(self)
            }),
            final(self).same_entities(old(self)),
    {
        let ghost old_self = *self;
        if self.free_entities.len() > 0 {
            let e = self.free_entities.pop().unwrap();
            proof {
                let last = old_self.free_entities@.len() - 1;
                assert(old_self.free_entities@[last] == e);
                assert(old_self.slot_free_for(e));
                assert(!has_id(self.free_entities@, e.id)) by {
                    if has_id(self.free_entities@, e.id) {
                        let k = choose|k: int| 0 <= k < self.free_entities@.len() && (#[trigger] self.free_entities@[k]).id == e.id;
                        assert(old_self.free_entities@[k] == self.free_entities@[k]);
                    }
                }
                assert(!has_id(self.spawn_queue@, e.id)) by {
                    if has_id(self.spawn_queue@, e.id) {
                        let k = choose|k: int| 0 <= k < self.spawn_queue@.len() && (#[trigger] self.spawn_queue@[k]).id == e.id;
                        assert(!has_id(old_self.free_entities@, self.spawn_queue@[k].id));
                    }
                }
                assert forall|i: int| 0 <= i < self.free_entities@.len() implies {
                    let x = #[trigger] self.free_entities@[i];
                    &&& x.id < self.records@.len()
                    &&& self.slot_free_for(x)
                } by {
                    assert(old_self.free_entities@[i] == self.free_entities@[i]);
                }
                assert forall|i: int| 0 <= i < self.spawn_queue@.len() implies {
                    let x = #[trigger] self.spawn_queue@[i];
                    &&& self.slot_free_for(x)
                    &&& !has_id(self.free_entities@, x.id)
                } by {
                    let x = self.spawn_queue@[i];
                    if has_id(self.free_entities@, x.id) {
                        let k = choose|k: int| 0 <= k < self.free_entities@.len() && (#[trigger] self.free_entities@[k]).id == x.id;
                        assert(old_self.free_entities@[k] == self.free_entities@[k]);
                    }
                }
                assert(self.same_entities(&old_self));
                assert(self.registry_wf());
                self.lemma_archetypes_wf_transfer(&old_self);
                assert(self.placement_wf());
                assert(self.active_wf());
                assert(self.allocator_wf());
                assert(self.resources_wf());
            }
            e
        } else {
            let id = self.next_entity_id;
            self.next_entity_id = id + 1;
            let e = Entity { id, generation: 0 };
            proof {
                if (id as int) < self.records@.len() {
                    assert(old_self.records@[id as int] == EntityRecord::dead_spec());
                }
                assert(!has_id(self.spawn_queue@, e.id)) by {
                    if has_id(self.spawn_queue@, e.id) {
                        let k = choose|k: int| 0 <= k < self.spawn_queue@.len() && (#[trigger] self.spawn_queue@[k]).id == e.id;
                        assert(old_self.slot_free_for(self.spawn_queue@[k]));
                    }
                }
                assert(self.same_entities(&old_self));
                assert(self.registry_wf());
                self.lemma_archetypes_wf_transfer(&old_self);
                assert(self.placement_wf());
                assert(self.active_wf());
                assert(self.allocator_wf());
                assert(self.resources_wf());
            }
            e
        }
    }

    /// Grows the slot records, new slots never having held an entity, so
    /// that slot `id` has a record: to `id + 1` slots, twice the old count,
    /// or 128, whichever is most.
    pub(crate) fn grow_records(&mut self, id: u32)
        requires
            old(self).wf(),
            id < u32::MAX,
        ensures
            final(self).wf(),
            (id as int) < final(self).records@.len(),
            final(self).records@.len() >= old(self).records@.len(),
            forall|k: int|
                0 <= k < old(self).records@.len() ==> #[trigger] final(self).records@[k]
                    == old(self).records@[k],
            forall|k: int|
                old(self).records@.len() <= k < final(self).records@.len() ==> #[trigger] final(self).records@[k]
                    == EntityRecord::dead_spec(),
            *final(self) == (World { records: final(self).records, ..*old(self) }),
            final(self).same_entities(old(self)),
    {
        let ghost old_self = *self;
        let len = self.records.len();
        let idu = id as usize;
        if idu >= len {
            let doubled: usize = if len <= usize::MAX / 2 { len * 2 } else { usize::MAX };
            let mut new_len: usize = idu + 1;
            if doubled > new_len {
                new_len = doubled;
            }
            if 128 > new_len {
                new_len = 128;
            }
            self.records.resize(new_len, EntityRecord::dead());
            proof {
                assert forall|k: int| len <= k < new_len implies #[trigger] self.records@[k] == EntityRecord::dead_spec() by {}
                assert forall|k: int| 0 <= k < len implies #[trigger] self.records@[k] == old_self.records@[k] by {
                    assert(self.records@.subrange(0, len as int)[k] == old_self.records@[k]);
                }
                assert forall|i: int| 0 <= i < self.free_entities@.len() implies {
                    let x = #[trigger] self.free_entities@[i];
                    &&& x.id < self.records@.len()
                    &&& self.slot_free_for(x)
                } by {
                    assert(old_self.slot_free_for(self.free_entities@[i]));
                }
                assert forall|i: int| 0 <= i < self.spawn_queue@.len() implies {
                    let x = #[trigger] self.spawn_queue@[i];
                    &&& self.slot_free_for(x)
                    &&& !has_id(self.free_entities@, x.id)
                } by {
                    assert(old_self.slot_free_for(self.spawn_queue@[i]));
                }
                assert forall|k: int| self.next_entity_id <= k < self.records@.len() implies #[trigger] self.records@[k]
                    == EntityRecord::dead_spec() by {
                    if k < len {
                        assert(old_self.records@[k] == EntityRecord::dead_spec());
                    }
                }
                assert(self.placement_wf()) by {
                    assert forall|k: int|
                        0 <= k < self.records@.len() && (#[trigger] self.records@[k]).archetype_id
                        != NO_ARCHETYPE implies k < len by {}
                }
                assert(self.registry_wf());
                self.lemma_archetypes_wf_transfer(&old_self);
                assert(self.active_wf());
                assert(self.allocator_wf());
                assert(self.resources_wf());
                assert(self.same_entities(&old_self)) by {
                    assert forall|x: Entity| #[trigger] self.same_entity(&old_self, x) by {
                        if (x.id as int) < len {
                            assert(self.records@[x.id as int] == old_self.records@[x.id as int]);
                        }
                    }
                }
            }
        } else {
            proof {
                assert(self.same_entities(&old_self));
            }
        }
    }

    /// The cell of component `c` of live `e` with `value` as its bytes and
    /// `tick` as its changed tick, the added tick kept.
    pub open spec fn written_cell(&self, e: Entity, c: usize, value: Seq<u8>, tick: u32) -> (Seq<u8>, u32, u32) {
        (value, self.cell(e, c).1, tick)
    }

    /// `self` is `old` after component `c` of `e` was overwritten with
    /// `value` at the current tick: `e` keeps its components, `c` holds
    /// `value` marked changed then, in its row and in its column, and every
    /// other handle reads as before.
    pub open spec fn set_from(&self, old: &World, e: Entity, c: usize, value: Seq<u8>) -> bool {
        &&& self.has(e, c)
        &&& self.cell(e, c) == old.written_cell(e, c, value, old.current_tick)
        &&& self.same_but_component(old, e, c)
        &&& self.same_except(old, e.id)
        &&& self.alive(e)
        &&& self.archetype_of(e).last_modified_tick == old.current_tick
        &&& self.archetype_of(e).columns@[self.archetype_of(e).col_of(c)].last_changed_tick == old.current_tick
    }

    /// Entity `e` reads in `self` as in `old` except for component `c`.
    pub open spec fn same_but_component(&self, old: &World, e: Entity, c: usize) -> bool {
        &&& forall|d: usize| #[trigger] self.has(e, d) == (old.has(e, d) || (d == c && self.has(e, c)))
        &&& forall|d: usize| d != c && old.has(e, d) ==> #[trigger] self.cell(e, d) == old.cell(e, d)
    }

    /// Overwrites component `c` of live entity `e` with `value`, stamping the
    /// current tick as its change.
    pub(crate) fn write_cell(&mut self, e: Entity, c: usize, value: &[u8])
        requires
            old(self).wf(),
            old(self).has(e, c),
            value@.len() == old(self).component_layouts@[c as int].size,
        ensures
            final(self).wf(),
            final(self).has(e, c),
            final(self).cell(e, c) == old(self).written_cell(e, c, value@, old(self).current_tick),
            final(self).same_but_component(old(self), e, c),
            final(self).alive(e),
            final(self).same_except(old(self), e.id),
            final(self).n_archetypes() == old(self).n_archetypes(),
            final(self).archetype_of(e).last_modified_tick == old(self).current_tick,
            final(self).archetype_of(e).columns@[final(self).archetype_of(e).col_of(c)].last_changed_tick
                == old(self).current_tick,
            forall|a: int|
                0 <= a < old(self).n_archetypes() ==> {
                    &&& (#[trigger] final(self).archetypes@[a]).signature
                        == old(self).archetypes@[a].signature
                    &&& final(self).archetypes@[a].entities == old(self).archetypes@[a].entities
                    &&& final(self).archetypes@[a].component_to_column
                        == old(self).archetypes@[a].component_to_column
                    &&& final(self).archetypes@[a].add_edges == old(self).archetypes@[a].add_edges
                    &&& final(self).archetypes@[a].remove_edges
                        == old(self).archetypes@[a].remove_edges
                },
            *final(self) == (World { archetypes: final(self).archetypes, ..*old(self) }),
    {
        let ghost old_self = *self;
        let rec = self.records[e.id as usize];
        let a = rec.archetype_id as usize;
        let row = rec.row as usize;
        let ghost old_arch = self.archetypes@[a as int];
        proof {
            assert(old_arch.wf(a as int, self.component_layouts@));
            let k = old_arch.signature@.index_of(c);
            assert(old_arch.signature@[k] == c);
            assert(old_arch.columns@[k].wf() && old_arch.columns@[k].len() == old_arch.entities@.len());
        }
        let i = self.archetypes[a].component_to_column[c] as usize;
        let cur = self.current_tick;
        self.archetypes[a].columns[i].data.write_raw(row, value);
        self.archetypes[a].columns[i].changed_ticks.set(row, cur);
        self.archetypes[a].columns[i].last_changed_tick = cur;
        self.archetypes[a].last_modified_tick = cur;
        proof {
            let new_arch = self.archetypes@[a as int];
            assert forall|b: int| 0 <= b < self.n_archetypes() && b != a implies #[trigger] self.archetypes@[b]
                == old_self.archetypes@[b] by {}
            assert forall|j: int| 0 <= j < new_arch.columns@.len() && j != i implies #[trigger] new_arch.columns@[j]
                == old_arch.columns@[j] by {}
            assert(new_arch.wf(a as int, self.component_layouts@));
            assert forall|b: int| 0 <= b < self.n_archetypes() implies (#[trigger] self.archetypes@[b]).wf(
                b,
                self.component_layouts@,
            ) by {
                if b != a {
                    assert(old_self.archetypes@[b].wf(b, old_self.component_layouts@));
                }
            }
            assert forall|b: int| 0 <= b < self.n_archetypes() implies #[trigger] self.edges_wf(b) by {
                assert(old_self.edges_wf(b));
            }
            assert(self.archetypes_wf());
            assert(self.placement_wf()) by {
                assert forall|b: int| 0 <= b < self.n_archetypes() implies (#[trigger] self.archetypes@[b]).entities@.len()
                    <= u32::MAX by {
                    assert(old_self.archetypes@[b].entities@.len() <= u32::MAX);
                }
                assert forall|b: int, r: int|
                    0 <= b < self.n_archetypes() && 0 <= r < self.archetypes@[b].entities@.len() implies #[trigger] self.archetypes@[b].entities@[r]
                    == old_self.archetypes@[b].entities@[r] by {}
            }
            assert(self.active_wf()) by {
                assert forall|b: int|
                    0 <= b < self.n_archetypes() implies (self.active_archetypes@.contains(b as u32)
                    <==> #[trigger] self.archetypes@[b].entities@.len() > 0) by {
                    assert(old_self.archetypes@[b].entities@.len() > 0 <==> old_self.active_archetypes@.contains(b as u32));
                }
            }
            assert forall|x: Entity| x.id != e.id implies #[trigger] self.same_entity(&old_self, x) by {
                if old_self.alive(x) {
                    let ob = old_self.record(x.id).archetype_id as int;
                    let orow = old_self.record(x.id).row as int;
                    assert(old_self.archetypes@[ob].entities@[orow].id == x.id);
                    if ob == a {
                        assert(orow != row);
                    }
                }
            }
            assert forall|d: usize| #[trigger] self.has(e, d) == (old_self.has(e, d) || (d == c && self.has(e, c))) by {}
            assert forall|d: usize| d != c && old_self.has(e, d) implies #[trigger] self.cell(e, d) == old_self.cell(e, d) by {
                let k = old_arch.signature@.index_of(d);
                assert(old_arch.signature@[k] == d);
                assert(old_arch.col_of(d) != i);
            }
        }
    }

    /// The bytes of component `comp_id` of `entity`, if it is live and has
    /// that component.
    pub fn get_component_by_id(&self, entity: Entity, comp_id: usize) -> (r: Option<&Vec<u8>>)
        requires
            self.wf(),
        ensures
            r is Some <==> self.has(entity, comp_id),
            r matches Some(v) ==> v@ == self.value(entity, comp_id),
    {
        let id = entity.id as usize;
        if id >= self.records.len() {
            return None;
        }
        let rec = self.records[id];
        if rec.generation != entity.generation || rec.archetype_id == NO_ARCHETYPE {
            return None;
        }
        let a = rec.archetype_id as usize;
        proof {
            assert(self.archetypes@[a as int].wf(a as int, self.component_layouts@));
        }
        if comp_id >= self.archetypes[a].component_to_column.len() {
            proof {
                if self.has(entity, comp_id) {
                    assert(self.archetype_of(entity) == self.archetypes@[a as int]);
                    let k = self.archetypes@[a as int].signature@.index_of(comp_id);
                    assert(self.archetypes@[a as int].signature@[k] == comp_id);
                    assert(self.archetypes@[a as int].signature@[k] < self.n_components());
                }
            }
            return None;
        }
        let col_idx = self.archetypes[a].component_to_column[comp_id];
        if col_idx == crate::archetype::NO_COLUMN {
            proof {
                if self.has(entity, comp_id) {
                    let k = self.archetypes@[a as int].signature@.index_of(comp_id);
                    assert(self.archetypes@[a as int].signature@[k] == comp_id);
                    crate::world::lemma_sorted_len(self.archetypes@[a as int].signature@, self.n_components());
                }
            }
            return None;
        }
        proof {
            let arch = self.archetypes@[a as int];
            assert(arch.signature@[col_idx as int] == comp_id);
            assert(arch.columns@[col_idx as int].wf());
            assert(self.archetypes@[a as int].entities@[rec.row as int].id == id);
        }
        Some(self.archetypes[a].columns[col_idx as usize].data.get_raw(rec.row as usize))
    }

    /// Overwrites component `comp_id` of `entity` with `value`, marking it
    /// changed at the current tick; `false` when the entity is dead or lacks
    /// the component.
    pub fn set_component(&mut self, entity: Entity, comp_id: usize, value: &[u8]) -> (done: bool)
        requires
            old(self).wf(),
            comp_id < old(self).n_components() ==> value@.len() == old(self).component_layouts@[comp_id as int].size,
        ensures
            final(self).wf(),
            done == old(self).has(entity, comp_id),
            done ==> final(self).set_from(old(self), entity, comp_id, value@),
            !done ==> *final(self) == *old(self),
            *final(self) == (World { archetypes: final(self).archetypes, ..*old(self) }),
            final(self).n_archetypes() == old(self).n_archetypes(),
    {
        if self.get_component_by_id(entity, comp_id).is_none() {
            return false;
        }
        proof {
            let a = self.record(entity.id).archetype_id as int;
            assert(self.archetypes@[a].wf(a, self.component_layouts@));
            let k = self.archetypes@[a].signature@.index_of(comp_id);
            assert(self.archetypes@[a].signature@[k] == comp_id);
        }
        self.write_cell(entity, comp_id, value);
        true
    }

    /// Places `entity`, handed out by `reserve_entity`, as a live entity
    /// without components in the archetype without components.
    pub fn flush_spawn(&mut self, entity: Entity)
        requires
            old(self).wf(),
            old(self).spawnable(entity),
        ensures
            final(self).wf(),
            final(self).alive(entity),
            forall|c: usize| !final(self).has(entity, c),
            final(self).same_except(old(self), entity.id),
            final(self).structural_gen == vstd::wrapping::u64_specs::wrapping_add(old(self).structural_gen, 1),
            final(self).archetypes@[0].entities@ == old(self).archetypes@[0].entities@.push(entity),
            forall|b: int| 1 <= b < old(self).n_archetypes() ==> #[trigger] final(self).archetypes@[b] == old(self).archetypes@[b],
            final(self).free_entities == old(self).free_entities,
            final(self).spawn_queue == old(self).spawn_queue,
            final(self).next_entity_id == old(self).next_entity_id,
            final(self).n_archetypes() == old(self).n_archetypes(),
            final(self).component_ids == old(self).component_ids,
            final(self).component_layouts == old(self).component_layouts,
            final(self).current_tick == old(self).current_tick,
            final(self).record(entity.id) == (EntityRecord {
                generation: entity.generation,
                archetype_id: 0,
                row: old(self).archetypes@[0].entities@.len() as u32,
            }),
            final(self).records@.len() >= old(self).records@.len(),
            *final(self) == (World {
                records: final(self).records,
                archetypes: final(self).archetypes,
                active_archetypes: final(self).active_archetypes,
                structural_gen: final(self).structural_gen,
                ..*old(self)
            }),
            final(self).live_count() == old(self).live_count() + 1,
    {
        let ghost old_self = *self;
        self.grow_records(entity.id);
        let ghost grown = *self;
        proof {
            if (entity.id as int) < old_self.records@.len() {
                assert(self.records@[entity.id as int] == old_self.records@[entity.id as int]);
            }
            self.lemma_dead_slot_detached(entity.id);
            assert(self.archetypes@[0].wf(0, self.component_layouts@));
        }
        let cells: Vec<(Vec<u8>, u32, u32)> = Vec::new();
        self.attach_row(entity, 0, cells);
        let ghost attached = *self;
        self.structural_gen = self.structural_gen.wrapping_add(1);
        proof {
            self.lemma_archetypes_wf_transfer(&attached);
            assert forall|c: usize| !self.has(entity, c) by {}
            assert forall|x: Entity| x.id != entity.id implies #[trigger] grown.same_entity(&old_self, x) by {
                assert(grown.same_entity(&old_self, x));
            }
            assert forall|x: Entity| x.id != entity.id implies #[trigger] self.same_entity(&grown, x) by {
                assert(attached.same_entity(&grown, x));
            }
            self.lemma_same_except_trans(&grown, &old_self, entity.id);
            assert forall|k: int| 0 <= k < old_self.records@.len() && k != entity.id implies (#[trigger] self.records@[k]).archetype_id
                == old_self.records@[k].archetype_id by {
                assert(grown.records@[k] == old_self.records@[k]);
            }
            assert forall|k: int| old_self.records@.len() <= k < self.records@.len() && k != entity.id implies (#[trigger] self.records@[k]).archetype_id
                == NO_ARCHETYPE by {
                assert(grown.records@[k] == EntityRecord::dead_spec());
            }
            lemma_live_slots_place(old_self.records@, self.records@, entity.id as int);
        }
    }

    /// Spawns a live entity without components, reusing the last freed slot
    /// when there is one.
    pub fn spawn(&mut self) -> (entity: Entity)
        requires
            old(self).wf(),
            old(self).can_reserve(),
        ensures
            final(self).wf(),
            entity == old(self).next_reserved(),
            !old(self).alive(entity),
            final(self).alive(entity),
            forall|c: usize| !final(self).has(entity, c),
            final(self).same_except(old(self), entity.id),
            final(self).component_ids == old(self).component_ids,
            final(self).component_layouts == old(self).component_layouts,
            final(self).current_tick == old(self).current_tick,
            final(self).structural_gen == vstd::wrapping::u64_specs::wrapping_add(old(self).structural_gen, 1),
            old(self).free_entities@.len() > 0 ==> {
                &&& final(self).free_entities@ == old(self).free_entities@.drop_last()
                &&& final(self).next_entity_id == old(self).next_entity_id
            },
            old(self).free_entities@.len() == 0 ==> {
                &&& final(self).free_entities@ == old(self).free_entities@
                &&& final(self).next_entity_id == old(self).next_entity_id + 1
            },
            final(self).spawn_queue == old(self).spawn_queue,
            final(self).despawn_queue == old(self).despawn_queue,
            final(self).typed_queues == old(self).typed_queues,
            final(self).n_archetypes() == old(self).n_archetypes(),
            final(self).records@.len() >= old(self).records@.len(),
            final(self).live_count() == old(self).live_count() + 1,
            final(self).archetypes@[0].entities@ == old(self).archetypes@[0].entities@.push(entity),
            final(self).record(entity.id) == (EntityRecord {
                generation: entity.generation,
                archetype_id: 0,
                row: old(self).archetypes@[0].entities@.len() as u32,
            }),
            forall|b: int| 1 <= b < old(self).n_archetypes() ==> #[trigger] final(self).archetypes@[b] == old(self).archetypes@[b],
    {
        let ghost old_self = *self;
        let entity = self.reserve_entity();
        let ghost mid = *self;
        self.flush_spawn(entity);
        proof {
            assert forall|x: Entity| x.id != entity.id implies #[trigger] mid.same_entity(&old_self, x) by {
                assert(mid.same_entity(&old_self, x));
            }
            self.lemma_same_except_trans(&mid, &old_self, entity.id);
        }
        entity
    }

    /// Removes live entity `e` from its archetype, marks its slot dead with
    /// the next generation, and files the slot in the free list.
    pub(crate) fn kill_single(&mut self, e: Entity)
        requires
            old(self).wf(),
            old(self).alive(e),
        ensures
            final(self).wf(),
            !final(self).alive(e),
            final(self).same_except(old(self), e.id),
            final(self).record(e.id).generation == next_generation(e.generation),
            final(self).free_entities@ == old(self).free_entities@.push(
                Entity { id: e.id, generation: next_generation(e.generation) },
            ),
            final(self).records@.len() == old(self).records@.len(),
            forall|k: int|
                0 <= k < old(self).records@.len() && k != e.id ==> (#[trigger] final(self).records@[k]).archetype_id
                    == old(self).records@[k].archetype_id,
            final(self).n_archetypes() == old(self).n_archetypes(),
            forall|a: int|
                0 <= a < old(self).n_archetypes() ==> {
                    &&& (#[trigger] final(self).archetypes@[a]).signature
                        == old(self).archetypes@[a].signature
                    &&& final(self).archetypes@[a].component_to_column
                        == old(self).archetypes@[a].component_to_column
                },
            final(self).spawn_queue == old(self).spawn_queue,
            final(self).next_entity_id == old(self).next_entity_id,
            final(self).component_ids == old(self).component_ids,
            final(self).component_layouts == old(self).component_layouts,
            final(self).current_tick == old(self).current_tick,
            final(self).despawn_queue == old(self).despawn_queue,
            final(self).typed_queues == old(self).typed_queues,
            final(self).records@[e.id as int].archetype_id == NO_ARCHETYPE,
            final(self).live_count() + 1 == old(self).live_count(),
            final(self).links@.len() == old(self).links@.len(),
            forall|k: int|
                0 <= k < old(self).links@.len() && k != e.id ==> #[trigger] final(self).links@[k] == old(self).links@[k],
            final(self).children_of(e).len() == 0,
            final(self).parent_of(e) is None,
            final(self).structural_gen == vstd::wrapping::u64_specs::wrapping_add(old(self).structural_gen, 1),
            forall|k: int|
                0 <= k < old(self).records@.len() && k != e.id ==> (#[trigger] final(self).records@[k]).generation
                    == old(self).records@[k].generation,
            final(self).archetypes@[old(self).record(e.id).archetype_id as int].entities@ == crate::archetype::swap_removed(
                old(self).archetype_of(e).entities@,
                old(self).record(e.id).row as int,
            ),
            forall|b: int|
                0 <= b < old(self).n_archetypes() && b != old(self).record(e.id).archetype_id
                    ==> #[trigger] final(self).archetypes@[b] == old(self).archetypes@[b],
            final(self).archetypes@[old(self).record(e.id).archetype_id as int].last_modified_tick
                == old(self).current_tick,
    {
        let ghost old_self = *self;
        let a = self.records[e.id as usize].archetype_id as usize;
        let _cells = self.detach_row(e);
        let ghost mid = *self;
        let new_gen = e.generation.wrapping_add(1);
        let id = e.id as usize;
        proof {
            assert(!has_id(self.free_entities@, e.id)) by {
                if has_id(self.free_entities@, e.id) {
                    let k = choose|k: int| 0 <= k < self.free_entities@.len() && (#[trigger] self.free_entities@[k]).id == e.id;
                    assert(old_self.slot_free_for(self.free_entities@[k]));
                }
            }
            assert forall|i: int| 0 <= i < self.spawn_queue@.len() implies (#[trigger] self.spawn_queue@[i]).id != e.id by {
                assert(old_self.slot_free_for(self.spawn_queue@[i]));
            }
        }
        self.free_entities.push(Entity { id: e.id, generation: new_gen });
        let old_row = self.records[id].row;
        self.records.set(id, EntityRecord { generation: new_gen, archetype_id: NO_ARCHETYPE, row: old_row });
        self.structural_gen = self.structural_gen.wrapping_add(1);
        if id < self.links.len() {
            self.links.set(id, Links { parent: None, children: Vec::new() });
        }
        proof {
            lemma_live_slots_kill(old_self.records@, self.records@, e.id as int);
            self.lemma_archetypes_wf_transfer(&mid);
            assert(self.placement_wf()) by {
                assert forall|a: int, r: int|
                    0 <= a < self.n_archetypes() && 0 <= r < self.archetypes@[a].entities@.len() implies {
                    let x = #[trigger] self.archetypes@[a].entities@[r];
                    &&& x.id < self.records@.len()
                    &&& self.records@[x.id as int] == (EntityRecord {
                        generation: x.generation,
                        archetype_id: a as u32,
                        row: r as u32,
                    })
                } by {
                    let x = self.archetypes@[a].entities@[r];
                    assert(mid.archetypes@[a].entities@[r] == x);
                }
                assert forall|k: int|
                    0 <= k < self.records@.len() && (#[trigger] self.records@[k]).archetype_id
                    != NO_ARCHETYPE implies {
                    let rec2 = self.records@[k];
                    &&& rec2.archetype_id < self.n_archetypes()
                    &&& rec2.row < self.archetypes@[rec2.archetype_id as int].entities@.len()
                    &&& self.archetypes@[rec2.archetype_id as int].entities@[rec2.row as int].id == k
                } by {
                    assert(mid.records@[k] == self.records@[k]);
                }
            }
            assert(self.allocator_wf()) by {
                let ne = Entity { id: e.id, generation: new_gen };
                assert forall|i: int| 0 <= i < self.free_entities@.len() implies {
                    let x = #[trigger] self.free_entities@[i];
                    &&& x.id < self.records@.len()
                    &&& self.slot_free_for(x)
                } by {
                    if i < mid.free_entities@.len() {
                        let x = self.free_entities@[i];
                        assert(mid.free_entities@[i] == x);
                        assert(mid.slot_free_for(x));
                    }
                }
                assert forall|i: int, j: int| 0 <= i < j < self.free_entities@.len() implies self.free_entities@[i].id
                    != self.free_entities@[j].id by {
                    if j == mid.free_entities@.len() {
                        assert(mid.free_entities@[i] == self.free_entities@[i]);
                    }
                }
                assert forall|i: int| 0 <= i < self.spawn_queue@.len() implies {
                    let x = #[trigger] self.spawn_queue@[i];
                    &&& self.slot_free_for(x)
                    &&& !has_id(self.free_entities@, x.id)
                } by {
                    let x = self.spawn_queue@[i];
                    assert(mid.slot_free_for(x));
                    if has_id(self.free_entities@, x.id) {
                        let k = choose|k: int| 0 <= k < self.free_entities@.len() && (#[trigger] self.free_entities@[k]).id == x.id;
                        if k < mid.free_entities@.len() {
                            assert(mid.free_entities@[k] == self.free_entities@[k]);
                        }
                    }
                }
                assert forall|k: int| self.next_entity_id <= k < self.records@.len() implies #[trigger] self.records@[k]
                    == EntityRecord::dead_spec() by {
                    assert(mid.records@[k] == EntityRecord::dead_spec());
                }
            }
            assert forall|x: Entity| x.id != e.id implies #[trigger] self.same_entity(&mid, x) by {
                if (x.id as int) < self.records@.len() {
                    assert(self.records@[x.id as int] == mid.records@[x.id as int]);
                }
            }
            self.lemma_same_except_trans(&mid, &old_self, e.id);
        }
        let ghost w_end = *self;
        self.stamp_archetype(a);
        proof {
            assert forall|x: Entity| x.id != e.id implies #[trigger] self.same_entity(&w_end, x) by {
                assert(self.same_entity(&w_end, x));
            }
            self.lemma_same_except_trans(&w_end, &old_self, e.id);
            assert forall|b: int|
                0 <= b < old_self.n_archetypes() && b != a implies #[trigger] self.archetypes@[b] == old_self.archetypes@[b] by {
                assert(self.archetypes@[b] == w_end.archetypes@[b]);
            }
        }
    }

    /// The entities of archetypes `0..k`, archetype by archetype, row by row.
    pub open spec fn rows_before(&self, k: int) -> Seq<Entity>
        decreases k,
    {
        if k <= 0 {
            Seq::empty()
        } else {
            self.rows_before(k - 1) + self.archetypes@[k - 1].entities@
        }
    }

    /// The live entities, archetype by archetype, row by row.
    pub open spec fn all_rows(&self) -> Seq<Entity> {
        self.rows_before(self.n_archetypes() as int)
    }

    /// Every row of archetypes `0..k` is among `rows_before(k)`.
    proof fn lemma_rows_before_has(&self, k: int, a: int, r: int)
        requires
            0 <= a < k,
            0 <= r < self.archetypes@[a].entities@.len(),
        ensures
            self.rows_before(k).contains(self.archetypes@[a].entities@[r]),
        decreases k,
    {
        let x = self.archetypes@[a].entities@[r];
        let s0 = self.rows_before(k - 1);
        let es = self.archetypes@[k - 1].entities@;
        assert(self.rows_before(k) == s0 + es);
        if a == k - 1 {
            assert((s0 + es)[s0.len() + r] == x);
        } else {
            self.lemma_rows_before_has(k - 1, a, r);
            let i = s0.index_of(x);
            assert((s0 + es)[i] == x);
        }
    }

    /// The rows of all archetypes are as many as the live slots.
    pub proof fn lemma_all_rows_live(&self)
        requires
            self.wf(),
        ensures
            self.all_rows().len() == self.live_count(),
    {
        let n = self.n_archetypes() as int;
        self.lemma_rows_before(n);
        let rows = self.all_rows();
        let ids = rows.map_values(|e: Entity| e.id as int);
        assert(ids.no_duplicates()) by {
            assert forall|i: int, j: int| 0 <= i < ids.len() && 0 <= j < ids.len() && i != j implies ids[i] != ids[j] by {
                if i < j {
                    assert(rows[i].id != rows[j].id);
                } else {
                    assert(rows[j].id != rows[i].id);
                }
            }
        }
        ids.unique_seq_to_set();
        assert(ids.to_set() =~= live_ids(self.records@)) by {
            assert forall|k: int| ids.to_set().contains(k) implies live_ids(self.records@).contains(k) by {
                let i = ids.index_of(k);
                assert(ids[i] == k);
                let e = rows[i];
                assert(self.alive(e));
            }
            assert forall|k: int| live_ids(self.records@).contains(k) implies ids.to_set().contains(k) by {
                let rec = self.records@[k];
                assert(rec.archetype_id < self.n_archetypes());
                let e = self.archetypes@[rec.archetype_id as int].entities@[rec.row as int];
                assert(e.id == k);
                self.lemma_rows_before_has(n, rec.archetype_id as int, rec.row as int);
                let i = rows.index_of(e);
                assert(ids[i] == k);
            }
        }
        lemma_live_ids_len(self.records@);
    }

    /// The rows of archetypes `0..k` hold distinct slots, each recorded in
    /// one of those archetypes.
    pub proof fn lemma_rows_before(&self, k: int)
        requires
            self.wf(),
            0 <= k <= self.n_archetypes(),
        ensures
            ids_distinct(self.rows_before(k)),
            forall|i: int|
                0 <= i < self.rows_before(k).len() ==> {
                    let e = #[trigger] self.rows_before(k)[i];
                    &&& e.id < self.records@.len()
                    &&& self.records@[e.id as int].archetype_id < k
                    &&& self.alive(e)
                },
        decreases k,
    {
        if k > 0 {
            self.lemma_rows_before(k - 1);
            let s0 = self.rows_before(k - 1);
            let es = self.archetypes@[k - 1].entities@;
            let s = self.rows_before(k);
            assert(s == s0 + es);
            assert forall|i: int| 0 <= i < s.len() implies {
                let e = #[trigger] s[i];
                &&& e.id < self.records@.len()
                &&& self.records@[e.id as int].archetype_id < k
                &&& self.alive(e)
            } by {
                if i < s0.len() {
                    assert(s[i] == s0[i]);
                } else {
                    assert(s[i] == es[i - s0.len()]);
                    assert(self.archetypes@[k - 1].entities@[i - s0.len()] == s[i]);
                }
            }
            assert forall|i: int, j: int| 0 <= i < j < s.len() implies s[i].id != s[j].id by {
                if j >= s0.len() {
                    assert(s[j] == es[j - s0.len()]);
                    assert(self.archetypes@[k - 1].entities@[j - s0.len()] == s[j]);
                    if i >= s0.len() {
                        assert(s[i] == es[i - s0.len()]);
                        assert(self.archetypes@[k - 1].entities@[i - s0.len()] == s[i]);
                    } else {
                        assert(s[i] == s0[i]);
                    }
                } else {
                    assert(s[i] == s0[i]);
                    assert(s[j] == s0[j]);
                }
            }
        }
    }

    /// The number of live entities, summed over the archetypes.
    pub fn entity_count(&self) -> (n: usize)
        requires
            self.wf(),
        ensures
            n == self.all_rows().len(),
            n == self.live_count(),
    {
        let mut total: usize = 0;
        let mut a: usize = 0;
        let na = self.archetypes.len();
        while a < na
            invariant
                self.wf(),
                na == self.n_archetypes(),
                0 <= a <= na,
                total == self.rows_before(a as int).len(),
            decreases na - a,
        {
            let _records_len = self.records.len();
            proof {
                self.lemma_rows_before(a + 1);
                crate::world::lemma_ids_bound(self.rows_before(a + 1), self.records@.len());
                assert(self.rows_before(a + 1) == self.rows_before(a as int) + self.archetypes@[a as int].entities@);
                assert(self.rows_before(a + 1).len() <= self.records@.len());
                assert(self.records@.len() <= usize::MAX);
            }
            total = total + self.archetypes[a].entities.len();
            a = a + 1;
        }
        proof {
            self.lemma_all_rows_live();
        }
        total
    }
}

} // verus!
