use vstd::prelude::*;

use crate::archetype::{row_cells, swap_removed, NO_COLUMN};
use crate::entity::{Entity, EntityRecord, NO_ARCHETYPE};
use crate::archetype::ItemLayout;
use crate::keyed::{lemma_search_lookup, search_key};
use crate::world::{has_id, World};

verus! {

impl World {
    /// A live entity's slot is below `next_entity_id` and in neither the
    /// free list nor the spawn queue.
    pub proof fn lemma_alive_slot(&self, e: Entity)
        requires
            self.wf(),
            self.alive(e),
        ensures
            e.id < self.next_entity_id,
            !has_id(self.free_entities@, e.id),
            !has_id(self.spawn_queue@, e.id),
    {
        if e.id >= self.next_entity_id {
            assert(self.records@[e.id as int] == crate::entity::EntityRecord::dead_spec());
        }
        if has_id(self.free_entities@, e.id) {
            let k = choose|k: int| 0 <= k < self.free_entities@.len() && (#[trigger] self.free_entities@[k]).id == e.id;
            assert(self.slot_free_for(self.free_entities@[k]));
        }
        if has_id(self.spawn_queue@, e.id) {
            let k = choose|k: int| 0 <= k < self.spawn_queue@.len() && (#[trigger] self.spawn_queue@[k]).id == e.id;
            assert(self.slot_free_for(self.spawn_queue@[k]));
        }
    }

    /// The bytes of a component of a live entity are one item of that
    /// component's layout.
    pub proof fn lemma_cell_size(&self, e: Entity, d: usize)
        requires
            self.wf(),
            self.has(e, d),
        ensures
            self.cell(e, d).0.len() == self.component_layouts@[d as int].size,
            (d as int) < self.n_components(),
    {
        let a = self.record(e.id).archetype_id as int;
        let arch = self.archetypes@[a];
        assert(arch.wf(a, self.component_layouts@));
        let k = arch.signature@.index_of(d);
        assert(arch.signature@[k] == d);
        let i = arch.col_of(d);
        assert(i == k);
        assert(arch.columns@[i].wf());
        assert(self.archetypes@[a].entities@[self.record(e.id).row as int].id == e.id);
        arch.columns@[i].data.lemma_wf();
    }

    /// Gives live `entity` component `comp_id` with `value`: overwritten in
    /// place (a change) when present, otherwise by moving the entity to the
    /// last row of the archetype with that component more (an addition and a
    /// change), the last row of its former archetype taking its place. The
    /// archetypes touched and the column written are stamped at the current
    /// tick.
    #[verifier::rlimit(60)]
    pub fn add_component_raw(&mut self, entity: Entity, comp_id: usize, value: &[u8])
        requires
            old(self).wf(),
            old(self).alive(entity),
            comp_id < old(self).n_components(),
            value@.len() == old(self).component_layouts@[comp_id as int].size,
            old(self).n_archetypes() + 1 < u32::MAX,
        ensures
            final(self).wf(),
            final(self).alive(entity),
            forall|d: usize| #[trigger] final(self).has(entity, d) <==> (old(self).has(entity, d) || d == comp_id),
            final(self).cell(entity, comp_id) == (
                value@,
                if old(self).has(entity, comp_id) {
                    old(self).cell(entity, comp_id).1
                } else {
                    old(self).current_tick
                },
                old(self).current_tick,
            ),
            forall|d: usize|
                d != comp_id && old(self).has(entity, d) ==> #[trigger] final(self).cell(entity, d) == old(
                    self,
                ).cell(entity, d),
            final(self).same_except(old(self), entity.id),
            final(self).component_ids == old(self).component_ids,
            final(self).component_layouts == old(self).component_layouts,
            final(self).current_tick == old(self).current_tick,
            final(self).free_entities == old(self).free_entities,
            final(self).spawn_queue == old(self).spawn_queue,
            final(self).despawn_queue == old(self).despawn_queue,
            final(self).typed_queues == old(self).typed_queues,
            final(self).next_entity_id == old(self).next_entity_id,
            final(self).records@.len() == old(self).records@.len(),
            final(self).n_archetypes() <= old(self).n_archetypes() + 1,
            final(self).links == old(self).links,
            old(self).has(entity, comp_id) ==> {
                &&& final(self).records@ == old(self).records@
                &&& final(self).structural_gen == old(self).structural_gen
                &&& final(self).n_archetypes() == old(self).n_archetypes()
            },
            !old(self).has(entity, comp_id) ==> final(self).structural_gen == vstd::wrapping::u64_specs::wrapping_add(
                old(self).structural_gen,
                1,
            ),
            final(self).archetype_of(entity).last_modified_tick == old(self).current_tick,
            final(self).archetype_of(entity).columns@[final(self).archetype_of(entity).col_of(comp_id)].last_changed_tick
                == old(self).current_tick,
            !old(self).has(entity, comp_id) ==> {
                &&& final(self).archetype_of(entity).columns@[final(self).archetype_of(entity).col_of(comp_id)].last_added_tick
                    == old(self).current_tick
                &&& final(self).archetypes@[old(self).record(entity.id).archetype_id as int].last_modified_tick
                    == old(self).current_tick
            },
            !old(self).has(entity, comp_id) ==> {
                &&& final(self).record(entity.id).row == final(self).archetype_of(entity).entities@.len() - 1
                &&& final(self).archetypes@[old(self).record(entity.id).archetype_id as int].entities@ == swap_removed(
                    old(self).archetype_of(entity).entities@,
                    old(self).record(entity.id).row as int,
                )
            },
    {
        let ghost old_self = *self;
        let rec = self.records[entity.id as usize];
        let a = rec.archetype_id as usize;
        proof {
            assert(self.archetypes@[a as int].wf(a as int, self.component_layouts@));
        }
        let col_idx = self.archetypes[a].component_to_column[comp_id];
        if col_idx != NO_COLUMN {
            proof {
                assert(self.archetypes@[a as int].signature@[col_idx as int] == comp_id);
                assert(self.has(entity, comp_id));
            }
            self.write_cell(entity, comp_id, value);
            return;
        }
        proof {
            if self.archetypes@[a as int].has_component(comp_id) {
                let k = self.archetypes@[a as int].signature@.index_of(comp_id);
                assert(self.archetypes@[a as int].signature@[k] == comp_id);
                crate::world::lemma_sorted_len(self.archetypes@[a as int].signature@, self.n_components());
            }
        }
        let t = self.add_target(a, comp_id);
        let ghost w1 = *self;
        proof {
            assert(w1.same_entity(&old_self, entity));
            assert(self.records@ == old_self.records@);
            assert(self.archetype_of(entity) == self.archetypes@[a as int]);
            assert(self.archetypes@[t as int].wf(t as int, self.component_layouts@));
            let st = self.archetypes@[t as int].signature@;
            let k = st.index_of(comp_id);
            assert(st[k] == comp_id);
        }
        let p = self.archetypes[t].component_to_column[comp_id] as usize;
        self.move_adding(entity, t, p, comp_id, value);
        let ghost w3 = *self;
        proof {
            assert(self.archetypes@[t as int].wf(t as int, self.component_layouts@));
        }
        self.stamp_column(t, p, true);
        self.stamp_archetype(a);
        let ghost w4 = *self;
        self.structural_gen = self.structural_gen.wrapping_add(1);
        proof {
            self.lemma_archetypes_wf_transfer(&w4);
            assert(self.same_entities(&w3)) by {
                assert forall|x: Entity| #[trigger] self.same_entity(&w3, x) by {
                    assert(w4.same_entity(&w3, x));
                    assert(self.same_entity(&w4, x));
                    assert forall|c: usize| #[trigger] self.has(x, c) implies self.cell(x, c) == w3.cell(x, c) by {
                        assert(w4.has(x, c));
                    }
                    assert forall|c: usize| #[trigger] self.has(x, c) == w3.has(x, c) by {
                        assert(w4.has(x, c) == w3.has(x, c));
                    }
                }
            }
            assert(self.same_entity(&w3, entity));
            assert forall|x: Entity| x.id != entity.id implies #[trigger] self.same_entity(&old_self, x) by {
                assert(self.same_entity(&w3, x));
                assert(w3.same_entity(&w1, x));
                assert(w1.same_entity(&old_self, x));
                assert forall|c: usize| #[trigger] self.has(x, c) implies self.cell(x, c) == old_self.cell(x, c) by {
                    assert(w3.has(x, c));
                    assert(w1.has(x, c));
                }
                assert forall|c: usize| #[trigger] self.has(x, c) == old_self.has(x, c) by {
                    assert(w3.has(x, c) == w1.has(x, c));
                    assert(w1.has(x, c) == old_self.has(x, c));
                }
            }
            assert forall|d: usize| #[trigger] self.has(entity, d) <==> (old_self.has(entity, d) || d == comp_id) by {
                assert(self.has(entity, d) == w3.has(entity, d));
                assert(w1.has(entity, d) == old_self.has(entity, d));
            }
            assert(self.has(entity, comp_id) == w3.has(entity, comp_id));
            assert forall|d: usize|
                d != comp_id && old_self.has(entity, d) implies #[trigger] self.cell(entity, d) == old_self.cell(entity, d) by {
                assert(w1.has(entity, d));
                assert(w1.cell(entity, d) == old_self.cell(entity, d));
                assert(w3.has(entity, d));
                assert(w3.cell(entity, d) == w1.cell(entity, d));
                assert(self.has(entity, d));
                assert(self.cell(entity, d) == w3.cell(entity, d));
            }
        }
    }

    /// Moves live `e` into archetype `t`, whose signature is that of `e`'s
    /// archetype with component `c` inserted at position `p`, giving it `c`
    /// with `value` added and changed at the current tick.
    #[verifier::rlimit(40)]
    pub(crate) fn move_adding(&mut self, e: Entity, t: usize, p: usize, c: usize, value: &[u8])
        requires
            old(self).wf(),
            old(self).alive(e),
            t < old(self).n_archetypes(),
            p <= old(self).archetype_of(e).signature@.len(),
            old(self).archetypes@[t as int].signature@ == old(self).archetype_of(e).signature@.insert(p as int, c),
            value@.len() == old(self).component_layouts@[c as int].size,
        ensures
            final(self).wf(),
            final(self).alive(e),
            forall|d: usize| #[trigger] final(self).has(e, d) <==> (old(self).has(e, d) || d == c),
            final(self).cell(e, c) == (value@, old(self).current_tick, old(self).current_tick),
            forall|d: usize|
                d != c && old(self).has(e, d) ==> #[trigger] final(self).cell(e, d) == old(self).cell(e, d),
            final(self).same_except(old(self), e.id),
            final(self).n_archetypes() == old(self).n_archetypes(),
            final(self).records@.len() == old(self).records@.len(),
            forall|b: int|
                0 <= b < old(self).n_archetypes() ==> {
                    &&& (#[trigger] final(self).archetypes@[b]).signature
                        == old(self).archetypes@[b].signature
                    &&& final(self).archetypes@[b].component_to_column
                        == old(self).archetypes@[b].component_to_column
                },
            *final(self) == (World {
                records: final(self).records,
                archetypes: final(self).archetypes,
                active_archetypes: final(self).active_archetypes,
                ..*old(self)
            }),
            final(self).record(e.id) == (EntityRecord {
                generation: e.generation,
                archetype_id: t as u32,
                row: old(self).archetypes@[t as int].entities@.len() as u32,
            }),
            final(self).archetypes@[t as int].entities@ == old(self).archetypes@[t as int].entities@.push(e),
            final(self).archetypes@[old(self).record(e.id).archetype_id as int].entities@ == swap_removed(
                old(self).archetype_of(e).entities@,
                old(self).record(e.id).row as int,
            ),
    {
        let ghost w1 = *self;
        let a = self.records[e.id as usize].archetype_id as usize;
        proof {
            self.lemma_alive_slot(e);
            assert(self.archetypes@[a as int].wf(a as int, self.component_layouts@));
            assert(self.archetypes@[t as int].wf(t as int, self.component_layouts@));
        }
        let mut cells = self.detach_row(e);
        let ghost w2 = *self;
        let ghost cells0 = cells@;
        let cur = self.current_tick;
        let v = vstd::slice::slice_to_vec(value);
        cells.insert(p, (v, cur, cur));
        let ghost sa = w1.archetypes@[a as int].signature@;
        let ghost st = w1.archetypes@[t as int].signature@;
        proof {
            assert(w2.archetypes@[t as int].signature@ == st);
            assert forall|i: int| 0 <= i < cells@.len() implies (#[trigger] cells@[i]).0@.len()
                == w2.component_layouts@[st[i] as int].size by {
                if i < p {
                    assert(cells@[i] == cells0[i]);
                    assert(row_cells(cells0)[i] == w1.cell(e, sa[i]));
                    assert(st[i] == sa[i]);
                    assert(w1.has(e, sa[i]));
                    w1.lemma_cell_size(e, sa[i]);
                } else if i > p {
                    assert(cells@[i] == cells0[i - 1]);
                    assert(row_cells(cells0)[i - 1] == w1.cell(e, sa[i - 1]));
                    assert(st[i] == sa[i - 1]);
                    assert(w1.has(e, sa[i - 1]));
                    w1.lemma_cell_size(e, sa[i - 1]);
                }
            }
        }
        let ghost cells1 = cells@;
        self.attach_row(e, t, cells);
        proof {
            self.lemma_same_except_trans(&w2, &w1, e.id);
            assert forall|d: usize| #[trigger] self.has(e, d) <==> (w1.has(e, d) || d == c) by {
                assert(self.has(e, d) <==> st.contains(d));
                if sa.contains(d) {
                    let k = sa.index_of(d);
                    if k < p {
                        assert(st[k] == d);
                    } else {
                        assert(st[k + 1] == d);
                    }
                }
                if st.contains(d) && d != c {
                    let k = st.index_of(d);
                    if k < p {
                        assert(sa[k] == d);
                    } else {
                        assert(k != p);
                        assert(sa[k - 1] == d);
                    }
                }
                assert(st[p as int] == c);
            }
            assert(self.cell(e, st[p as int]) == row_cells(cells1)[p as int]);
            assert forall|d: usize|
                d != c && w1.has(e, d) implies #[trigger] self.cell(e, d) == w1.cell(e, d) by {
                let k = sa.index_of(d);
                assert(sa[k] == d);
                if k < p {
                    assert(st[k] == d);
                    assert(cells1[k] == cells0[k]);
                    assert(self.cell(e, st[k]) == row_cells(cells1)[k]);
                    assert(row_cells(cells0)[k] == w1.cell(e, sa[k]));
                } else {
                    assert(st[k + 1] == d);
                    assert(cells1[k + 1] == cells0[k]);
                    assert(self.cell(e, st[k + 1]) == row_cells(cells1)[k + 1]);
                    assert(row_cells(cells0)[k] == w1.cell(e, sa[k]));
                }
            }
        }
    }

    /// Moves live `e` into archetype `t`, whose signature is that of `e`'s
    /// archetype without its element at position `p`, dropping that
    /// component.
    #[verifier::rlimit(40)]
    pub(crate) fn move_removing(&mut self, e: Entity, t: usize, p: usize)
        requires
            old(self).wf(),
            old(self).alive(e),
            t < old(self).n_archetypes(),
            p < old(self).archetype_of(e).signature@.len(),
            old(self).archetypes@[t as int].signature@ == old(self).archetype_of(e).signature@.remove(p as int),
        ensures
            final(self).wf(),
            final(self).alive(e),
            forall|d: usize| #[trigger] final(self).has(e, d) <==> (old(self).has(e, d) && d != old(self).archetype_of(e).signature@[p as int]),
            forall|d: usize|
                #[trigger] final(self).has(e, d) ==> final(self).cell(e, d) == old(self).cell(e, d),
            final(self).same_except(old(self), e.id),
            final(self).n_archetypes() == old(self).n_archetypes(),
            final(self).records@.len() == old(self).records@.len(),
            forall|b: int|
                0 <= b < old(self).n_archetypes() ==> {
                    &&& (#[trigger] final(self).archetypes@[b]).signature
                        == old(self).archetypes@[b].signature
                    &&& final(self).archetypes@[b].component_to_column
                        == old(self).archetypes@[b].component_to_column
                },
            *final(self) == (World {
                records: final(self).records,
                archetypes: final(self).archetypes,
                active_archetypes: final(self).active_archetypes,
                ..*old(self)
            }),
            final(self).record(e.id) == (EntityRecord {
                generation: e.generation,
                archetype_id: t as u32,
                row: old(self).archetypes@[t as int].entities@.len() as u32,
            }),
            final(self).archetypes@[t as int].entities@ == old(self).archetypes@[t as int].entities@.push(e),
            final(self).archetypes@[old(self).record(e.id).archetype_id as int].entities@ == swap_removed(
                old(self).archetype_of(e).entities@,
                old(self).record(e.id).row as int,
            ),
    {
        let ghost w1 = *self;
        let a = self.records[e.id as usize].archetype_id as usize;
        proof {
            self.lemma_alive_slot(e);
            assert(self.archetypes@[a as int].wf(a as int, self.component_layouts@));
            assert(self.archetypes@[t as int].wf(t as int, self.component_layouts@));
        }
        let mut cells = self.detach_row(e);
        let ghost w2 = *self;
        let ghost cells0 = cells@;
        cells.remove(p);
        let ghost sa = w1.archetypes@[a as int].signature@;
        let ghost st = w1.archetypes@[t as int].signature@;
        proof {
            assert(w2.archetypes@[t as int].signature@ == st);
            assert forall|i: int| 0 <= i < cells@.len() implies (#[trigger] cells@[i]).0@.len()
                == w2.component_layouts@[st[i] as int].size by {
                let j = if i < p { i } else { i + 1 };
                assert(cells@[i] == cells0[j]);
                assert(row_cells(cells0)[j] == w1.cell(e, sa[j]));
                assert(st[i] == sa[j]);
                assert(w1.has(e, sa[j]));
                w1.lemma_cell_size(e, sa[j]);
            }
        }
        let ghost cells1 = cells@;
        self.attach_row(e, t, cells);
        proof {
            self.lemma_same_except_trans(&w2, &w1, e.id);
            let c = sa[p as int];
            assert forall|d: usize| #[trigger] self.has(e, d) <==> (w1.has(e, d) && d != c) by {
                assert(self.has(e, d) <==> st.contains(d));
                if st.contains(d) {
                    let k = st.index_of(d);
                    let j = if k < p { k } else { k + 1 };
                    assert(st[k] == sa[j]);
                    assert(sa[j] != sa[p as int] || j == p);
                }
                if sa.contains(d) && d != c {
                    let k = sa.index_of(d);
                    assert(k != p);
                    if k < p {
                        assert(st[k] == d);
                    } else {
                        assert(st[k - 1] == d);
                    }
                }
            }
            assert forall|d: usize| #[trigger] self.has(e, d) implies self.cell(e, d) == w1.cell(e, d) by {
                let k = st.index_of(d);
                assert(st[k] == d);
                let j = if k < p { k } else { k + 1 };
                assert(cells1[k] == cells0[j]);
                assert(self.cell(e, st[k]) == row_cells(cells1)[k]);
                assert(row_cells(cells0)[j] == w1.cell(e, sa[j]));
                assert(sa[j] == d);
            }
        }
    }

    /// Takes component `comp_id` from live `entity` by moving it to the last
    /// row of the archetype with that component less, the last row of its
    /// former archetype taking its place, both archetypes stamped at the
    /// current tick; nothing happens when it lacks the component.
    #[verifier::rlimit(40)]
    pub fn remove_component_raw(&mut self, entity: Entity, comp_id: usize)
        requires
            old(self).wf(),
            old(self).alive(entity),
            old(self).n_archetypes() + 1 < u32::MAX,
        ensures
            final(self).wf(),
            final(self).alive(entity),
            !old(self).has(entity, comp_id) ==> *final(self) == *old(self),
            forall|d: usize| #[trigger] final(self).has(entity, d) <==> (old(self).has(entity, d) && d != comp_id),
            forall|d: usize| #[trigger] final(self).has(entity, d) ==> final(self).cell(entity, d) == old(self).cell(entity, d),
            final(self).same_except(old(self), entity.id),
            final(self).component_ids == old(self).component_ids,
            final(self).component_layouts == old(self).component_layouts,
            final(self).current_tick == old(self).current_tick,
            final(self).free_entities == old(self).free_entities,
            final(self).spawn_queue == old(self).spawn_queue,
            final(self).despawn_queue == old(self).despawn_queue,
            final(self).typed_queues == old(self).typed_queues,
            final(self).next_entity_id == old(self).next_entity_id,
            final(self).records@.len() == old(self).records@.len(),
            final(self).n_archetypes() <= old(self).n_archetypes() + 1,
            final(self).links == old(self).links,
            old(self).has(entity, comp_id) ==> final(self).structural_gen == vstd::wrapping::u64_specs::wrapping_add(
                old(self).structural_gen,
                1,
            ),
            old(self).has(entity, comp_id) ==> {
                &&& final(self).archetype_of(entity).last_modified_tick == old(self).current_tick
                &&& final(self).archetypes@[old(self).record(entity.id).archetype_id as int].last_modified_tick
                    == old(self).current_tick
                &&& final(self).record(entity.id).row == final(self).archetype_of(entity).entities@.len() - 1
                &&& final(self).archetypes@[old(self).record(entity.id).archetype_id as int].entities@ == swap_removed(
                    old(self).archetype_of(entity).entities@,
                    old(self).record(entity.id).row as int,
                )
            },
    {
        let ghost old_self = *self;
        let rec = self.records[entity.id as usize];
        let a = rec.archetype_id as usize;
        proof {
            assert(self.archetypes@[a as int].wf(a as int, self.component_layouts@));
            assert(self.archetype_of(entity) == self.archetypes@[a as int]);
        }
        let old_col_idx = if comp_id < self.archetypes[a].component_to_column.len() {
            self.archetypes[a].component_to_column[comp_id]
        } else {
            NO_COLUMN
        };
        if old_col_idx == NO_COLUMN {
            proof {
                if self.has(entity, comp_id) {
                    let k = self.archetypes@[a as int].signature@.index_of(comp_id);
                    assert(self.archetypes@[a as int].signature@[k] == comp_id);
                    crate::world::lemma_sorted_len(self.archetypes@[a as int].signature@, self.n_components());
                }
                assert forall|x: Entity| #[trigger] self.same_entity(&old_self, x) by {}
            }
            return;
        }
        proof {
            assert(self.archetypes@[a as int].signature@[old_col_idx as int] == comp_id);
        }
        let t = self.remove_target(a, comp_id);
        let ghost w1 = *self;
        proof {
            assert(w1.same_entity(&old_self, entity));
            assert(self.archetype_of(entity) == self.archetypes@[a as int]);
        }
        let p = old_col_idx as usize;
        self.move_removing(entity, t, p);
        let ghost w3 = *self;
        self.stamp_archetype(t);
        self.stamp_archetype(a);
        let ghost w4 = *self;
        self.structural_gen = self.structural_gen.wrapping_add(1);
        proof {
            self.lemma_archetypes_wf_transfer(&w4);
            assert(self.same_entities(&w3)) by {
                assert forall|x: Entity| #[trigger] self.same_entity(&w3, x) by {
                    assert(w4.same_entity(&w3, x));
                    assert(self.same_entity(&w4, x));
                    assert forall|c: usize| #[trigger] self.has(x, c) implies self.cell(x, c) == w3.cell(x, c) by {
                        assert(w4.has(x, c));
                    }
                    assert forall|c: usize| #[trigger] self.has(x, c) == w3.has(x, c) by {
                        assert(w4.has(x, c) == w3.has(x, c));
                    }
                }
            }
            assert(self.same_entity(&w3, entity));
            assert forall|x: Entity| x.id != entity.id implies #[trigger] self.same_entity(&old_self, x) by {
                assert(self.same_entity(&w3, x));
                assert(w3.same_entity(&w1, x));
                assert(w1.same_entity(&old_self, x));
                assert forall|c: usize| #[trigger] self.has(x, c) implies self.cell(x, c) == old_self.cell(x, c) by {
                    assert(w3.has(x, c));
                    assert(w1.has(x, c));
                }
                assert forall|c: usize| #[trigger] self.has(x, c) == old_self.has(x, c) by {
                    assert(w3.has(x, c) == w1.has(x, c));
                    assert(w1.has(x, c) == old_self.has(x, c));
                }
            }
            assert forall|d: usize| #[trigger] self.has(entity, d) <==> (old_self.has(entity, d) && d != comp_id) by {
                assert(self.has(entity, d) == w3.has(entity, d));
                assert(w1.has(entity, d) == old_self.has(entity, d));
            }
            assert forall|d: usize| #[trigger] self.has(entity, d) implies self.cell(entity, d) == old_self.cell(entity, d) by {
                assert(w3.has(entity, d));
                assert(self.cell(entity, d) == w3.cell(entity, d));
                assert(w3.cell(entity, d) == w1.cell(entity, d));
                assert(w1.has(entity, d));
                assert(w1.cell(entity, d) == old_self.cell(entity, d));
            }
        }
    }

    /// Room for one more component type and one more archetype.
    pub open spec fn has_room(&self) -> bool {
        &&& self.n_components() + 1 < u32::MAX
        &&& self.n_archetypes() + 1 < u32::MAX
    }

    /// Component type `key` may be registered with `layout`: it is new, or
    /// already has that layout.
    pub open spec fn layout_fits(&self, key: u64, layout: ItemLayout) -> bool {
        self.component_id(key) matches Some(c) ==> self.component_layouts@[c as int] == layout
    }

    /// The id of component type `key`, if registered.
    pub fn get_component_id(&self, key: u64) -> (r: Option<usize>)
        requires
            self.wf(),
        ensures
            r == self.component_id(key),
    {
        let s = search_key(&self.component_ids, key);
        proof {
            lemma_search_lookup(self.component_ids@, key, s);
        }
        match s {
            Ok(i) => Some(self.component_ids[i].1),
            Err(_) => None,
        }
    }

    /// The id of component type `key`, if registered (the lookup by type
    /// identity).
    pub fn get_component_id_by_type_id(&self, key: u64) -> (r: Option<usize>)
        requires
            self.wf(),
        ensures
            r == self.component_id(key),
    {
        self.get_component_id(key)
    }

    /// The bytes of component type `key` of `entity`, if it is live and has
    /// that component.
    pub fn get_component(&self, entity: Entity, key: u64) -> (r: Option<&Vec<u8>>)
        requires
            self.wf(),
        ensures
            match self.component_id(key) {
                None => r is None,
                Some(c) => {
                    &&& r is Some <==> self.has(entity, c)
                    &&& r matches Some(v) ==> v@ == self.value(entity, c)
                },
            },
    {
        let id = entity.id as usize;
        if id >= self.records.len() {
            return None;
        }
        let rec = self.records[id];
        if rec.generation != entity.generation || rec.archetype_id == NO_ARCHETYPE {
            return None;
        }
        match self.get_component_id(key) {
            None => None,
            Some(c) => self.get_component_by_id(entity, c),
        }
    }

    /// Gives live `entity` component type `key` (registered with `layout`
    /// when new) with `value`; nothing happens to a dead handle.
    pub fn add_component(&mut self, entity: Entity, key: u64, layout: ItemLayout, value: &[u8])
        requires
            old(self).wf(),
            old(self).has_room(),
            layout.valid(),
            value@.len() == layout.size,
            old(self).layout_fits(key, layout),
        ensures
            final(self).wf(),
            !old(self).alive(entity) ==> *final(self) == *old(self),
            old(self).alive(entity) ==> {
                let c = final(self).component_id(key)->Some_0;
                &&& final(self).component_id(key) is Some
                &&& final(self).alive(entity)
                &&& forall|d: usize| #[trigger] final(self).has(entity, d) <==> (old(self).has(entity, d) || d == c)
                &&& final(self).value(entity, c) == value@
                &&& final(self).cell(entity, c).2 == old(self).current_tick
                &&& forall|d: usize|
                    d != c && old(self).has(entity, d) ==> #[trigger] final(self).cell(entity, d) == old(
                        self,
                    ).cell(entity, d)
                &&& final(self).same_except(old(self), entity.id)
                &&& forall|k: u64| k != key ==> #[trigger] final(self).component_id(k) == old(self).component_id(k)
                &&& final(self).cell(entity, c).1 == if old(self).has(entity, c) {
                    old(self).cell(entity, c).1
                } else {
                    old(self).current_tick
                }
                &&& old(self).has(entity, c) ==> {
                    &&& final(self).structural_gen == old(self).structural_gen
                    &&& final(self).records@ == old(self).records@
                }
                &&& !old(self).has(entity, c) ==> final(self).structural_gen
                    == vstd::wrapping::u64_specs::wrapping_add(old(self).structural_gen, 1)
                &&& final(self).archetype_of(entity).last_modified_tick == old(self).current_tick
                &&& final(self).archetype_of(entity).columns@[final(self).archetype_of(entity).col_of(c)].last_changed_tick
                    == old(self).current_tick
                &&& !old(self).has(entity, c) ==> {
                    &&& final(self).archetype_of(entity).columns@[final(self).archetype_of(entity).col_of(c)].last_added_tick
                        == old(self).current_tick
                    &&& final(self).archetypes@[old(self).record(entity.id).archetype_id as int].last_modified_tick
                        == old(self).current_tick
                }
                &&& !old(self).has(entity, c) ==> {
                    &&& final(self).record(entity.id).row == final(self).archetype_of(entity).entities@.len() - 1
                    &&& final(self).archetypes@[old(self).record(entity.id).archetype_id as int].entities@
                        == swap_removed(old(self).archetype_of(entity).entities@, old(self).record(entity.id).row as int)
                }
                &&& old(self).component_id(key) is None ==> {
                    &&& c == old(self).n_components()
                    &&& final(self).component_layouts@ == old(self).component_layouts@.push(layout)
                }
            },
            final(self).n_components() <= old(self).n_components() + 1,
            final(self).n_archetypes() <= old(self).n_archetypes() + 1,
            final(self).links == old(self).links,
            final(self).current_tick == old(self).current_tick,
            forall|c: int| 0 <= c < old(self).n_components() ==> #[trigger] final(self).component_layouts@[c] == old(self).component_layouts@[c],
            old(self).component_id(key) is Some ==> final(self).component_id(key) == old(self).component_id(key),
            final(self).layout_fits(key, layout),
            final(self).added_from(old(self), entity, key, value@),
            forall|k: u64| k != key ==> #[trigger] final(self).component_id(k) == old(self).component_id(k),
            final(self).spawn_queue == old(self).spawn_queue,
            final(self).despawn_queue == old(self).despawn_queue,
            final(self).typed_queues == old(self).typed_queues,
            final(self).free_entities == old(self).free_entities,
            final(self).next_entity_id == old(self).next_entity_id,
            final(self).records@.len() == old(self).records@.len(),
    {
        if !self.is_alive(entity) {
            return;
        }
        let ghost old_self = *self;
        let comp_id = self.register(key, layout);
        let ghost w1 = *self;
        proof {
            assert(w1.same_entity(&old_self, entity));
        }
        self.add_component_raw(entity, comp_id, value);
        proof {
            assert forall|x: Entity| x.id != entity.id implies #[trigger] self.same_entity(&old_self, x) by {
                assert(self.same_entity(&w1, x));
                assert(w1.same_entity(&old_self, x));
                assert forall|c: usize| #[trigger] self.has(x, c) implies self.cell(x, c) == old_self.cell(x, c) by {
                    assert(w1.has(x, c));
                }
                assert forall|c: usize| #[trigger] self.has(x, c) == old_self.has(x, c) by {
                    assert(w1.has(x, c) == old_self.has(x, c));
                }
            }
            assert forall|d: usize| #[trigger] self.has(entity, d) <==> (old_self.has(entity, d) || d == comp_id) by {
                assert(w1.has(entity, d) == old_self.has(entity, d));
            }
            assert forall|d: usize|
                d != comp_id && old_self.has(entity, d) implies #[trigger] self.cell(entity, d) == old_self.cell(entity, d) by {
                assert(w1.has(entity, d));
            }
            assert(self.component_id(key) == Some(comp_id));
            assert(self.value(entity, comp_id) == value@);
            assert(old_self.has(entity, comp_id) == w1.has(entity, comp_id));
            let oa = old_self.record(entity.id).archetype_id as int;
            assert(w1.archetypes@[oa].entities == old_self.archetypes@[oa].entities);
            assert forall|k: u64| k != key implies #[trigger] self.component_id(k) == old_self.component_id(k) by {
                assert(self.component_id(k) == w1.component_id(k));
            }
        }
    }

    /// Takes component type `key` from live `entity`; nothing happens to a
    /// dead handle, an unregistered type or an entity without it.
    pub fn remove_component(&mut self, entity: Entity, key: u64)
        requires
            old(self).wf(),
            old(self).has_room(),
        ensures
            final(self).wf(),
            !old(self).alive(entity) ==> *final(self) == *old(self),
            old(self).component_id(key) is None ==> *final(self) == *old(self),
            old(self).alive(entity) ==> {
                &&& final(self).alive(entity)
                &&& forall|d: usize|
                    #[trigger] final(self).has(entity, d) <==> (old(self).has(entity, d) && Some(d)
                        != old(self).component_id(key))
                &&& forall|d: usize|
                    #[trigger] final(self).has(entity, d) ==> final(self).cell(entity, d) == old(self).cell(
                        entity,
                        d,
                    )
                &&& final(self).same_except(old(self), entity.id)
            },
            final(self).component_ids == old(self).component_ids,
            final(self).component_layouts == old(self).component_layouts,
            final(self).n_archetypes() <= old(self).n_archetypes() + 1,
            final(self).removed_from(old(self), entity, key),
            final(self).links == old(self).links,
            final(self).current_tick == old(self).current_tick,
            final(self).spawn_queue == old(self).spawn_queue,
            final(self).despawn_queue == old(self).despawn_queue,
            final(self).typed_queues == old(self).typed_queues,
            final(self).free_entities == old(self).free_entities,
            final(self).next_entity_id == old(self).next_entity_id,
            final(self).records@.len() == old(self).records@.len(),
            old(self).component_id(key) matches Some(c) && !old(self).has(entity, c) ==> *final(self) == *old(self),
            old(self).component_id(key) matches Some(c) && old(self).has(entity, c) ==> final(self).structural_gen
                == vstd::wrapping::u64_specs::wrapping_add(old(self).structural_gen, 1),
            old(self).component_id(key) matches Some(c) && old(self).has(entity, c) ==> {
                &&& final(self).archetype_of(entity).last_modified_tick == old(self).current_tick
                &&& final(self).archetypes@[old(self).record(entity.id).archetype_id as int].last_modified_tick
                    == old(self).current_tick
                &&& final(self).record(entity.id).row == final(self).archetype_of(entity).entities@.len() - 1
                &&& final(self).archetypes@[old(self).record(entity.id).archetype_id as int].entities@ == swap_removed(
                    old(self).archetype_of(entity).entities@,
                    old(self).record(entity.id).row as int,
                )
            },
    {
        if !self.is_alive(entity) {
            return;
        }
        let comp_id = match self.get_component_id_by_type_id(key) {
            Some(id) => id,
            None => {
                proof {
                    assert forall|x: Entity| #[trigger] self.same_entity(self, x) by {}
                }
                return;
            },
        };
        self.remove_component_raw(entity, comp_id);
    }
}

} // verus!
