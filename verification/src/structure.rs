use vstd::prelude::*;

use crate::archetype::{row_cells, swap_removed, Archetype, Column};
use crate::entity::{Entity, EntityRecord, NO_ARCHETYPE};
use crate::keyed::search_edge;
use crate::signature::{sig_with, sig_without};
use crate::world::{has_id, World};

verus! {

/// Removes `x` from `v`, whose elements are distinct, the last element
/// taking its place.
pub fn remove_value(v: &mut Vec<u32>, x: u32)
    requires
        forall|i: int, j: int| 0 <= i < j < old(v)@.len() ==> old(v)@[i] != old(v)@[j],
    ensures
        forall|i: int, j: int| 0 <= i < j < final(v)@.len() ==> final(v)@[i] != final(v)@[j],
        forall|y: u32| #[trigger] final(v)@.contains(y) <==> (old(v)@.contains(y) && y != x),
{
    let n = v.len();
    let mut i: usize = 0;
    while i < n
        invariant
            n == v@.len(),
            v@ == old(v)@,
            forall|a: int, b: int| 0 <= a < b < v@.len() ==> v@[a] != v@[b],
            0 <= i <= n,
            forall|j: int| 0 <= j < i ==> v@[j] != x,
        decreases n - i,
    {
        if v[i] == x {
            let ghost prev = v@;
            v.swap_remove(i);
            proof {
                assert forall|y: u32| #[trigger] v@.contains(y) <==> (prev.contains(y) && y != x) by {
                    if prev.contains(y) && y != x {
                        let k = prev.index_of(y);
                        if k == prev.len() - 1 {
                            assert(v@[i as int] == y);
                        } else {
                            assert(v@[k] == y);
                        }
                    }
                    if v@.contains(y) {
                        let k = v@.index_of(y);
                        if k == i {
                            assert(prev[prev.len() - 1] == y);
                        } else {
                            assert(prev[k] == y);
                        }
                    }
                }
                assert forall|a: int, b: int| 0 <= a < b < v@.len() implies v@[a] != v@[b] by {
                    if a == i {
                        assert(v@[a] == prev[prev.len() - 1]);
                        assert(v@[b] == prev[b]);
                    } else if b == i {
                        assert(v@[b] == prev[prev.len() - 1]);
                        assert(v@[a] == prev[a]);
                    } else {
                        assert(v@[a] == prev[a]);
                        assert(v@[b] == prev[b]);
                    }
                }
            }
            return;
        }
        i = i + 1;
    }
    proof {
        assert forall|y: u32| #[trigger] v@.contains(y) <==> (old(v)@.contains(y) && y != x) by {
            if v@.contains(y) {
                let k = v@.index_of(y);
                assert(v@[k] == y);
            }
        }
    }
}

impl World {
    /// Every slot except `id` is unchanged between `self` and `other`,
    /// given that this holds between `self` and `mid` and between `mid` and
    /// `other`.
    pub proof fn lemma_same_except_trans(&self, mid: &World, other: &World, id: u32)
        requires
            self.same_except(mid, id),
            mid.same_except(other, id),
        ensures
            self.same_except(other, id),
    {
        assert forall|x: Entity| x.id != id implies #[trigger] self.same_entity(other, x) by {
            assert(self.same_entity(mid, x));
            assert(mid.same_entity(other, x));
            assert forall|c: usize| #[trigger] self.has(x, c) implies self.cell(x, c) == other.cell(x, c) by {
                assert(mid.has(x, c));
            }
            assert forall|c: usize| #[trigger] self.has(x, c) == other.has(x, c) by {
                assert(mid.has(x, c) == other.has(x, c));
            }
        }
    }

    /// Takes live entity `e` out of its archetype: its row is swap-removed
    /// from the entity list and every column, the record of the entity that
    /// moves into the row is updated, and an archetype left empty leaves the
    /// active list. The record of `e` itself is left as it was, and the cells
    /// of `e` are handed back in column order.
    pub(crate) fn detach_row(&mut self, e: Entity) -> (cells: Vec<(Vec<u8>, u32, u32)>)
        requires
            old(self).wf(),
            old(self).alive(e),
        ensures
            final(self).wf_detached(e.id),
            final(self).same_except(old(self), e.id),
            final(self).records@[e.id as int] == old(self).records@[e.id as int],
            final(self).records@.len() == old(self).records@.len(),
            forall|k: int|
                0 <= k < old(self).records@.len() ==> {
                    &&& (#[trigger] final(self).records@[k]).archetype_id == old(self).records@[k].archetype_id
                    &&& final(self).records@[k].generation == old(self).records@[k].generation
                },
            final(self).n_archetypes() == old(self).n_archetypes(),
            cells@.len() == old(self).archetype_of(e).columns@.len(),
            forall|i: int|
                0 <= i < cells@.len() ==> #[trigger] row_cells(cells@)[i] == old(self).cell(
                    e,
                    old(self).archetype_of(e).signature@[i],
                ),
            forall|b: int|
                0 <= b < old(self).n_archetypes() ==> {
                    &&& (#[trigger] final(self).archetypes@[b]).signature
                        == old(self).archetypes@[b].signature
                    &&& final(self).archetypes@[b].component_to_column
                        == old(self).archetypes@[b].component_to_column
                    &&& final(self).archetypes@[b].add_edges == old(self).archetypes@[b].add_edges
                    &&& final(self).archetypes@[b].remove_edges
                        == old(self).archetypes@[b].remove_edges
                },
            forall|b: int|
                0 <= b < old(self).n_archetypes() && b != old(self).record(e.id).archetype_id
                    ==> #[trigger] final(self).archetypes@[b] == old(self).archetypes@[b],
            final(self).archetypes@[old(self).record(e.id).archetype_id as int].entities@
                == swap_removed(
                old(self).archetype_of(e).entities@,
                old(self).record(e.id).row as int,
            ),
            *final(self) == (World {
                records: final(self).records,
                archetypes: final(self).archetypes,
                active_archetypes: final(self).active_archetypes,
                ..*old(self)
            }),
    {
        let rec = self.records[e.id as usize];
        let a = rec.archetype_id as usize;
        let row = rec.row as usize;
        let ghost old_self = *self;
        let ghost old_arch = self.archetypes@[a as int];
        assert(old_arch.wf(a as int, self.component_layouts@));
        let cells = self.archetypes[a].take_row(row);
        let ghost mid = *self;
        if self.archetypes[a].entities.len() == 0 {
            remove_value(&mut self.active_archetypes, a as u32);
        }
        let new_len = self.archetypes[a].entities.len();
        if row < new_len {
            let moved_id = self.archetypes[a].entities[row].id as usize;
            proof {
                let last = old_arch.entities@.len() - 1;
                assert(old_arch.entities@[last] == self.archetypes@[a as int].entities@[row as int]);
                assert(old_self.records@[moved_id as int].archetype_id == a);
            }
            self.records[moved_id].row = row as u32;
        }
        proof {
            let new_arch = self.archetypes@[a as int];
            let last = old_arch.entities@.len() - 1;
            assert forall|b: int| 0 <= b < self.n_archetypes() && b != a implies #[trigger] self.archetypes@[b]
                == old_self.archetypes@[b] by {}
            // the archetype left behind stays sound
            assert(new_arch.wf(a as int, self.component_layouts@)) by {
                assert forall|i: int| 0 <= i < new_arch.columns@.len() implies (#[trigger] new_arch.columns@[i]).data.spec_item_layout()
                    == self.component_layouts@[new_arch.signature@[i] as int] by {
                    assert(old_arch.columns@[i].data.spec_item_layout() == self.component_layouts@[old_arch.signature@[i] as int]);
                }
            }
            assert forall|b: int| 0 <= b < self.n_archetypes() implies (#[trigger] self.archetypes@[b]).wf(
                b,
                self.component_layouts@,
            ) by {
                if b != a {
                    assert(old_self.archetypes@[b].wf(b, old_self.component_layouts@));
                }
            }
            assert forall|b: int| 0 <= b < self.n_archetypes() implies #[trigger] self.edges_wf(b) by {
                assert(old_self.edges_wf(b));
            }
            assert(self.archetypes_wf());
            // rows of the old archetype hold distinct slots
            assert forall|r1: int, r2: int|
                0 <= r1 < r2 < old_arch.entities@.len() implies old_arch.entities@[r1].id
                != old_arch.entities@[r2].id by {
                let e1 = old_arch.entities@[r1];
                let e2 = old_arch.entities@[r2];
                assert(old_self.archetypes@[a as int].entities@[r1] == e1);
                assert(old_self.archetypes@[a as int].entities@[r2] == e2);
            }
            assert(old_arch.entities@[row as int] == e) by {
                assert(old_self.archetypes@[a as int].entities@[row as int].id == e.id);
                assert(old_self.records@[e.id as int] == rec);
            }
            assert(self.placement_wf_except(e.id)) by {
                assert forall|b: int, r: int|
                    0 <= b < self.n_archetypes() && 0 <= r < self.archetypes@[b].entities@.len() implies {
                    let x = #[trigger] self.archetypes@[b].entities@[r];
                    &&& x.id != e.id
                    &&& x.id < self.records@.len()
                    &&& self.records@[x.id as int] == (EntityRecord {
                        generation: x.generation,
                        archetype_id: b as u32,
                        row: r as u32,
                    })
                } by {
                    if b == a {
                        if r == row {
                            assert(self.archetypes@[b].entities@[r] == old_arch.entities@[last]);
                            assert(old_self.archetypes@[a as int].entities@[last] == old_arch.entities@[last]);
                        } else {
                            assert(self.archetypes@[b].entities@[r] == old_arch.entities@[r]);
                            assert(old_self.archetypes@[a as int].entities@[r] == old_arch.entities@[r]);
                            if row < new_len {
                                assert(old_arch.entities@[r].id != old_arch.entities@[last].id);
                            }
                        }
                    } else {
                        let x = self.archetypes@[b].entities@[r];
                        assert(old_self.archetypes@[b].entities@[r] == x);
                        if row < new_len {
                            let m = old_arch.entities@[last];
                            assert(old_self.archetypes@[a as int].entities@[last] == m);
                            assert(x.id != m.id);
                        }
                    }
                }
                assert forall|k: int|
                    0 <= k < self.records@.len() && k != e.id && (#[trigger] self.records@[k]).archetype_id
                    != NO_ARCHETYPE implies {
                    let rec2 = self.records@[k];
                    &&& rec2.archetype_id < self.n_archetypes()
                    &&& rec2.row < self.archetypes@[rec2.archetype_id as int].entities@.len()
                    &&& self.archetypes@[rec2.archetype_id as int].entities@[rec2.row as int].id == k
                } by {
                    let orec = old_self.records@[k];
                    assert(old_self.records@[k].archetype_id != NO_ARCHETYPE);
                    let ob = orec.archetype_id as int;
                    let orow = orec.row as int;
                    assert(old_self.archetypes@[ob].entities@[orow].id == k);
                    if ob == a {
                        assert(old_arch.entities@[orow].id == k);
                        if orow == last && row < new_len {
                            assert(self.records@[k].row == row);
                            assert(self.archetypes@[a as int].entities@[row as int] == old_arch.entities@[last]);
                        } else {
                            assert(orow != row);
                            if row < new_len {
                                assert(old_arch.entities@[last] == self.archetypes@[a as int].entities@[row as int]);
                            }
                            assert(self.records@[k] == orec);
                            assert(self.archetypes@[a as int].entities@[orow] == old_arch.entities@[orow]);
                        }
                    } else {
                        if row < new_len {
                            let m = old_arch.entities@[last];
                            assert(old_self.archetypes@[a as int].entities@[last] == m);
                            assert(old_self.records@[m.id as int].archetype_id == a);
                        }
                        assert(self.records@[k] == orec);
                    }
                }
            }
            assert(self.active_wf()) by {
                if new_len == 0 {
                    assert forall|y: u32| #[trigger] self.active_archetypes@.contains(y) <==> (old_self.active_archetypes@.contains(y) && y != a as u32) by {}
                } else {
                    assert(self.active_archetypes@ == old_self.active_archetypes@);
                }
                assert forall|i: int| 0 <= i < self.active_archetypes@.len() implies #[trigger] self.active_archetypes@[i]
                    < self.n_archetypes() by {
                    let y = self.active_archetypes@[i];
                    assert(self.active_archetypes@.contains(y));
                    assert(old_self.active_archetypes@.contains(y));
                    let k = old_self.active_archetypes@.index_of(y);
                    assert(old_self.active_archetypes@[k] < old_self.n_archetypes());
                }
                assert forall|b: int|
                    0 <= b < self.n_archetypes() implies (self.active_archetypes@.contains(b as u32)
                    <==> #[trigger] self.archetypes@[b].entities@.len() > 0) by {
                    if b != a {
                        assert(old_self.archetypes@[b].entities@.len() > 0 <==> old_self.active_archetypes@.contains(b as u32));
                    } else {
                        assert(old_self.archetypes@[b].entities@.len() > 0);
                    }
                }
            }
            assert(self.allocator_wf()) by {
                if row < new_len {
                    let m = old_arch.entities@[last];
                    assert(old_self.archetypes@[a as int].entities@[last] == m);
                    assert(old_self.records@[m.id as int].archetype_id == a);
                    assert forall|i: int| 0 <= i < self.free_entities@.len() implies (#[trigger] self.free_entities@[i]).id != m.id by {
                        assert(old_self.slot_free_for(self.free_entities@[i]));
                    }
                    assert forall|i: int| 0 <= i < self.spawn_queue@.len() implies (#[trigger] self.spawn_queue@[i]).id != m.id by {
                        assert(old_self.slot_free_for(self.spawn_queue@[i]));
                    }
                }
            }
            // handles of other slots read the same
            assert forall|x: Entity| x.id != e.id implies #[trigger] self.same_entity(&old_self, x) by {
                if old_self.alive(x) {
                    let ob = old_self.record(x.id).archetype_id as int;
                    let orow = old_self.record(x.id).row as int;
                    assert(old_self.archetypes@[ob].entities@[orow].id == x.id);
                    if ob == a {
                        assert(old_arch.wf(a as int, old_self.component_layouts@));
                        assert forall|c: usize| #[trigger] self.has(x, c) implies self.cell(x, c) == old_self.cell(x, c) by {
                            let i = old_arch.col_of(c);
                            let k = old_arch.signature@.index_of(c);
                            assert(old_arch.signature@[k] == c);
                            if orow == last && row < new_len {
                                assert(self.record(x.id).row == row);
                            } else {
                                assert(orow != row);
                            }
                        }
                    }
                }
            }
            assert forall|i: int|
                0 <= i < cells@.len() implies #[trigger] row_cells(cells@)[i] == old_self.cell(
                    e,
                    old_arch.signature@[i],
                ) by {
                assert(old_arch.col_of(old_arch.signature@[i]) == i);
            }
        }
        cells
    }

    /// Appends `e` as the last row of archetype `b` with `cells` as its
    /// column values and ticks, records it there, and lists `b` as active
    /// when it was empty.
    pub(crate) fn attach_row(&mut self, e: Entity, b: usize, cells: Vec<(Vec<u8>, u32, u32)>)
        requires
            old(self).wf_detached(e.id),
            b < old(self).n_archetypes(),
            cells@.len() == old(self).archetypes@[b as int].columns@.len(),
            forall|i: int|
                0 <= i < cells@.len() ==> (#[trigger] cells@[i]).0@.len() == old(
                    self,
                ).component_layouts@[old(self).archetypes@[b as int].signature@[i] as int].size,
            e.id < old(self).next_entity_id,
            !has_id(old(self).free_entities@, e.id),
            !has_id(old(self).spawn_queue@, e.id),
        ensures
            final(self).wf(),
            final(self).alive(e),
            final(self).record(e.id) == (EntityRecord {
                generation: e.generation,
                archetype_id: b as u32,
                row: old(self).archetypes@[b as int].entities@.len() as u32,
            }),
            forall|c: usize| #[trigger] final(self).has(e, c) <==> old(self).archetypes@[b as int].has_component(c),
            forall|i: int|
                0 <= i < cells@.len() ==> #[trigger] final(self).cell(
                    e,
                    old(self).archetypes@[b as int].signature@[i],
                ) == row_cells(cells@)[i],
            final(self).same_except(old(self), e.id),
            final(self).n_archetypes() == old(self).n_archetypes(),
            forall|a: int|
                0 <= a < old(self).n_archetypes() ==> {
                    &&& (#[trigger] final(self).archetypes@[a]).signature
                        == old(self).archetypes@[a].signature
                    &&& final(self).archetypes@[a].component_to_column
                        == old(self).archetypes@[a].component_to_column
                    &&& final(self).archetypes@[a].add_edges == old(self).archetypes@[a].add_edges
                    &&& final(self).archetypes@[a].remove_edges
                        == old(self).archetypes@[a].remove_edges
                },
            forall|a: int|
                0 <= a < old(self).n_archetypes() && a != b ==> #[trigger] final(self).archetypes@[a]
                    == old(self).archetypes@[a],
            final(self).archetypes@[b as int].entities@ == old(self).archetypes@[b as int].entities@.push(e),
            final(self).records@ == old(self).records@.update(
                e.id as int,
                EntityRecord {
                    generation: e.generation,
                    archetype_id: b as u32,
                    row: old(self).archetypes@[b as int].entities@.len() as u32,
                },
            ),
            *final(self) == (World {
                records: final(self).records,
                archetypes: final(self).archetypes,
                active_archetypes: final(self).active_archetypes,
                ..*old(self)
            }),
    {
        let ghost old_self = *self;
        let ghost old_arch = self.archetypes@[b as int];
        proof {
            assert(old_arch.wf(b as int, self.component_layouts@));
            let s = old_arch.entities@.push(e);
            assert forall|i: int| 0 <= i < s.len() implies (#[trigger] s[i]).id < self.next_entity_id by {
                if i < old_arch.entities@.len() {
                    let x = old_arch.entities@[i];
                    assert(self.archetypes@[b as int].entities@[i] == x);
                    assert(self.records@[x.id as int].archetype_id != NO_ARCHETYPE);
                }
            }
            assert forall|i: int, j: int| 0 <= i < j < s.len() implies s[i].id != s[j].id by {
                let x = s[i];
                assert(self.archetypes@[b as int].entities@[i] == x);
                if j < old_arch.entities@.len() {
                    assert(self.archetypes@[b as int].entities@[j] == s[j]);
                }
            }
            crate::world::lemma_ids_bound(s, self.next_entity_id as nat);
        }
        let row = self.archetypes[b].entities.len();
        if row == 0 {
            proof {
                if self.active_archetypes@.contains(b as u32) {
                    assert(self.archetypes@[b as int].entities@.len() > 0);
                }
            }
            self.active_archetypes.push(b as u32);
        }
        proof {
            assert forall|i: int| 0 <= i < cells@.len() implies (#[trigger] cells@[i]).0@.len()
                == self.archetypes@[b as int].columns@[i].data.spec_item_layout().size by {
                assert(old_arch.columns@[i].data.spec_item_layout() == self.component_layouts@[old_arch.signature@[i] as int]);
            }
        }
        let ghost cells_v = cells@;
        self.archetypes[b].push_row(e, cells);
        self.records.set(e.id as usize, EntityRecord { generation: e.generation, archetype_id: b as u32, row: row as u32 });
        proof {
            let new_arch = self.archetypes@[b as int];
            assert forall|a: int| 0 <= a < self.n_archetypes() && a != b implies #[trigger] self.archetypes@[a]
                == old_self.archetypes@[a] by {}
            assert(new_arch.wf(b as int, self.component_layouts@)) by {
                assert forall|i: int| 0 <= i < new_arch.columns@.len() implies (#[trigger] new_arch.columns@[i]).data.spec_item_layout()
                    == self.component_layouts@[new_arch.signature@[i] as int] by {
                    assert(old_arch.columns@[i].data.spec_item_layout() == self.component_layouts@[old_arch.signature@[i] as int]);
                }
            }
            assert forall|a: int| 0 <= a < self.n_archetypes() implies (#[trigger] self.archetypes@[a]).wf(
                a,
                self.component_layouts@,
            ) by {
                if a != b {
                    assert(old_self.archetypes@[a].wf(a, old_self.component_layouts@));
                }
            }
            assert forall|a: int| 0 <= a < self.n_archetypes() implies #[trigger] self.edges_wf(a) by {
                assert(old_self.edges_wf(a));
            }
            assert(self.archetypes_wf());
            assert(self.placement_wf()) by {
                assert forall|a: int| 0 <= a < self.n_archetypes() implies (#[trigger] self.archetypes@[a]).entities@.len()
                    <= u32::MAX by {
                    if a != b {
                        assert(old_self.archetypes@[a].entities@.len() <= u32::MAX);
                    }
                }
                assert forall|a: int, r: int|
                    0 <= a < self.n_archetypes() && 0 <= r < self.archetypes@[a].entities@.len() implies {
                    let x = #[trigger] self.archetypes@[a].entities@[r];
                    &&& x.id < self.records@.len()
                    &&& self.records@[x.id as int] == (EntityRecord {
                        generation: x.generation,
                        archetype_id: a as u32,
                        row: r as u32,
                    })
                } by {
                    if a == b && r == row {
                    } else {
                        let x = self.archetypes@[a].entities@[r];
                        assert(old_self.archetypes@[a].entities@[r] == x);
                    }
                }
                assert forall|k: int|
                    0 <= k < self.records@.len() && (#[trigger] self.records@[k]).archetype_id
                    != NO_ARCHETYPE implies {
                    let rec2 = self.records@[k];
                    &&& rec2.archetype_id < self.n_archetypes()
                    &&& rec2.row < self.archetypes@[rec2.archetype_id as int].entities@.len()
                    &&& self.archetypes@[rec2.archetype_id as int].entities@[rec2.row as int].id == k
                } by {
                    if k != e.id {
                        let orec = old_self.records@[k];
                        assert(old_self.records@[k].archetype_id != NO_ARCHETYPE);
                        let ob = orec.archetype_id as int;
                        assert(old_self.archetypes@[ob].entities@[orec.row as int].id == k);
                    }
                }
            }
            assert(self.active_wf()) by {
                assert forall|a: int|
                    0 <= a < self.n_archetypes() implies (self.active_archetypes@.contains(a as u32)
                    <==> #[trigger] self.archetypes@[a].entities@.len() > 0) by {
                    assert(old_self.archetypes@[a].entities@.len() > 0 <==> old_self.active_archetypes@.contains(a as u32));
                    if row == 0 {
                        assert(self.active_archetypes@ == old_self.active_archetypes@.push(b as u32));
                        if a != b && self.active_archetypes@.contains(a as u32) {
                            let k = self.active_archetypes@.index_of(a as u32);
                            assert(self.active_archetypes@[k] == a);
                            assert(old_self.active_archetypes@[k] == a);
                        }
                        if a == b {
                            assert(self.active_archetypes@[self.active_archetypes@.len() - 1] == b);
                        }
                        if old_self.active_archetypes@.contains(a as u32) {
                            let k = old_self.active_archetypes@.index_of(a as u32);
                            assert(self.active_archetypes@[k] == a);
                        }
                    } else {
                        assert(self.active_archetypes@ == old_self.active_archetypes@);
                    }
                }
                if row == 0 {
                    assert forall|i: int, j: int|
                        0 <= i < j < self.active_archetypes@.len() implies self.active_archetypes@[i]
                        != self.active_archetypes@[j] by {
                        if j == self.active_archetypes@.len() - 1 {
                            assert(old_self.active_archetypes@.contains(self.active_archetypes@[i]));
                        }
                    }
                }
            }
            assert(self.allocator_wf()) by {
                assert forall|i: int| 0 <= i < self.free_entities@.len() implies (#[trigger] self.free_entities@[i]).id != e.id by {}
                assert forall|i: int| 0 <= i < self.spawn_queue@.len() implies (#[trigger] self.spawn_queue@[i]).id != e.id by {}
            }
            assert forall|x: Entity| x.id != e.id implies #[trigger] self.same_entity(&old_self, x) by {
                if old_self.alive(x) {
                    let ob = old_self.record(x.id).archetype_id as int;
                    let orow = old_self.record(x.id).row as int;
                    assert(old_self.archetypes@[ob].entities@[orow].id == x.id);
                    assert(old_self.archetypes@[ob].wf(ob, old_self.component_layouts@));
                    assert forall|c: usize| #[trigger] self.has(x, c) implies self.cell(x, c) == old_self.cell(x, c) by {
                        let k = old_self.archetypes@[ob].signature@.index_of(c);
                        assert(old_self.archetypes@[ob].signature@[k] == c);
                    }
                }
            }
            assert forall|c: usize| #[trigger] self.has(e, c) <==> old_arch.has_component(c) by {}
            assert forall|i: int|
                0 <= i < cells_v.len() implies #[trigger] self.cell(e, old_arch.signature@[i]) == row_cells(cells_v)[i] by {
                assert(old_arch.col_of(old_arch.signature@[i]) == i);
            }
        }
    }

    /// The archetypes of `self` and `old` differ at most in their bookkeeping
    /// ticks (`last_modified_tick` and the columns' latest ticks).
    pub open spec fn same_content(&self, old: &World) -> bool {
        &&& self.n_archetypes() == old.n_archetypes()
        &&& forall|b: int|
            0 <= b < old.n_archetypes() ==> {
                let x = #[trigger] self.archetypes@[b];
                let y = old.archetypes@[b];
                &&& x.id == y.id
                &&& x.entities == y.entities
                &&& x.signature == y.signature
                &&& x.component_to_column == y.component_to_column
                &&& x.add_edges == y.add_edges
                &&& x.remove_edges == y.remove_edges
                &&& x.columns@.len() == y.columns@.len()
                &&& forall|i: int|
                    0 <= i < y.columns@.len() ==> {
                        &&& (#[trigger] x.columns@[i]).data == y.columns@[i].data
                        &&& x.columns@[i].added_ticks == y.columns@[i].added_ticks
                        &&& x.columns@[i].changed_ticks == y.columns@[i].changed_ticks
                    }
            }
    }

    /// Changing nothing but bookkeeping ticks keeps the world sound and every
    /// handle as it reads.
    pub proof fn lemma_same_content(&self, old: &World)
        requires
            old.wf(),
            *self == (World { archetypes: self.archetypes, ..*old }),
            self.same_content(old),
        ensures
            self.wf(),
            self.same_entities(old),
    {
        assert forall|b: int| 0 <= b < self.n_archetypes() implies (#[trigger] self.archetypes@[b]).wf(
            b,
            self.component_layouts@,
        ) by {
            assert(old.archetypes@[b].wf(b, old.component_layouts@));
            let x = self.archetypes@[b];
            let y = old.archetypes@[b];
            assert forall|i: int| 0 <= i < x.columns@.len() implies {
                &&& (#[trigger] x.columns@[i]).wf()
                &&& x.columns@[i].len() == x.entities@.len()
            } by {
                assert(y.columns@[i].wf());
            }
            assert forall|i: int| 0 <= i < x.columns@.len() implies (#[trigger] x.columns@[i]).data.spec_item_layout()
                == self.component_layouts@[x.signature@[i] as int] by {
                assert(y.columns@[i].data.spec_item_layout() == old.component_layouts@[y.signature@[i] as int]);
            }
        }
        assert forall|b: int| 0 <= b < self.n_archetypes() implies #[trigger] self.edges_wf(b) by {
            assert(old.edges_wf(b));
            let x = self.archetypes@[b];
            assert forall|i: int| 0 <= i < x.add_edges@.len() implies {
                let (c, t) = #[trigger] x.add_edges@[i];
                self.archetypes@[t as int] == self.archetypes@[t as int] && (t < self.n_archetypes() ==> self.archetypes@[t as int].signature == old.archetypes@[t as int].signature && self.archetypes@[t as int].component_to_column == old.archetypes@[t as int].component_to_column)
            } by {
                let (c, t) = x.add_edges@[i];
                if t < self.n_archetypes() {
                    assert(self.archetypes@[t as int].signature == old.archetypes@[t as int].signature);
                }
            }
            assert forall|i: int| 0 <= i < x.remove_edges@.len() implies {
                let (c, t) = #[trigger] x.remove_edges@[i];
                (t < self.n_archetypes() ==> self.archetypes@[t as int].signature == old.archetypes@[t as int].signature)
            } by {
                let (c, t) = x.remove_edges@[i];
                if t < self.n_archetypes() {
                    assert(self.archetypes@[t as int].signature == old.archetypes@[t as int].signature);
                }
            }
        }
        assert(self.placement_wf()) by {
            assert forall|b: int| 0 <= b < self.n_archetypes() implies (#[trigger] self.archetypes@[b]).entities@.len()
                <= u32::MAX by {
                assert(old.archetypes@[b].entities@.len() <= u32::MAX);
            }
            assert forall|b: int, r: int|
                0 <= b < self.n_archetypes() && 0 <= r < self.archetypes@[b].entities@.len() implies #[trigger] self.archetypes@[b].entities@[r]
                == old.archetypes@[b].entities@[r] by {}
        }
        assert(self.active_wf()) by {
            assert forall|b: int|
                0 <= b < self.n_archetypes() implies (self.active_archetypes@.contains(b as u32)
                <==> #[trigger] self.archetypes@[b].entities@.len() > 0) by {
                assert(old.archetypes@[b].entities@.len() > 0 <==> old.active_archetypes@.contains(b as u32));
            }
        }
        assert forall|x: Entity| #[trigger] self.same_entity(old, x) by {
            if old.alive(x) {
                let ob = old.record(x.id).archetype_id as int;
                assert(self.archetypes@[ob].signature == old.archetypes@[ob].signature);
                assert forall|c: usize| #[trigger] self.has(x, c) implies self.cell(x, c) == old.cell(x, c) by {
                    assert(old.archetypes@[ob].wf(ob, old.component_layouts@));
                    let k = old.archetypes@[ob].signature@.index_of(c);
                    assert(old.archetypes@[ob].signature@[k] == c);
                    let i = old.archetypes@[ob].col_of(c);
                    assert(self.archetypes@[ob].columns@[i].data == old.archetypes@[ob].columns@[i].data);
                }
            }
        }
    }

    /// Stamps the current tick as the latest change of archetype `a`.
    pub(crate) fn stamp_archetype(&mut self, a: usize)
        requires
            old(self).wf(),
            a < old(self).n_archetypes(),
        ensures
            final(self).wf(),
            final(self).same_entities(old(self)),
            final(self).same_content(old(self)),
            *final(self) == (World { archetypes: final(self).archetypes, ..*old(self) }),
            forall|b: int| 0 <= b < old(self).n_archetypes() && b != a ==> #[trigger] final(self).archetypes@[b] == old(self).archetypes@[b],
            final(self).archetypes@[a as int].columns == old(self).archetypes@[a as int].columns,
            final(self).n_archetypes() == old(self).n_archetypes(),
            final(self).archetypes@[a as int] == (Archetype {
                last_modified_tick: old(self).current_tick,
                ..old(self).archetypes@[a as int]
            }),
    {
        let ghost old_self = *self;
        let cur = self.current_tick;
        self.archetypes[a].last_modified_tick = cur;
        proof {
            assert forall|b: int| 0 <= b < self.n_archetypes() && b != a implies #[trigger] self.archetypes@[b]
                == old_self.archetypes@[b] by {}
            assert(self.same_content(&old_self));
            self.lemma_same_content(&old_self);
        }
    }

    /// Stamps the current tick as the latest change of column `i` of
    /// archetype `a` (and as its latest addition when `added`), and of the
    /// archetype.
    pub(crate) fn stamp_column(&mut self, a: usize, i: usize, added: bool)
        requires
            old(self).wf(),
            a < old(self).n_archetypes(),
            i < old(self).archetypes@[a as int].columns@.len(),
        ensures
            final(self).wf(),
            final(self).same_entities(old(self)),
            final(self).same_content(old(self)),
            *final(self) == (World { archetypes: final(self).archetypes, ..*old(self) }),
            forall|b: int| 0 <= b < old(self).n_archetypes() && b != a ==> #[trigger] final(self).archetypes@[b] == old(self).archetypes@[b],
            final(self).n_archetypes() == old(self).n_archetypes(),
            final(self).archetypes@[a as int] == (Archetype {
                last_modified_tick: old(self).current_tick,
                columns: final(self).archetypes@[a as int].columns,
                ..old(self).archetypes@[a as int]
            }),
            final(self).archetypes@[a as int].columns@.len() == old(self).archetypes@[a as int].columns@.len(),
            forall|j: int|
                0 <= j < old(self).archetypes@[a as int].columns@.len() && j != i
                    ==> #[trigger] final(self).archetypes@[a as int].columns@[j] == old(self).archetypes@[a as int].columns@[j],
            final(self).archetypes@[a as int].columns@[i as int] == (Column {
                last_changed_tick: old(self).current_tick,
                last_added_tick: if added {
                    old(self).current_tick
                } else {
                    old(self).archetypes@[a as int].columns@[i as int].last_added_tick
                },
                ..old(self).archetypes@[a as int].columns@[i as int]
            }),
    {
        let ghost old_self = *self;
        let cur = self.current_tick;
        self.archetypes[a].columns[i].last_changed_tick = cur;
        if added {
            self.archetypes[a].columns[i].last_added_tick = cur;
        }
        self.archetypes[a].last_modified_tick = cur;
        proof {
            assert forall|b: int| 0 <= b < self.n_archetypes() && b != a implies #[trigger] self.archetypes@[b]
                == old_self.archetypes@[b] by {}
            assert(self.same_content(&old_self));
            self.lemma_same_content(&old_self);
        }
    }

    /// `self` is `old` with archetypes appended and the cached moves of
    /// archetype `a` changed, nothing else.
    pub open spec fn only_edges_of(&self, old: &World, a: int) -> bool {
        &&& *self == (World { archetypes: self.archetypes, ..*old })
        &&& self.n_archetypes() >= old.n_archetypes()
        &&& forall|b: int|
            0 <= b < old.n_archetypes() && b != a ==> #[trigger] self.archetypes@[b] == old.archetypes@[b]
        &&& forall|b: int|
            0 <= b < old.n_archetypes() ==> {
                &&& (#[trigger] self.archetypes@[b]).signature == old.archetypes@[b].signature
                &&& self.archetypes@[b].entities == old.archetypes@[b].entities
                &&& self.archetypes@[b].columns == old.archetypes@[b].columns
                &&& self.archetypes@[b].component_to_column == old.archetypes@[b].component_to_column
                &&& self.archetypes@[b].id == old.archetypes@[b].id
            }
        &&& forall|b: int|
            old.n_archetypes() <= b < self.n_archetypes() ==> (#[trigger] self.archetypes@[b]).entities@.len() == 0
    }

    /// The archetype that entities of archetype `a` move to when they gain
    /// component `c`, looked up among the cached moves of `a` or created and
    /// cached.
    pub(crate) fn add_target(&mut self, a: usize, c: usize) -> (t: usize)
        requires
            old(self).wf(),
            a < old(self).n_archetypes(),
            c < old(self).n_components(),
            !old(self).archetypes@[a as int].has_component(c),
            old(self).n_archetypes() + 1 < u32::MAX,
        ensures
            final(self).wf(),
            t < final(self).n_archetypes(),
            final(self).archetypes@[t as int].has_component(c),
            final(self).archetypes@[t as int].col_of(c) <= old(self).archetypes@[a as int].signature@.len(),
            final(self).archetypes@[t as int].signature@ == old(self).archetypes@[a as int].signature@.insert(
                final(self).archetypes@[t as int].col_of(c),
                c,
            ),
            final(self).only_edges_of(old(self), a as int),
            final(self).same_entities(old(self)),
            final(self).n_archetypes() <= old(self).n_archetypes() + 1,
    {
        let ghost old_self = *self;
        proof {
            assert(self.edges_wf(a as int));
        }
        let r = search_edge(&self.archetypes[a].add_edges, c);
        match r {
            Ok(i) => {
                let t = self.archetypes[a].add_edges[i].1;
                proof {
                    assert(self.same_entities(&old_self));
                }
                t as usize
            },
            Err(pos) => {
                proof {
                    assert(self.archetypes@[a as int].wf(a as int, self.component_layouts@));
                }
                let (sig, p) = sig_with(&self.archetypes[a].signature, c);
                proof {
                    assert forall|i: int| 0 <= i < sig@.len() implies #[trigger] sig@[i] < self.n_components() by {
                        if i < p {
                            assert(sig@[i] == self.archetypes@[a as int].signature@[i]);
                        } else if i > p {
                            assert(sig@[i] == self.archetypes@[a as int].signature@[i - 1]);
                        }
                    }
                }
                let t = self.get_or_create_archetype(sig.as_slice());
                let ghost mid = *self;
                proof {
                    assert(self.archetypes@[t as int].wf(t as int, self.component_layouts@));
                    assert(sig@[p as int] == c);
                    assert(self.archetypes@[t as int].col_of(c) == p);
                    assert(self.archetypes@[t as int].signature@.contains(c));
                }
                self.archetypes[a].add_edges.insert(pos, (c, t));
                proof {
                    assert forall|b: int| 0 <= b < self.n_archetypes() && b != a implies #[trigger] self.archetypes@[b]
                        == mid.archetypes@[b] by {}
                    assert forall|b: int| 0 <= b < self.n_archetypes() implies (#[trigger] self.archetypes@[b]).wf(
                        b,
                        self.component_layouts@,
                    ) by {
                        assert(mid.archetypes@[b].wf(b, mid.component_layouts@));
                    }
                    assert forall|b: int| 0 <= b < self.n_archetypes() implies #[trigger] self.edges_wf(b) by {
                        assert(mid.edges_wf(b));
                        let x = self.archetypes@[b];
                        if b == a {
                            let edges = x.add_edges@;
                            let old_edges = mid.archetypes@[a as int].add_edges@;
                            assert forall|i: int, j: int| 0 <= i < j < edges.len() implies edges[i].0 < edges[j].0 by {
                                if i < pos {
                                    assert(edges[i] == old_edges[i]);
                                } else if i > pos {
                                    assert(edges[i] == old_edges[i - 1]);
                                }
                                if j < pos {
                                    assert(edges[j] == old_edges[j]);
                                } else if j > pos {
                                    assert(edges[j] == old_edges[j - 1]);
                                }
                            }
                            assert forall|i: int| 0 <= i < edges.len() implies {
                                let (c2, t2) = #[trigger] edges[i];
                                &&& c2 < self.n_components()
                                &&& t2 < self.n_archetypes()
                                &&& !x.has_component(c2)
                                &&& self.archetypes@[t2 as int].has_component(c2)
                                &&& self.archetypes@[t2 as int].col_of(c2) <= x.signature@.len()
                                &&& self.archetypes@[t2 as int].signature@ == x.signature@.insert(
                                    self.archetypes@[t2 as int].col_of(c2),
                                    c2,
                                )
                            } by {
                                if i < pos {
                                    assert(edges[i] == old_edges[i]);
                                } else if i > pos {
                                    assert(edges[i] == old_edges[i - 1]);
                                }
                                let (c2, t2) = edges[i];
                                if t2 == a as u32 {
                                    assert(self.archetypes@[t2 as int].signature == mid.archetypes@[t2 as int].signature);
                                }
                            }
                            assert forall|i: int| 0 <= i < x.remove_edges@.len() implies {
                                let (c2, t2) = #[trigger] x.remove_edges@[i];
                                &&& c2 < self.n_components()
                                &&& t2 < self.n_archetypes()
                                &&& x.has_component(c2)
                                &&& self.archetypes@[t2 as int].signature@ == x.signature@.remove(x.col_of(c2))
                            } by {
                                assert(x.remove_edges@[i] == mid.archetypes@[a as int].remove_edges@[i]);
                            }
                        } else {
                            assert forall|i: int| 0 <= i < x.add_edges@.len() implies {
                                let (c2, t2) = #[trigger] x.add_edges@[i];
                                self.archetypes@[t2 as int].signature == mid.archetypes@[t2 as int].signature
                            } by {}
                            assert forall|i: int| 0 <= i < x.remove_edges@.len() implies {
                                let (c2, t2) = #[trigger] x.remove_edges@[i];
                                self.archetypes@[t2 as int].signature == mid.archetypes@[t2 as int].signature
                            } by {}
                        }
                    }
                    assert(self.placement_wf()) by {
                        assert forall|b: int| 0 <= b < self.n_archetypes() implies (#[trigger] self.archetypes@[b]).entities@.len()
                            <= u32::MAX by {
                            assert(mid.archetypes@[b].entities@.len() <= u32::MAX);
                        }
                        assert forall|b: int, r: int|
                            0 <= b < self.n_archetypes() && 0 <= r < self.archetypes@[b].entities@.len() implies #[trigger] self.archetypes@[b].entities@[r]
                            == mid.archetypes@[b].entities@[r] by {}
                    }
                    assert(self.active_wf()) by {
                        assert forall|b: int|
                            0 <= b < self.n_archetypes() implies (self.active_archetypes@.contains(b as u32)
                            <==> #[trigger] self.archetypes@[b].entities@.len() > 0) by {
                            assert(mid.archetypes@[b].entities@.len() > 0 <==> mid.active_archetypes@.contains(b as u32));
                        }
                    }
                    assert(self.same_entities(&mid)) by {
                        assert forall|x: Entity| #[trigger] self.same_entity(&mid, x) by {
                            if mid.alive(x) {
                                let ob = mid.record(x.id).archetype_id as int;
                                assert(self.archetypes@[ob].signature == mid.archetypes@[ob].signature);
                                assert(self.archetypes@[ob].columns == mid.archetypes@[ob].columns);
                            }
                        }
                    }
                    assert forall|x: Entity| #[trigger] self.same_entity(&old_self, x) by {
                        assert(self.same_entity(&mid, x));
                        assert(mid.same_entity(&old_self, x));
                        assert forall|c2: usize| #[trigger] self.has(x, c2) implies self.cell(x, c2) == old_self.cell(x, c2) by {
                            assert(mid.has(x, c2));
                        }
                        assert forall|c2: usize| #[trigger] self.has(x, c2) == old_self.has(x, c2) by {
                            assert(mid.has(x, c2) == old_self.has(x, c2));
                        }
                    }
                }
                t as usize
            },
        }
    }
    /// The archetype that entities of archetype `a` move to when they lose
    /// component `c`, looked up among the cached moves of `a` or created and
    /// cached.
    pub(crate) fn remove_target(&mut self, a: usize, c: usize) -> (t: usize)
        requires
            old(self).wf(),
            a < old(self).n_archetypes(),
            c < old(self).n_components(),
            old(self).archetypes@[a as int].has_component(c),
            old(self).n_archetypes() + 1 < u32::MAX,
        ensures
            final(self).wf(),
            t < final(self).n_archetypes(),
            final(self).archetypes@[t as int].signature@ == old(self).archetypes@[a as int].signature@.remove(
                old(self).archetypes@[a as int].col_of(c),
            ),
            final(self).only_edges_of(old(self), a as int),
            final(self).same_entities(old(self)),
            final(self).n_archetypes() <= old(self).n_archetypes() + 1,
    {
        let ghost old_self = *self;
        proof {
            assert(self.edges_wf(a as int));
        }
        let r = search_edge(&self.archetypes[a].remove_edges, c);
        match r {
            Ok(i) => {
                let t = self.archetypes[a].remove_edges[i].1;
                proof {
                    assert(self.same_entities(&old_self));
                }
                t as usize
            },
            Err(pos) => {
                proof {
                    assert(self.archetypes@[a as int].wf(a as int, self.component_layouts@));
                }
                let p = self.archetypes[a].component_to_column[c] as usize;
                proof {
                    let k = self.archetypes@[a as int].signature@.index_of(c);
                    assert(self.archetypes@[a as int].signature@[k] == c);
                }
                let sig = sig_without(&self.archetypes[a].signature, p);
                proof {
                    assert forall|i: int| 0 <= i < sig@.len() implies #[trigger] sig@[i] < self.n_components() by {
                        assert(sig@[i] == self.archetypes@[a as int].signature@[i + if i < p { 0int } else { 1int }]);
                    }
                }
                let t = self.get_or_create_archetype(sig.as_slice());
                let ghost mid = *self;
                self.archetypes[a].remove_edges.insert(pos, (c, t));
                proof {
                    assert forall|b: int| 0 <= b < self.n_archetypes() && b != a implies #[trigger] self.archetypes@[b]
                        == mid.archetypes@[b] by {}
                    assert forall|b: int| 0 <= b < self.n_archetypes() implies (#[trigger] self.archetypes@[b]).wf(
                        b,
                        self.component_layouts@,
                    ) by {
                        assert(mid.archetypes@[b].wf(b, mid.component_layouts@));
                    }
                    assert forall|b: int| 0 <= b < self.n_archetypes() implies #[trigger] self.edges_wf(b) by {
                        assert(mid.edges_wf(b));
                        let x = self.archetypes@[b];
                        if b == a {
                            let edges = x.remove_edges@;
                            let old_edges = mid.archetypes@[a as int].remove_edges@;
                            assert forall|i: int, j: int| 0 <= i < j < edges.len() implies edges[i].0 < edges[j].0 by {
                                if i < pos {
                                    assert(edges[i] == old_edges[i]);
                                } else if i > pos {
                                    assert(edges[i] == old_edges[i - 1]);
                                }
                                if j < pos {
                                    assert(edges[j] == old_edges[j]);
                                } else if j > pos {
                                    assert(edges[j] == old_edges[j - 1]);
                                }
                            }
                            assert forall|i: int| 0 <= i < edges.len() implies {
                                let (c2, t2) = #[trigger] edges[i];
                                &&& c2 < self.n_components()
                                &&& t2 < self.n_archetypes()
                                &&& x.has_component(c2)
                                &&& self.archetypes@[t2 as int].signature@ == x.signature@.remove(x.col_of(c2))
                            } by {
                                if i < pos {
                                    assert(edges[i] == old_edges[i]);
                                } else if i > pos {
                                    assert(edges[i] == old_edges[i - 1]);
                                }
                                let (c2, t2) = edges[i];
                                if t2 == a as u32 {
                                    assert(self.archetypes@[t2 as int].signature == mid.archetypes@[t2 as int].signature);
                                }
                            }
                            assert forall|i: int| 0 <= i < x.add_edges@.len() implies {
                                let (c2, t2) = #[trigger] x.add_edges@[i];
                                &&& c2 < self.n_components()
                                &&& t2 < self.n_archetypes()
                                &&& !x.has_component(c2)
                                &&& self.archetypes@[t2 as int].has_component(c2)
                                &&& self.archetypes@[t2 as int].col_of(c2) <= x.signature@.len()
                                &&& self.archetypes@[t2 as int].signature@ == x.signature@.insert(
                                    self.archetypes@[t2 as int].col_of(c2),
                                    c2,
                                )
                            } by {
                                assert(x.add_edges@[i] == mid.archetypes@[a as int].add_edges@[i]);
                                let (c2, t2) = x.add_edges@[i];
                                if t2 == a as u32 {
                                    assert(self.archetypes@[t2 as int].signature == mid.archetypes@[t2 as int].signature);
                                }
                            }
                        } else {
                            assert forall|i: int| 0 <= i < x.add_edges@.len() implies {
                                let (c2, t2) = #[trigger] x.add_edges@[i];
                                self.archetypes@[t2 as int].signature == mid.archetypes@[t2 as int].signature
                            } by {}
                            assert forall|i: int| 0 <= i < x.remove_edges@.len() implies {
                                let (c2, t2) = #[trigger] x.remove_edges@[i];
                                self.archetypes@[t2 as int].signature == mid.archetypes@[t2 as int].signature
                            } by {}
                        }
                    }
                    assert(self.placement_wf()) by {
                        assert forall|b: int| 0 <= b < self.n_archetypes() implies (#[trigger] self.archetypes@[b]).entities@.len()
                            <= u32::MAX by {
                            assert(mid.archetypes@[b].entities@.len() <= u32::MAX);
                        }
                        assert forall|b: int, r: int|
                            0 <= b < self.n_archetypes() && 0 <= r < self.archetypes@[b].entities@.len() implies #[trigger] self.archetypes@[b].entities@[r]
                            == mid.archetypes@[b].entities@[r] by {}
                    }
                    assert(self.active_wf()) by {
                        assert forall|b: int|
                            0 <= b < self.n_archetypes() implies (self.active_archetypes@.contains(b as u32)
                            <==> #[trigger] self.archetypes@[b].entities@.len() > 0) by {
                            assert(mid.archetypes@[b].entities@.len() > 0 <==> mid.active_archetypes@.contains(b as u32));
                        }
                    }
                    assert(self.same_entities(&mid)) by {
                        assert forall|x: Entity| #[trigger] self.same_entity(&mid, x) by {
                            if mid.alive(x) {
                                let ob = mid.record(x.id).archetype_id as int;
                                assert(self.archetypes@[ob].signature == mid.archetypes@[ob].signature);
                                assert(self.archetypes@[ob].columns == mid.archetypes@[ob].columns);
                            }
                        }
                    }
                    assert forall|x: Entity| #[trigger] self.same_entity(&old_self, x) by {
                        assert(self.same_entity(&mid, x));
                        assert(mid.same_entity(&old_self, x));
                        assert forall|c2: usize| #[trigger] self.has(x, c2) implies self.cell(x, c2) == old_self.cell(x, c2) by {
                            assert(mid.has(x, c2));
                        }
                        assert forall|c2: usize| #[trigger] self.has(x, c2) == old_self.has(x, c2) by {
                            assert(mid.has(x, c2) == old_self.has(x, c2));
                        }
                    }
                }
                t as usize
            },
        }
    }
}

} // verus!
