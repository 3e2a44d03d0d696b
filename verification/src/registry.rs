use vstd::prelude::*;

use crate::archetype::{strictly_sorted, ItemLayout, NO_COLUMN};
use crate::entity::Entity;
use crate::keyed::{lemma_insert_at, lemma_search_lookup, search_key};
use crate::world::{sig_eq, World};

verus! {

impl World {
    /// The archetype whose signature is `signature`, created empty when no
    /// archetype has it yet.
    #[verifier::loop_isolation(false)]
    pub fn get_or_create_archetype(&mut self, signature: &[usize]) -> (id: u32)
        requires
            old(self).wf(),
            strictly_sorted(signature@),
            forall|i: int| 0 <= i < signature@.len() ==> #[trigger] signature@[i] < old(self).n_components(),
            old(self).n_archetypes() + 1 < u32::MAX,
        ensures
            final(self).wf(),
            id < final(self).n_archetypes(),
            final(self).archetypes@[id as int].signature@ == signature@,
            forall|a: int|
                0 <= a < old(self).n_archetypes() ==> #[trigger] final(self).archetypes@[a] == old(
                    self,
                ).archetypes@[a],
            id < old(self).n_archetypes() ==> final(self).n_archetypes() == old(self).n_archetypes(),
            id >= old(self).n_archetypes() ==> {
                &&& id == old(self).n_archetypes()
                &&& final(self).n_archetypes() == old(self).n_archetypes() + 1
                &&& final(self).archetypes@[id as int].entities@.len() == 0
                &&& final(self).archetypes@[id as int].add_edges@.len() == 0
                &&& final(self).archetypes@[id as int].remove_edges@.len() == 0
            },
            (forall|a: int|
                0 <= a < old(self).n_archetypes() ==> old(self).archetypes@[a].signature@ != signature@)
                <==> id >= old(self).n_archetypes(),
            *final(self) == (World { archetypes: final(self).archetypes, ..*old(self) }),
            final(self).same_entities(old(self)),
    {
        let n = self.archetypes.len();
        let mut a: usize = 0;
        while a < n
            invariant
                n == self.archetypes@.len(),
                0 <= a <= n,
                forall|b: int| 0 <= b < a ==> self.archetypes@[b].signature@ != signature@,
            decreases n - a,
        {
            if sig_eq(&self.archetypes[a].signature, signature) {
                proof {
                    self.lemma_same_with_prefix(self);
                }
                return a as u32;
            }
            a = a + 1;
        }
        let id = n as u32;
        let arch = self.build_archetype(signature, id, 8);
        let ghost prev = *self;
        self.archetypes.push(arch);
        proof {
            assert forall|a: int|
                0 <= a < prev.n_archetypes() implies #[trigger] self.archetypes@[a] == prev.archetypes@[a] by {}
            assert forall|a: int| 0 <= a < self.n_archetypes() implies #[trigger] self.edges_wf(a) by {
                assert(prev.edges_wf(a) || a == n);
            }
            assert forall|a: int|
                0 <= a < self.n_archetypes() implies (self.active_archetypes@.contains(a as u32)
                <==> #[trigger] self.archetypes@[a].entities@.len() > 0) by {
                if a == n {
                    if self.active_archetypes@.contains(a as u32) {
                        let k = self.active_archetypes@.index_of(a as u32);
                        assert(self.active_archetypes@[k] < prev.n_archetypes());
                    }
                }
            }
            self.lemma_same_with_prefix(&prev);
        }
        id
    }

    /// A world holding nothing but the archetype without components.
    pub fn new() -> (w: World)
        ensures
            w.wf(),
            w.n_archetypes() == 1,
            w.n_components() == 0,
            w.current_tick == 1,
            w.structural_gen == 1,
            w.next_entity_id == 0,
            w.records@.len() == 0,
            forall|x: Entity| !w.alive(x),
    {
        let mut world = World {
            current_tick: 1,
            structural_gen: 1,
            next_entity_id: 0,
            free_entities: Vec::new(),
            records: Vec::new(),
            archetypes: Vec::new(),
            active_archetypes: Vec::new(),
            resource_ids: Vec::new(),
            resources: Vec::new(),
            component_ids: Vec::new(),
            component_layouts: Vec::new(),
            dynamic_components: Vec::new(),
            schemas: Vec::new(),
            serializable: Vec::new(),
            spawn_queue: Vec::new(),
            despawn_queue: Vec::new(),
            typed_queues: Vec::new(),
            links: Vec::new(),
        };
        let empty: Vec<usize> = Vec::new();
        let arch = world.build_archetype(empty.as_slice(), 0, 8);
        world.archetypes.push(arch);
        proof {
            assert(world.edges_wf(0));
        }
        world
    }

    /// Archetype `b` of `self` is that of `old` with the column map extended
    /// by one absent component.
    pub open spec fn extended_archetype(&self, old: &World, b: int) -> bool {
        let x = self.archetypes@[b];
        let y = old.archetypes@[b];
        &&& x.component_to_column@ == y.component_to_column@.push(NO_COLUMN)
        &&& x.id == y.id
        &&& x.last_modified_tick == y.last_modified_tick
        &&& x.entities == y.entities
        &&& x.columns == y.columns
        &&& x.signature == y.signature
        &&& x.add_edges == y.add_edges
        &&& x.remove_edges == y.remove_edges
    }

    /// `self` is `old` after registering component type `key` with `layout`,
    /// which gave `id`: the id already filed for `key`, with nothing changed,
    /// or else the next id, filed with `layout`.
    pub open spec fn registered_from(&self, old: &World, key: u64, layout: ItemLayout, id: usize) -> bool {
        &&& self.component_id(key) == Some(id)
        &&& old.component_id(key) matches Some(c) ==> id == c && *self == *old
        &&& old.component_id(key) is None ==> {
            &&& id == old.n_components()
            &&& self.component_layouts@ == old.component_layouts@.push(layout)
        }
    }

    /// The id of component type `key`, registered with `layout` when new.
    pub fn register(&mut self, key: u64, layout: ItemLayout) -> (id: usize)
        requires
            old(self).wf(),
            layout.valid(),
            old(self).component_id(key) is None ==> old(self).n_components() + 1 < u32::MAX,
        ensures
            final(self).wf(),
            final(self).registered_from(old(self), key, layout, id),
            final(self).component_id(key) == Some(id),
            old(self).component_id(key) matches Some(c) ==> id == c && *final(self) == *old(self),
            old(self).component_id(key) is None ==> {
                &&& id == old(self).n_components()
                &&& final(self).component_layouts@ == old(self).component_layouts@.push(layout)
                &&& forall|k: u64|
                    k != key ==> #[trigger] final(self).component_id(k) == old(self).component_id(k)
            },
            id < final(self).n_components(),
            final(self).n_archetypes() == old(self).n_archetypes(),
            forall|a: int|
                0 <= a < old(self).n_archetypes() ==> {
                    &&& (#[trigger] final(self).archetypes@[a]).entities == old(self).archetypes@[a].entities
                    &&& final(self).archetypes@[a].signature == old(self).archetypes@[a].signature
                },
            final(self).records == old(self).records,
            final(self).same_entities(old(self)),
            *final(self) == (World {
                component_ids: final(self).component_ids,
                component_layouts: final(self).component_layouts,
                archetypes: final(self).archetypes,
                ..*old(self)
            }),
    {
        let r = search_key(&self.component_ids, key);
        proof {
            lemma_search_lookup(self.component_ids@, key, r);
        }
        match r {
            Ok(idx) => {
                self.component_ids[idx].1
            },
            Err(pos) => {
                let ghost prev = *self;
                let id = self.push_component_type(layout);
                let ghost mid = *self;
                self.component_ids.insert(pos, (key, id));
                proof {
                    lemma_insert_at(prev.component_ids@, key, id, pos as int);
                    let t = self.component_ids@;
                    let s0 = prev.component_ids@;
                    assert forall|i: int| 0 <= i < t.len() implies (#[trigger] t[i]).1 < self.n_components() by {
                        if i < pos {
                            assert(t[i] == s0[i]);
                        } else if i > pos {
                            assert(t[i] == s0[i - 1]);
                        }
                    }
                    assert forall|i: int, j: int| 0 <= i < j < t.len() implies t[i].1 != t[j].1 by {
                        if i < pos {
                            assert(t[i] == s0[i]);
                        } else if i > pos {
                            assert(t[i] == s0[i - 1]);
                        }
                        if j < pos {
                            assert(t[j] == s0[j]);
                        } else if j > pos {
                            assert(t[j] == s0[j - 1]);
                        }
                    }
                    self.lemma_archetypes_wf_transfer(&mid);
                    assert(self.registry_wf());
                    assert(self.same_entities(&mid));
                    assert(self.same_entities(&prev)) by {
                        assert forall|x: Entity| #[trigger] self.same_entity(&prev, x) by {
                            assert(mid.same_entity(&prev, x));
                            assert forall|c: usize| #[trigger] self.has(x, c) == prev.has(x, c) by {
                                assert(mid.has(x, c) == prev.has(x, c));
                            }
                            assert forall|c: usize| #[trigger] self.has(x, c) implies self.cell(x, c) == prev.cell(x, c) by {
                                assert(mid.has(x, c));
                            }
                        }
                    }
                }
                id
            },
        }
    }

    /// Adds a component type laid out as `layout`, under the next id, to
    /// the layouts and to the column map of every archetype (as absent);
    /// no key names it yet.
    pub(crate) fn push_component_type(&mut self, layout: ItemLayout) -> (id: usize)
        requires
            old(self).wf(),
            layout.valid(),
            old(self).n_components() + 1 < u32::MAX,
        ensures
            final(self).wf(),
            id == old(self).n_components(),
            final(self).component_layouts@ == old(self).component_layouts@.push(layout),
            final(self).n_archetypes() == old(self).n_archetypes(),
            forall|a: int|
                0 <= a < old(self).n_archetypes() ==> #[trigger] final(self).extended_archetype(old(self), a),
            forall|a: int|
                0 <= a < old(self).n_archetypes() ==> {
                    &&& (#[trigger] final(self).archetypes@[a]).entities == old(self).archetypes@[a].entities
                    &&& final(self).archetypes@[a].signature == old(self).archetypes@[a].signature
                },
            final(self).same_entities(old(self)),
            *final(self) == (World {
                component_layouts: final(self).component_layouts,
                archetypes: final(self).archetypes,
                ..*old(self)
            }),
    {
        let id = self.component_layouts.len();
        let ghost prev = *self;
        self.component_layouts.push(layout);
        let n = self.archetypes.len();
        let mut a: usize = 0;
        let ghost mid = *self;
        while a < n
            invariant
                *self == (World { archetypes: self.archetypes, ..mid }),
                mid.component_layouts@ == prev.component_layouts@.push(layout),
                n == self.archetypes@.len(),
                n == prev.archetypes@.len(),
                0 <= a <= n,
                id == prev.n_components(),
                prev.wf(),
                forall|b: int| 0 <= b < a ==> #[trigger] self.extended_archetype(&prev, b),
                forall|b: int| a <= b < n ==> #[trigger] self.archetypes@[b] == prev.archetypes@[b],
            decreases n - a,
        {
            assert(prev.archetypes@[a as int].wf(a as int, prev.component_layouts@));
            let ghost before = self.archetypes@;
            let ghost before_self = *self;
            if self.archetypes[a].component_to_column.len() <= id {
                self.archetypes[a].component_to_column.push(NO_COLUMN);
            }
            assert forall|b: int| 0 <= b < n && b != a implies #[trigger] self.archetypes@[b] == before[b] by {}
            assert(self.extended_archetype(&prev, a as int));
            assert forall|b: int| 0 <= b < a + 1 implies #[trigger] self.extended_archetype(&prev, b) by {
                if b < a {
                    assert(self.archetypes@[b] == before[b]);
                    assert(before_self.extended_archetype(&prev, b));
                }
            }
            a = a + 1;
        }
        proof {
            assert forall|b: int| 0 <= b < n implies (#[trigger] self.archetypes@[b]).wf(
                b,
                self.component_layouts@,
            ) by {
                assert(self.extended_archetype(&prev, b));
                assert(prev.archetypes@[b].wf(b, prev.component_layouts@));
                let x = self.archetypes@[b];
                assert forall|c: int| 0 <= c < self.n_components() implies {
                    ||| #[trigger] x.component_to_column@[c] == NO_COLUMN
                    ||| (x.component_to_column@[c] < x.signature@.len()
                        && x.signature@[x.component_to_column@[c] as int] == c)
                } by {
                    assert(x.component_to_column@.len() == prev.n_components() + 1);
                    if c < prev.n_components() {
                        assert(x.component_to_column@[c] == prev.archetypes@[b].component_to_column@[c]);
                    } else {
                        assert(x.component_to_column@[c] == NO_COLUMN);
                    }
                }
                assert forall|i: int| 0 <= i < x.signature@.len() implies x.component_to_column@[#[trigger] x.signature@[i] as int] == i by {
                    assert(x.signature@[i] < prev.n_components());
                }
            }
            assert forall|b: int| 0 <= b < n implies #[trigger] self.edges_wf(b) by {
                assert(prev.edges_wf(b));
                assert(self.extended_archetype(&prev, b));
                let x = self.archetypes@[b];
                let y = prev.archetypes@[b];
                assert forall|i: int| 0 <= i < x.add_edges@.len() implies {
                    let (c, t) = #[trigger] x.add_edges@[i];
                    &&& c < self.n_components()
                    &&& t < self.n_archetypes()
                    &&& !x.has_component(c)
                    &&& self.archetypes@[t as int].has_component(c)
                    &&& self.archetypes@[t as int].col_of(c) <= x.signature@.len()
                    &&& self.archetypes@[t as int].signature@ == x.signature@.insert(
                        self.archetypes@[t as int].col_of(c),
                        c,
                    )
                } by {
                    let (c, t) = x.add_edges@[i];
                    assert(x.add_edges@[i] == y.add_edges@[i]);
                    assert(t < n);
                    assert(self.extended_archetype(&prev, t as int));
                }
                assert forall|i: int| 0 <= i < x.remove_edges@.len() implies {
                    let (c, t) = #[trigger] x.remove_edges@[i];
                    &&& c < self.n_components()
                    &&& t < self.n_archetypes()
                    &&& x.has_component(c)
                    &&& self.archetypes@[t as int].signature@ == x.signature@.remove(x.col_of(c))
                } by {
                    let (c, t) = x.remove_edges@[i];
                    assert(x.remove_edges@[i] == y.remove_edges@[i]);
                    assert(t < n);
                    assert(self.extended_archetype(&prev, t as int));
                    assert(c < prev.n_components());
                    assert(x.col_of(c) == y.col_of(c));
                }
            }
            assert forall|a1: int| 0 <= a1 < n implies #[trigger] self.archetypes@[a1].entities@.len() == prev.archetypes@[a1].entities@.len() by {
                assert(self.extended_archetype(&prev, a1));
            }
            assert(self.placement_wf()) by {
                assert forall|a1: int, r: int|
                    0 <= a1 < n && 0 <= r < self.archetypes@[a1].entities@.len() implies #[trigger] self.archetypes@[a1].entities@[r] == prev.archetypes@[a1].entities@[r] by {
                    assert(self.extended_archetype(&prev, a1));
                }
            }
            assert(self.same_entities(&prev)) by {
                assert forall|x: Entity| #[trigger] self.same_entity(&prev, x) by {
                    if prev.alive(x) {
                        let a1 = prev.record(x.id).archetype_id as int;
                        assert(self.extended_archetype(&prev, a1));
                        assert(prev.archetypes@[a1].wf(a1, prev.component_layouts@));
                        assert forall|c: usize| #[trigger] self.has(x, c) implies self.cell(x, c) == prev.cell(x, c) by {
                            let k = self.archetype_of(x).signature@.index_of(c);
                            assert(self.archetype_of(x).signature@[k] == c);
                        }
                    }
                }
            }
            assert forall|a1: int| 0 <= a1 < n implies {
                &&& (#[trigger] self.archetypes@[a1]).entities == prev.archetypes@[a1].entities
                &&& self.archetypes@[a1].signature == prev.archetypes@[a1].signature
            } by {
                assert(self.extended_archetype(&prev, a1));
            }
        assert(self.registry_wf());
            assert(self.archetypes_wf());
            assert(self.placement_wf());
            assert(self.active_wf());
            assert(self.allocator_wf());
            assert(self.resources_wf());
        }
        id
    }
}

} // verus!
