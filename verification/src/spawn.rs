use vstd::prelude::*;

use crate::archetype::{row_cells, strictly_sorted};
use crate::entity::{Entity, EntityRecord, NO_ARCHETYPE};
use crate::signature::sig_with;
use crate::world::{lookup, values_distinct, BundleComponent, World};

verus! {

/// Distinct keys filed in a list with distinct values find distinct values.
pub proof fn lemma_lookup_distinct(s: Seq<(u64, usize)>, k1: u64, k2: u64)
    requires
        values_distinct(s),
        k1 != k2,
        lookup(s, k1) is Some,
        lookup(s, k2) is Some,
    ensures
        lookup(s, k1) != lookup(s, k2),
{
    let i1 = choose|i: int| 0 <= i < s.len() && #[trigger] s[i].0 == k1;
    let i2 = choose|i: int| 0 <= i < s.len() && #[trigger] s[i].0 == k2;
    assert(i1 != i2);
}

impl World {
    /// The bundle can be spawned: valid layouts matching the bytes and any
    /// earlier registration, and no component type twice.
    pub open spec fn bundle_ok(&self, bundle: Seq<BundleComponent>) -> bool {
        &&& forall|i: int|
            0 <= i < bundle.len() ==> {
                &&& (#[trigger] bundle[i]).layout.valid()
                &&& bundle[i].value@.len() == bundle[i].layout.size
                &&& self.layout_fits(bundle[i].key, bundle[i].layout)
            }
        &&& forall|i: int, j: int| 0 <= i < j < bundle.len() ==> bundle[i].key != bundle[j].key
    }

    /// Registers the component types of `bundle`, in the bundle's order, and
    /// gives back the id of each.
    fn register_bundle(&mut self, bundle: &Vec<BundleComponent>) -> (ids: Vec<usize>)
        requires
            old(self).wf(),
            old(self).n_components() + bundle@.len() + 1 < u32::MAX,
            old(self).bundle_ok(bundle@),
        ensures
            final(self).wf(),
            ids@.len() == bundle@.len(),
            forall|j: int| 0 <= j < bundle@.len() ==> final(self).component_id(bundle@[j].key) == Some(#[trigger] ids@[j]),
            forall|j: int| 0 <= j < bundle@.len() ==> #[trigger] ids@[j] < final(self).n_components(),
            forall|k: u64|
                (forall|j: int| 0 <= j < bundle@.len() ==> #[trigger] bundle@[j].key != k) ==> #[trigger] final(self).component_id(k)
                    == old(self).component_id(k),
            forall|k: u64| old(self).component_id(k) is Some ==> #[trigger] final(self).component_id(k) == old(self).component_id(k),
            old(self).n_components() <= final(self).n_components() <= old(self).n_components() + bundle@.len(),
            forall|c: int| 0 <= c < old(self).n_components() ==> #[trigger] final(self).component_layouts@[c] == old(self).component_layouts@[c],
            final(self).bundle_ok(bundle@),
            final(self).n_archetypes() == old(self).n_archetypes(),
            forall|a: int| 0 <= a < old(self).n_archetypes() ==> #[trigger] final(self).archetypes@[a].entities == old(self).archetypes@[a].entities,
            final(self).same_entities(old(self)),
            *final(self) == (World {
                component_ids: final(self).component_ids,
                component_layouts: final(self).component_layouts,
                archetypes: final(self).archetypes,
                ..*old(self)
            }),
    {
        let ghost old_self = *self;
        let n = bundle.len();
        let mut ids: Vec<usize> = Vec::new();
        let mut i: usize = 0;
        while i < n
            invariant
                n == bundle@.len(),
                0 <= i <= n,
                self.wf(),
                old_self.wf(),
                old_self.bundle_ok(bundle@),
                old_self.n_components() + n + 1 < u32::MAX,
                old_self.n_components() <= self.n_components() <= old_self.n_components() + i,
                forall|k: u64| old_self.component_id(k) is Some ==> #[trigger] self.component_id(k) == old_self.component_id(k),
                forall|c: int| 0 <= c < old_self.n_components() ==> #[trigger] self.component_layouts@[c] == old_self.component_layouts@[c],
                self.n_archetypes() == old_self.n_archetypes(),
                forall|a: int| 0 <= a < old_self.n_archetypes() ==> #[trigger] self.archetypes@[a].entities == old_self.archetypes@[a].entities,
                ids@.len() == i,
                forall|j: int| 0 <= j < i ==> self.component_id(bundle@[j].key) == Some(#[trigger] ids@[j]),
                forall|j: int| 0 <= j < i ==> #[trigger] ids@[j] < self.n_components(),
                forall|k: u64|
                    (forall|j: int| 0 <= j < i ==> #[trigger] bundle@[j].key != k) ==> #[trigger] self.component_id(k)
                        == old_self.component_id(k),
                forall|j: int| 0 <= j < n ==> #[trigger] self.layout_fits(bundle@[j].key, bundle@[j].layout),
                self.same_entities(&old_self),
                *self == (World {
                    component_ids: self.component_ids,
                    component_layouts: self.component_layouts,
                    archetypes: self.archetypes,
                    ..old_self
                }),
            decreases n - i,
        {
            let ghost prev = *self;
            let comp = &bundle[i];
            proof {
                assert(old_self.bundle_ok(bundle@));
                assert(bundle@[i as int].layout.valid());
            }
            let id = self.register(comp.key, comp.layout);
            ids.push(id);
            proof {
                assert forall|j: int| 0 <= j < i + 1 implies self.component_id(bundle@[j].key) == Some(#[trigger] ids@[j]) by {
                    if j < i {
                        assert(bundle@[j].key != bundle@[i as int].key);
                        assert(prev.component_id(bundle@[j].key) == Some(ids@[j]));
                    }
                }
                assert forall|k: u64|
                    (forall|j: int| 0 <= j < i + 1 ==> #[trigger] bundle@[j].key != k) implies #[trigger] self.component_id(k)
                    == old_self.component_id(k) by {
                    assert(bundle@[i as int].key != k);
                    assert(prev.component_id(k) == old_self.component_id(k));
                }
                assert forall|k: u64| old_self.component_id(k) is Some implies #[trigger] self.component_id(k) == old_self.component_id(k) by {
                    assert(prev.component_id(k) == old_self.component_id(k));
                }
                assert forall|a: int| 0 <= a < old_self.n_archetypes() implies #[trigger] self.archetypes@[a].entities == old_self.archetypes@[a].entities by {
                    assert(prev.archetypes@[a].entities == old_self.archetypes@[a].entities);
                }
                assert forall|c: int| 0 <= c < old_self.n_components() implies #[trigger] self.component_layouts@[c] == old_self.component_layouts@[c] by {
                    assert(prev.component_layouts@[c] == old_self.component_layouts@[c]);
                }
                assert forall|j: int| 0 <= j < n implies #[trigger] self.layout_fits(bundle@[j].key, bundle@[j].layout) by {
                    assert(prev.layout_fits(bundle@[j].key, bundle@[j].layout));
                    if bundle@[j].key != bundle@[i as int].key && prev.component_id(bundle@[i as int].key) is None {
                        assert(self.component_id(bundle@[j].key) == prev.component_id(bundle@[j].key));
                    }
                    if prev.component_id(bundle@[i as int].key) is None && bundle@[j].key == bundle@[i as int].key {
                        assert(j == i);
                    }
                }
                assert forall|x: Entity| #[trigger] self.same_entity(&old_self, x) by {
                    assert(self.same_entity(&prev, x));
                    assert(prev.same_entity(&old_self, x));
                    assert forall|c: usize| #[trigger] self.has(x, c) implies self.cell(x, c) == old_self.cell(x, c) by {
                        assert(prev.has(x, c));
                    }
                    assert forall|c: usize| #[trigger] self.has(x, c) == old_self.has(x, c) by {
                        assert(prev.has(x, c) == old_self.has(x, c));
                    }
                }
            }
            i = i + 1;
        }
        proof {
            assert(self.bundle_ok(bundle@)) by {
                assert forall|j: int| 0 <= j < n implies #[trigger] bundle@[j].layout.valid() && bundle@[j].value@.len() == bundle@[j].layout.size && self.layout_fits(bundle@[j].key, bundle@[j].layout) by {
                    assert(old_self.bundle_ok(bundle@));
                }
            }
        }
        ids
    }

    /// Spawns a live entity carrying exactly the components of `bundle`, each
    /// added and changed at the current tick; the component types are
    /// registered as needed, and the archetype of the bundle found or
    /// created. The entity takes the last row of that archetype, whose
    /// columns and itself are stamped at the current tick.
    #[verifier::rlimit(60)]
    pub fn spawn_with(&mut self, bundle: &Vec<BundleComponent>) -> (entity: Entity)
        requires
            old(self).wf(),
            old(self).can_reserve(),
            old(self).n_components() + bundle@.len() + 1 < u32::MAX,
            old(self).n_archetypes() + 1 < u32::MAX,
            old(self).bundle_ok(bundle@),
        ensures
            final(self).wf(),
            entity == old(self).next_reserved(),
            !old(self).alive(entity),
            final(self).alive(entity),
            forall|i: int|
                0 <= i < bundle@.len() ==> {
                    let c = final(self).component_id(bundle@[i].key)->Some_0;
                    &&& final(self).component_id(#[trigger] bundle@[i].key) is Some
                    &&& final(self).has(entity, c)
                    &&& final(self).cell(entity, c) == (bundle@[i].value@, old(self).current_tick, old(self).current_tick)
                },
            forall|d: usize|
                #[trigger] final(self).has(entity, d) ==> exists|i: int|
                    0 <= i < bundle@.len() && final(self).component_id(#[trigger] bundle@[i].key) == Some(d),
            final(self).same_except(old(self), entity.id),
            forall|k: u64|
                (forall|i: int| 0 <= i < bundle@.len() ==> #[trigger] bundle@[i].key != k)
                    ==> #[trigger] final(self).component_id(k) == old(self).component_id(k),
            final(self).structural_gen == vstd::wrapping::u64_specs::wrapping_add(old(self).structural_gen, 1),
            old(self).free_entities@.len() > 0 ==> {
                &&& final(self).free_entities@ == old(self).free_entities@.drop_last()
                &&& final(self).next_entity_id == old(self).next_entity_id
            },
            old(self).free_entities@.len() == 0 ==> {
                &&& final(self).free_entities@ == old(self).free_entities@
                &&& final(self).next_entity_id == old(self).next_entity_id + 1
            },
            final(self).spawn_queue == old(self).spawn_queue,
            final(self).despawn_queue == old(self).despawn_queue,
            final(self).typed_queues == old(self).typed_queues,
            final(self).current_tick == old(self).current_tick,
            final(self).n_components() <= old(self).n_components() + bundle@.len(),
            final(self).n_archetypes() <= old(self).n_archetypes() + 1,
            final(self).live_count() == old(self).live_count() + 1,
            final(self).bundle_ok(bundle@),
            forall|k: u64| old(self).component_id(k) is Some ==> #[trigger] final(self).component_id(k) == old(self).component_id(k),
            forall|c: int| 0 <= c < old(self).n_components() ==> #[trigger] final(self).component_layouts@[c] == old(self).component_layouts@[c],
            forall|x: Entity| #[trigger] old(self).alive(x) ==> x.id != entity.id && final(self).alive(x),
            final(self).archetype_of(entity).last_modified_tick == old(self).current_tick,
            forall|j: int|
                0 <= j < final(self).archetype_of(entity).columns@.len() ==> {
                    &&& (#[trigger] final(self).archetype_of(entity).columns@[j]).last_added_tick == old(self).current_tick
                    &&& final(self).archetype_of(entity).columns@[j].last_changed_tick == old(self).current_tick
                },
            final(self).record(entity.id).row == final(self).archetype_of(entity).entities@.len() - 1,
            final(self).archetype_of(entity).entities@ == (if (final(self).record(entity.id).archetype_id as int) < old(self).n_archetypes() {
                old(self).archetypes@[final(self).record(entity.id).archetype_id as int].entities@
            } else {
                Seq::empty()
            }).push(entity),
            forall|b: int|
                0 <= b < old(self).n_archetypes() && b != final(self).record(entity.id).archetype_id
                    ==> #[trigger] final(self).archetypes@[b].entities == old(self).archetypes@[b].entities,
    {
        let ghost old_self = *self;
        let n = bundle.len();
        let ids = self.register_bundle(bundle);
        let ghost w1 = *self;
        proof {
            assert forall|a: int, b: int| 0 <= a < b < n implies ids@[a] != ids@[b] by {
                assert(self.component_id(bundle@[a].key) == Some(ids@[a]));
                assert(self.component_id(bundle@[b].key) == Some(ids@[b]));
                lemma_lookup_distinct(self.component_ids@, bundle@[a].key, bundle@[b].key);
            }
        }
        // the sorted signature
        let mut sig: Vec<usize> = Vec::new();
        let mut j: usize = 0;
        while j < n
            invariant
                n == bundle@.len(),
                ids@.len() == n,
                0 <= j <= n,
                strictly_sorted(sig@),
                forall|a: int, b: int| 0 <= a < b < n ==> ids@[a] != ids@[b],
                forall|x: usize| #[trigger] sig@.contains(x) <==> exists|a: int| 0 <= a < j && ids@[a] == x,
                sig@.len() == j,
            decreases n - j,
        {
            let id = ids[j];
            proof {
                if sig@.contains(id) {
                    let a = choose|a: int| 0 <= a < j && ids@[a] == id;
                }
            }
            let r = sig_with(&sig, id);
            let ghost old_sig = sig@;
            sig = r.0;
            proof {
                let p = r.1 as int;
                assert forall|x: usize| #[trigger] sig@.contains(x) <==> exists|a: int| 0 <= a < j + 1 && ids@[a] == x by {
                    if sig@.contains(x) {
                        let k = sig@.index_of(x);
                        if k < p {
                            assert(old_sig[k] == x);
                            assert(old_sig.contains(x));
                        } else if k > p {
                            assert(old_sig[k - 1] == x);
                            assert(old_sig.contains(x));
                        } else {
                            assert(ids@[j as int] == x);
                        }
                    }
                    if exists|a: int| 0 <= a < j + 1 && ids@[a] == x {
                        let a = choose|a: int| 0 <= a < j + 1 && ids@[a] == x;
                        if a < j {
                            assert(old_sig.contains(x));
                            let k = old_sig.index_of(x);
                            if k < p {
                                assert(sig@[k] == x);
                            } else {
                                assert(sig@[k + 1] == x);
                            }
                        } else {
                            assert(sig@[p] == x);
                        }
                    }
                }
            }
            j = j + 1;
        }
        proof {
            assert forall|k: int| 0 <= k < sig@.len() implies #[trigger] sig@[k] < self.n_components() by {
                assert(sig@.contains(sig@[k]));
                let a = choose|a: int| 0 <= a < n && ids@[a] == sig@[k];
            }
            assert(self.n_archetypes() + 1 < u32::MAX);
        }
        let t = self.get_or_create_archetype(sig.as_slice()) as usize;
        let ghost w2 = *self;
        proof {
            assert(self.component_ids == w1.component_ids);
            assert(self.free_entities == old_self.free_entities);
            assert(self.next_entity_id == old_self.next_entity_id);
        }
        let entity = self.reserve_entity();
        let ghost w3 = *self;
        self.grow_records(entity.id);
        let ghost w4 = *self;
        proof {
            if (entity.id as int) < w3.records@.len() {
                assert(self.records@[entity.id as int] == w3.records@[entity.id as int]);
            }
            self.lemma_dead_slot_detached(entity.id);
            assert(self.archetypes@[t as int].wf(t as int, self.component_layouts@));
            assert(self.archetypes@[t as int].signature@ == sig@);
        }
        // the cells, in column order
        proof {
            assert forall|a: int| 0 <= a < n implies #[trigger] w1.component_layouts@[ids@[a] as int].size
                == bundle@[a].layout.size by {
                assert(w1.layout_fits(bundle@[a].key, bundle@[a].layout));
                assert(w1.component_id(bundle@[a].key) == Some(ids@[a]));
            }
            assert forall|a: int| 0 <= a < n implies (#[trigger] bundle@[a]).value@.len() == bundle@[a].layout.size by {
                assert(old_self.bundle_ok(bundle@));
            }
            assert(self.component_layouts == w1.component_layouts);
        }
        let cur = self.current_tick;
        let m = sig.len();
        let mut cells: Vec<(Vec<u8>, u32, u32)> = Vec::new();
        let ghost mut src: Seq<int> = Seq::empty();
        let mut k: usize = 0;
        while k < m
            invariant
                m == sig@.len(),
                n == bundle@.len(),
                ids@.len() == n,
                0 <= k <= m,
                cells@.len() == k,
                forall|x: usize| #[trigger] sig@.contains(x) <==> exists|a: int| 0 <= a < n && ids@[a] == x,
                src.len() == k,
                forall|q: int|
                    0 <= q < k ==> {
                        &&& 0 <= #[trigger] src[q] < n
                        &&& ids@[src[q]] == sig@[q]
                        &&& row_cells(cells@)[q] == (bundle@[src[q]].value@, cur, cur)
                    },
                forall|q: int| 0 <= q < k ==> (#[trigger] cells@[q]).0@.len() == w1.component_layouts@[sig@[q] as int].size,
                forall|a: int| 0 <= a < n ==> #[trigger] w1.component_layouts@[ids@[a] as int].size == bundle@[a].layout.size,
                forall|a: int| 0 <= a < n ==> (#[trigger] bundle@[a]).value@.len() == bundle@[a].layout.size,
            decreases m - k,
        {
            let target = sig[k];
            proof {
                assert(sig@.contains(target));
            }
            let mut a: usize = 0;
            while a < n && ids[a] != target
                invariant
                    n == bundle@.len(),
                    ids@.len() == n,
                    0 <= a <= n,
                    forall|b: int| 0 <= b < a ==> ids@[b] != target,
                    exists|b: int| 0 <= b < n && ids@[b] == target,
                decreases n - a,
            {
                a = a + 1;
            }
            proof {
                if a >= n {
                    let b = choose|b: int| 0 <= b < n && ids@[b] == target;
                    assert(ids@[b] != target);
                }
                assert(ids@[a as int] == sig@[k as int]);
            }
            let v = bundle[a].value.clone();
            proof {
                assert(v@ =~= bundle@[a as int].value@);
            }
            let ghost prev = cells@;
            cells.push((v, cur, cur));
            proof {
                assert(row_cells(cells@) =~= row_cells(prev).push((bundle@[a as int].value@, cur, cur)));
                src = src.push(a as int);
                assert forall|q: int|
                    0 <= q < k + 1 implies {
                        &&& 0 <= #[trigger] src[q] < n
                        &&& ids@[src[q]] == sig@[q]
                        &&& row_cells(cells@)[q] == (bundle@[src[q]].value@, cur, cur)
                    } by {
                    if q < k {
                        assert(row_cells(cells@)[q] == row_cells(prev)[q]);
                    }
                }
            }
            k = k + 1;
        }
        proof {
            assert forall|q: int| 0 <= q < cells@.len() implies (#[trigger] cells@[q]).0@.len()
                == self.component_layouts@[self.archetypes@[t as int].signature@[q] as int].size by {}
            assert(w3.spawnable(entity));
        }
        let ghost cells1 = cells@;
        self.attach_row(entity, t, cells);
        let ghost w5 = *self;
        // stamp every column as just added
        let mut q: usize = 0;
        while q < m
            invariant
                self.wf(),
                0 <= q <= m,
                t < self.n_archetypes(),
                self.n_archetypes() == w5.n_archetypes(),
                m == self.archetypes@[t as int].columns@.len(),
                self.archetypes@[t as int].entities == w5.archetypes@[t as int].entities,
                forall|b: int| 0 <= b < self.n_archetypes() && b != t ==> #[trigger] self.archetypes@[b] == w5.archetypes@[b],
                forall|j: int|
                    0 <= j < q ==> (#[trigger] self.archetypes@[t as int].columns@[j]).last_added_tick == w5.current_tick
                        && self.archetypes@[t as int].columns@[j].last_changed_tick == w5.current_tick,
                self.same_entities(&w5),
                *self == (World { archetypes: self.archetypes, ..w5 }),
            decreases m - q,
        {
            let ghost prev = *self;
            self.stamp_column(t, q, true);
            proof {
                assert forall|x: Entity| #[trigger] self.same_entity(&w5, x) by {
                    assert(self.same_entity(&prev, x));
                    assert(prev.same_entity(&w5, x));
                    assert forall|c: usize| #[trigger] self.has(x, c) implies self.cell(x, c) == w5.cell(x, c) by {
                        assert(prev.has(x, c));
                    }
                    assert forall|c: usize| #[trigger] self.has(x, c) == w5.has(x, c) by {
                        assert(prev.has(x, c) == w5.has(x, c));
                    }
                }
                assert(self.archetypes@[t as int].columns@.len() == prev.archetypes@[t as int].columns@.len());
                assert forall|j: int|
                    0 <= j < q + 1 implies (#[trigger] self.archetypes@[t as int].columns@[j]).last_added_tick == w5.current_tick
                        && self.archetypes@[t as int].columns@[j].last_changed_tick == w5.current_tick by {
                    if j < q {
                        assert(self.archetypes@[t as int].columns@[j] == prev.archetypes@[t as int].columns@[j]);
                    }
                }
            }
            q = q + 1;
        }
        let ghost w5b = *self;
        self.stamp_archetype(t);
        proof {
            assert forall|x: Entity| #[trigger] self.same_entity(&w5, x) by {
                assert(self.same_entity(&w5b, x));
                assert(w5b.same_entity(&w5, x));
                assert forall|c: usize| #[trigger] self.has(x, c) implies self.cell(x, c) == w5.cell(x, c) by {
                    assert(w5b.has(x, c));
                }
                assert forall|c: usize| #[trigger] self.has(x, c) == w5.has(x, c) by {
                    assert(w5b.has(x, c) == w5.has(x, c));
                }
            }
            assert forall|b: int| 0 <= b < self.n_archetypes() && b != t implies #[trigger] self.archetypes@[b] == w5.archetypes@[b] by {
                assert(self.archetypes@[b] == w5b.archetypes@[b]);
            }
        }
        let ghost w6 = *self;
        self.structural_gen = self.structural_gen.wrapping_add(1);
        proof {
            self.lemma_archetypes_wf_transfer(&w6);
            assert(self.same_entities(&w5)) by {
                assert forall|x: Entity| #[trigger] self.same_entity(&w5, x) by {
                    assert(w6.same_entity(&w5, x));
                    assert(self.records == w6.records && self.archetypes == w6.archetypes);
                    assert forall|c: usize| #[trigger] self.has(x, c) implies self.cell(x, c) == w5.cell(x, c) by {
                        assert(w6.has(x, c));
                    }
                    assert forall|c: usize| #[trigger] self.has(x, c) == w5.has(x, c) by {
                        assert(w6.has(x, c) == w5.has(x, c));
                    }
                }
            }
            // the chain old -> w1 -> w2 -> w3 -> w4 keeps every handle
            assert forall|x: Entity| #[trigger] w4.same_entity(&old_self, x) by {
                assert(w4.same_entity(&w3, x));
                assert(w3.same_entity(&w2, x));
                assert(w2.same_entity(&w1, x));
                assert(w1.same_entity(&old_self, x));
                assert forall|c: usize| #[trigger] w4.has(x, c) implies w4.cell(x, c) == old_self.cell(x, c) by {
                    assert(w3.has(x, c));
                    assert(w2.has(x, c));
                    assert(w1.has(x, c));
                }
                assert forall|c: usize| #[trigger] w4.has(x, c) == old_self.has(x, c) by {
                    assert(w3.has(x, c) == w2.has(x, c));
                    assert(w2.has(x, c) == w1.has(x, c));
                    assert(w1.has(x, c) == old_self.has(x, c));
                }
            }
            assert forall|x: Entity| x.id != entity.id implies #[trigger] self.same_entity(&old_self, x) by {
                assert(self.same_entity(&w5, x));
                assert(w5.same_entity(&w4, x));
                assert(w4.same_entity(&old_self, x));
                assert forall|c: usize| #[trigger] self.has(x, c) implies self.cell(x, c) == old_self.cell(x, c) by {
                    assert(w5.has(x, c));
                    assert(w4.has(x, c));
                }
                assert forall|c: usize| #[trigger] self.has(x, c) == old_self.has(x, c) by {
                    assert(w5.has(x, c) == w4.has(x, c));
                    assert(w4.has(x, c) == old_self.has(x, c));
                }
            }
            assert(!old_self.alive(entity)) by {
                assert(w4.same_entity(&old_self, entity));
                assert(w3.spawnable(entity));
            }
            assert(self.same_entity(&w5, entity));
            assert(self.component_ids == w1.component_ids);
            assert forall|i: int|
                0 <= i < bundle@.len() implies {
                    let c = self.component_id(bundle@[i].key)->Some_0;
                    &&& self.component_id(#[trigger] bundle@[i].key) is Some
                    &&& self.has(entity, c)
                    &&& self.cell(entity, c) == (bundle@[i].value@, old_self.current_tick, old_self.current_tick)
                } by {
                let c = ids@[i];
                assert(w1.component_id(bundle@[i].key) == Some(c));
                assert(sig@.contains(c));
                let qq = sig@.index_of(c);
                assert(sig@[qq] == c);
                assert(w5.has(entity, c));
                assert(w5.cell(entity, sig@[qq]) == row_cells(cells1)[qq]);
                let b = src[qq];
                assert(0 <= b < n && ids@[b] == sig@[qq]);
                assert(b == i);
                assert(self.has(entity, c));
            }
            assert forall|d: usize|
                #[trigger] self.has(entity, d) implies exists|i: int|
                    0 <= i < bundle@.len() && self.component_id(#[trigger] bundle@[i].key) == Some(d) by {
                assert(w5.has(entity, d));
                assert(sig@.contains(d));
                let a = choose|a: int| 0 <= a < n && ids@[a] == d;
                assert(w1.component_id(bundle@[a].key) == Some(ids@[a]));
            }
            assert forall|k: u64|
                (forall|i: int| 0 <= i < bundle@.len() ==> #[trigger] bundle@[i].key != k) implies #[trigger] self.component_id(k)
                == old_self.component_id(k) by {
                assert(w1.component_id(k) == old_self.component_id(k));
            }
            assert(w3.records == old_self.records);
            assert(self.records == w5.records);
            assert(w3.spawnable(entity));
            assert forall|k: int| 0 <= k < old_self.records@.len() && k != entity.id implies (#[trigger] self.records@[k]).archetype_id
                == old_self.records@[k].archetype_id by {
                assert(w4.records@[k] == w3.records@[k]);
            }
            assert forall|k: int| old_self.records@.len() <= k < self.records@.len() && k != entity.id implies (#[trigger] self.records@[k]).archetype_id
                == NO_ARCHETYPE by {
                assert(w4.records@[k] == EntityRecord::dead_spec());
            }
            crate::entities::lemma_live_slots_place(old_self.records@, self.records@, entity.id as int);
            assert(self.component_layouts == w1.component_layouts);
            assert(self.bundle_ok(bundle@)) by {
                assert forall|i: int| 0 <= i < bundle@.len() implies #[trigger] self.layout_fits(bundle@[i].key, bundle@[i].layout) by {
                    assert(w1.layout_fits(bundle@[i].key, bundle@[i].layout));
                }
            }
            assert(self.record(entity.id).row == w4.archetypes@[t as int].entities@.len());
            assert(self.record(entity.id).archetype_id == t);
            assert forall|x: Entity| #[trigger] old_self.alive(x) implies x.id != entity.id && self.alive(x) by {
                assert(w3.records == old_self.records);
                if x.id == entity.id {
                    assert(old_self.records@[x.id as int].archetype_id != NO_ARCHETYPE);
                }
                assert(self.same_entity(&old_self, x));
            }
            assert forall|b: int| 0 <= b < old_self.n_archetypes() && b != t implies #[trigger] self.archetypes@[b].entities
                == old_self.archetypes@[b].entities by {
                assert(self.archetypes@[b] == w5.archetypes@[b]);
                assert(w5.archetypes@[b] == w4.archetypes@[b]);
                assert(w2.archetypes@[b] == w1.archetypes@[b]);
                assert(w1.archetypes@[b].entities == old_self.archetypes@[b].entities);
            }
            if t < old_self.n_archetypes() {
                assert(w2.archetypes@[t as int] == w1.archetypes@[t as int]);
                assert(w1.archetypes@[t as int].entities == old_self.archetypes@[t as int].entities);
            }
        }
        entity
    }
}

} // verus!
