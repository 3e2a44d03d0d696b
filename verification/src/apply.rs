use vstd::prelude::*;

use crate::archetype::ItemLayout;
use crate::commands::{queues_view, view_fits, views_fit};
use crate::entities::next_generation;
use crate::entity::{Entity, EntityRecord, NO_ARCHETYPE};
use crate::structure::remove_value;
use crate::world::{has_id, ids_distinct, Links, Op, TypedQueue, World};

verus! {

/// The handle that a slot freed from `e` takes: the same slot at the next
/// generation.
pub open spec fn freed(e: Entity) -> Entity {
    Entity { id: e.id, generation: next_generation(e.generation) }
}

/// The operations of the queues `qs`, queue after queue, each with the key
/// and layout of its queue.
pub open spec fn flat_ops(qs: Seq<(u64, ItemLayout, Seq<Op>)>) -> Seq<(u64, ItemLayout, Op)>
    decreases qs.len(),
{
    if qs.len() == 0 {
        Seq::empty()
    } else {
        flat_ops(qs.drop_last()) + qs.last().2.map_values(|op: Op| (qs.last().0, qs.last().1, op))
    }
}

/// Each world of `ws` follows from the one before by the operation at the
/// same place in `ops`.
pub open spec fn ops_chain(ws: Seq<World>, ops: Seq<(u64, ItemLayout, Op)>) -> bool {
    &&& ws.len() == ops.len() + 1
    &&& forall|i: int| 0 <= i < ops.len() ==> #[trigger] ws[i + 1].op_outcome(&ws[i], ops[i].0, ops[i].2)
}

/// `s` with every entity that shares its slot with the one before it left
/// out: the first of each run of equal slots stays.
pub open spec fn dedup_slots(s: Seq<Entity>) -> Seq<Entity>
    decreases s.len(),
{
    if s.len() == 0 {
        Seq::empty()
    } else {
        let d = dedup_slots(s.drop_last());
        if s.len() >= 2 && s[s.len() - 2].id == s.last().id {
            d
        } else {
            d.push(s.last())
        }
    }
}

/// The slots of `s` never decrease.
pub open spec fn sorted_by_slot(s: Seq<Entity>) -> bool {
    forall|i: int, j: int| 0 <= i < j < s.len() ==> s[i].id <= s[j].id
}

/// Sorts `v` by slot with std's `sort_unstable_by_key`: the same entities,
/// in order of their slots; the order among entities of one slot is not
/// stated.
#[verifier::external_body]
fn sort_by_slot(v: &mut Vec<Entity>)
    ensures
        final(v)@.to_multiset() == old(v)@.to_multiset(),
        sorted_by_slot(final(v)@),
{
    v.sort_unstable_by_key(|e| e.id);
}

/// Leaves out of `v` every entity that shares its slot with the one before
/// it.
fn dedup_by_slot(v: &mut Vec<Entity>)
    ensures
        final(v)@ == dedup_slots(old(v)@),
{
    let n = v.len();
    let mut out: Vec<Entity> = Vec::new();
    let mut i: usize = 0;
    while i < n
        invariant
            n == v@.len(),
            0 <= i <= n,
            v@ == old(v)@,
            out@ == dedup_slots(v@.take(i as int)),
        decreases n - i,
    {
        let keep = i == 0 || v[i - 1].id != v[i].id;
        proof {
            let t = v@.take(i + 1);
            assert(t.drop_last() =~= v@.take(i as int));
            assert(t.last() == v@[i as int]);
            if i >= 1 {
                assert(t[t.len() - 2] == v@[i - 1]);
            }
        }
        if keep {
            out.push(v[i]);
        }
        i = i + 1;
    }
    proof {
        assert(v@.take(n as int) =~= v@);
    }
    *v = out;
}

/// How many entities of `ds` are live in `w` and held by archetype `a`.
pub open spec fn count_in(w: &World, ds: Seq<Entity>, a: int) -> nat
    decreases ds.len(),
{
    if ds.len() == 0 {
        0
    } else {
        count_in(w, ds.drop_last(), a) + if w.alive(ds.last()) && w.record(ds.last().id).archetype_id == a {
            1nat
        } else {
            0nat
        }
    }
}

/// Each world of `ws` follows from the one before by despawning the entity
/// at the same place in `ds`, with the archetype counts `counts` taken
/// before the first.
pub open spec fn despawn_chain(ws: Seq<World>, ds: Seq<Entity>, counts: Seq<usize>) -> bool {
    &&& ws.len() == ds.len() + 1
    &&& forall|i: int| 0 <= i < ds.len() ==> #[trigger] ws[i + 1].despawn_step(&ws[i], ds[i], counts)
}

/// The operations of a prefix of the queues come first among all of them.
pub proof fn lemma_flat_ops_prefix(qs: Seq<(u64, ItemLayout, Seq<Op>)>, k: int)
    requires
        0 <= k <= qs.len(),
    ensures
        flat_ops(qs.take(k)).len() <= flat_ops(qs).len(),
    decreases qs.len() - k,
{
    if k < qs.len() {
        lemma_flat_ops_prefix(qs, k + 1);
        assert(qs.take(k + 1).drop_last() =~= qs.take(k));
    } else {
        assert(qs.take(k) =~= qs);
    }
}

/// Queues that fit a world still fit it after a change that registered
/// type `key` with `layout` at most and left every other registration
/// alone.
pub proof fn lemma_views_fit_after(new: &World, old: &World, key: u64, layout: ItemLayout, vs: Seq<(u64, ItemLayout, Seq<Op>)>)
    requires
        views_fit(old, vs),
        new.layout_fits(key, layout),
        forall|k: u64| k != key ==> #[trigger] new.component_id(k) == old.component_id(k),
        forall|c: int| 0 <= c < old.n_components() ==> #[trigger] new.component_layouts@[c] == old.component_layouts@[c],
        forall|i: int| 0 <= i < vs.len() && (#[trigger] vs[i]).0 == key ==> vs[i].1 == layout,
        old.registry_wf(),
    ensures
        views_fit(new, vs),
{
    assert forall|i: int| 0 <= i < vs.len() implies view_fits(new, #[trigger] vs[i]) by {
        assert(view_fits(old, vs[i]));
        if vs[i].0 != key {
            if let Some(c) = old.component_id(vs[i].0) {
                let j = choose|j: int| 0 <= j < old.component_ids@.len() && #[trigger] old.component_ids@[j].0 == vs[i].0;
                assert(old.component_ids@[j].1 < old.n_components());
            }
        }
    }
}

impl World {
    /// `self` is `old` after live `e` was given component type `key` with
    /// `value`; a dead handle changes nothing.
    pub open spec fn added_from(&self, old: &World, e: Entity, key: u64, value: Seq<u8>) -> bool {
        &&& !old.alive(e) ==> *self == *old
        &&& old.alive(e) ==> {
            let c = self.component_id(key)->Some_0;
            &&& self.component_id(key) is Some
            &&& self.alive(e)
            &&& forall|d: usize| #[trigger] self.has(e, d) <==> (old.has(e, d) || d == c)
            &&& self.value(e, c) == value
            &&& self.cell(e, c).2 == old.current_tick
            &&& forall|d: usize| d != c && old.has(e, d) ==> #[trigger] self.cell(e, d) == old.cell(e, d)
            &&& self.same_except(old, e.id)
        }
    }

    /// `self` is `old` after component type `key` was taken from live `e`;
    /// a dead handle, an unregistered type or an entity without it changes
    /// nothing.
    pub open spec fn removed_from(&self, old: &World, e: Entity, key: u64) -> bool {
        &&& (!old.alive(e) || old.component_id(key) is None) ==> *self == *old
        &&& old.alive(e) ==> {
            &&& self.alive(e)
            &&& forall|d: usize|
                #[trigger] self.has(e, d) <==> (old.has(e, d) && Some(d) != old.component_id(key))
            &&& forall|d: usize| #[trigger] self.has(e, d) ==> self.cell(e, d) == old.cell(e, d)
            &&& self.same_except(old, e.id)
        }
    }

    /// `self` is `old` after the deferred operation `op` on component type
    /// `key`.
    pub open spec fn op_outcome(&self, old: &World, key: u64, op: Op) -> bool {
        match op {
            Op::Insert(e, v) => self.added_from(old, e, key, v@),
            Op::Remove(e) => self.removed_from(old, e, key),
        }
    }

    /// Makes the deferred operations of `queues`, queue after queue and each
    /// in the order queued; every queue keeps its key and layout and is left
    /// empty.
    #[verifier::rlimit(30)]
    pub(crate) fn apply_ops(&mut self, queues: &mut Vec<(u64, TypedQueue)>)
        requires
            old(self).wf(),
            views_fit(old(self), queues_view(old(queues)@)),
            old(self).n_components() + flat_ops(queues_view(old(queues)@)).len() + 1 < u32::MAX,
            old(self).n_archetypes() + flat_ops(queues_view(old(queues)@)).len() + 1 < u32::MAX,
        ensures
            final(self).wf(),
            exists|ws: Seq<World>|
                ops_chain(ws, flat_ops(queues_view(old(queues)@))) && ws[0] == *old(self) && ws.last() == *final(self),
            final(queues)@.len() == old(queues)@.len(),
            forall|j: int|
                0 <= j < old(queues)@.len() ==> {
                    &&& (#[trigger] final(queues)@[j]).0 == old(queues)@[j].0
                    &&& final(queues)@[j].1.layout == old(queues)@[j].1.layout
                    &&& final(queues)@[j].1.ops@.len() == 0
                },
            final(self).spawn_queue == old(self).spawn_queue,
            final(self).despawn_queue == old(self).despawn_queue,
            final(self).typed_queues == old(self).typed_queues,
            final(self).free_entities == old(self).free_entities,
            final(self).next_entity_id == old(self).next_entity_id,
            final(self).records@.len() == old(self).records@.len(),
            views_fit(final(self), queues_view(old(queues)@)),
    {
        let ghost w0 = *self;
        let ghost vs = queues_view(queues@);
        let ghost total = flat_ops(vs).len();
        let ghost mut ws: Seq<World> = seq![*self];
        let nq = queues.len();
        let mut q: usize = 0;
        while q < nq
            invariant
                nq == vs.len(),
                queues@.len() == nq,
                0 <= q <= nq,
                self.wf(),
                views_fit(self, vs),
                total == flat_ops(vs).len(),
                self.n_components() + (total - flat_ops(vs.take(q as int)).len()) + 1 < u32::MAX,
                self.n_archetypes() + (total - flat_ops(vs.take(q as int)).len()) + 1 < u32::MAX,
                flat_ops(vs.take(q as int)).len() <= total,
                ops_chain(ws, flat_ops(vs.take(q as int))),
                ws[0] == w0,
                ws.last() == *self,
                forall|j: int|
                    0 <= j < nq ==> {
                        &&& (#[trigger] queues@[j]).0 == vs[j].0
                        &&& queues@[j].1.layout == vs[j].1
                        &&& j < q ==> queues@[j].1.ops@.len() == 0
                        &&& j >= q ==> queues@[j].1.ops@ == vs[j].2
                    },
                self.spawn_queue == w0.spawn_queue,
                self.despawn_queue == w0.despawn_queue,
                self.typed_queues == w0.typed_queues,
                self.free_entities == w0.free_entities,
                self.next_entity_id == w0.next_entity_id,
                self.records@.len() == w0.records@.len(),
            decreases nq - q,
        {
            let key = queues[q].0;
            let layout = queues[q].1.layout;
            let nops = queues[q].1.ops.len();
            let ghost base = flat_ops(vs.take(q as int));
            let ghost here = vs[q as int].2.map_values(|op: Op| (vs[q as int].0, vs[q as int].1, op));
            proof {
                assert(vs.take(q + 1).drop_last() =~= vs.take(q as int));
                assert(vs.take(q + 1).last() == vs[q as int]);
                assert(flat_ops(vs.take(q + 1)) == base + here);
                lemma_flat_ops_prefix(vs, q as int + 1);
                assert(view_fits(self, vs[q as int]));
            }
            let mut i: usize = 0;
            while i < nops
                invariant
                    nq == vs.len(),
                    queues@.len() == nq,
                    q < nq,
                    key == vs[q as int].0,
                    layout == vs[q as int].1,
                    nops == vs[q as int].2.len(),
                    queues@[q as int].1.ops@ == vs[q as int].2,
                    0 <= i <= nops,
                    self.wf(),
                    views_fit(self, vs),
                    total == flat_ops(vs).len(),
                    base == flat_ops(vs.take(q as int)),
                    here == vs[q as int].2.map_values(|op: Op| (vs[q as int].0, vs[q as int].1, op)),
                    base.len() + here.len() <= total,
                    self.n_components() + (total - base.len() - i) + 1 < u32::MAX,
                    self.n_archetypes() + (total - base.len() - i) + 1 < u32::MAX,
                    ops_chain(ws, base + here.take(i as int)),
                    ws[0] == w0,
                    ws.last() == *self,
                    self.spawn_queue == w0.spawn_queue,
                    self.despawn_queue == w0.despawn_queue,
                    self.typed_queues == w0.typed_queues,
                    self.free_entities == w0.free_entities,
                    self.next_entity_id == w0.next_entity_id,
                    self.records@.len() == w0.records@.len(),
                decreases nops - i,
            {
                let ghost before = *self;
                let ghost op = vs[q as int].2[i as int];
                proof {
                    assert(view_fits(self, vs[q as int]));
                    assert(self.layout_fits(key, layout));
                }
                match &queues[q].1.ops[i] {
                    Op::Insert(e, v) => {
                        proof {
                            assert(queues@[q as int].1.ops@[i as int] == op);
                        }
                        self.add_component(*e, key, layout, v.as_slice());
                    },
                    Op::Remove(e) => {
                        self.remove_component(*e, key);
                    },
                }
                proof {
                    assert(self.op_outcome(&before, key, op));
                    lemma_views_fit_after(self, &before, key, layout, vs);
                    let chain = base + here.take(i as int);
                    let chain1 = base + here.take(i + 1);
                    assert(here[i as int] == (key, layout, op));
                    assert(chain1 =~= chain.push((key, layout, op)));
                    let ws1 = ws.push(*self);
                    assert forall|k: int| 0 <= k < chain1.len() implies #[trigger] ws1[k + 1].op_outcome(&ws1[k], chain1[k].0, chain1[k].2) by {
                        if k < chain.len() {
                            assert(ws1[k + 1] == ws[k + 1]);
                            assert(ws1[k] == ws[k]);
                            assert(chain1[k] == chain[k]);
                        } else {
                            assert(ws1[k] == before);
                        }
                    }
                    ws = ws1;
                }
                i = i + 1;
            }
            queues[q].1.ops.clear();
            proof {
                assert(here.take(nops as int) =~= here);
            }
            q = q + 1;
        }
        proof {
            assert(vs.take(nq as int) =~= vs);
        }
    }

    /// `self` is `old` after despawning `d`: a dead handle changes nothing;
    /// when every entity of its archetype, more than one, was counted to
    /// despawn, the archetype is emptied at once; else `d` is killed with
    /// its descendants.
    pub open spec fn despawn_step(&self, old: &World, d: Entity, counts: Seq<usize>) -> bool {
        if !old.alive(d) {
            *self == *old
        } else {
            let a = old.record(d.id).archetype_id as int;
            let len = old.archetypes@[a].entities@.len();
            if counts[a] == len && len > 1 {
                self.cleared_from(old, a)
            } else {
                self.kill_outcome(old, d)
            }
        }
    }

    /// Despawns the entities `ds`, slots sorted and each slot once: counts
    /// per archetype the entities of `ds` that are live, then takes them in
    /// order, emptying an archetype at once when all its entities, more than
    /// one, were counted, and killing each other live one with its
    /// descendants.
    #[verifier::rlimit(30)]
    pub(crate) fn despawn_sorted(&mut self, ds: &Vec<Entity>)
        requires
            old(self).wf(),
        ensures
            final(self).wf(),
            exists|ws: Seq<World>, counts: Seq<usize>|
                despawn_chain(ws, ds@, counts) && ws[0] == *old(self) && ws.last() == *final(self)
                    && counts.len() == old(self).n_archetypes() && forall|a: int|
                    0 <= a < counts.len() ==> #[trigger] counts[a] == count_in(old(self), ds@, a),
            final(self).spawn_queue == old(self).spawn_queue,
            final(self).despawn_queue == old(self).despawn_queue,
            final(self).typed_queues == old(self).typed_queues,
            final(self).component_ids == old(self).component_ids,
            final(self).component_layouts == old(self).component_layouts,
            final(self).n_archetypes() == old(self).n_archetypes(),
    {
        let ghost w0 = *self;
        let n = ds.len();
        let na = self.archetypes.len();
        let mut counts: Vec<usize> = vec![0; na];
        let mut i: usize = 0;
        while i < n
            invariant
                w0 == *self,
                self.wf(),
                n == ds@.len(),
                na == self.n_archetypes(),
                counts@.len() == na,
                0 <= i <= n,
                forall|a: int| 0 <= a < na ==> #[trigger] counts@[a] == count_in(self, ds@.take(i as int), a),
                forall|a: int| 0 <= a < na ==> #[trigger] counts@[a] <= i,
            decreases n - i,
        {
            let d = ds[i];
            proof {
                let t = ds@.take(i + 1);
                assert(t.drop_last() =~= ds@.take(i as int));
                assert(t.last() == d);
            }
            if self.is_alive(d) {
                let a = self.records[d.id as usize].archetype_id as usize;
                counts.set(a, counts[a] + 1);
            }
            i = i + 1;
        }
        proof {
            assert(ds@.take(n as int) =~= ds@);
        }
        let ghost cs = counts@;
        let ghost mut ws: Seq<World> = seq![*self];
        let mut k: usize = 0;
        while k < n
            invariant
                self.wf(),
                n == ds@.len(),
                na == self.n_archetypes(),
                counts@ == cs,
                cs.len() == na,
                na == w0.n_archetypes(),
                forall|a: int| 0 <= a < na ==> #[trigger] cs[a] == count_in(&w0, ds@, a),
                0 <= k <= n,
                ws.len() == k + 1,
                ws[0] == w0,
                ws.last() == *self,
                forall|j: int| 0 <= j < k ==> #[trigger] ws[j + 1].despawn_step(&ws[j], ds@[j], cs),
                self.spawn_queue == w0.spawn_queue,
                self.despawn_queue == w0.despawn_queue,
                self.typed_queues == w0.typed_queues,
                self.component_ids == w0.component_ids,
                self.component_layouts == w0.component_layouts,
            decreases n - k,
        {
            let d = ds[k];
            let ghost before = *self;
            if self.is_alive(d) {
                let a = self.records[d.id as usize].archetype_id as usize;
                let len = self.archetypes[a].entities.len();
                if counts[a] == len && len > 1 {
                    self.clear_archetype(a);
                } else {
                    self.kill(d);
                }
            }
            proof {
                assert(self.despawn_step(&before, d, cs));
                let ws1 = ws.push(*self);
                assert forall|j: int| 0 <= j < k + 1 implies #[trigger] ws1[j + 1].despawn_step(&ws1[j], ds@[j], cs) by {
                    if j < k {
                        assert(ws1[j + 1] == ws[j + 1]);
                        assert(ws1[j] == ws[j]);
                    } else {
                        assert(ws1[j] == before);
                    }
                }
                ws = ws1;
            }
            k = k + 1;
        }
        proof {
            assert(despawn_chain(ws, ds@, cs));
        }
    }

    /// `self` is `old` with its three command queues taken out, empty.
    pub open spec fn queues_taken(&self, old: &World) -> bool {
        &&& self.spawn_queue@.len() == 0
        &&& self.despawn_queue@.len() == 0
        &&& self.typed_queues@.len() == 0
        &&& *self == (World {
            spawn_queue: self.spawn_queue,
            despawn_queue: self.despawn_queue,
            typed_queues: self.typed_queues,
            ..*old
        })
    }

    /// `self` is `old` after its commands were applied through the given
    /// intermediate worlds: the queues taken out (`w0`); the queued spawns
    /// placed, with the structural generation advanced (`w1`); the typed
    /// operations made queue after queue (`w2`, through `ows`); the queued
    /// despawns sorted by slot (`sorted`), each slot once, and despawned
    /// (`w3`, through `dws`, with the archetype counts `counts`), with the
    /// structural generation advanced; and the typed queues put back empty.
    pub open spec fn applied_via(
        &self,
        old: &World,
        w0: World,
        w1: World,
        w2: World,
        w3: World,
        ows: Seq<World>,
        dws: Seq<World>,
        sorted: Seq<Entity>,
        counts: Seq<usize>,
    ) -> bool {
        &&& w0.queues_taken(old)
        &&& old.spawn_queue@.len() > 0 ==> {
            &&& w1.spawned_from(&w0, old.spawn_queue@)
            &&& w1.structural_gen == vstd::wrapping::u64_specs::wrapping_add(w0.structural_gen, 1)
        }
        &&& old.spawn_queue@.len() == 0 ==> w1 == w0
        &&& ops_chain(ows, flat_ops(queues_view(old.typed_queues@)))
        &&& ows[0] == w1
        &&& ows.last() == w2
        &&& old.despawn_queue@.len() > 0 ==> {
            &&& sorted.to_multiset() == old.despawn_queue@.to_multiset()
            &&& sorted_by_slot(sorted)
            &&& despawn_chain(dws, dedup_slots(sorted), counts)
            &&& dws[0] == w2
            &&& dws.last() == w3
            &&& counts.len() == w2.n_archetypes()
            &&& forall|a: int| 0 <= a < counts.len() ==> #[trigger] counts[a] == count_in(&w2, dedup_slots(sorted), a)
            &&& self.structural_gen == vstd::wrapping::u64_specs::wrapping_add(w3.structural_gen, 1)
        }
        &&& old.despawn_queue@.len() == 0 ==> {
            &&& w3 == w2
            &&& self.structural_gen == w3.structural_gen
        }
        &&& *self == (World { typed_queues: self.typed_queues, structural_gen: self.structural_gen, ..w3 })
        &&& self.typed_queues@.len() == old.typed_queues@.len()
        &&& forall|j: int|
            0 <= j < old.typed_queues@.len() ==> {
                &&& (#[trigger] self.typed_queues@[j]).0 == old.typed_queues@[j].0
                &&& self.typed_queues@[j].1.layout == old.typed_queues@[j].1.layout
                &&& self.typed_queues@[j].1.ops@.len() == 0
            }
    }

    /// `self` is `old` after its commands were applied (see `applied_via`).
    pub open spec fn commands_applied(&self, old: &World) -> bool {
        exists|
            w0: World,
            w1: World,
            w2: World,
            w3: World,
            ows: Seq<World>,
            dws: Seq<World>,
            sorted: Seq<Entity>,
            counts: Seq<usize>,
        | #[trigger] self.applied_via(old, w0, w1, w2, w3, ows, dws, sorted, counts)
    }

    /// `self` is `old` with archetype `a` emptied: each of its entities
    /// died, its slot taking the next generation and joining the free list
    /// in row order; every other handle reads as before.
    pub open spec fn cleared_from(&self, old: &World, a: int) -> bool {
        let ents = old.archetypes@[a].entities@;
        &&& self.archetypes@[a].entities@.len() == 0
        &&& forall|x: Entity|
            old.alive(x) && old.record(x.id).archetype_id == a ==> {
                &&& !#[trigger] self.alive(x)
                &&& self.record(x.id).generation == next_generation(x.generation)
            }
        &&& forall|x: Entity|
            !(old.alive(x) && old.record(x.id).archetype_id == a) ==> #[trigger] self.same_entity(old, x)
        &&& self.free_entities@ == old.free_entities@ + ents.map_values(|e: Entity| freed(e))
        &&& self.next_entity_id == old.next_entity_id
        &&& self.n_archetypes() == old.n_archetypes()
        &&& self.component_ids == old.component_ids
        &&& self.component_layouts == old.component_layouts
        &&& self.spawn_queue == old.spawn_queue
        &&& self.despawn_queue == old.despawn_queue
        &&& self.typed_queues == old.typed_queues
        &&& self.current_tick == old.current_tick
        &&& self.structural_gen == old.structural_gen
        &&& self.records@.len() == old.records@.len()
    }

    /// Empties archetype `a`, which holds more than one entity: each of its
    /// entities dies, its slot taking the next generation and joining the
    /// free list in row order, and the hierarchy links of those slots are
    /// dropped.
    pub(crate) fn clear_archetype(&mut self, a: usize)
        requires
            old(self).wf(),
            a < old(self).n_archetypes(),
        ensures
            final(self).wf(),
            final(self).cleared_from(old(self), a as int),
    {
        let ghost w0 = *self;
        let ghost ents = w0.archetypes@[a as int].entities@;
        proof {
            self.lemma_rows_distinct(a as int);
        }
        let n = self.archetypes[a].entities.len();
        let mut r: usize = 0;
        while r < n
            invariant
                w0.wf(),
                a < w0.n_archetypes(),
                ents == w0.archetypes@[a as int].entities@,
                ids_distinct(ents),
                n == ents.len(),
                0 <= r <= n,
                *self == (World {
                    records: self.records,
                    free_entities: self.free_entities,
                    links: self.links,
                    ..w0
                }),
                self.records@.len() == w0.records@.len(),
                forall|k: int|
                    0 <= k < r ==> self.records@[(#[trigger] ents[k]).id as int] == (EntityRecord {
                        generation: next_generation(ents[k].generation),
                        archetype_id: NO_ARCHETYPE,
                        row: w0.records@[ents[k].id as int].row,
                    }),
                forall|id: int|
                    0 <= id < w0.records@.len() && (forall|k: int| 0 <= k < r ==> (#[trigger] ents[k]).id as int != id)
                        ==> #[trigger] self.records@[id] == w0.records@[id],
                self.free_entities@ == w0.free_entities@ + ents.take(r as int).map_values(|e: Entity| freed(e)),
            decreases n - r,
        {
            let e = self.archetypes[a].entities[r];
            proof {
                assert(ents[r as int] == e);
                assert(w0.records@[e.id as int].archetype_id == a as u32);
                assert forall|k: int| 0 <= k < r implies (#[trigger] ents[k]).id as int != e.id as int by {
                    assert(ents[k].id != ents[r as int].id);
                }
                assert(self.records@[e.id as int] == w0.records@[e.id as int]);
            }
            let id = e.id as usize;
            let new_gen = e.generation.wrapping_add(1);
            let old_row = self.records[id].row;
            self.records.set(id, EntityRecord { generation: new_gen, archetype_id: NO_ARCHETYPE, row: old_row });
            self.free_entities.push(Entity { id: e.id, generation: new_gen });
            if id < self.links.len() {
                self.links.set(id, Links { parent: None, children: Vec::new() });
            }
            proof {
                let t1 = ents.take(r + 1);
                assert(t1 =~= ents.take(r as int).push(e));
                assert(t1.map_values(|e: Entity| freed(e)) =~= ents.take(r as int).map_values(|e: Entity| freed(e)).push(freed(e)));
                assert(self.free_entities@ =~= w0.free_entities@ + t1.map_values(|e: Entity| freed(e)));
                assert forall|k: int| 0 <= k < r + 1 implies self.records@[(#[trigger] ents[k]).id as int] == (EntityRecord {
                    generation: next_generation(ents[k].generation),
                    archetype_id: NO_ARCHETYPE,
                    row: w0.records@[ents[k].id as int].row,
                }) by {
                    if k < r {
                        assert(ents[k].id != e.id);
                    }
                }
                assert forall|x: int|
                    0 <= x < w0.records@.len() && (forall|k: int| 0 <= k < r + 1 ==> (#[trigger] ents[k]).id as int != x)
                        implies #[trigger] self.records@[x] == w0.records@[x] by {
                    assert(ents[r as int].id as int != x);
                }
            }
            r = r + 1;
        }
        let ghost w1 = *self;
        self.archetypes[a].entities.clear();
        let nc = self.archetypes[a].columns.len();
        let mut i: usize = 0;
        while i < nc
            invariant
                a < self.archetypes@.len(),
                self.archetypes@.len() == w1.archetypes@.len(),
                nc == self.archetypes@[a as int].columns@.len(),
                nc == w1.archetypes@[a as int].columns@.len(),
                0 <= i <= nc,
                w1.archetypes@[a as int].columns_wf(),
                forall|b: int| 0 <= b < self.archetypes@.len() && b != a ==> #[trigger] self.archetypes@[b] == w1.archetypes@[b],
                *self == (World { archetypes: self.archetypes, ..w1 }),
                self.archetypes@[a as int] == (crate::archetype::Archetype {
                    entities: self.archetypes@[a as int].entities,
                    columns: self.archetypes@[a as int].columns,
                    ..w1.archetypes@[a as int]
                }),
                self.archetypes@[a as int].entities@.len() == 0,
                forall|j: int|
                    0 <= j < nc ==> {
                        &&& (#[trigger] self.archetypes@[a as int].columns@[j]).wf()
                        &&& self.archetypes@[a as int].columns@[j].data.spec_item_layout()
                            == w1.archetypes@[a as int].columns@[j].data.spec_item_layout()
                        &&& j < i ==> self.archetypes@[a as int].columns@[j].len() == 0
                        &&& j >= i ==> self.archetypes@[a as int].columns@[j] == w1.archetypes@[a as int].columns@[j]
                    },
            decreases nc - i,
        {
            self.archetypes[a].columns[i].clear();
            i = i + 1;
        }
        let cur = self.current_tick;
        self.archetypes[a].last_modified_tick = cur;
        remove_value(&mut self.active_archetypes, a as u32);
        proof {
            let w = *self;
            let ai = a as int;
            assert(ents.take(n as int) =~= ents);
            // Which slots were emptied: exactly those of the rows of `a`.
            assert forall|id: int| 0 <= id < w0.records@.len() && w0.records@[id].archetype_id == a as u32 implies has_id(ents, id as u32) by {
                let row = w0.records@[id].row as int;
                assert(w0.archetypes@[ai].entities@[row].id == id);
            }
            assert forall|b: int| 0 <= b < w.n_archetypes() implies #[trigger] w.archetypes@[b].signature == w0.archetypes@[b].signature
                && w.archetypes@[b].component_to_column == w0.archetypes@[b].component_to_column
                && w.archetypes@[b].add_edges == w0.archetypes@[b].add_edges
                && w.archetypes@[b].remove_edges == w0.archetypes@[b].remove_edges by {
                if b != ai {
                    assert(w.archetypes@[b] == w0.archetypes@[b]);
                }
            }
            assert(w.registry_wf());
            assert(w.archetypes_wf()) by {
                assert forall|b: int| 0 <= b < w.n_archetypes() implies (#[trigger] w.archetypes@[b]).wf(b, w.component_layouts@) by {
                    if b != ai {
                        assert(w.archetypes@[b] == w0.archetypes@[b]);
                    } else {
                        assert(w0.archetypes@[ai].wf(ai, w0.component_layouts@));
                        assert(w.archetypes@[ai].columns_wf());
                    }
                }
                assert forall|b: int| 0 <= b < w.n_archetypes() implies #[trigger] w.edges_wf(b) by {
                    assert(w0.edges_wf(b));
                    let arch = w.archetypes@[b];
                    assert forall|k: int| 0 <= k < arch.add_edges@.len() implies {
                        let (c, t) = #[trigger] arch.add_edges@[k];
                        &&& c < w.n_components()
                        &&& t < w.n_archetypes()
                        &&& !arch.has_component(c)
                        &&& w.archetypes@[t as int].has_component(c)
                        &&& w.archetypes@[t as int].col_of(c) <= arch.signature@.len()
                        &&& w.archetypes@[t as int].signature@ == arch.signature@.insert(
                            w.archetypes@[t as int].col_of(c),
                            c,
                        )
                    } by {
                        let (c, t) = arch.add_edges@[k];
                        assert(w0.archetypes@[b].add_edges@[k] == arch.add_edges@[k]);
                        assert(w.archetypes@[t as int].signature == w0.archetypes@[t as int].signature);
                        assert(w.archetypes@[t as int].component_to_column == w0.archetypes@[t as int].component_to_column);
                    }
                    assert forall|k: int| 0 <= k < arch.remove_edges@.len() implies {
                        let (c, t) = #[trigger] arch.remove_edges@[k];
                        &&& c < w.n_components()
                        &&& t < w.n_archetypes()
                        &&& arch.has_component(c)
                        &&& w.archetypes@[t as int].signature@ == arch.signature@.remove(arch.col_of(c))
                    } by {
                        let (c, t) = arch.remove_edges@[k];
                        assert(w0.archetypes@[b].remove_edges@[k] == arch.remove_edges@[k]);
                        assert(w.archetypes@[t as int].signature == w0.archetypes@[t as int].signature);
                    }
                }
            }
            assert(w.placement_wf()) by {
                assert forall|b: int, r: int|
                    0 <= b < w.n_archetypes() && 0 <= r < w.archetypes@[b].entities@.len() implies {
                    let x = #[trigger] w.archetypes@[b].entities@[r];
                    &&& x.id < w.records@.len()
                    &&& w.records@[x.id as int] == (EntityRecord {
                        generation: x.generation,
                        archetype_id: b as u32,
                        row: r as u32,
                    })
                } by {
                    assert(b != ai);
                    assert(w.archetypes@[b] == w0.archetypes@[b]);
                    let x = w.archetypes@[b].entities@[r];
                    assert forall|k: int| 0 <= k < n implies (#[trigger] ents[k]).id as int != x.id as int by {
                        if ents[k].id == x.id {
                            assert(w0.records@[ents[k].id as int].archetype_id == a as u32);
                        }
                    }
                    assert(w.records@[x.id as int] == w0.records@[x.id as int]);
                }
                assert forall|id: int|
                    0 <= id < w.records@.len() && (#[trigger] w.records@[id]).archetype_id != NO_ARCHETYPE implies {
                    let rec = w.records@[id];
                    &&& rec.archetype_id < w.n_archetypes()
                    &&& rec.row < w.archetypes@[rec.archetype_id as int].entities@.len()
                    &&& w.archetypes@[rec.archetype_id as int].entities@[rec.row as int].id == id
                } by {
                    assert forall|k: int| 0 <= k < n implies (#[trigger] ents[k]).id as int != id by {
                        if ents[k].id as int == id {
                            assert(w.records@[ents[k].id as int].archetype_id == NO_ARCHETYPE);
                        }
                    }
                    assert(w.records@[id] == w0.records@[id]);
                    assert(w0.records@[id].archetype_id != a as u32);
                    assert(w.archetypes@[w0.records@[id].archetype_id as int] == w0.archetypes@[w0.records@[id].archetype_id as int]);
                }
            }
            assert(w.active_wf()) by {
                assert forall|b: int| 0 <= b < w.n_archetypes() implies (w.active_archetypes@.contains(b as u32)
                    <==> #[trigger] w.archetypes@[b].entities@.len() > 0) by {
                    if b != ai {
                        assert(w.archetypes@[b] == w0.archetypes@[b]);
                        assert(b as u32 != a as u32);
                    }
                }
                assert forall|i: int| 0 <= i < w.active_archetypes@.len() implies #[trigger] w.active_archetypes@[i] < w.n_archetypes() by {
                    assert(w.active_archetypes@.contains(w.active_archetypes@[i]));
                    assert(w0.active_archetypes@.contains(w.active_archetypes@[i]));
                }
            }
            assert(w.allocator_wf()) by {
                let fresh = ents.map_values(|e: Entity| freed(e));
                let n0 = w0.free_entities@.len() as int;
                assert forall|k: int| 0 <= k < ents.len() implies (#[trigger] ents[k]).id < w0.next_entity_id by {
                    assert(w0.records@[ents[k].id as int].archetype_id == a as u32);
                }
                assert forall|i: int| 0 <= i < w.free_entities@.len() implies {
                    let x = #[trigger] w.free_entities@[i];
                    &&& x.id < w.records@.len()
                    &&& w.slot_free_for(x)
                } by {
                    if i < n0 {
                        let x = w.free_entities@[i];
                        assert(w0.free_entities@[i] == x);
                        assert(w0.slot_free_for(x));
                        assert forall|k: int| 0 <= k < n implies (#[trigger] ents[k]).id as int != x.id as int by {
                            if ents[k].id == x.id {
                                assert(w0.records@[ents[k].id as int].archetype_id == a as u32);
                            }
                        }
                        assert(w.records@[x.id as int] == w0.records@[x.id as int]);
                    } else {
                        assert(w.free_entities@[i] == fresh[i - n0]);
                        assert(fresh[i - n0] == freed(ents[i - n0]));
                    }
                }
                assert forall|i: int, j: int| 0 <= i < j < w.free_entities@.len() implies w.free_entities@[i].id
                    != w.free_entities@[j].id by {
                    if j < n0 {
                        assert(w0.free_entities@[i] == w.free_entities@[i]);
                        assert(w0.free_entities@[j] == w.free_entities@[j]);
                    } else if i < n0 {
                        let x = w0.free_entities@[i];
                        assert(w.free_entities@[i] == x);
                        assert(w0.slot_free_for(x));
                        assert(w.free_entities@[j] == fresh[j - n0]);
                        assert(w0.records@[ents[j - n0].id as int].archetype_id == a as u32);
                    } else {
                        assert(w.free_entities@[i] == fresh[i - n0]);
                        assert(w.free_entities@[j] == fresh[j - n0]);
                    }
                }
                assert forall|i: int| 0 <= i < w.spawn_queue@.len() implies {
                    let x = #[trigger] w.spawn_queue@[i];
                    &&& w.slot_free_for(x)
                    &&& !has_id(w.free_entities@, x.id)
                } by {
                    let x = w.spawn_queue@[i];
                    assert(w0.slot_free_for(x));
                    if x.id < w.records@.len() {
                        assert forall|k: int| 0 <= k < n implies (#[trigger] ents[k]).id as int != x.id as int by {
                            if ents[k].id == x.id {
                                assert(w0.records@[ents[k].id as int].archetype_id == a as u32);
                            }
                        }
                        assert(w.records@[x.id as int] == w0.records@[x.id as int]);
                    }
                    if has_id(w.free_entities@, x.id) {
                        let k = choose|k: int| 0 <= k < w.free_entities@.len() && (#[trigger] w.free_entities@[k]).id == x.id;
                        if k < n0 {
                            assert(w0.free_entities@[k] == w.free_entities@[k]);
                        } else {
                            assert(w.free_entities@[k] == fresh[k - n0]);
                        }
                    }
                }
                assert forall|id: int| w.next_entity_id <= id < w.records@.len() implies #[trigger] w.records@[id]
                    == EntityRecord::dead_spec() by {
                    assert forall|k: int| 0 <= k < n implies (#[trigger] ents[k]).id as int != id by {
                        assert(ents[k].id < w0.next_entity_id);
                    }
                    assert(w.records@[id] == w0.records@[id]);
                }
            }
            assert(w.resources_wf());
            // What each handle reads.
            assert forall|x: Entity| w0.alive(x) && w0.record(x.id).archetype_id == a implies {
                &&& !#[trigger] w.alive(x)
                &&& w.record(x.id).generation == next_generation(x.generation)
            } by {
                let k = w0.records@[x.id as int].row as int;
                assert(ents[k].id == x.id);
                assert(w0.records@[ents[k].id as int].generation == ents[k].generation);
            }
            assert forall|x: Entity| !(w0.alive(x) && w0.record(x.id).archetype_id == a) implies #[trigger] w.same_entity(&w0, x) by {
                if has_id(ents, x.id) {
                    let k = choose|k: int| 0 <= k < ents.len() && (#[trigger] ents[k]).id == x.id;
                    assert(w.records@[x.id as int].archetype_id == NO_ARCHETYPE);
                    if w0.alive(x) {
                        assert(w0.records@[ents[k].id as int].archetype_id == a as u32);
                    }
                } else if x.id < w0.records@.len() {
                    assert forall|k: int| 0 <= k < n implies (#[trigger] ents[k]).id as int != x.id as int by {
                        if ents[k].id == x.id {
                            assert(has_id(ents, x.id));
                        }
                    }
                    assert(w.records@[x.id as int] == w0.records@[x.id as int]);
                    if w0.alive(x) {
                        let b = w0.record(x.id).archetype_id as int;
                        assert(b != ai);
                        assert(w.archetypes@[b] == w0.archetypes@[b]);
                    }
                }
            }
        }
    }

    /// The entities `spawns` can be placed in `self`: distinct slots, each
    /// handed out and not placed.
    pub open spec fn placeable(&self, spawns: Seq<Entity>) -> bool {
        &&& ids_distinct(spawns)
        &&& forall|i: int|
            0 <= i < spawns.len() ==> {
                let e = #[trigger] spawns[i];
                &&& self.slot_free_for(e)
                &&& !has_id(self.free_entities@, e.id)
                &&& !has_id(self.spawn_queue@, e.id)
            }
    }

    /// `self` is `old` with `spawns` placed as live entities without
    /// components at the end of the archetype without components; every
    /// other slot reads as before.
    pub open spec fn spawned_from(&self, old: &World, spawns: Seq<Entity>) -> bool {
        &&& forall|i: int| 0 <= i < spawns.len() ==> #[trigger] self.alive(spawns[i])
        &&& forall|i: int, c: usize| 0 <= i < spawns.len() ==> !#[trigger] self.has(spawns[i], c)
        &&& forall|x: Entity| !has_id(spawns, x.id) ==> #[trigger] self.same_entity(old, x)
        &&& self.archetypes@[0].entities@ == old.archetypes@[0].entities@ + spawns
        &&& self.n_archetypes() == old.n_archetypes()
        &&& self.free_entities == old.free_entities
        &&& self.next_entity_id == old.next_entity_id
        &&& self.component_ids == old.component_ids
        &&& self.component_layouts == old.component_layouts
        &&& self.spawn_queue == old.spawn_queue
        &&& self.despawn_queue == old.despawn_queue
        &&& self.typed_queues == old.typed_queues
        &&& self.current_tick == old.current_tick
    }

    /// Places `spawns`, handed out and not yet placed, as live entities
    /// without components in the archetype without components; the slot
    /// records first grow once, so that the largest slot has one.
    pub(crate) fn place_spawns(&mut self, spawns: &Vec<Entity>)
        requires
            old(self).wf(),
            spawns@.len() > 0,
            old(self).placeable(spawns@),
        ensures
            final(self).wf(),
            final(self).spawned_from(old(self), spawns@),
            final(self).structural_gen == vstd::wrapping::u64_specs::wrapping_add(old(self).structural_gen, 1),
    {
        let ghost w0 = *self;
        let n = spawns.len();
        let mut max_id: u32 = 0;
        let mut j: usize = 0;
        while j < n
            invariant
                n == spawns@.len(),
                0 <= j <= n,
                forall|k: int| 0 <= k < j ==> (#[trigger] spawns@[k]).id <= max_id,
                j > 0 ==> exists|k: int| 0 <= k < j && (#[trigger] spawns@[k]).id == max_id,
            decreases n - j,
        {
            if spawns[j].id > max_id || j == 0 {
                max_id = spawns[j].id;
            }
            j = j + 1;
        }
        proof {
            let k = choose|k: int| 0 <= k < n && (#[trigger] spawns@[k]).id == max_id;
            assert(w0.slot_free_for(spawns@[k]));
        }
        self.grow_records(max_id);
        let ghost grown = *self;
        proof {
            assert(grown.placeable(spawns@)) by {
                assert forall|i: int| 0 <= i < spawns@.len() implies grown.slot_free_for(#[trigger] spawns@[i]) by {
                    let e = spawns@[i];
                    assert(w0.slot_free_for(e));
                    if (e.id as int) < w0.records@.len() {
                        assert(grown.records@[e.id as int] == w0.records@[e.id as int]);
                    } else {
                        assert(grown.records@[e.id as int] == EntityRecord::dead_spec());
                    }
                }
            }
        }
        let mut i: usize = 0;
        while i < n
            invariant
                n == spawns@.len(),
                0 <= i <= n,
                self.wf(),
                grown.wf(),
                grown.placeable(spawns@),
                forall|k: int| 0 <= k < n ==> (#[trigger] spawns@[k]).id < grown.records@.len(),
                self.records@.len() == grown.records@.len(),
                forall|k: int| i <= k < n ==> self.records@[(#[trigger] spawns@[k]).id as int] == grown.records@[spawns@[k].id as int],
                forall|k: int| 0 <= k < i ==> #[trigger] self.alive(spawns@[k]),
                forall|k: int, c: usize| 0 <= k < i ==> !#[trigger] self.has(spawns@[k], c),
                forall|x: Entity| !has_id(spawns@.take(i as int), x.id) ==> #[trigger] self.same_entity(&grown, x),
                self.archetypes@[0].entities@ == grown.archetypes@[0].entities@ + spawns@.take(i as int),
                self.n_archetypes() == grown.n_archetypes(),
                self.free_entities == grown.free_entities,
                self.next_entity_id == grown.next_entity_id,
                self.component_ids == grown.component_ids,
                self.component_layouts == grown.component_layouts,
                self.spawn_queue == grown.spawn_queue,
                self.despawn_queue == grown.despawn_queue,
                self.typed_queues == grown.typed_queues,
                self.current_tick == grown.current_tick,
                self.structural_gen == grown.structural_gen,
            decreases n - i,
        {
            let e = spawns[i];
            let ghost before = *self;
            proof {
                assert(grown.slot_free_for(e));
                assert(self.records@[e.id as int] == grown.records@[e.id as int]);
                self.lemma_dead_slot_detached(e.id);
                assert(self.archetypes@[0].wf(0, self.component_layouts@));
            }
            let cells: Vec<(Vec<u8>, u32, u32)> = Vec::new();
            self.attach_row(e, 0, cells);
            proof {
                let ti = spawns@.take(i as int);
                let t1 = spawns@.take(i + 1);
                assert(t1 =~= ti.push(e));
                assert forall|k: int| i + 1 <= k < n implies self.records@[(#[trigger] spawns@[k]).id as int] == grown.records@[spawns@[k].id as int] by {
                    assert(spawns@[k].id != e.id);
                }
                assert forall|k: int| 0 <= k < i + 1 implies #[trigger] self.alive(spawns@[k]) by {
                    if k < i {
                        assert(spawns@[k].id != e.id);
                        assert(self.same_entity(&before, spawns@[k]));
                    }
                }
                assert forall|k: int, c: usize| 0 <= k < i + 1 implies !#[trigger] self.has(spawns@[k], c) by {
                    if k < i {
                        assert(spawns@[k].id != e.id);
                        assert(self.same_entity(&before, spawns@[k]));
                        assert(self.has(spawns@[k], c) == before.has(spawns@[k], c));
                    } else {
                        assert(!grown.archetypes@[0].has_component(c));
                    }
                }
                assert forall|x: Entity| !has_id(t1, x.id) implies #[trigger] self.same_entity(&grown, x) by {
                    assert(t1[i as int] == e);
                    if has_id(ti, x.id) {
                        let k = choose|k: int| 0 <= k < ti.len() && (#[trigger] ti[k]).id == x.id;
                        assert(t1[k] == ti[k]);
                    }
                    assert(self.same_entity(&before, x));
                    assert(before.same_entity(&grown, x));
                    assert forall|c: usize| #[trigger] self.has(x, c) == grown.has(x, c) by {
                        assert(before.has(x, c) == grown.has(x, c));
                    }
                    assert forall|c: usize| #[trigger] self.has(x, c) implies self.cell(x, c) == grown.cell(x, c) by {
                        assert(before.has(x, c));
                    }
                }
                assert(self.archetypes@[0].entities@ =~= grown.archetypes@[0].entities@ + t1);
            }
            i = i + 1;
        }
        let ghost placed = *self;
        self.structural_gen = self.structural_gen.wrapping_add(1);
        proof {
            self.lemma_archetypes_wf_transfer(&placed);
            assert(spawns@.take(n as int) =~= spawns@);
            assert(self.records == placed.records);
            assert(self.archetypes == placed.archetypes);
            assert forall|k: int| 0 <= k < n implies #[trigger] self.alive(spawns@[k]) by {
                assert(placed.alive(spawns@[k]));
            }
            assert forall|k: int, c: usize| 0 <= k < n implies !#[trigger] self.has(spawns@[k], c) by {
                assert(!placed.has(spawns@[k], c));
            }
            assert(grown.archetypes@[0] == w0.archetypes@[0]);
            assert forall|x: Entity| !has_id(spawns@, x.id) implies #[trigger] self.same_entity(&w0, x) by {
                assert(placed.same_entity(&grown, x));
                assert(grown.same_entity(&w0, x));
                assert(self.records == placed.records);
                assert(self.archetypes == placed.archetypes);
                assert forall|c: usize| #[trigger] self.has(x, c) == w0.has(x, c) by {
                    assert(placed.has(x, c) == grown.has(x, c));
                    assert(grown.has(x, c) == w0.has(x, c));
                }
                assert forall|c: usize| #[trigger] self.has(x, c) implies self.cell(x, c) == w0.cell(x, c) by {
                    assert(placed.has(x, c) == grown.has(x, c));
                    assert(grown.has(x, c));
                    assert(placed.cell(x, c) == grown.cell(x, c));
                }
            }
        }
    }

    /// The entities of archetype `a` have distinct slots, each recorded at
    /// its row there.
    proof fn lemma_rows_distinct(&self, a: int)
        requires
            self.wf(),
            0 <= a < self.n_archetypes(),
        ensures
            ids_distinct(self.archetypes@[a].entities@),
    {
        let ents = self.archetypes@[a].entities@;
        assert forall|i: int, j: int| 0 <= i < j < ents.len() implies ents[i].id != ents[j].id by {
            let ri = self.records@[ents[i].id as int];
            let rj = self.records@[ents[j].id as int];
            assert(ri.row == i as u32);
            assert(rj.row == j as u32);
        }
    }
}

impl World {
    /// Applies the queued commands: the queued spawns are placed, then the
    /// queued component insertions and removals are made, queue after queue
    /// in the order queued, then the queued despawns are made, sorted by
    /// slot and each slot once; an archetype whose entities, more than one,
    /// are all despawned is emptied at once. The typed queues stay, empty.
    /// With all three queues empty nothing happens.
    pub fn apply_commands(&mut self)
        requires
            old(self).wf(),
            old(self).commands_wf(),
            old(self).n_components() + flat_ops(queues_view(old(self).typed_queues@)).len() + 1 < u32::MAX,
            old(self).n_archetypes() + flat_ops(queues_view(old(self).typed_queues@)).len() + 1 < u32::MAX,
        ensures
            final(self).wf(),
            final(self).commands_wf(),
            old(self).spawn_queue@.len() == 0 && old(self).despawn_queue@.len() == 0
                && old(self).typed_queues@.len() == 0 ==> *final(self) == *old(self),
            !(old(self).spawn_queue@.len() == 0 && old(self).despawn_queue@.len() == 0
                && old(self).typed_queues@.len() == 0) ==> final(self).commands_applied(old(self)),
            final(self).spawn_queue@.len() == 0,
            final(self).despawn_queue@.len() == 0,
    {
        if self.spawn_queue.len() == 0 && self.despawn_queue.len() == 0 && self.typed_queues.len() == 0 {
            return;
        }
        let ghost old_self = *self;
        let mut spawns: Vec<Entity> = Vec::new();
        std::mem::swap(&mut spawns, &mut self.spawn_queue);
        let mut despawns: Vec<Entity> = Vec::new();
        std::mem::swap(&mut despawns, &mut self.despawn_queue);
        let mut queues: Vec<(u64, TypedQueue)> = Vec::new();
        std::mem::swap(&mut queues, &mut self.typed_queues);
        let ghost w0 = *self;
        proof {
            self.lemma_archetypes_wf_transfer(&old_self);
            assert(self.wf());
            assert(self.placeable(spawns@));
            crate::commands::lemma_fit_views(&old_self, old_self.typed_queues@);
        }
        if spawns.len() > 0 {
            self.place_spawns(&spawns);
        }
        let ghost w1 = *self;
        proof {
            assert(views_fit(self, queues_view(queues@))) by {
                let vs = queues_view(queues@);
                assert forall|i: int| 0 <= i < vs.len() implies view_fits(self, #[trigger] vs[i]) by {
                    assert(view_fits(&old_self, vs[i]));
                }
            }
        }
        self.apply_ops(&mut queues);
        let ghost w2 = *self;
        let ghost ows = choose|ws: Seq<World>|
            ops_chain(ws, flat_ops(queues_view(old_self.typed_queues@))) && ws[0] == w1 && ws.last() == w2;
        let ghost mut sorted: Seq<Entity> = Seq::empty();
        let ghost mut dws: Seq<World> = seq![w2];
        let ghost mut counts: Seq<usize> = Seq::empty();
        if despawns.len() > 0 {
            sort_by_slot(&mut despawns);
            proof {
                sorted = despawns@;
            }
            dedup_by_slot(&mut despawns);
            self.despawn_sorted(&despawns);
            proof {
                let (a, b) = choose|ws: Seq<World>, cs: Seq<usize>|
                    despawn_chain(ws, despawns@, cs) && ws[0] == w2 && ws.last() == *self
                        && cs.len() == w2.n_archetypes() && forall|x: int|
                        0 <= x < cs.len() ==> #[trigger] cs[x] == count_in(&w2, despawns@, x);
                dws = a;
                counts = b;
            }
            let ghost before_bump = *self;
            self.structural_gen = self.structural_gen.wrapping_add(1);
            proof {
                self.lemma_archetypes_wf_transfer(&before_bump);
            }
        }
        let ghost w3 = dws.last();
        let ghost w3x = *self;
        self.typed_queues = queues;
        proof {
            self.lemma_archetypes_wf_transfer(&w3x);
            assert(self.applied_via(&old_self, w0, w1, w2, w3, ows, dws, sorted, counts));
            let vs = queues_view(old_self.typed_queues@);
            assert(views_fit(self, queues_view(self.typed_queues@))) by {
                let nv = queues_view(self.typed_queues@);
                assert forall|i: int| 0 <= i < nv.len() implies view_fits(self, #[trigger] nv[i]) by {
                    assert(view_fits(&w2, vs[i]));
                }
                assert forall|i: int, j: int| 0 <= i < j < nv.len() implies nv[i].0 != nv[j].0 by {
                    assert(vs[i].0 != vs[j].0);
                }
            }
            crate::commands::lemma_fit_views(self, self.typed_queues@);
        }
    }
}

} // verus!
