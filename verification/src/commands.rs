use vstd::prelude::*;

use crate::archetype::ItemLayout;
use crate::entity::Entity;
use crate::world::{has_id, ids_distinct, Op, TypedQueue, World};

verus! {

/// Structural changes recorded while the world is being read, to be made
/// when the world applies its commands.
pub struct CommandQueue {
    pub spawns: Vec<Entity>,
    pub despawns: Vec<Entity>,
    pub typed_queues: Vec<(u64, TypedQueue)>,
}

/// A queue of the changes to component type `key` that can be made in
/// `w`: its layout fits the registry and every inserted value has its size.
pub open spec fn typed_queue_fits(w: &World, key: u64, q: TypedQueue) -> bool {
    view_fits(w, (key, q.layout, q.ops@))
}

/// A queue, as plain values, of changes that can be made in `w`.
pub open spec fn view_fits(w: &World, v: (u64, ItemLayout, Seq<Op>)) -> bool {
    &&& v.1.valid()
    &&& w.layout_fits(v.0, v.1)
    &&& forall|i: int| 0 <= i < v.2.len() ==> (#[trigger] v.2[i] matches Op::Insert(_, x) ==> x@.len() == v.1.size)
}

/// Every queue of `vs` fits `w`, and no two share a key.
pub open spec fn views_fit(w: &World, vs: Seq<(u64, ItemLayout, Seq<Op>)>) -> bool {
    &&& forall|i: int, j: int| 0 <= i < j < vs.len() ==> vs[i].0 != vs[j].0
    &&& forall|i: int| 0 <= i < vs.len() ==> view_fits(w, #[trigger] vs[i])
}

/// Queues that fit, merged with a queue that fits and agrees on the layout
/// of its key, still fit.
pub proof fn lemma_merge_one_fits(w: &World, ws: Seq<(u64, ItemLayout, Seq<Op>)>, q: (u64, ItemLayout, Seq<Op>))
    requires
        views_fit(w, ws),
        view_fits(w, q),
        view_index(ws, q.0) matches Some(j) ==> ws[j].1 == q.1,
    ensures
        views_fit(w, merge_one(ws, q)),
        merge_one(ws, q).len() == ws.len() || (merge_one(ws, q).len() == ws.len() + 1 && merge_one(ws, q).last() == q),
        forall|j: int| 0 <= j < ws.len() ==> (#[trigger] merge_one(ws, q)[j]).0 == ws[j].0 && merge_one(ws, q)[j].1 == ws[j].1,
        exists|j: int| 0 <= j < merge_one(ws, q).len() && (#[trigger] merge_one(ws, q)[j]).0 == q.0 && merge_one(ws, q)[j].1 == q.1,
        forall|j: int| 0 <= j < merge_one(ws, q).len() ==> (exists|k: int| 0 <= k < ws.len() && ws[k].0 == (#[trigger] merge_one(ws, q)[j]).0) || merge_one(ws, q)[j].0 == q.0,
{
    let m = merge_one(ws, q);
    match view_index(ws, q.0) {
        Some(j) => {
            assert(ws[j].0 == q.0);
            assert forall|i: int| 0 <= i < m.len() implies view_fits(w, #[trigger] m[i]) by {
                if i == j {
                    assert(view_fits(w, ws[j]));
                    let ops = ws[j].2 + q.2;
                    assert forall|t: int| 0 <= t < ops.len() implies (#[trigger] ops[t] matches Op::Insert(_, x) ==> x@.len() == m[i].1.size) by {
                        if t < ws[j].2.len() {
                            assert(ops[t] == ws[j].2[t]);
                        } else {
                            assert(ops[t] == q.2[t - ws[j].2.len()]);
                        }
                    }
                } else {
                    assert(m[i] == ws[i]);
                }
            }
            assert(m[j].0 == q.0);
            assert forall|i: int| 0 <= i < m.len() implies (exists|k: int| 0 <= k < ws.len() && ws[k].0 == (#[trigger] m[i]).0) || m[i].0 == q.0 by {
                assert(ws[i].0 == m[i].0);
            }
        },
        None => {
            assert forall|i: int| 0 <= i < ws.len() implies ws[i].0 != q.0 by {
                if ws[i].0 == q.0 {
                    assert(exists|k: int| 0 <= k < ws.len() && #[trigger] ws[k].0 == q.0);
                }
            }
            assert(m[ws.len() as int] == q);
            assert forall|i: int| 0 <= i < m.len() implies (exists|k: int| 0 <= k < ws.len() && ws[k].0 == (#[trigger] m[i]).0) || m[i].0 == q.0 by {
                if i < ws.len() {
                    assert(ws[i].0 == m[i].0);
                }
            }
        },
    }
}

/// The typed queues `qs` hold each key once and fit `w`.
pub open spec fn typed_queues_fit(w: &World, qs: Seq<(u64, TypedQueue)>) -> bool {
    &&& forall|i: int, j: int| 0 <= i < j < qs.len() ==> qs[i].0 != qs[j].0
    &&& forall|i: int| 0 <= i < qs.len() ==> typed_queue_fits(w, (#[trigger] qs[i]).0, qs[i].1)
}

/// Where in `qs` the queue of `key` stands, if any.
pub open spec fn queue_index(qs: Seq<(u64, TypedQueue)>, key: u64) -> Option<int> {
    if exists|i: int| 0 <= i < qs.len() && #[trigger] qs[i].0 == key {
        Some(choose|i: int| 0 <= i < qs.len() && #[trigger] qs[i].0 == key)
    } else {
        None
    }
}

/// The typed queues `qs` as plain values: key, layout and operations.
pub open spec fn queues_view(qs: Seq<(u64, TypedQueue)>) -> Seq<(u64, ItemLayout, Seq<Op>)> {
    qs.map_values(|p: (u64, TypedQueue)| (p.0, p.1.layout, p.1.ops@))
}

/// Where in `qs` the queue of `key` stands, if any (on plain values).
pub open spec fn view_index(qs: Seq<(u64, ItemLayout, Seq<Op>)>, key: u64) -> Option<int> {
    if exists|i: int| 0 <= i < qs.len() && #[trigger] qs[i].0 == key {
        Some(choose|i: int| 0 <= i < qs.len() && #[trigger] qs[i].0 == key)
    } else {
        None
    }
}

/// `ws` with the operations of `q` appended to the queue of its key, or
/// with `q` appended when no queue has its key.
pub open spec fn merge_one(ws: Seq<(u64, ItemLayout, Seq<Op>)>, q: (u64, ItemLayout, Seq<Op>)) -> Seq<(u64, ItemLayout, Seq<Op>)> {
    match view_index(ws, q.0) {
        Some(i) => ws.update(i, (ws[i].0, ws[i].1, ws[i].2 + q.2)),
        None => ws.push(q),
    }
}

/// `ws` with the queues of `ls` merged in, one after the other.
pub open spec fn merge_all(ws: Seq<(u64, ItemLayout, Seq<Op>)>, ls: Seq<(u64, ItemLayout, Seq<Op>)>) -> Seq<(u64, ItemLayout, Seq<Op>)>
    decreases ls.len(),
{
    if ls.len() == 0 {
        ws
    } else {
        merge_one(merge_all(ws, ls.drop_last()), ls.last())
    }
}

impl World {
    /// The deferred commands of the world can be applied: its typed queues
    /// fit it.
    pub open spec fn commands_wf(&self) -> bool {
        typed_queues_fit(self, self.typed_queues@)
    }
}

impl CommandQueue {
    /// An empty queue.
    pub fn new() -> (q: CommandQueue)
        ensures
            q.spawns@.len() == 0,
            q.despawns@.len() == 0,
            q.typed_queues@.len() == 0,
    {
        CommandQueue { spawns: Vec::new(), despawns: Vec::new(), typed_queues: Vec::new() }
    }

    /// The queue can be merged into `w`: the entities it spawns hold slots
    /// handed out by `w` and not yet placed, each once, and its typed queues
    /// fit `w`.
    pub open spec fn wf_for(&self, w: &World) -> bool {
        &&& ids_distinct(self.spawns@)
        &&& forall|i: int|
            0 <= i < self.spawns@.len() ==> {
                let e = #[trigger] self.spawns@[i];
                &&& w.slot_free_for(e)
                &&& !has_id(w.free_entities@, e.id)
                &&& !has_id(w.spawn_queue@, e.id)
            }
        &&& typed_queues_fit(w, self.typed_queues@)
        &&& forall|i: int|
            0 <= i < self.typed_queues@.len() ==> (queue_index(w.typed_queues@, (#[trigger] self.typed_queues@[i]).0) matches Some(j)
                ==> w.typed_queues@[j].1.layout == self.typed_queues@[i].1.layout)
    }
}

/// Commands that a system records against a world it reads.
pub struct Commands<'a> {
    pub world: &'a mut World,
    pub queue: &'a mut CommandQueue,
}

impl<'a> Commands<'a> {
    /// The world is sound and the queue can be merged into it.
    pub open spec fn wf(&self) -> bool {
        &&& self.world.wf()
        &&& self.queue.wf_for(self.world)
    }

    /// Hands out an entity to be spawned when the commands are applied.
    pub fn spawn(&mut self) -> (e: Entity)
        requires
            old(self).wf(),
            old(self).world.can_reserve(),
        ensures
            final(self).wf(),
            e == old(self).world.next_reserved(),
            final(self).queue.spawns@ == old(self).queue.spawns@.push(e),
            final(self).queue.despawns == old(self).queue.despawns,
            final(self).queue.typed_queues == old(self).queue.typed_queues,
            final(self).world.same_entities(old(self).world),
            *final(self).world == (World {
                free_entities: final(self).world.free_entities,
                next_entity_id: final(self).world.next_entity_id,
                ..*old(self).world
            }),
            old(self).world.free_entities@.len() > 0 ==> {
                &&& final(self).world.free_entities@ == old(self).world.free_entities@.drop_last()
                &&& final(self).world.next_entity_id == old(self).world.next_entity_id
            },
            old(self).world.free_entities@.len() == 0 ==> {
                &&& final(self).world.free_entities@ == old(self).world.free_entities@
                &&& final(self).world.next_entity_id == old(self).world.next_entity_id + 1
            },
    {
        let ghost w0 = *self.world;
        let e = self.world.reserve_entity();
        let ghost w1 = *self.world;
        proof {
            let sp = self.queue.spawns@;
            assert forall|i: int| 0 <= i < sp.len() implies sp[i].id != e.id by {
                assert(w0.slot_free_for(sp[i]));
                assert(!has_id(w0.free_entities@, sp[i].id));
                if w0.free_entities@.len() > 0 {
                    let l = w0.free_entities@.len() - 1;
                    assert(w0.free_entities@[l] == e);
                }
            }
            assert forall|i: int| 0 <= i < sp.len() implies {
                let x = #[trigger] sp[i];
                &&& w1.slot_free_for(x)
                &&& !has_id(w1.free_entities@, x.id)
                &&& !has_id(w1.spawn_queue@, x.id)
            } by {
                let x = sp[i];
                assert(w0.slot_free_for(x));
                if has_id(w1.free_entities@, x.id) {
                    let k = choose|k: int| 0 <= k < w1.free_entities@.len() && (#[trigger] w1.free_entities@[k]).id == x.id;
                    assert(w0.free_entities@[k] == w1.free_entities@[k]);
                }
            }
            lemma_queues_fit_frame(&w0, &w1, self.queue.typed_queues@);
        }
        self.queue.spawns.push(e);
        proof {
            let sp = self.queue.spawns@;
            assert forall|i: int, j: int| 0 <= i < j < sp.len() implies sp[i].id != sp[j].id by {
                if j == sp.len() - 1 {
                    assert(sp[i] == old(self).queue.spawns@[i]);
                } else {
                    assert(sp[i] == old(self).queue.spawns@[i]);
                    assert(sp[j] == old(self).queue.spawns@[j]);
                }
            }
        }
        e
    }

    /// Hands out `count` entities to be spawned when the commands are
    /// applied: freed slots first, the last freed first, then fresh ones.
    pub fn spawn_batch(&mut self, count: u32) -> (v: Vec<Entity>)
        requires
            old(self).wf(),
            old(self).world.next_entity_id + count <= u32::MAX + old(self).world.free_entities@.len(),
        ensures
            final(self).wf(),
            v@.len() == count,
            final(self).queue.spawns@ == old(self).queue.spawns@ + v@,
            final(self).queue.despawns == old(self).queue.despawns,
            final(self).queue.typed_queues == old(self).queue.typed_queues,
            final(self).world.same_entities(old(self).world),
            ids_distinct(v@),
            forall|i: int| 0 <= i < v@.len() ==> !old(self).world.alive(#[trigger] v@[i]),
            count <= old(self).world.free_entities@.len() ==> {
                &&& v@ == old(self).world.free_entities@.subrange(
                    old(self).world.free_entities@.len() - count,
                    old(self).world.free_entities@.len() as int,
                ).reverse()
                &&& final(self).world.free_entities@ == old(self).world.free_entities@.subrange(
                    0,
                    old(self).world.free_entities@.len() - count,
                )
                &&& final(self).world.next_entity_id == old(self).world.next_entity_id
            },
            count > old(self).world.free_entities@.len() ==> {
                let nf = old(self).world.free_entities@.len();
                &&& v@.subrange(0, nf as int) == old(self).world.free_entities@.reverse()
                &&& forall|i: int|
                    nf <= i < count ==> #[trigger] v@[i] == (Entity {
                        id: (old(self).world.next_entity_id + (i - nf)) as u32,
                        generation: 0,
                    })
                &&& final(self).world.free_entities@.len() == 0
                &&& final(self).world.next_entity_id == old(self).world.next_entity_id + (count - nf)
            },
    {
        let mut v: Vec<Entity> = Vec::new();
        let ghost f0 = self.world.free_entities@;
        let ghost n0 = self.world.next_entity_id;
        let ghost s0 = self.queue.spawns@;
        let ghost w_start = *self.world;
        let mut i: u32 = 0;
        while i < count
            invariant
                self.wf(),
                0 <= i <= count,
                v@.len() == i,
                self.queue.spawns@ == s0 + v@,
                self.queue.despawns == old(self).queue.despawns,
                self.queue.typed_queues == old(self).queue.typed_queues,
                self.world.same_entities(&w_start),
                w_start == *old(self).world,
                f0 == w_start.free_entities@,
                n0 == w_start.next_entity_id,
                n0 + count <= u32::MAX + f0.len(),
                i <= f0.len() ==> {
                    &&& v@ == f0.subrange(f0.len() - i, f0.len() as int).reverse()
                    &&& self.world.free_entities@ == f0.subrange(0, f0.len() - i)
                    &&& self.world.next_entity_id == n0
                },
                i > f0.len() ==> {
                    &&& v@.subrange(0, f0.len() as int) == f0.reverse()
                    &&& forall|k: int|
                        f0.len() <= k < i ==> #[trigger] v@[k] == (Entity {
                            id: (n0 + (k - f0.len())) as u32,
                            generation: 0,
                        })
                    &&& self.world.free_entities@.len() == 0
                    &&& self.world.next_entity_id == n0 + (i - f0.len())
                },
            decreases count - i,
        {
            let ghost w_before = *self.world;
            let ghost v_before = v@;
            let e = self.spawn();
            v.push(e);
            proof {
                lemma_same_entities_trans(self.world, &w_before, &w_start);
                if i < f0.len() {
                    assert(f0.subrange(0, f0.len() - i).last() == e);
                    assert(v@ =~= f0.subrange(f0.len() - (i + 1), f0.len() as int).reverse());
                    assert(self.world.free_entities@ =~= f0.subrange(0, f0.len() - (i + 1)));
                    if i + 1 > f0.len() {
                        assert(false);
                    }
                } else if i == f0.len() {
                    assert(v_before =~= f0.reverse());
                    assert(v@.subrange(0, f0.len() as int) =~= v_before);
                } else {
                    assert(v@.subrange(0, f0.len() as int) =~= v_before.subrange(0, f0.len() as int));
                }
                assert(self.queue.spawns@ =~= s0 + v@);
            }
            i = i + 1;
        }
        proof {
            let sp = self.queue.spawns@;
            assert forall|a: int, b: int| 0 <= a < b < v@.len() implies v@[a].id != v@[b].id by {
                assert(sp[s0.len() + a] == v@[a]);
                assert(sp[s0.len() + b] == v@[b]);
            }
            assert forall|k: int| 0 <= k < v@.len() implies !old(self).world.alive(#[trigger] v@[k]) by {
                let e = v@[k];
                assert(sp[s0.len() + k] == e);
                assert(self.world.slot_free_for(e));
                assert(self.world.same_entity(old(self).world, e));
            }
        }
        v
    }

    /// Appends `op`, on component type `key` laid out as `layout`, to the
    /// queue of `key`, opening that queue when there is none.
    fn push_op(&mut self, key: u64, layout: ItemLayout, op: Op)
        requires
            old(self).wf(),
            layout.valid(),
            old(self).world.layout_fits(key, layout),
            op matches Op::Insert(_, v) ==> v@.len() == layout.size,
            queue_index(old(self).queue.typed_queues@, key) matches Some(i) ==> old(
                self,
            ).queue.typed_queues@[i].1.layout == layout,
            queue_index(old(self).world.typed_queues@, key) matches Some(i) ==> old(
                self,
            ).world.typed_queues@[i].1.layout == layout,
        ensures
            final(self).wf(),
            queues_view(final(self).queue.typed_queues@) == merge_one(
                queues_view(old(self).queue.typed_queues@),
                (key, layout, seq![op]),
            ),
            final(self).queue.spawns == old(self).queue.spawns,
            final(self).queue.despawns == old(self).queue.despawns,
            *final(self).world == *old(self).world,
    {
        let ghost qv = queues_view(self.queue.typed_queues@);
        let n = self.queue.typed_queues.len();
        let mut i: usize = 0;
        while i < n
            invariant
                n == self.queue.typed_queues@.len(),
                0 <= i <= n,
                forall|j: int| 0 <= j < i ==> self.queue.typed_queues@[j].0 != key,
            ensures
                0 <= i <= n,
                forall|j: int| 0 <= j < i ==> self.queue.typed_queues@[j].0 != key,
                i < n ==> self.queue.typed_queues@[i as int].0 == key,
            decreases n - i,
        {
            if self.queue.typed_queues[i].0 == key {
                break;
            }
            i = i + 1;
        }
        proof {
            assert forall|j: int| 0 <= j < qv.len() implies #[trigger] qv[j].0 == self.queue.typed_queues@[j].0 by {}
        }
        if i < n {
            proof {
                assert(qv[i as int].0 == key);
                let k = view_index(qv, key)->Some_0;
                assert(qv[k].0 == key);
                if k != i {
                    assert(self.queue.typed_queues@[k].0 == key);
                    if k < i {
                        assert(false);
                    } else {
                        assert(false);
                    }
                }
            }
            let ghost before = self.queue.typed_queues@[i as int];
            self.queue.typed_queues[i].1.ops.push(op);
            proof {
                let now = self.queue.typed_queues@;
                assert(now[i as int].1.ops@ == before.1.ops@.push(op));
                assert(now[i as int].1.layout == before.1.layout);
                assert(before.1.ops@.push(op) =~= before.1.ops@ + seq![op]);
                assert(qv[i as int] == (before.0, before.1.layout, before.1.ops@));
                assert(queues_view(now) =~= qv.update(i as int, (qv[i as int].0, qv[i as int].1, qv[i as int].2 + seq![op])));
                assert forall|j: int| 0 <= j < now.len() implies typed_queue_fits(self.world, (#[trigger] now[j]).0, now[j].1) by {
                    if j != i {
                        assert(now[j] == old(self).queue.typed_queues@[j]);
                    } else {
                        assert(typed_queue_fits(self.world, before.0, before.1));
                        assert forall|t: int| 0 <= t < now[j].1.ops@.len() implies (#[trigger] now[j].1.ops@[t] matches Op::Insert(_, v) ==> v@.len()
                            == now[j].1.layout.size) by {
                            if t < before.1.ops@.len() {
                                assert(now[j].1.ops@[t] == before.1.ops@[t]);
                            }
                        }
                    }
                }
                assert forall|a: int, b: int| 0 <= a < b < now.len() implies now[a].0 != now[b].0 by {
                    assert(now[a].0 == old(self).queue.typed_queues@[a].0);
                    assert(now[b].0 == old(self).queue.typed_queues@[b].0);
                }
            }
        } else {
            proof {
                assert(view_index(qv, key) is None);
            }
            let mut ops: Vec<Op> = Vec::new();
            ops.push(op);
            self.queue.typed_queues.push((key, TypedQueue { layout, ops }));
            proof {
                let now = self.queue.typed_queues@;
                assert(queues_view(now) =~= qv.push((key, layout, seq![op])));
                assert forall|j: int| 0 <= j < now.len() implies typed_queue_fits(self.world, (#[trigger] now[j]).0, now[j].1) by {
                    if j < n {
                        assert(now[j] == old(self).queue.typed_queues@[j]);
                    }
                }
                assert forall|a: int, b: int| 0 <= a < b < now.len() implies now[a].0 != now[b].0 by {
                    assert(now[a].0 == old(self).queue.typed_queues@[a].0);
                    if b < n {
                        assert(now[b].0 == old(self).queue.typed_queues@[b].0);
                    }
                }
            }
        }
    }

    /// Records that `entity` is to be given component type `key`, laid out
    /// as `layout`, with `value`.
    pub fn insert(&mut self, entity: Entity, key: u64, layout: ItemLayout, value: Vec<u8>)
        requires
            old(self).wf(),
            layout.valid(),
            value@.len() == layout.size,
            old(self).world.layout_fits(key, layout),
            queue_index(old(self).queue.typed_queues@, key) matches Some(i) ==> old(
                self,
            ).queue.typed_queues@[i].1.layout == layout,
            queue_index(old(self).world.typed_queues@, key) matches Some(i) ==> old(
                self,
            ).world.typed_queues@[i].1.layout == layout,
        ensures
            final(self).wf(),
            queues_view(final(self).queue.typed_queues@) == merge_one(
                queues_view(old(self).queue.typed_queues@),
                (key, layout, seq![Op::Insert(entity, value)]),
            ),
            final(self).queue.spawns == old(self).queue.spawns,
            final(self).queue.despawns == old(self).queue.despawns,
            *final(self).world == *old(self).world,
    {
        self.push_op(key, layout, Op::Insert(entity, value));
    }

    /// Records that component type `key`, laid out as `layout`, is to be
    /// taken from `entity`.
    pub fn remove(&mut self, entity: Entity, key: u64, layout: ItemLayout)
        requires
            old(self).wf(),
            layout.valid(),
            old(self).world.layout_fits(key, layout),
            queue_index(old(self).queue.typed_queues@, key) matches Some(i) ==> old(
                self,
            ).queue.typed_queues@[i].1.layout == layout,
            queue_index(old(self).world.typed_queues@, key) matches Some(i) ==> old(
                self,
            ).world.typed_queues@[i].1.layout == layout,
        ensures
            final(self).wf(),
            queues_view(final(self).queue.typed_queues@) == merge_one(
                queues_view(old(self).queue.typed_queues@),
                (key, layout, seq![Op::Remove(entity)]),
            ),
            final(self).queue.spawns == old(self).queue.spawns,
            final(self).queue.despawns == old(self).queue.despawns,
            *final(self).world == *old(self).world,
    {
        self.push_op(key, layout, Op::Remove(entity));
    }

    /// Hands the recorded commands to the world, to be applied with its own
    /// commands; the queue is left empty.
    pub fn flush(&mut self)
        requires
            old(self).wf(),
            old(self).world.commands_wf(),
        ensures
            final(self).world.wf(),
            final(self).world.commands_wf(),
            final(self).world.spawn_queue@ == old(self).world.spawn_queue@ + old(self).queue.spawns@,
            final(self).world.despawn_queue@ == old(self).world.despawn_queue@ + old(self).queue.despawns@,
            queues_view(final(self).world.typed_queues@) == merge_all(
                queues_view(old(self).world.typed_queues@),
                queues_view(old(self).queue.typed_queues@),
            ),
            final(self).queue.spawns@.len() == 0,
            final(self).queue.despawns@.len() == 0,
            final(self).queue.typed_queues@.len() == 0,
            *final(self).world == (World {
                spawn_queue: final(self).world.spawn_queue,
                despawn_queue: final(self).world.despawn_queue,
                typed_queues: final(self).world.typed_queues,
                ..*old(self).world
            }),
    {
        let ghost w0 = *self.world;
        let ghost sp = self.queue.spawns@;
        self.world.spawn_queue.append(&mut self.queue.spawns);
        proof {
            let w = *self.world;
            assert(w.allocator_wf()) by {
                assert forall|i: int, j: int| 0 <= i < j < w.spawn_queue@.len() implies w.spawn_queue@[i].id
                    != w.spawn_queue@[j].id by {
                    let n0 = w0.spawn_queue@.len() as int;
                    if j < n0 {
                        assert(w.spawn_queue@[i] == w0.spawn_queue@[i]);
                        assert(w.spawn_queue@[j] == w0.spawn_queue@[j]);
                    } else if i < n0 {
                        assert(w.spawn_queue@[i] == w0.spawn_queue@[i]);
                        assert(w.spawn_queue@[j] == sp[j - n0]);
                        assert(!has_id(w0.spawn_queue@, sp[j - n0].id));
                    } else {
                        assert(w.spawn_queue@[i] == sp[i - n0]);
                        assert(w.spawn_queue@[j] == sp[j - n0]);
                    }
                }
                assert forall|i: int| 0 <= i < w.spawn_queue@.len() implies {
                    let e = #[trigger] w.spawn_queue@[i];
                    &&& w.slot_free_for(e)
                    &&& !has_id(w.free_entities@, e.id)
                } by {
                    let n0 = w0.spawn_queue@.len() as int;
                    if i < n0 {
                        assert(w.spawn_queue@[i] == w0.spawn_queue@[i]);
                    } else {
                        assert(w.spawn_queue@[i] == sp[i - n0]);
                    }
                }
            }
            assert(w.registry_wf());
            w.lemma_archetypes_wf_transfer(&w0);
            assert(w.placement_wf());
            assert(w.active_wf());
            assert(w.resources_wf());
        }
        self.world.despawn_queue.append(&mut self.queue.despawns);
        proof {
            self.world.lemma_archetypes_wf_transfer(&w0);
        }
        let mut local: Vec<(u64, TypedQueue)> = Vec::new();
        std::mem::swap(&mut local, &mut self.queue.typed_queues);
        let ghost lv = queues_view(local@);
        let ghost wv = queues_view(w0.typed_queues@);
        let ghost w1 = *self.world;
        let n = local.len();
        proof {
            assert(w1.wf());
            lemma_fit_views(&w0, w0.typed_queues@);
            lemma_fit_views(&w0, old(self).queue.typed_queues@);
            assert(lv.take(0) =~= Seq::<(u64, ItemLayout, Seq<Op>)>::empty());
            assert forall|j: int| 0 <= j < n implies view_fits(self.world, #[trigger] lv[j]) && (view_index(wv, lv[j].0) matches Some(k) ==> wv[k].1 == lv[j].1) by {
                assert(view_fits(&w0, lv[j]));
                let q = old(self).queue.typed_queues@[j];
                if let Some(k) = view_index(wv, lv[j].0) {
                    assert(wv[k].0 == lv[j].0);
                    let k2 = queue_index(w0.typed_queues@, q.0)->Some_0;
                    assert(w0.typed_queues@[k].0 == q.0);
                    assert(w0.typed_queues@[k2].0 == q.0);
                    if k != k2 {
                        if k < k2 {
                            assert(wv[k].0 != wv[k2].0);
                        } else {
                            assert(wv[k2].0 != wv[k].0);
                        }
                    }
                }
            }
        }
        let mut i: usize = 0;
        while i < n
            invariant
                0 <= i <= n,
                n == lv.len(),
                local@.len() == n - i,
                forall|j: int| 0 <= j < n - i ==> queue_view(#[trigger] local@[j]) == lv[i + j],
                queues_view(self.world.typed_queues@) == merge_all(wv, lv.take(i as int)),
                views_fit(self.world, queues_view(self.world.typed_queues@)),
                views_fit(self.world, lv),
                forall|j: int|
                    i <= j < n ==> (view_index(queues_view(self.world.typed_queues@), (#[trigger] lv[j]).0) matches Some(k)
                        ==> queues_view(self.world.typed_queues@)[k].1 == lv[j].1),
                *self.world == (World { typed_queues: self.world.typed_queues, ..w1 }),
                self.queue.spawns@.len() == 0,
                self.queue.despawns@.len() == 0,
                self.queue.typed_queues@.len() == 0,
            decreases n - i,
        {
            let ghost lbefore = local@;
            let q = local.remove(0);
            let ghost cur = queues_view(self.world.typed_queues@);
            proof {
                assert(queue_view(q) == lv[i as int]);
                assert forall|a: int, b: int| 0 <= a < b < self.world.typed_queues@.len() implies self.world.typed_queues@[a].0
                    != self.world.typed_queues@[b].0 by {
                    assert(cur[a].0 != cur[b].0);
                }
            }
            merge_queue(&mut self.world.typed_queues, q);
            proof {
                lemma_merge_one_fits(self.world, cur, lv[i as int]);
                let nw = queues_view(self.world.typed_queues@);
                assert(lv.take(i + 1).drop_last() =~= lv.take(i as int));
                assert(lv.take(i + 1).last() == lv[i as int]);
                assert forall|j: int| 0 <= j < n - (i + 1) implies queue_view(#[trigger] local@[j]) == lv[(i + 1) + j] by {
                    assert(local@[j] == lbefore[j + 1]);
                }
                assert forall|j: int|
                    i + 1 <= j < n implies (view_index(nw, (#[trigger] lv[j]).0) matches Some(k) ==> nw[k].1 == lv[j].1) by {
                    assert(lv[j].0 != lv[i as int].0);
                    if let Some(k) = view_index(nw, lv[j].0) {
                        assert(nw[k].0 == lv[j].0);
                        if k < cur.len() {
                            assert(nw[k].0 == cur[k].0 && nw[k].1 == cur[k].1);
                            assert(exists|t: int| 0 <= t < cur.len() && #[trigger] cur[t].0 == lv[j].0);
                            let k2 = view_index(cur, lv[j].0)->Some_0;
                            assert(cur[k2].0 == lv[j].0);
                            if k2 != k {
                                if k2 < k {
                                    assert(cur[k2].0 != cur[k].0);
                                } else {
                                    assert(cur[k].0 != cur[k2].0);
                                }
                            }
                        } else {
                            assert(nw[k] == lv[i as int]);
                        }
                    }
                }
            }
            i = i + 1;
        }
        proof {
            assert(lv.take(n as int) =~= lv);
            lemma_fit_views(self.world, self.world.typed_queues@);
            self.world.lemma_archetypes_wf_transfer(&w1);
        }
    }

    /// Records that `entity` is to be despawned.
    pub fn despawn(&mut self, entity: Entity)
        requires
            old(self).wf(),
        ensures
            final(self).wf(),
            final(self).queue.despawns@ == old(self).queue.despawns@.push(entity),
            final(self).queue.spawns == old(self).queue.spawns,
            final(self).queue.typed_queues == old(self).queue.typed_queues,
            *final(self).world == *old(self).world,
    {
        self.queue.despawns.push(entity);
    }
}

/// The queue `q` viewed as plain values.
pub open spec fn queue_view(q: (u64, TypedQueue)) -> (u64, ItemLayout, Seq<Op>) {
    (q.0, q.1.layout, q.1.ops@)
}

/// Merges queue `q` into the queues `qs`: its operations go after those of
/// the queue with its key, or it joins `qs` when none has its key.
fn merge_queue(qs: &mut Vec<(u64, TypedQueue)>, q: (u64, TypedQueue))
    requires
        forall|a: int, b: int| 0 <= a < b < old(qs)@.len() ==> old(qs)@[a].0 != old(qs)@[b].0,
    ensures
        forall|a: int, b: int| 0 <= a < b < final(qs)@.len() ==> final(qs)@[a].0 != final(qs)@[b].0,
        queues_view(final(qs)@) == merge_one(queues_view(old(qs)@), queue_view(q)),
        forall|j: int|
            0 <= j < old(qs)@.len() ==> #[trigger] final(qs)@[j].0 == old(qs)@[j].0 && final(qs)@[j].1.layout
                == old(qs)@[j].1.layout,
        final(qs)@.len() == old(qs)@.len() || (final(qs)@.len() == old(qs)@.len() + 1 && final(qs)@.last() == q),
{
    let ghost qv = queues_view(qs@);
    let (key, mut tq) = q;
    let n = qs.len();
    let mut i: usize = 0;
    while i < n
        invariant
            n == qs@.len(),
            0 <= i <= n,
            forall|j: int| 0 <= j < i ==> qs@[j].0 != key,
        ensures
            0 <= i <= n,
            forall|j: int| 0 <= j < i ==> qs@[j].0 != key,
            i < n ==> qs@[i as int].0 == key,
        decreases n - i,
    {
        if qs[i].0 == key {
            break;
        }
        i = i + 1;
    }
    proof {
        assert forall|j: int| 0 <= j < qv.len() implies #[trigger] qv[j].0 == qs@[j].0 by {}
    }
    if i < n {
        proof {
            let k = view_index(qv, key)->Some_0;
            assert(qv[i as int].0 == key);
            assert(qv[k].0 == key);
            if k != i {
                assert(qs@[k].0 == key);
                if k < i {
                    assert(false);
                } else {
                    assert(qs@[i as int].0 != qs@[k].0);
                }
            }
        }
        let ghost before = qs@[i as int];
        let ghost added = tq.ops@;
        qs[i].1.ops.append(&mut tq.ops);
        proof {
            assert(queues_view(qs@) =~= qv.update(i as int, (qv[i as int].0, qv[i as int].1, qv[i as int].2 + added)));
            assert forall|a: int, b: int| 0 <= a < b < qs@.len() implies qs@[a].0 != qs@[b].0 by {
                assert(qs@[a].0 == old(qs)@[a].0);
                assert(qs@[b].0 == old(qs)@[b].0);
            }
        }
    } else {
        proof {
            assert(view_index(qv, key) is None);
        }
        let ghost tq0 = tq;
        qs.push((key, tq));
        proof {
            assert(queues_view(qs@) =~= qv.push(queue_view(q)));
            assert forall|a: int, b: int| 0 <= a < b < qs@.len() implies qs@[a].0 != qs@[b].0 by {
                if b == n {
                    assert(qs@[a].0 == old(qs)@[a].0);
                } else {
                    assert(qs@[a].0 == old(qs)@[a].0);
                    assert(qs@[b].0 == old(qs)@[b].0);
                }
            }
        }
    }
}

/// Typed queues fit exactly when their plain views do.
pub proof fn lemma_fit_views(w: &World, qs: Seq<(u64, TypedQueue)>)
    ensures
        typed_queues_fit(w, qs) == views_fit(w, queues_view(qs)),
{
    let vs = queues_view(qs);
    if typed_queues_fit(w, qs) {
        assert forall|i: int| 0 <= i < vs.len() implies view_fits(w, #[trigger] vs[i]) by {
            assert(typed_queue_fits(w, qs[i].0, qs[i].1));
        }
        assert forall|i: int, j: int| 0 <= i < j < vs.len() implies vs[i].0 != vs[j].0 by {
            assert(qs[i].0 != qs[j].0);
        }
    }
    if views_fit(w, vs) {
        assert forall|i: int| 0 <= i < qs.len() implies typed_queue_fits(w, (#[trigger] qs[i]).0, qs[i].1) by {
            assert(view_fits(w, vs[i]));
        }
        assert forall|i: int, j: int| 0 <= i < j < qs.len() implies qs[i].0 != qs[j].0 by {
            assert(vs[i].0 != vs[j].0);
        }
    }
}

/// Handles that read alike from `b` to `a` and from `c` to `b` read alike
/// from `c` to `a`.
pub proof fn lemma_same_entities_trans(a: &World, b: &World, c: &World)
    requires
        a.same_entities(b),
        b.same_entities(c),
    ensures
        a.same_entities(c),
{
    assert forall|x: Entity| #[trigger] a.same_entity(c, x) by {
        assert(a.same_entity(b, x));
        assert(b.same_entity(c, x));
        assert forall|d: usize| #[trigger] a.has(x, d) == c.has(x, d) by {
            assert(a.has(x, d) == b.has(x, d));
        }
        assert forall|d: usize| #[trigger] a.has(x, d) implies a.cell(x, d) == c.cell(x, d) by {
            assert(b.has(x, d));
        }
    }
}

/// Typed queues that fit a world fit another with the same registry.
pub proof fn lemma_queues_fit_frame(w0: &World, w1: &World, qs: Seq<(u64, TypedQueue)>)
    requires
        typed_queues_fit(w0, qs),
        w1.component_ids == w0.component_ids,
        w1.component_layouts == w0.component_layouts,
    ensures
        typed_queues_fit(w1, qs),
{
    assert forall|i: int| 0 <= i < qs.len() implies typed_queue_fits(w1, (#[trigger] qs[i]).0, qs[i].1) by {
        assert(typed_queue_fits(w0, qs[i].0, qs[i].1));
    }
}

} // verus!
